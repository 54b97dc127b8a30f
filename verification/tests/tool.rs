use doracap::cli::{arg_str, lidar_named, parse_play, scan_lines, Lidar, Rate};
use doracap::export::{pcd_text, pos_text, MapPoint, PosRow};
use doracap::fastlio::conv::{ImuRaw, SensorData};
use doracap::fastlio::lio::{record_sample, start_recording};
use doracap::inspect::{count_messages, find_scene, topics};
use doracap::memory::MemReader;
use doracap::message::{ChunkIndex, OwnedMessage, Schema, Timestamp};
use doracap::msgs::codec::Codec;
use doracap::msgs::types::{ChannelRole, Header, Imu, PointCloud, SceneMeta, Time};
use doracap::play::{counts_fit, PlayOptions, Player};
use doracap::record::Recorder;
use doracap::selftest::{check_player, check_samples, record_samples, roundtrip, ts_of};
use doracap::singlefile::reader::SingleFileReader;
use doracap::singlefile::writer::SingleFileWriter;
use doracap::storage::StorageReader;

fn args(words: &[&str]) -> Vec<String> {
    words.iter().map(|w| w.to_string()).collect()
}

#[test]
fn play_arguments_are_read() {
    let p = parse_play(&args(&["doracap", "play"])).unwrap();
    assert_eq!(p.file, None);
    assert_eq!(p.rate, Rate::Unlimited);
    assert!(!p.loop_ && !p.as_json);
    assert_eq!((p.show, p.seek, p.seek_ratio), (None, None, None));

    let line = [
        "doracap", "play", "a.dcap", "--rate", "2.5", "--loop", "--json", "--show", "cat",
        "--seek", "1.5", "--seek-ratio", "0.5",
    ];
    let p = parse_play(&args(&line)).unwrap();
    assert_eq!(p.file.as_deref(), Some("a.dcap"));
    assert_eq!(p.rate, Rate::Text("2.5".into()));
    assert!(p.loop_ && p.as_json);
    assert_eq!(p.show.as_deref(), Some("cat"));
    assert_eq!(p.seek.as_deref(), Some("1.5"));
    assert_eq!(p.seek_ratio.as_deref(), Some("0.5"));

    let line = [
        "doracap", "play", "--rate=3", "--show=less -S", "--seek=7", "--seek-ratio=1", "b", "c",
    ];
    let p = parse_play(&args(&line)).unwrap();
    assert_eq!(p.rate, Rate::Text("3".into()));
    assert_eq!(p.show.as_deref(), Some("less -S"));
    assert_eq!(p.seek.as_deref(), Some("7"));
    assert_eq!(p.seek_ratio.as_deref(), Some("1"));
    assert_eq!(p.file.as_deref(), Some("c"));
}

#[test]
fn the_last_speed_counts() {
    let p = parse_play(&args(&["doracap", "play", "f", "--rate", "2", "--paced"])).unwrap();
    assert_eq!(p.rate, Rate::RealTime);
    let p = parse_play(&args(&["doracap", "play", "f", "--paced", "--rate"])).unwrap();
    assert_eq!(p.rate, Rate::Unlimited);
}

#[test]
fn unknown_arguments_are_refused() {
    let refused = |words: &[&str]| parse_play(&args(words)).unwrap_err();
    assert_eq!(refused(&["doracap", "play", "f", "--fast"]), "--fast");
    assert_eq!(refused(&["doracap", "play", "--seek"]), "--seek");
    assert_eq!(refused(&["doracap", "play", "--seek-ratio"]), "--seek-ratio");
    assert_eq!(refused(&["doracap", "play", "--show"]), "--show");
}

#[test]
fn named_arguments_are_found() {
    let a = args(&["doracap", "bake", "in", "out", "--pcd", "m.pcd", "--pcd", "n.pcd", "--pos"]);
    assert_eq!(arg_str(&a, "--pcd").as_deref(), Some("m.pcd"));
    assert_eq!(arg_str(&a, "--pos"), None);
    assert_eq!(arg_str(&a, "--lidar"), None);
}

#[test]
fn lidars_have_names_and_scan_lines() {
    assert_eq!(lidar_named(Some("velo16".into())), Lidar::Velo16);
    assert_eq!(lidar_named(Some("ouster".into())), Lidar::Ouster);
    assert_eq!(lidar_named(Some("marsim".into())), Lidar::Marsim);
    assert_eq!(lidar_named(Some("avia".into())), Lidar::Avia);
    assert_eq!(lidar_named(Some("other".into())), Lidar::Avia);
    assert_eq!(lidar_named(None), Lidar::Avia);
    assert_eq!(scan_lines(Lidar::Avia), 6);
    assert_eq!(scan_lines(Lidar::Velo16), 16);
    assert_eq!(scan_lines(Lidar::Ouster), 16);
    assert_eq!(scan_lines(Lidar::Marsim), 16);
}

fn recording() -> SingleFileReader {
    let mut rec = start_recording(SingleFileWriter::open().chunk_target(200), false).unwrap();
    for i in 1..4u32 {
        let d = SensorData::Imu(ImuRaw {
            stamp: Time { sec: 0, nsec: i },
            acc: [0; 3],
            gyr: [0; 3],
        });
        record_sample(&mut rec, &d, Timestamp(i as u64)).unwrap();
    }
    rec.finish().unwrap();
    SingleFileReader::open(rec.into_writer().take_output()).unwrap()
}

#[test]
fn recordings_tell_what_they_hold() {
    let mut reader = recording();
    assert_eq!(count_messages(&reader), 4);
    let t = topics(&reader);
    let names: Vec<(&str, &str)> =
        t.iter().map(|t| (t.name.as_str(), t.typename.as_str())).collect();
    assert_eq!(
        names,
        vec![
            ("imu", "doracap/Imu"),
            ("lidar", "doracap/PointCloud"),
            ("scene", "doracap/SceneMeta"),
        ]
    );
    let scene = find_scene(&mut reader).unwrap();
    assert_eq!(scene.world_frame, "map");
    assert_eq!(scene.channels.len(), 2);
}

fn owned(channel: &str, payload: Vec<u8>) -> OwnedMessage {
    OwnedMessage {
        channel: channel.into(),
        stamp: Timestamp(1),
        schema: Schema { id: 1, typename: "t".into(), encoding: "e".into() },
        payload,
    }
}

#[test]
fn the_first_scene_counts() {
    let scene = |frame: &str| {
        let mut buf = Vec::new();
        let role = ChannelRole { name: "a".into(), role: "b".into(), frame_id: "c".into() };
        SceneMeta { world_frame: frame.into(), channels: vec![role] }.encode(&mut buf);
        buf
    };
    let mut r = MemReader::new(vec![
        owned("imu", vec![]),
        owned("scene", scene("first")),
        owned("scene", scene("second")),
    ]);
    assert_eq!(find_scene(&mut r).unwrap().world_frame, "first");
    let mut r = MemReader::new(vec![owned("scene", vec![1]), owned("scene", scene("second"))]);
    assert_eq!(find_scene(&mut r), None);
    let mut r = MemReader::new(vec![owned("imu", vec![])]);
    assert_eq!(find_scene(&mut r), None);
}

#[test]
fn announced_messages_are_counted() {
    let entry = |n: u32| ChunkIndex { offset: 0, start_stamp: 0, end_stamp: 0, msg_count: n };
    assert!(counts_fit(&[]));
    assert!(counts_fit(&[entry(3), entry(u32::MAX)]));
}

#[test]
fn roundtrip_works() {
    let bytes = roundtrip().expect("roundtrip should succeed");
    assert_eq!(&bytes[..5], b"#DCAP");
    assert_eq!(&bytes[bytes.len() - 32..bytes.len() - 24], b"DCAP_END");
}

#[test]
fn recorded_samples_pass_the_check() {
    let bytes = record_samples().unwrap();
    let mut reader = SingleFileReader::open(bytes.clone()).unwrap();
    let msgs = reader.read_all().unwrap();
    assert_eq!((msgs[0].channel.as_str(), msgs[0].stamp.0), ("lidar", 100_000_000_000));
    assert_eq!((msgs[1].channel.as_str(), msgs[1].stamp.0), ("imu", 100_000_000_000));
    let cloud = PointCloud::decode(&msgs[0].payload).unwrap();
    assert_eq!(cloud.data, vec![0xAA; 48]);
    let imu = Imu::decode(&msgs[1].payload).unwrap();
    assert_eq!(imu.ang_vel.map(f64::from_bits), [0.1, 0.2, 0.3]);
    assert_eq!(imu.lin_acc.map(f64::from_bits), [0.0, 0.0, 9.8]);
    assert!(check_samples(bytes).is_ok());
}

fn verdict(msgs: Vec<OwnedMessage>) -> String {
    let mut p = Player::open(MemReader::new(msgs), PlayOptions::default()).unwrap();
    match check_player(&mut p) {
        Ok(()) => "fine".into(),
        Err(e) => e.0,
    }
}

#[test]
fn other_messages_fail_the_check() {
    let samples = || {
        let mut r = SingleFileReader::open(record_samples().unwrap()).unwrap();
        let mut v = r.read_all().unwrap();
        let imu = v.pop().unwrap();
        (v.pop().unwrap(), imu)
    };
    let (cloud, imu) = samples();
    assert_eq!(verdict(vec![cloud, imu]), "fine");
    let (cloud, _) = samples();
    assert_eq!(verdict(vec![cloud]), "expected 2 messages, got 1");
    let (cloud, _) = samples();
    assert_eq!(verdict(vec![cloud, owned("pose", vec![])]), "unexpected channel pose");
    let (cloud, _) = samples();
    assert_eq!(verdict(vec![cloud, owned("imu", vec![])]), "decode: unexpected end");
    let (a, _) = samples();
    let (b, _) = samples();
    assert_eq!(verdict(vec![a, b]), "Imu round-trip mismatch");
    let (_, a) = samples();
    let (_, b) = samples();
    assert_eq!(verdict(vec![a, b]), "PointCloud round-trip mismatch");
    let (mut cloud, imu) = samples();
    let n = cloud.payload.len();
    cloud.payload[n - 2] ^= 1;
    assert_eq!(verdict(vec![cloud, imu]), "PointCloud round-trip mismatch");
    let (cloud, mut imu) = samples();
    imu.payload[0] ^= 1;
    assert_eq!(verdict(vec![cloud, imu]), "Imu round-trip mismatch");
}

#[test]
fn a_file_of_other_messages_fails_the_check() {
    let mut rec = Recorder::new(SingleFileWriter::open());
    let schema = Schema { id: 0, typename: "t".into(), encoding: "e".into() };
    rec.add_channel("c", &schema).unwrap();
    rec.write("c", Timestamp(1), &[1]).unwrap();
    rec.finish().unwrap();
    let e = check_samples(rec.into_writer().take_output()).unwrap_err();
    assert_eq!(e.0, "expected 2 messages, got 1");
    assert_eq!(check_samples(vec![1, 2, 3]).unwrap_err().0, "not a doracap (.dcap) file");
}

#[test]
fn messages_are_the_same_by_what_they_say() {
    let imu = |x: f64, frame: &str| Imu {
        header: Header { stamp: Time { sec: 1, nsec: 2 }, frame_id: frame.into() },
        orientation: [0; 4],
        orientation_cov: [0; 9],
        ang_vel: [x.to_bits(), 0, 0],
        ang_vel_cov: [0; 9],
        lin_acc: [0; 3],
        lin_acc_cov: [0; 9],
    };
    assert!(imu(1.0, "a").same_as(&imu(1.0, "a")));
    assert!(!imu(1.0, "a").same_as(&imu(2.0, "a")));
    assert!(!imu(1.0, "a").same_as(&imu(1.0, "b")));
    assert!(imu(0.0, "a").same_as(&imu(-0.0, "a")));
    assert!(!imu(f64::NAN, "a").same_as(&imu(f64::NAN, "a")));
}

#[test]
fn stamps_are_nanoseconds() {
    assert_eq!(ts_of(&Time { sec: 100, nsec: 7 }), Timestamp(100_000_000_007));
    assert_eq!(ts_of(&Time { sec: -1, nsec: 0 }), Timestamp(u64::MAX - 999_999_999));
}

#[test]
fn maps_are_written_as_pcd() {
    let p = |x: &str| MapPoint {
        x: x.into(),
        y: "2".into(),
        z: "-3.5".into(),
        intensity: "0".into(),
    };
    assert_eq!(
        pcd_text(&[p("1"), p("0.25")]),
        "# .PCD v0.7 - Point Cloud Data file format\nVERSION 0.7\nFIELDS x y z intensity\n\
         SIZE 4 4 4 4\nTYPE F F F F\nCOUNT 1 1 1 1\nWIDTH 2\nHEIGHT 1\n\
         VIEWPOINT 0 0 0 1 0 0 0\nPOINTS 2\nDATA ascii\n1 2 -3.5 0\n0.25 2 -3.5 0\n"
    );
}

#[test]
fn trajectories_are_written_line_by_line() {
    let row = PosRow {
        time: "1.500000".into(),
        quat: ["1".into(), "0".into(), "0.5".into(), "0.25".into()],
        pos: ["7".into(), "8".into(), "9".into()],
    };
    assert_eq!(
        pos_text(&[row]),
        "# time qw qx qy qz pos_x pos_y pos_z\n1.500000 1 0 0.5 0.25 7 8 9\n"
    );
    assert_eq!(pos_text(&[]), "# time qw qx qy qz pos_x pos_y pos_z\n");
}
