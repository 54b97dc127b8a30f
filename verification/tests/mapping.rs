use doracap::fastlio::conv;
use doracap::fastlio::lio::{record_sample, start_recording, LioRecorder, PoseRow};
use doracap::fastlio::source::{sensor_eq, BagDataSource, Taken};
use doracap::message::Timestamp;
use doracap::msgs::codec::Codec;
use doracap::msgs::types::{SceneMeta, Time};
use doracap::play::{PlayOptions, Upcoming};
use doracap::singlefile::reader::SingleFileReader;
use doracap::singlefile::writer::SingleFileWriter;
use doracap::storage::StorageReader;
use fast_lio::data_source::{DataSource, SimParams, SimSource};
use fast_lio::laser_mapping::{LaserMapping, LioConfig};
use fast_lio::types::{LidarType, SensorData};

/// Seconds as seconds and nanoseconds.
fn time(s: f64) -> Time {
    let sec = s.floor() as i64;
    let nsec = ((s - sec as f64) * 1e9).round() as u32;
    Time { sec: sec + (nsec / 1_000_000_000) as i64, nsec: nsec % 1_000_000_000 }
}

fn nanos(s: f64) -> Timestamp {
    Timestamp((s * 1e9).round() as u64)
}

/// Sensor data of the mapping as sensor data of the library, and its time.
fn sample(d: &SensorData) -> (conv::SensorData, Timestamp) {
    match d {
        SensorData::Imu(m) => (
            conv::SensorData::Imu(conv::ImuRaw {
                stamp: time(m.stamp),
                acc: m.acc.map(f64::to_bits),
                gyr: m.gyr.map(f64::to_bits),
            }),
            nanos(m.stamp),
        ),
        SensorData::LidarStandard(m) => (
            conv::SensorData::LidarStandard(conv::StandardMsg {
                stamp: time(m.stamp),
                points: m
                    .points
                    .iter()
                    .map(|p| conv::StdPointMsg {
                        x: p.x.to_bits(),
                        y: p.y.to_bits(),
                        z: p.z.to_bits(),
                        intensity: p.intensity.to_bits(),
                        time: p.time.to_bits(),
                        ring: p.ring,
                    })
                    .collect(),
            }),
            nanos(m.stamp),
        ),
        SensorData::LidarAvia(m) => (
            conv::SensorData::LidarAvia(conv::AviaMsg {
                stamp: time(m.stamp),
                points: m
                    .points
                    .iter()
                    .map(|p| conv::AviaPointMsg {
                        x: p.x.to_bits(),
                        y: p.y.to_bits(),
                        z: p.z.to_bits(),
                        reflectivity: p.reflectivity,
                        tag: p.tag,
                        line: p.line,
                        offset_time: p.offset_time,
                    })
                    .collect(),
            }),
            nanos(m.stamp),
        ),
    }
}

/// Feeds the mapping; a scan may give a pose.
fn mapped(mapping: &mut LaserMapping, d: &SensorData) -> Option<PoseRow> {
    match d {
        SensorData::Imu(m) => {
            mapping.add_imu(m);
            return None;
        }
        SensorData::LidarStandard(m) => mapping.add_lidar_standard(m),
        SensorData::LidarAvia(m) => mapping.add_lidar_avia(m),
    }
    if !mapping.has_data() {
        return None;
    }
    mapping.run_once().map(|r| PoseRow {
        time: r.time.to_bits(),
        stamp: time(r.time),
        at: nanos(r.time),
        position: [r.pos[0].to_bits(), r.pos[1].to_bits(), r.pos[2].to_bits()],
        orientation: r.quat.map(f64::to_bits),
    })
}

#[test]
fn lio_recorder_bakes_pose_channel() {
    let params = SimParams { duration: 3.0, points_per_scan: 200, ..Default::default() };
    let mut source = SimSource::new(&params);
    let cfg = LioConfig { lidar_type: LidarType::Velo16, ..Default::default() };
    let mut mapping = LaserMapping::new(&cfg);

    let mut rec = LioRecorder::new(SingleFileWriter::open()).unwrap();
    while let Some(data) = source.next() {
        let (d, at) = sample(&data);
        rec.push(&d, at).unwrap();
        if let Some(p) = mapped(&mut mapping, &data) {
            rec.write_pose(p).unwrap();
        }
    }
    rec.finish().unwrap();

    let mut reader = SingleFileReader::open(rec.into_writer().take_output()).unwrap();
    let msgs = reader.read_all().unwrap();
    let pose = msgs.iter().filter(|m| m.channel == "pose").count();
    let imu = msgs.iter().filter(|m| m.channel == "imu").count();
    let lidar = msgs.iter().filter(|m| m.channel == "lidar").count();
    let scene = msgs.iter().filter(|m| m.channel == "scene").count();
    assert!(imu > 0 && lidar > 0, "sensor channels missing");
    assert!(pose > 0, "pose channel (trajectory) missing from .dcap");
    assert_eq!(scene, 1, "scene metadata should be written once");
    let meta = msgs
        .iter()
        .find(|m| m.channel == "scene")
        .and_then(|m| SceneMeta::decode(&m.payload).ok())
        .expect("SceneMeta decodes");
    assert_eq!(meta.world_frame, "map");
    assert!(meta.channels.iter().any(|c| c.role == "pose"));
}

fn recorded(params: &SimParams) -> SingleFileReader {
    let mut source = SimSource::new(params);
    let mut rec = start_recording(SingleFileWriter::open().chunk_target(5000), false).unwrap();
    while let Some(data) = source.next() {
        let (d, at) = sample(&data);
        record_sample(&mut rec, &d, at).unwrap();
    }
    rec.finish().unwrap();
    SingleFileReader::open(rec.into_writer().take_output()).unwrap()
}

fn params() -> SimParams {
    SimParams { duration: 1.0, points_per_scan: 30, init_static: 0.5, ..Default::default() }
}

#[test]
fn a_recorded_source_plays_as_it_was() {
    let params = params();
    let mut expected = Vec::new();
    let mut reference = SimSource::new(&params);
    while let Some(d) = reference.next() {
        expected.push(sample(&d).0);
    }

    let reader = recorded(&params);
    assert!(reader.chunk_index().len() > 1);
    let mut bag = BagDataSource::open(reader, PlayOptions::default()).unwrap();
    let mut actual = Vec::new();
    while let Some(d) = bag.next(0) {
        actual.push(d);
    }
    assert_eq!(expected.len(), actual.len());
    for (a, b) in expected.iter().zip(actual.iter()) {
        assert!(sensor_eq(a, b));
    }
    assert!(bag.next(0).is_none());
}

#[test]
fn a_source_that_starts_over_goes_on() {
    let mut bag =
        BagDataSource::open(recorded(&params()), PlayOptions::default().looped(true)).unwrap();
    let mut once = BagDataSource::open(recorded(&params()), PlayOptions::default()).unwrap();
    let mut expected = Vec::new();
    while let Some(d) = once.next(0) {
        expected.push(d);
    }
    for round in 0..2 {
        for (i, d) in expected.iter().enumerate() {
            let got = bag.next(0).unwrap();
            assert!(sensor_eq(&got, d), "sample {i} of round {round}");
        }
    }
}

#[test]
fn searching_sets_the_clock_once_and_again_where_it_starts_over() {
    let options = PlayOptions::default().rate(1.0f64.to_bits());
    let mut bag = BagDataSource::open(recorded(&params()), options).unwrap();
    assert!(bag.next(7).is_some());
    assert!(matches!(bag.poll(9), Upcoming::Paced { start: 7, .. }));
    let mut count = 1;
    while bag.next(20).is_some() {
        count += 1;
    }
    assert!(matches!(bag.poll(30), Upcoming::End));

    let mut bag = BagDataSource::open(recorded(&params()), options.looped(true)).unwrap();
    for _ in 0..count {
        assert!(bag.next(7).is_some());
    }
    assert!(bag.next(40).is_some());
    assert!(matches!(bag.poll(50), Upcoming::Paced { start: 40, .. }));
}

#[test]
fn a_paced_source_waits_and_passes_over_the_scene() {
    let options = PlayOptions::default().rate(1.0f64.to_bits());
    let mut bag = BagDataSource::open(recorded(&params()), options).unwrap();
    assert!(matches!(bag.poll(10), Upcoming::Paced { start: 10, delta: 0 }));
    assert!(matches!(bag.try_next(10, 5), Taken::NonBlocking));
    assert!(matches!(bag.try_next(15, 5), Taken::Other));
    assert!(matches!(bag.next_message(15), Taken::Sample(_)));
}

fn imu(sec: i64, nsec: u32, x: f64) -> conv::SensorData {
    conv::SensorData::Imu(conv::ImuRaw {
        stamp: Time { sec, nsec },
        acc: [x.to_bits(), 0, 0],
        gyr: [0; 3],
    })
}

fn scan(x: f32) -> conv::SensorData {
    let p = conv::StdPointMsg { x: x.to_bits(), y: 0, z: 0, intensity: 0, time: 0, ring: 1 };
    conv::SensorData::LidarStandard(conv::StandardMsg {
        stamp: Time { sec: 1, nsec: 0 },
        points: vec![p],
    })
}

#[test]
fn samples_are_compared_as_numbers() {
    assert!(sensor_eq(&imu(1, 0, 0.5), &imu(1, 0, 0.5)));
    assert!(!sensor_eq(&imu(1, 0, 0.5), &imu(1, 1, 0.5)));
    assert!(!sensor_eq(&imu(1, 0, 0.5), &imu(1, 0, 0.25)));
    assert!(sensor_eq(&imu(1, 0, 0.0), &imu(1, 0, -0.0)));
    assert!(!sensor_eq(&imu(1, 0, f64::NAN), &imu(1, 0, f64::NAN)));
    assert!(sensor_eq(&imu(1, 1_000_000_000, 0.5), &imu(2, 0, 0.5)));
    assert!(sensor_eq(&scan(0.0), &scan(-0.0)));
    assert!(!sensor_eq(&scan(1.0), &scan(2.0)));
    assert!(!sensor_eq(&scan(f32::NAN), &scan(f32::NAN)));
    assert!(!sensor_eq(&scan(0.5), &imu(1, 0, 0.5)));
}
