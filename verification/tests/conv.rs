use doracap::fastlio::conv::{
    avia_to_pc, decode_message, encode, imu_from_msg, imu_to_msg, pc_to_avia, pc_to_standard,
    sensor_from_pc, standard_to_pc, AviaMsg, AviaPointMsg, ImuRaw, SensorData, StandardMsg,
    StdPointMsg,
};
use doracap::message::{OwnedMessage, Schema, Timestamp};
use doracap::msgs::types::Time;

/// Seconds as seconds and nanoseconds.
fn time(s: f64) -> Time {
    let sec = s.floor() as i64;
    let nsec = ((s - sec as f64) * 1e9).round() as u32;
    Time { sec: sec + (nsec / 1_000_000_000) as i64, nsec: nsec % 1_000_000_000 }
}

fn stamp_ns(t: Time) -> i64 {
    ((t.sec as f64 + t.nsec as f64 / 1e9) * 1e9).round() as i64
}

fn doubles(a: [f64; 3]) -> [u64; 3] {
    a.map(f64::to_bits)
}

#[test]
fn conv_imu_roundtrip() {
    let imu = ImuRaw {
        stamp: time(1.25),
        acc: doubles([0.0, 0.1, 9.8]),
        gyr: doubles([0.01, 0.02, 0.03]),
    };
    let again = imu_from_msg(&imu_to_msg(&imu));
    assert_eq!(stamp_ns(again.stamp), stamp_ns(imu.stamp));
    assert_eq!(again.acc, imu.acc);
    assert_eq!(again.gyr, imu.gyr);
}

fn standard_point(v: [f32; 5], ring: u16) -> StdPointMsg {
    StdPointMsg {
        x: v[0].to_bits(),
        y: v[1].to_bits(),
        z: v[2].to_bits(),
        intensity: v[3].to_bits(),
        time: v[4].to_bits(),
        ring,
    }
}

fn standard() -> StandardMsg {
    StandardMsg {
        stamp: time(2.5),
        points: vec![
            standard_point([1.0, 2.0, 3.0, 0.5, 0.001], 0),
            standard_point([4.0, 5.0, 6.0, 1.0, 0.002], 1),
        ],
    }
}

#[test]
fn standard_roundtrip() {
    let s = standard();
    let pc = standard_to_pc(&s);
    let back = pc_to_standard(&pc).unwrap();
    assert_eq!(stamp_ns(back.stamp), stamp_ns(s.stamp));
    assert_eq!(back.points.len(), s.points.len());
    for (p, q) in back.points.iter().zip(s.points.iter()) {
        assert_eq!(p.x, q.x);
        assert_eq!(p.y, q.y);
        assert_eq!(p.z, q.z);
        assert_eq!(p.intensity, q.intensity);
        assert_eq!(p.time, q.time);
        assert_eq!(p.ring, q.ring);
    }
}

fn avia_point(v: [f32; 3], reflectivity: u8, tag: u16, line: u8, offset_time: u32) -> AviaPointMsg {
    AviaPointMsg {
        x: v[0].to_bits(),
        y: v[1].to_bits(),
        z: v[2].to_bits(),
        reflectivity,
        tag,
        line,
        offset_time,
    }
}

fn avia() -> AviaMsg {
    AviaMsg {
        stamp: time(3.0),
        points: vec![
            avia_point([1.0, 2.0, 3.0], 200, 0x40, 1, 123),
            avia_point([7.0, 8.0, 9.0], 0, 0x00, 0, 456),
        ],
    }
}

#[test]
fn avia_roundtrip() {
    let a = avia();
    let pc = avia_to_pc(&a);
    match sensor_from_pc(&pc) {
        Some(SensorData::LidarAvia(back)) => {
            assert_eq!(stamp_ns(back.stamp), stamp_ns(a.stamp));
            assert_eq!(back.points.len(), a.points.len());
            for (x, y) in back.points.iter().zip(a.points.iter()) {
                assert_eq!(x.x, y.x);
                assert_eq!(x.offset_time, y.offset_time);
                assert_eq!(x.tag, y.tag);
                assert_eq!(x.reflectivity, y.reflectivity);
                assert_eq!(x.line, y.line);
            }
        }
        other => panic!("expected LidarAvia, got {other:?}"),
    }
}

#[test]
fn imu_messages_have_a_one_at_the_end_of_their_orientation() {
    let imu = ImuRaw { stamp: time(0.0), acc: [1, 2, 3], gyr: [4, 5, 6] };
    let m = imu_to_msg(&imu);
    assert_eq!(m.orientation.map(f64::from_bits), [0.0, 0.0, 0.0, 1.0]);
    assert_eq!(m.header.frame_id, "imu");
    assert_eq!(m.lin_acc, [1, 2, 3]);
    assert_eq!(m.ang_vel, [4, 5, 6]);
    assert_eq!(m.lin_acc_cov, [0; 9]);
}

#[test]
fn clouds_of_scans_have_the_expected_layout() {
    let pc = standard_to_pc(&standard());
    assert_eq!((pc.height, pc.width, pc.point_step, pc.row_step), (1, 2, 22, 44));
    assert_eq!(pc.data.len(), 44);
    assert_eq!(&pc.data[22..26], &4.0f32.to_le_bytes());
    assert_eq!(&pc.data[42..44], &[1, 0]);
    let names: Vec<&str> = pc.fields.iter().map(|f| f.name.as_str()).collect();
    assert_eq!(names, vec!["x", "y", "z", "intensity", "time", "ring"]);
    assert_eq!((pc.fields[5].offset, pc.fields[5].datatype), (20, 4));
    let pc = avia_to_pc(&avia());
    assert_eq!((pc.point_step, pc.row_step, pc.data.len()), (20, 40, 40));
    assert_eq!(&pc.data[12..16], &[200, 0x40, 0, 1]);
    assert_eq!(pc.fields[6].name, "offset_time");
    assert_eq!((pc.fields[6].offset, pc.fields[6].datatype), (16, 6));
}

#[test]
fn clouds_without_fields_or_bytes_are_no_scans() {
    let mut pc = standard_to_pc(&standard());
    assert!(pc_to_avia(&pc).is_none());
    pc.data.pop();
    assert!(pc_to_standard(&pc).is_none());
    let mut pc = standard_to_pc(&standard());
    pc.width = 3;
    assert!(sensor_from_pc(&pc).is_none());
    pc.width = 0;
    assert_eq!(pc_to_standard(&pc).unwrap().points.len(), 0);
    pc.fields.remove(0);
    assert!(pc_to_standard(&pc).is_none());
}

fn owned(channel: &str, payload: Vec<u8>) -> OwnedMessage {
    OwnedMessage {
        channel: channel.into(),
        stamp: Timestamp(0),
        schema: Schema { id: 1, typename: "t".into(), encoding: "rbag1".into() },
        payload,
    }
}

#[test]
fn sensor_data_comes_back_from_what_is_recorded() {
    let imu = ImuRaw { stamp: time(1.5), acc: [1, 2, 3], gyr: [4, 5, 6] };
    for data in [
        SensorData::Imu(imu),
        SensorData::LidarStandard(standard()),
        SensorData::LidarAvia(avia()),
    ] {
        let (channel, stamp, payload) = encode(&data);
        let back = decode_message(&owned(channel, payload.clone())).unwrap();
        assert_eq!(back, data);
        assert!(stamp.sec >= 1);
        assert!(decode_message(&owned("scene", payload.clone())).is_none());
        assert!(decode_message(&owned(channel, payload[1..].to_vec())).is_none());
    }
}

#[test]
fn big_endian_clouds_are_scans_too() {
    let s = standard();
    let mut pc = standard_to_pc(&s);
    for p in 0..2 {
        for f in 0..5 {
            pc.data[22 * p + 4 * f..22 * p + 4 * f + 4].reverse();
        }
        pc.data[22 * p + 20..22 * p + 22].reverse();
    }
    assert_ne!(pc_to_standard(&pc).unwrap().points, s.points);
    pc.is_bigendian = true;
    assert_eq!(pc_to_standard(&pc).unwrap().points, s.points);

    let a = avia();
    let mut pc = avia_to_pc(&a);
    for p in 0..2 {
        for (from, to) in [(0, 4), (4, 8), (8, 12), (13, 15), (16, 20)] {
            pc.data[20 * p + from..20 * p + to].reverse();
        }
    }
    pc.is_bigendian = true;
    assert_eq!(pc_to_avia(&pc).unwrap().points, a.points);
}
