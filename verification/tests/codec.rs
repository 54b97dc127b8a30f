use doracap::msgs::codec::Codec;
use doracap::msgs::types::{
    ChannelRole, Header, Imu, PointCloud, PointField, PoseStamped, SceneMeta, Stamped, Time,
};

fn ts(sec: i64, nsec: u32) -> Time {
    Time { sec, nsec }
}

fn sample_imu() -> Imu {
    Imu {
        header: Header { stamp: ts(0, 0), frame_id: "imu".into() },
        orientation: [0.0f64.to_bits(); 4],
        orientation_cov: [0.0f64.to_bits(); 9],
        ang_vel: [0.0f64.to_bits(); 3],
        ang_vel_cov: [0.0f64.to_bits(); 9],
        lin_acc: [0.0f64.to_bits(); 3],
        lin_acc_cov: [0.0f64.to_bits(); 9],
    }
}

fn field(name: &str, offset: u32) -> PointField {
    PointField { name: name.into(), offset, datatype: 7, count: 1 }
}

fn sample_pc() -> PointCloud {
    PointCloud {
        header: Header { stamp: ts(12, 345678901), frame_id: "lidar".into() },
        height: 1,
        width: 2,
        fields: vec![field("x", 0), field("y", 4), field("z", 8), field("intensity", 12)],
        is_bigendian: false,
        point_step: 16,
        row_step: 32,
        data: vec![
            0, 1, 2, 3, 4, 5, 6, 7, 8, 9, 10, 11, 12, 13, 14, 15, 16, 17, 18, 19, 20, 21, 22, 23,
            24, 25, 26, 27, 28, 29, 30, 31,
        ],
        is_dense: true,
    }
}

fn encoded<T: Codec>(m: &T) -> Vec<u8> {
    let mut buf = Vec::new();
    m.encode(&mut buf);
    buf
}

#[test]
fn codec_imu_roundtrip() {
    let imu = sample_imu();
    let mut buf = Vec::new();
    imu.encode(&mut buf);
    let back = Imu::decode(&buf).unwrap();
    assert_eq!(imu, back);
    assert_eq!(back.time(), imu.header.stamp);
}

#[test]
fn imu_golden_bytes() {
    let imu = sample_imu();
    let mut buf = Vec::new();
    imu.encode(&mut buf);
    assert_eq!(buf.len(), 315, "golden length mismatch");
    const HEAD_HEX: &str = "00000000000000000000000003000000696d75";
    let head: Vec<u8> = HEAD_HEX
        .as_bytes()
        .chunks(2)
        .map(|c| u8::from_str_radix(std::str::from_utf8(c).unwrap(), 16).unwrap())
        .collect();
    assert_eq!(&buf[..19], &head[..]);
    assert!(buf[19..].iter().all(|&b| b == 0));
}

#[test]
fn imu_bad_input() {
    assert!(Imu::decode(&[]).is_err());
    let mut buf = Vec::new();
    sample_imu().encode(&mut buf);
    let cut = &buf[..buf.len() - 1];
    assert!(Imu::decode(cut).is_err());
}

#[test]
fn pointcloud_roundtrip() {
    let pc = sample_pc();
    let mut buf = Vec::new();
    pc.encode(&mut buf);
    let back = PointCloud::decode(&buf).unwrap();
    assert_eq!(pc, back);
    assert_eq!(back.time(), pc.header.stamp);
}

#[test]
fn pointcloud_bad_input() {
    let mut buf = Vec::new();
    sample_pc().encode(&mut buf);
    let trailing = [buf.as_slice(), b"extra"].concat();
    assert!(PointCloud::decode(&trailing).is_err());
    assert!(PointCloud::decode(&[]).is_err());
}

#[test]
fn decode_errors_say_what_is_wrong() {
    assert_eq!(Imu::decode(&[]).unwrap_err().0, "unexpected end");
    let mut imu = encoded(&sample_imu());
    imu.push(0);
    assert_eq!(Imu::decode(&imu).unwrap_err().0, "trailing bytes");
    imu[16] = 0xff;
    let e = Imu::decode(&imu).unwrap_err();
    assert_eq!(e.0, "bad utf8");
    assert_eq!(e.describe(), "decode: bad utf8");
    let mut pc = encoded(&sample_pc());
    let n = pc.len();
    pc.extend(b"extra");
    assert_eq!(
        PointCloud::decode(&pc).unwrap_err().0,
        format!("trailing bytes: {} != {}", n, n + 5)
    );
}

#[test]
fn no_message_begins_another() {
    let pc = encoded(&sample_pc());
    for n in 0..pc.len() {
        assert!(PointCloud::decode(&pc[..n]).is_err());
    }
    let scene = encoded(&SceneMeta { world_frame: "map".into(), channels: vec![] });
    for n in 0..scene.len() {
        assert!(SceneMeta::decode(&scene[..n]).is_err());
    }
}

#[test]
fn negative_seconds_are_kept() {
    let mut imu = sample_imu();
    imu.header.stamp = ts(-2, 500);
    let buf = encoded(&imu);
    assert_eq!(&buf[..8], &(-2i64).to_le_bytes());
    assert_eq!(&buf[8..12], &500u32.to_le_bytes());
    assert_eq!(Imu::decode(&buf).unwrap().header.stamp, ts(-2, 500));
    assert_eq!(ts(-2, 500).describe(), "-2.000000500");
    assert_eq!(ts(12, 345678901).describe(), "12.345678901");
    assert_eq!(ts(i64::MIN, 0).describe(), "-9223372036854775808.000000000");
}

#[test]
fn pose_has_the_documented_bytes() {
    let pose = PoseStamped {
        header: Header { stamp: ts(2, 0), frame_id: "map".into() },
        position: [1.0f64.to_bits(), 2.0f64.to_bits(), 3.0f64.to_bits()],
        orientation: [1.0f64.to_bits(), 0, 0, 0],
    };
    let buf = encoded(&pose);
    assert_eq!(buf.len(), 75);
    assert_eq!(
        &buf[..19],
        &[2, 0, 0, 0, 0, 0, 0, 0, 0, 0, 0, 0, 3, 0, 0, 0, 0x6d, 0x61, 0x70]
    );
    assert_eq!(&buf[19..27], &[0, 0, 0, 0, 0, 0, 0xf0, 0x3f]);
    assert_eq!(&buf[35..43], &[0, 0, 0, 0, 0, 0, 8, 0x40]);
    assert_eq!(&buf[43..51], &[0, 0, 0, 0, 0, 0, 0xf0, 0x3f]);
    assert_eq!(PoseStamped::decode(&buf).unwrap(), pose);
    assert_eq!(PoseStamped::TYPE_NAME, "doracap/PoseStamped");
}

#[test]
fn what_is_decoded_is_encoded_again() {
    for frame in ["", "imu", "\u{e9}"] {
        let len = frame.len();
        let mut buf: Vec<u8> = (0..312 + len).map(|i| (i * 7 % 251) as u8).collect();
        buf[12..16].copy_from_slice(&(len as u32).to_le_bytes());
        buf[16..16 + len].copy_from_slice(frame.as_bytes());
        let imu = Imu::decode(&buf).unwrap();
        assert_eq!(imu.header.frame_id, frame);
        assert_eq!(encoded(&imu), buf);
        assert!(Imu::decode(&buf[..buf.len() - 1]).is_err());
        let pose = PoseStamped::decode(&buf[..72 + len]).unwrap();
        assert_eq!(encoded(&pose), &buf[..72 + len]);
        buf.push(0);
        assert!(Imu::decode(&buf).is_err());
    }
    let mut buf = vec![0u8; 313];
    buf[12] = 1;
    assert!(Imu::decode(&buf).is_ok());
    buf[16] = 0xff;
    assert_eq!(Imu::decode(&buf).unwrap_err().0, "bad utf8");
}

#[test]
fn scene_has_the_documented_bytes() {
    let role = |name: &str, frame: &str| ChannelRole {
        name: name.into(),
        role: name.into(),
        frame_id: frame.into(),
    };
    let scene = SceneMeta {
        world_frame: "map".into(),
        channels: vec![role("imu", "imu"), role("lidar", "lidar"), role("pose", "map")],
    };
    let buf = encoded(&scene);
    assert_eq!(buf.len(), 82);
    assert_eq!(&buf[..11], &[3, 0, 0, 0, 0x6d, 0x61, 0x70, 3, 0, 0, 0]);
    assert_eq!(&buf[11..18], &[3, 0, 0, 0, 0x69, 0x6d, 0x75]);
    assert_eq!(SceneMeta::decode(&buf).unwrap(), scene);
    let mut more = buf.clone();
    more.push(1);
    assert_eq!(SceneMeta::decode(&more).unwrap_err().0, "trailing bytes");
}

#[test]
fn a_cloud_of_one_point_takes_the_documented_length() {
    let pc = PointCloud {
        header: Header { stamp: ts(2, 0), frame_id: "lidar".into() },
        height: 1,
        width: 1,
        fields: vec![field("x", 0), field("y", 4), field("z", 8)],
        is_bigendian: false,
        point_step: 12,
        row_step: 12,
        data: vec![0; 12],
        is_dense: true,
    };
    assert_eq!(encoded(&pc).len(), 21 + 12 + 3 * 14 + 1 + 8 + 4 + 12 + 1);
    assert_eq!(encoded(&pc).len(), 101);
}
