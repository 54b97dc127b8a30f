use doracap::fastlio::conv::{encode, ImuRaw, SensorData};
use doracap::json::{message_scalars, message_to_json, summary, Number, Scalar};
use doracap::message::{OwnedMessage, Schema, Timestamp};
use doracap::msgs::codec::Codec;
use doracap::msgs::types::{
    ChannelRole, Header, PointCloud, PointField, PoseStamped, SceneMeta, Time,
};

fn owned(channel: &str, typename: &str, payload: Vec<u8>) -> OwnedMessage {
    OwnedMessage {
        channel: channel.into(),
        stamp: Timestamp(1_500_000_000),
        schema: Schema { id: 1, typename: typename.into(), encoding: "rbag1".into() },
        payload,
    }
}

fn written(s: &Scalar) -> String {
    match s {
        Scalar::Stamp(ns) => format!("{:.9}", *ns as f64 / 1e9),
        Scalar::Coordinate(Number::Single(b)) => format!("{:.4}", f32::from_bits(*b) as f64),
        Scalar::Coordinate(Number::Double(b)) => format!("{:.4}", f64::from_bits(*b)),
        Scalar::Plain(b) => format!("{}", f64::from_bits(*b)),
    }
}

fn line(m: &OwnedMessage) -> String {
    let texts: Vec<String> = message_scalars(m).iter().map(written).collect();
    message_to_json(m, &texts)
}

#[test]
fn unknown_types_are_written_in_hexadecimal() {
    let m = owned("a\"b\\c", "t/x", vec![0x00, 0x0f, 0xa5, 0xff]);
    assert_eq!(
        line(&m),
        "{\"channel\":\"a\\\"b\\\\c\",\"stamp\":1.500000000,\"type\":\"t/x\",\
         \"payload_hex\":\"000fa5ff\"}"
    );
}

#[test]
fn measurements_are_written_out() {
    let bits = |a: [f64; 3]| a.map(f64::to_bits);
    let imu = ImuRaw {
        stamp: Time { sec: 1, nsec: 0 },
        acc: bits([0.0, 0.5, 9.8]),
        gyr: bits([0.1, -2.0, 3.0]),
    };
    let (_, _, payload) = encode(&SensorData::Imu(imu));
    let m = owned("imu", "doracap/Imu", payload);
    assert_eq!(
        line(&m),
        "{\"channel\":\"imu\",\"stamp\":1.500000000,\"type\":\"doracap/Imu\",\
         \"frame_id\":\"imu\",\"lin_acc\":[0,0.5,9.8],\"ang_vel\":[0.1,-2,3]}"
    );
    let bad = owned("imu", "doracap/Imu", vec![1]);
    assert!(line(&bad).ends_with("\"payload_hex\":\"01\"}"));
}

fn cloud(fields: Vec<(&str, u32, u8)>, width: u32, step: u32, data: Vec<u8>) -> PointCloud {
    PointCloud {
        header: Header { stamp: Time { sec: 0, nsec: 0 }, frame_id: "lidar".into() },
        height: 1,
        width,
        fields: fields
            .into_iter()
            .map(|(name, offset, datatype)| PointField {
                name: name.into(),
                offset,
                datatype,
                count: 1,
            })
            .collect(),
        is_bigendian: false,
        point_step: step,
        row_step: step * width,
        data,
        is_dense: true,
    }
}

#[test]
fn clouds_are_written_point_by_point() {
    let mut data = Vec::new();
    for v in [1.0f32, 2.0, 3.0, 4.0, 5.0, 6.0] {
        data.extend(v.to_le_bytes());
    }
    let pc = cloud(vec![("x", 0, 7), ("y", 4, 7), ("z", 8, 7)], 2, 12, data);
    let mut payload = Vec::new();
    pc.encode(&mut payload);
    let m = owned("lidar", "doracap/PointCloud", payload);
    assert_eq!(message_scalars(&m).len(), 7);
    assert_eq!(
        line(&m),
        "{\"channel\":\"lidar\",\"stamp\":1.500000000,\"type\":\"doracap/PointCloud\",\
         \"frame_id\":\"lidar\",\"height\":1,\"width\":2,\"point_step\":12,\"row_step\":24,\
         \"points\":[[1.0000,2.0000,3.0000],[4.0000,5.0000,6.0000]]}"
    );
}

#[test]
fn missing_coordinates_are_zero() {
    let mut data = 1.5f64.to_le_bytes().to_vec();
    data.extend([9, 9]);
    // x is a double, y an integer; z is missing, and so are the bytes of the second point.
    let pc = cloud(vec![("x", 0, 8), ("y", 8, 4)], 2, 10, data);
    let mut payload = Vec::new();
    pc.encode(&mut payload);
    let m = owned("lidar", "doracap/PointCloud", payload);
    assert!(line(&m).ends_with("\"points\":[[1.5000,0.0000,0.0000],[0.0000,0.0000,0.0000]]}"));
    let empty = cloud(vec![], 0, 4, vec![]);
    let mut payload = Vec::new();
    empty.encode(&mut payload);
    let m = owned("lidar", "doracap/PointCloud", payload);
    assert!(line(&m).ends_with("\"points\":[]}"));
}

#[test]
fn summaries_are_short() {
    let m = owned("imu", "doracap/Imu", vec![0; 315]);
    assert_eq!(
        summary(&m, "1.500000"),
        "imu stamp=1.500000 type=doracap/Imu payload=315B"
    );
}

#[test]
fn names_in_quotes_are_escaped_and_lines_stay_whole() {
    let m = owned("a\\b\"c", "t", vec![0x0f, 0xa0]);
    let line = line(&m);
    assert!(line.starts_with("{\"channel\":\"a\\\\b\\\"c\","));
    assert!(line.ends_with("\"payload_hex\":\"0fa0\"}"));
    assert!(!line.contains('\n'));
}

#[test]
fn big_endian_coordinates_are_turned_round() {
    let mut data = 1.5f32.to_be_bytes().to_vec();
    data.extend((-2.25f64).to_be_bytes());
    let mut pc = cloud(vec![("x", 0, 7), ("y", 4, 8)], 1, 12, data);
    pc.is_bigendian = true;
    let mut payload = Vec::new();
    pc.encode(&mut payload);
    let m = owned("lidar", "doracap/PointCloud", payload);
    assert!(line(&m).ends_with("\"points\":[[1.5000,-2.2500,0.0000]]}"));
}

#[test]
fn control_characters_are_written_as_their_numbers() {
    let m = owned("a\nb\rc\td\u{1f}\0", "\n", vec![]);
    assert_eq!(
        line(&m),
        "{\"channel\":\"a\\u000ab\\u000dc\\u0009d\\u001f\\u0000\",\"stamp\":1.500000000,\
         \"type\":\"\\u000a\",\"payload_hex\":\"\"}"
    );
    for c in (0u8..0x20).map(char::from) {
        let text = line(&owned(&c.to_string(), "t", vec![]));
        assert!(text.starts_with(&format!("{{\"channel\":\"\\u{:04x}\",", c as u32)));
        assert!(text.chars().all(|c| c >= ' '));
    }
    let m = owned("\u{7f}\u{e9}\u{1f600} ", "t", vec![]);
    assert!(line(&m).starts_with("{\"channel\":\"\u{7f}\u{e9}\u{1f600} \","));
}

#[test]
fn scenes_are_written_out() {
    let role = |name: &str, role: &str, frame: &str| ChannelRole {
        name: name.into(),
        role: role.into(),
        frame_id: frame.into(),
    };
    let mut scene = SceneMeta {
        world_frame: "map".into(),
        channels: vec![role("lidar", "lidar", "lidar"), role("p\n", "pose", "map")],
    };
    let mut payload = Vec::new();
    scene.encode(&mut payload);
    let m = owned("scene", "doracap/SceneMeta", payload);
    assert_eq!(message_scalars(&m).len(), 1);
    assert_eq!(
        line(&m),
        "{\"channel\":\"scene\",\"stamp\":1.500000000,\"type\":\"doracap/SceneMeta\",\
         \"world_frame\":\"map\",\"channels\":[\
         {\"name\":\"lidar\",\"role\":\"lidar\",\"frame_id\":\"lidar\"},\
         {\"name\":\"p\\u000a\",\"role\":\"pose\",\"frame_id\":\"map\"}]}"
    );
    scene.channels.clear();
    let mut payload = Vec::new();
    scene.encode(&mut payload);
    let m = owned("scene", "doracap/SceneMeta", payload);
    assert!(line(&m).ends_with("\"world_frame\":\"map\",\"channels\":[]}"));
    let bad = owned("scene", "doracap/SceneMeta", vec![7]);
    assert!(line(&bad).ends_with("\"payload_hex\":\"07\"}"));
}

#[test]
fn poses_are_written_out() {
    let pose = PoseStamped {
        header: Header { stamp: Time { sec: 2, nsec: 0 }, frame_id: "map".into() },
        position: [1.0, -2.5, 3.25].map(f64::to_bits),
        orientation: [1.0, 0.0, 0.5, -0.125].map(f64::to_bits),
    };
    let mut payload = Vec::new();
    pose.encode(&mut payload);
    let m = owned("pose", "doracap/PoseStamped", payload);
    assert_eq!(message_scalars(&m).len(), 8);
    assert_eq!(
        line(&m),
        "{\"channel\":\"pose\",\"stamp\":1.500000000,\"type\":\"doracap/PoseStamped\",\
         \"frame_id\":\"map\",\"position\":[1,-2.5,3.25],\"orientation\":[1,0,0.5,-0.125]}"
    );
    let bad = owned("pose", "doracap/PoseStamped", vec![0xee]);
    assert!(line(&bad).ends_with("\"payload_hex\":\"ee\"}"));
}

/// Where the JSON value ends that begins at `i`.
fn value_end(d: &[char], i: usize) -> Option<usize> {
    match d.get(i)? {
        '"' => text_end(d, i),
        '[' if d.get(i + 1) == Some(&']') => Some(i + 2),
        '{' if d.get(i + 1) == Some(&'}') => Some(i + 2),
        open @ ('[' | '{') => {
            let mut p = i + 1;
            loop {
                if *open == '{' {
                    p = text_end(d, p)?;
                    if d.get(p) != Some(&':') {
                        return None;
                    }
                    p += 1;
                }
                p = value_end(d, p)?;
                match (open, d.get(p)?) {
                    (_, ',') => p += 1,
                    ('[', ']') | ('{', '}') => return Some(p + 1),
                    _ => return None,
                }
            }
        }
        _ => {
            let n = d[i..].iter().take_while(|c| "+-.eE0123456789".contains(**c)).count();
            let s: String = d[i..i + n].iter().collect();
            s.parse::<f64>().ok().map(|_| i + n)
        }
    }
}

fn text_end(d: &[char], i: usize) -> Option<usize> {
    if d.get(i) != Some(&'"') {
        return None;
    }
    let mut p = i + 1;
    loop {
        match d.get(p)? {
            '"' => return Some(p + 1),
            '\\' => p += 2,
            c if *c < ' ' => return None,
            _ => p += 1,
        }
    }
}

#[test]
fn lines_are_json_objects() {
    let encoded = |pc: &PointCloud| {
        let mut payload = Vec::new();
        pc.encode(&mut payload);
        payload
    };
    let full = cloud(vec![("x", 0, 7)], 3, 4, vec![0; 12]);
    let empty = cloud(vec![], 0, 4, vec![]);
    let mut scene = Vec::new();
    SceneMeta {
        world_frame: "m\"\\".into(),
        channels: vec![
            ChannelRole { name: "a".into(), role: "\n".into(), frame_id: "".into() },
            ChannelRole { name: "b".into(), role: "r".into(), frame_id: "f".into() },
        ],
    }
    .encode(&mut scene);
    let mut pose = Vec::new();
    PoseStamped {
        header: Header { stamp: Time { sec: 0, nsec: 0 }, frame_id: "".into() },
        position: [-1.5f64, 0.0, 1e-7].map(f64::to_bits),
        orientation: [0; 4],
    }
    .encode(&mut pose);
    let imu = ImuRaw { stamp: Time { sec: 1, nsec: 0 }, acc: [0; 3], gyr: [0; 3] };
    let (_, _, imu) = encode(&SensorData::Imu(imu));
    for m in [
        owned("{\"\\}", "t,[", vec![1, 2]),
        owned("", "", vec![]),
        owned("l", "doracap/PointCloud", encoded(&full)),
        owned("l", "doracap/PointCloud", encoded(&empty)),
        owned("s", "doracap/SceneMeta", scene),
        owned("p", "doracap/PoseStamped", pose),
        owned("i", "doracap/Imu", imu),
    ] {
        let chars: Vec<char> = line(&m).chars().collect();
        assert_eq!(chars[0], '{');
        assert_eq!(value_end(&chars, 0), Some(chars.len()), "{}", line(&m));
    }
}
