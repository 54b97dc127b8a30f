use doracap::compress::{decompress_block, COMPRESS_DEFLATE};
use doracap::crc::crc32;
use doracap::fastlio::lio::{scene_meta, schema_of};
use doracap::message::Timestamp;
use doracap::msgs::codec::Codec;
use doracap::msgs::types::{Header, Imu, PointCloud, PointField, PoseStamped, SceneMeta, Time};
use doracap::record::Recorder;
use doracap::singlefile::reader::SingleFileReader;
use doracap::singlefile::writer::SingleFileWriter;
use doracap::storage::StorageReader;

fn header(sec: i64, frame: &str) -> Header {
    Header { stamp: Time { sec, nsec: 0 }, frame_id: frame.into() }
}

fn field(name: &str, offset: u32) -> PointField {
    PointField { name: name.into(), offset, datatype: 7, count: 1 }
}

fn bits<const N: usize>(a: [f64; N]) -> [u64; N] {
    a.map(f64::to_bits)
}

fn encoded<T: Codec>(m: &T) -> Vec<u8> {
    let mut buf = Vec::new();
    m.encode(&mut buf);
    buf
}

fn golden_file() -> Vec<u8> {
    let mut rec = Recorder::new(SingleFileWriter::open());
    rec.add_channel("scene", &schema_of::<SceneMeta>()).unwrap();
    rec.add_channel("imu", &schema_of::<Imu>()).unwrap();
    rec.add_channel("lidar", &schema_of::<PointCloud>()).unwrap();
    rec.add_channel("pose", &schema_of::<PoseStamped>()).unwrap();
    rec.write("scene", Timestamp(0), &encoded(&scene_meta("map", true))).unwrap();
    let imu = Imu {
        header: header(0, "imu"),
        orientation: bits([0.0, 0.0, 0.0, 1.0]),
        orientation_cov: [0; 9],
        ang_vel: bits([0.1, 0.2, 0.3]),
        ang_vel_cov: [0; 9],
        lin_acc: bits([0.0, 0.0, 9.8]),
        lin_acc_cov: [0; 9],
    };
    rec.write("imu", Timestamp::from_sec_nsec(1, 0), &encoded(&imu)).unwrap();
    let cloud = PointCloud {
        header: header(2, "lidar"),
        height: 1,
        width: 1,
        fields: vec![field("x", 0), field("y", 4), field("z", 8)],
        is_bigendian: false,
        point_step: 12,
        row_step: 12,
        data: [1.0f32, 2.0, 3.0].iter().flat_map(|v| v.to_le_bytes()).collect(),
        is_dense: true,
    };
    rec.write("lidar", Timestamp::from_sec_nsec(2, 0), &encoded(&cloud)).unwrap();
    let pose = PoseStamped {
        header: header(2, "map"),
        position: bits([1.0, 2.0, 3.0]),
        orientation: bits([1.0, 0.0, 0.0, 0.0]),
    };
    rec.write("pose", Timestamp::from_sec_nsec(2, 0), &encoded(&pose)).unwrap();
    rec.finish().unwrap();
    rec.into_writer().take_output()
}

fn unhex(text: &str) -> Vec<u8> {
    text.split_whitespace().map(|b| u8::from_str_radix(b, 16).unwrap()).collect()
}

fn number(d: &[u8]) -> u64 {
    d.iter().rev().fold(0, |n, b| n * 256 + *b as u64)
}

#[test]
fn the_head_of_the_golden_file() {
    let d = golden_file();
    assert_eq!(&d[..17], &unhex("23 44 43 41 50 02 00 00 00 00 00 00 00 02 00 00 00")[..]);
    let schemas = unhex(
        "04 00 00 00
         01 00 11 00 00 00 64 6f 72 61 63 61 70 2f 53 63 65 6e 65 4d 65 74 61 05 00 00 00 72 62 61 67 31
         02 00 0b 00 00 00 64 6f 72 61 63 61 70 2f 49 6d 75 05 00 00 00 72 62 61 67 31
         03 00 12 00 00 00 64 6f 72 61 63 61 70 2f 50 6f 69 6e 74 43 6c 6f 75 64 05 00 00 00 72 62 61 67 31
         04 00 13 00 00 00 64 6f 72 61 63 61 70 2f 50 6f 73 65 53 74 61 6d 70 65 64 05 00 00 00 72 62 61 67 31",
    );
    assert_eq!(schemas.len(), 129);
    assert_eq!(&d[17..146], &schemas[..]);
    let channels = unhex(
        "04 00 00 00
         01 00 05 00 00 00 73 63 65 6e 65 01 00
         02 00 03 00 00 00 69 6d 75 02 00
         03 00 05 00 00 00 6c 69 64 61 72 03 00
         04 00 04 00 00 00 70 6f 73 65 04 00",
    );
    assert_eq!(channels.len(), 53);
    assert_eq!(&d[146..199], &channels[..]);
}

#[test]
fn the_chunk_of_the_golden_file() {
    let d = golden_file();
    let c = &d[199..];
    assert_eq!(&c[..10], b"DCAP_CHUNK");
    assert_eq!(number(&c[10..18]), 0);
    assert_eq!(number(&c[18..22]), 4);
    assert_eq!(number(&c[22..30]), 0);
    assert_eq!(number(&c[30..38]), 2_000_000_000);
    assert_eq!(number(&c[38..42]), 629);
    assert_eq!(number(&c[46..50]), 0x0d6f_2c31);
    let size = number(&c[42..46]) as usize;
    let records = decompress_block(COMPRESS_DEFLATE, &c[50..50 + size], 629).unwrap();
    assert_eq!(crc32(&records), 0x0d6f_2c31);
    assert_eq!(c.len(), 50 + size + 28 + 32);

    let index = &c[50 + size..];
    assert_eq!(number(&index[..8]), 199);
    assert_eq!(number(&index[8..16]), 0);
    assert_eq!(number(&index[16..24]), 2_000_000_000);
    assert_eq!(number(&index[24..28]), 4);
    assert_eq!(&index[28..36], b"DCAP_END");
    assert_eq!(number(&index[36..44]), 199);
    assert_eq!(number(&index[44..52]), 1);
    assert_eq!(number(&index[52..60]), 4);
}

#[test]
fn the_messages_of_the_golden_file() {
    let whole = golden_file();
    // Without its trailer the file is scanned chunk by chunk.
    for d in [whole.clone(), whole[..whole.len() - 32].to_vec()] {
        let mut reader = SingleFileReader::open(d).unwrap();
        let msgs = reader.read_all().unwrap();
        let got: Vec<(&str, u64, usize)> =
            msgs.iter().map(|m| (m.channel.as_str(), m.stamp.0, m.payload.len())).collect();
        assert_eq!(
            got,
            vec![
                ("scene", 0, 82),
                ("imu", 1_000_000_000, 315),
                ("lidar", 2_000_000_000, 101),
                ("pose", 2_000_000_000, 75),
            ]
        );
        assert_eq!(
            &msgs[0].payload[11..],
            &unhex(
                "03 00 00 00 69 6d 75 03 00 00 00 69 6d 75 03 00 00 00 69 6d 75
                 05 00 00 00 6c 69 64 61 72 05 00 00 00 6c 69 64 61 72 05 00 00 00 6c 69 64 61 72
                 04 00 00 00 70 6f 73 65 04 00 00 00 70 6f 73 65 03 00 00 00 6d 61 70",
            )[..]
        );
    }
}
