use doracap::compress::{
    compress_block, decompress_block, COMPRESS_DEFLATE, COMPRESS_NONE, COMPRESS_ZSTD,
};
use doracap::crc::crc32;
use doracap::message::{ChunkIndex, OwnedMessage, Schema, Timestamp};
use doracap::record::Recorder;
use doracap::singlefile::reader::{footer_fits, SingleFileReader};
use doracap::singlefile::writer::SingleFileWriter;
use doracap::wire::{push_str, read_str, read_u16, read_u32, read_u64};
use doracap::storage::{ChannelId, SchemaId, StorageReader, StorageWriter};

fn schema(typename: &str) -> Schema {
    Schema { id: 0, typename: typename.to_string(), encoding: "raw".to_string() }
}

fn msg(channel: &str, stamp: u64, payload: &[u8]) -> (String, Timestamp, Vec<u8>) {
    (channel.to_string(), Timestamp(stamp), payload.to_vec())
}

fn samples() -> Vec<(String, Timestamp, Vec<u8>)> {
    vec![
        msg("a", 1, &[0x11; 40]),
        msg("b", 2, &[0x22; 80]),
        msg("a", 3, &[0x33; 160]),
        msg("b", 4, &[0x44; 320]),
        msg("a", 5, &[0x55; 640]),
    ]
}

fn recorder(chunk_target: usize, compressor: u32) -> Recorder<SingleFileWriter> {
    let writer = SingleFileWriter::open().chunk_target(chunk_target).compressor(compressor);
    let mut rec = Recorder::new(writer);
    rec.add_channel("a", &schema("t/a")).unwrap();
    rec.add_channel("b", &schema("t/b")).unwrap();
    rec
}

fn written(chunk_target: usize, compressor: u32) -> Vec<u8> {
    let mut rec = recorder(chunk_target, compressor);
    for (ch, st, pay) in &samples() {
        rec.write(ch, *st, pay).unwrap();
    }
    rec.finish().unwrap();
    rec.into_writer().take_output()
}

fn opened(bytes: &[u8]) -> SingleFileReader {
    assert!(footer_fits(bytes));
    SingleFileReader::open(bytes.to_vec()).unwrap()
}

fn write_and_read(chunk_target: usize, compressor: u32) -> (Vec<OwnedMessage>, Vec<ChunkIndex>) {
    let bytes = written(chunk_target, compressor);
    let mut reader = opened(&bytes);
    let msgs = reader.read_all().unwrap();
    let idx = reader.chunk_index().to_vec();
    assert_eq!(&bytes[bytes.len() - 32..bytes.len() - 24], b"DCAP_END");
    (msgs, idx)
}

#[test]
fn chunk_roundtrip_deflate() {
    let (msgs, idx) = write_and_read(200, COMPRESS_DEFLATE);
    assert_eq!(msgs.len(), 5, "all messages round-trip");
    assert!(idx.len() >= 2, "small chunk_target forces multiple chunks");
    let stamps: Vec<u64> = msgs.iter().map(|m| m.stamp.0).collect();
    assert_eq!(stamps, vec![1, 2, 3, 4, 5]);
    assert_eq!(msgs[0].payload, vec![0x11; 40]);
    assert_eq!(msgs[4].payload, vec![0x55; 640]);
    assert!(idx[0].start_stamp <= idx[0].end_stamp);
}

#[test]
fn chunk_roundtrip_none() {
    let (msgs, _idx) = write_and_read(200, COMPRESS_NONE);
    assert_eq!(msgs.len(), 5);
    assert_eq!(msgs[1].payload, vec![0x22; 80]);
}

#[test]
fn crc32_basic() {
    assert_eq!(crc32(b""), 0);
    assert_eq!(crc32(b"123456789"), 0xCBF43926);
}

#[test]
fn seek_chunk_finds_containing_range() {
    let writer = SingleFileWriter::open().chunk_target(160);
    let mut rec = Recorder::new(writer);
    rec.add_channel("a", &schema("t/a")).unwrap();
    for i in 0..8u64 {
        rec.write("a", Timestamp(i * 100), &vec![0xAA; (i as usize + 1) * 130]).unwrap();
    }
    rec.finish().unwrap();

    let reader = opened(&rec.into_writer().take_output());
    let idx = reader.chunk_index().to_vec();
    assert!(idx.len() >= 2, "expected multiple chunks, got {}", idx.len());
    for ci in &idx {
        let mid = ci.start_stamp + (ci.end_stamp - ci.start_stamp) / 2;
        let hit = reader.seek_chunk(mid).unwrap();
        let c = reader.chunk(hit).unwrap();
        assert!(
            c.start_stamp <= mid && mid <= c.end_stamp,
            "chunk {hit} range {:?} should contain {mid}",
            (c.start_stamp, c.end_stamp)
        );
    }
    assert_eq!(reader.seek_chunk(0).unwrap(), 0);
    assert!(!idx.is_empty());
}

#[test]
fn seek_before_and_behind_all_chunks() {
    let reader = opened(&written(200, COMPRESS_NONE));
    let n = reader.chunk_index().len();
    assert_eq!(reader.seek_chunk(0), Some(0));
    assert_eq!(reader.seek_chunk(u64::MAX), Some(n - 1));
    assert!(reader.chunk(n).is_none());
    assert_eq!(reader.time_range(), Some((1, 5)));
    assert_eq!(reader.message_count(), Some(5));
}

#[test]
fn read_messages_carry_channel_and_schema() {
    let (msgs, _) = write_and_read(1 << 20, COMPRESS_DEFLATE);
    assert_eq!(msgs[1].channel, "b");
    assert_eq!(msgs[1].schema.typename, "t/b");
    assert_eq!(msgs[1].schema.encoding, "raw");
    assert_eq!(msgs[1].schema.id, 2);
}

#[test]
fn head_has_the_documented_bytes() {
    let mut w = SingleFileWriter::open();
    for name in ["doracap/SceneMeta", "doracap/Imu", "doracap/PointCloud", "doracap/PoseStamped"] {
        let s = Schema { id: 0, typename: name.to_string(), encoding: "rbag1".to_string() };
        w.add_schema(&s).unwrap();
    }
    for (i, name) in ["scene", "imu", "lidar", "pose"].iter().enumerate() {
        w.add_channel(name, SchemaId(i as u16 + 1)).unwrap();
    }
    w.finish().unwrap();
    let bytes = w.take_output();
    assert_eq!(
        &bytes[..17],
        &[0x23, 0x44, 0x43, 0x41, 0x50, 2, 0, 0, 0, 0, 0, 0, 0, 2, 0, 0, 0]
    );
    assert_eq!(&bytes[17..23], &[4, 0, 0, 0, 1, 0]);
    assert_eq!(&bytes[23..27], &[0x11, 0, 0, 0]);
    assert_eq!(&bytes[27..44], b"doracap/SceneMeta");
    // The head takes 199 bytes; with no messages, the trailer follows at once.
    assert_eq!(bytes.len(), 199 + 32);
    assert_eq!(&bytes[199..207], b"DCAP_END");
    assert_eq!(&bytes[207..215], &[199, 0, 0, 0, 0, 0, 0, 0]);
    assert_eq!(&bytes[215..231], &[0; 16]);
    let mut r = opened(&bytes);
    assert!(r.read_all().unwrap().is_empty());
    assert_eq!(r.channels().len(), 4);
    assert_eq!(r.channels()[3].schema_id, 4);
}

#[test]
fn chunk_header_and_index_have_the_documented_bytes() {
    let mut w = SingleFileWriter::open().compressor(COMPRESS_NONE);
    let s = w.add_schema(&schema("t")).unwrap();
    let c = w.add_channel("c", s).unwrap();
    let head = 5 + 12 + 4 + (2 + 4 + 1 + 4 + 3) + 4 + (2 + 4 + 1 + 2);
    w.write(c, Timestamp(7), b"xy").unwrap();
    w.write(c, Timestamp(3), b"z").unwrap();
    w.finish().unwrap();
    let bytes = w.take_output();
    let chunk = &bytes[head..];
    assert_eq!(&chunk[..10], b"DCAP_CHUNK");
    assert_eq!(&chunk[10..18], &[0; 8]);
    assert_eq!(&chunk[18..22], &[2, 0, 0, 0]);
    assert_eq!(&chunk[22..30], &3u64.to_le_bytes());
    assert_eq!(&chunk[30..38], &7u64.to_le_bytes());
    assert_eq!(&chunk[38..42], &31u32.to_le_bytes());
    assert_eq!(&chunk[42..46], &31u32.to_le_bytes());
    let records = &chunk[50..81];
    assert_eq!(&chunk[46..50], &crc32(records).to_le_bytes());
    assert_eq!(&records[..15], &[1, 0, 3, 0, 0, 0, 0, 0, 0, 0, 1, 0, 0, 0, b'z']);
    let index = &chunk[81..109];
    assert_eq!(&index[..8], &(head as u64).to_le_bytes());
    assert_eq!(&index[8..16], &3u64.to_le_bytes());
    assert_eq!(&index[16..24], &7u64.to_le_bytes());
    assert_eq!(&index[24..28], &2u32.to_le_bytes());
    assert_eq!(&chunk[109..117], b"DCAP_END");
    assert_eq!(chunk.len(), 109 + 32);
}

#[test]
fn messages_of_a_chunk_are_sorted_stably() {
    let mut w = SingleFileWriter::open();
    let s = w.add_schema(&schema("t")).unwrap();
    let c = w.add_channel("c", s).unwrap();
    for (t, p) in [(5, b"a"), (2, b"b"), (5, b"c"), (2, b"d"), (1, b"e")] {
        w.write(c, Timestamp(t), p).unwrap();
    }
    w.finish().unwrap();
    let got: Vec<(u64, Vec<u8>)> = opened(&w.take_output())
        .read_all()
        .unwrap()
        .into_iter()
        .map(|m| (m.stamp.0, m.payload))
        .collect();
    let want: Vec<(u64, Vec<u8>)> = vec![
        (1, b"e".to_vec()),
        (2, b"b".to_vec()),
        (2, b"d".to_vec()),
        (5, b"a".to_vec()),
        (5, b"c".to_vec()),
    ];
    assert_eq!(got, want);
}

#[test]
fn schemas_and_channels_are_declared_once() {
    let mut w = SingleFileWriter::open();
    let a = w.add_schema(&schema("t")).unwrap();
    let b = w.add_schema(&schema("u")).unwrap();
    assert_eq!(w.add_schema(&schema("t")).unwrap(), a);
    assert_eq!((a, b), (SchemaId(1), SchemaId(2)));
    let c = w.add_channel("x", a).unwrap();
    assert_eq!(w.add_channel("x", b).unwrap(), c);
    assert_eq!(w.add_channel("y", b).unwrap(), ChannelId(2));
}

#[test]
fn finishing_twice_changes_nothing() {
    let mut w = SingleFileWriter::open();
    assert!(!w.is_started());
    w.finish().unwrap();
    assert!(w.is_started() && w.is_finished());
    assert!(!w.take_output().is_empty());
    w.finish().unwrap();
    assert!(w.take_output().is_empty());
}

#[test]
fn output_is_handed_out_piece_by_piece() {
    let whole = written(200, COMPRESS_DEFLATE);
    let mut w = SingleFileWriter::open().chunk_target(200);
    let a = w.add_schema(&schema("t/a")).unwrap();
    let ca = w.add_channel("a", a).unwrap();
    let b = w.add_schema(&schema("t/b")).unwrap();
    let cb = w.add_channel("b", b).unwrap();
    let mut got = Vec::new();
    for (ch, st, pay) in &samples() {
        w.write(if ch == "a" { ca } else { cb }, *st, pay).unwrap();
        got.extend(w.take_output());
    }
    w.finish().unwrap();
    got.extend(w.take_output());
    assert_eq!(got, whole);
}

#[test]
fn zstd_and_unknown_compressors_are_refused() {
    let data = [1u8, 2, 3];
    assert_eq!(
        compress_block(COMPRESS_ZSTD, &data).unwrap_err().0,
        "zstd compression not built in (reserved)"
    );
    assert_eq!(
        decompress_block(COMPRESS_ZSTD, &data, 3).unwrap_err().0,
        "zstd decompression not built in (reserved)"
    );
    assert_eq!(compress_block(9, &data).unwrap_err().0, "unknown compressor 9");
    assert_eq!(decompress_block(9, &data, 3).unwrap_err().0, "unknown compressor 9");
}

#[test]
fn deflate_is_zlib_and_checks_its_length() {
    let data = vec![7u8; 1000];
    let packed = compress_block(COMPRESS_DEFLATE, &data).unwrap();
    assert!(packed.len() < 100);
    assert_eq!(packed[0], 0x78);
    assert_eq!(decompress_block(COMPRESS_DEFLATE, &packed, 1000).unwrap(), data);
    assert_eq!(
        decompress_block(COMPRESS_DEFLATE, &packed, 999).unwrap_err().0,
        "decompressed length mismatch"
    );
    assert!(decompress_block(COMPRESS_DEFLATE, &data, 1000).is_err());
    assert_eq!(compress_block(COMPRESS_NONE, &data).unwrap(), data);
    assert_eq!(
        decompress_block(COMPRESS_NONE, &data, 999).unwrap_err().0,
        "none-compressed length mismatch"
    );
}

#[test]
fn a_failing_compressor_keeps_the_messages() {
    let mut w = SingleFileWriter::open().compressor(COMPRESS_ZSTD).chunk_target(1);
    let s = w.add_schema(&schema("t")).unwrap();
    let c = w.add_channel("c", s).unwrap();
    assert_eq!(
        w.write(c, Timestamp(1), b"x").unwrap_err().0,
        "zstd compression not built in (reserved)"
    );
    assert!(w.finish().is_err());
    assert!(!w.is_finished());
}

#[test]
fn a_file_without_trailer_keeps_its_chunks() {
    let bytes = written(200, COMPRESS_DEFLATE);
    // Without the trailer, but with the index entries still there.
    let mut r = opened(&bytes[..bytes.len() - 32]);
    assert!(r.chunk_index().is_empty());
    assert_eq!(r.message_count(), None);
    assert_eq!(r.read_all().unwrap().len(), 5);
    assert_eq!(r.message_count(), None);
    assert_eq!(r.time_range(), Some((1, 5)));
    let whole = opened(&bytes);
    assert_eq!(r.chunk_index(), whole.chunk_index());
}

#[test]
fn a_file_cut_inside_a_chunk_keeps_the_chunks_before() {
    let bytes = written(200, COMPRESS_NONE);
    let index = opened(&bytes).chunk_index().to_vec();
    let second = index[1].offset as usize;
    for cut in [second, second + 1, second + 49, second + 50, second + 60] {
        let mut r = opened(&bytes[..cut]);
        let msgs = r.read_all().unwrap();
        assert_eq!(msgs.len(), index[0].msg_count as usize);
        assert_eq!(r.chunk_index(), &index[..1]);
    }
}

#[test]
fn a_damaged_chunk_is_an_error() {
    let bytes = written(200, COMPRESS_NONE);
    let first = opened(&bytes).chunk_index()[0].offset as usize;
    let mut bad = bytes.clone();
    bad[first + 60] ^= 1;
    assert_eq!(opened(&bad).read_all().unwrap_err().0, "chunk crc mismatch");
    assert_eq!(
        opened(&bad[..bad.len() - 32]).read_all().unwrap_err().0,
        "chunk crc mismatch"
    );
    let mut bad = bytes.clone();
    bad[first] = b'x';
    assert_eq!(opened(&bad).read_chunk_at(0).unwrap_err().0, "bad chunk magic");
    let mut bad = bytes.clone();
    bad[first + 45] = 0x7f;
    assert_eq!(opened(&bad).read_chunk_at(0).unwrap_err().0, "chunk data out of bounds");
    let mut bad = bytes.clone();
    bad[first + 18] = 9;
    assert_eq!(opened(&bad).read_chunk_at(0).unwrap_err().0, "chunk records truncated");
    assert_eq!(
        opened(&bytes).read_chunk_at(77).unwrap_err().0,
        "chunk index 77 out of range"
    );
}

#[test]
fn an_index_that_points_behind_the_file_is_an_error() {
    let bytes = written(200, COMPRESS_NONE);
    let n = opened(&bytes).chunk_index().len();
    let mut bad = bytes.clone();
    let at = bytes.len() - 32 - 28 * n;
    bad[at..at + 8].copy_from_slice(&u64::MAX.to_le_bytes());
    assert_eq!(
        opened(&bad).read_chunk_at(0).unwrap_err().0,
        "chunk header out of bounds"
    );
}

#[test]
fn a_trailer_that_announces_too_many_chunks_does_not_fit() {
    let mut bytes = written(200, COMPRESS_NONE);
    let at = bytes.len() - 16;
    bytes[at..at + 8].copy_from_slice(&1_000_000u64.to_le_bytes());
    assert!(!footer_fits(&bytes));
}

#[test]
fn heads_that_are_none_are_refused() {
    let open = |b: &[u8]| SingleFileReader::open(b.to_vec());
    assert_eq!(open(b"").err().unwrap().0, "not a doracap (.dcap) file");
    assert_eq!(open(b"#DCAX\x02\0\0\0").err().unwrap().0, "not a doracap (.dcap) file");
    assert_eq!(open(b"#DCAP\x03\0\0\0").err().unwrap().0, "unsupported version 3");
    assert_eq!(open(b"#DCAP\x02\0\0\0\0").err().unwrap().0, "unexpected end of file");
    // One schema whose type is no UTF-8.
    let mut bad = b"#DCAP\x02\0\0\0\0\0\0\0\0\0\0\0\x01\0\0\0\x01\0\x01\0\0\0".to_vec();
    bad.push(0xff);
    assert_eq!(open(&bad).err().unwrap().0, "bad utf8");
}

#[test]
fn messages_of_unknown_ids_are_kept_without_names() {
    // Declared after the first message, a channel is not in the head.
    let mut w = SingleFileWriter::open();
    let s = w.add_schema(&schema("t")).unwrap();
    let c = w.add_channel("c", s).unwrap();
    w.write(c, Timestamp(1), b"x").unwrap();
    let late = w.add_channel("late", s).unwrap();
    w.write(late, Timestamp(2), b"y").unwrap();
    w.finish().unwrap();
    let ms = opened(&w.take_output()).read_all().unwrap();
    assert_eq!(ms.len(), 2);
    assert_eq!((ms[0].channel.as_str(), ms[0].schema.typename.as_str()), ("c", "t"));
    assert_eq!((ms[1].channel.as_str(), ms[1].schema.typename.as_str()), ("", ""));
    assert_eq!((ms[1].stamp, ms[1].schema.id), (Timestamp(2), 0));
    assert_eq!(ms[1].payload, b"y");

    let mut w = SingleFileWriter::open();
    let c = w.add_channel("c", SchemaId(5)).unwrap();
    w.write(c, Timestamp(1), b"x").unwrap();
    w.finish().unwrap();
    let ms = opened(&w.take_output()).read_all().unwrap();
    assert_eq!((ms[0].channel.as_str(), ms[0].schema.typename.as_str()), ("c", ""));
    assert_eq!(ms[0].schema.id, 5);
    assert_eq!(ms[0].payload, b"x");
}

fn version_one(messages: &[(u64, &[u8])], count: Option<u64>) -> Vec<u8> {
    let mut b = b"#DCAP\x01\0\0\0\0\0\0\0".to_vec();
    b.extend(b"\x01\0\0\0\x01\0\x01\0\0\0t\x03\0\0\0raw");
    b.extend(b"\x01\0\0\0\x01\0\x01\0\0\0c\x01\0");
    let offset = b.len() as u64;
    for (t, p) in messages {
        b.extend(1u16.to_le_bytes());
        b.extend(t.to_le_bytes());
        b.extend((p.len() as u32).to_le_bytes());
        b.extend(*p);
    }
    if let Some(n) = count {
        b.extend(b"DCAP_END");
        b.extend(offset.to_le_bytes());
        b.extend(n.to_le_bytes());
    }
    b
}

#[test]
fn version_one_files_are_read() {
    let ms: [(u64, &[u8]); 3] = [(9, b"a"), (4, b"bc"), (6, b"")];
    let stamps = |b: &[u8]| -> Vec<u64> {
        opened(b).read_all().unwrap().iter().map(|m| m.stamp.0).collect()
    };
    assert_eq!(stamps(&version_one(&ms, Some(3))), vec![9, 4, 6]);
    assert_eq!(stamps(&version_one(&ms, Some(2))), vec![9, 4]);
    assert_eq!(stamps(&version_one(&ms, None)), vec![9, 4, 6]);
    let cut = version_one(&ms, None);
    assert_eq!(stamps(&cut[..cut.len() - 15]), vec![9]);
    let r = opened(&version_one(&ms, Some(3)));
    assert_eq!(r.message_count(), None);
    assert!(r.chunk_index().is_empty());
    assert_eq!(r.seek_chunk(1), None);
    assert_eq!(r.time_range(), None);
}

#[test]
fn recorder_refuses_unknown_channels() {
    let mut rec = recorder(200, COMPRESS_NONE);
    assert_eq!(
        rec.write("zzz", Timestamp(1), b"x").unwrap_err().0,
        "unknown channel: zzz"
    );
    assert_eq!(rec.register_schema(&schema("t/a")).unwrap(), SchemaId(1));
    assert_eq!(rec.register_schema(&schema("t/c")).unwrap(), SchemaId(3));
    assert_eq!(rec.add_channel("a", &schema("t/b")).unwrap(), ChannelId(1));
}

#[test]
fn schemas_are_told_apart_by_type_and_encoding() {
    let named = |typename: &str, encoding: &str| Schema {
        id: 0,
        typename: typename.into(),
        encoding: encoding.into(),
    };
    let mut rec = Recorder::new(SingleFileWriter::open());
    assert_eq!(rec.register_schema(&named("a|b", "c")).unwrap(), SchemaId(1));
    assert_eq!(rec.register_schema(&named("a", "b|c")).unwrap(), SchemaId(2));
    assert_eq!(rec.register_schema(&named("a", "c")).unwrap(), SchemaId(3));
    assert_eq!(rec.register_schema(&named("a|b", "c")).unwrap(), SchemaId(1));
}

#[test]
fn records_cut_off_are_an_error() {
    // One chunk of three records, stored as they are; it announces a shorter block each time.
    let mut w = SingleFileWriter::open().compressor(COMPRESS_NONE);
    let s = w.add_schema(&schema("t")).unwrap();
    let c = w.add_channel("c", s).unwrap();
    for (t, p) in [(1, "a"), (2, ""), (3, "xyz")] {
        w.write(c, Timestamp(t), p.as_bytes()).unwrap();
    }
    w.finish().unwrap();
    let bytes = w.take_output();
    let whole = opened(&bytes).read_all().unwrap();
    let got: Vec<(u64, &[u8])> =
        whole.iter().map(|m| (m.stamp.0, m.payload.as_slice())).collect();
    assert_eq!(got, vec![(1, &b"a"[..]), (2, &b""[..]), (3, &b"xyz"[..])]);
    let at = opened(&bytes).chunk_index()[0].offset as usize;
    let len = 3 * 14 + 4;
    for k in 0..len {
        let mut cut = bytes.clone();
        let records = cut[at + 50..at + 50 + k].to_vec();
        cut[at + 38..at + 42].copy_from_slice(&(k as u32).to_le_bytes());
        cut[at + 42..at + 46].copy_from_slice(&(k as u32).to_le_bytes());
        cut[at + 46..at + 50].copy_from_slice(&crc32(&records).to_le_bytes());
        assert_eq!(opened(&cut).read_chunk_at(0).unwrap_err().0, "chunk records truncated");
    }
}

#[test]
fn records_are_parsed_in_order() {
    let r = opened(&written(200, COMPRESS_NONE));
    let mut d = Vec::new();
    for (channel, stamp, payload) in [(2u16, 9u64, "xy"), (1, 4, ""), (1, 4, "z")] {
        d.extend(channel.to_le_bytes());
        d.extend(stamp.to_le_bytes());
        d.extend((payload.len() as u32).to_le_bytes());
        d.extend(payload.as_bytes());
    }
    let ms = r.parse_records(&d, 3).unwrap();
    let got: Vec<(&str, &str, u64, &[u8])> = ms
        .iter()
        .map(|m| {
            (m.channel.as_str(), m.schema.typename.as_str(), m.stamp.0, m.payload.as_slice())
        })
        .collect();
    assert_eq!(
        got,
        vec![
            ("b", "t/b", 9, &b"xy"[..]),
            ("a", "t/a", 4, &b""[..]),
            ("a", "t/a", 4, &b"z"[..])
        ]
    );
    assert_eq!(r.parse_records(&d, 2).unwrap().len(), 2);
    for k in 0..d.len() {
        assert_eq!(r.parse_records(&d[..k], 3).unwrap_err().0, "chunk records truncated");
    }
}

#[test]
fn numbers_and_texts_are_read_one_after_the_other() {
    let mut d = vec![0x34, 0x12, 0x78, 0x56, 0x34, 0x12];
    d.extend_from_slice(&0x1122_3344_5566_7788u64.to_le_bytes());
    push_str(&mut d, "\u{e9}t\u{e9}");
    let mut pos = 0;
    assert_eq!(read_u16(&d, &mut pos).unwrap(), 0x1234);
    assert_eq!(read_u32(&d, &mut pos).unwrap(), 0x1234_5678);
    assert_eq!(read_u64(&d, &mut pos).unwrap(), 0x1122_3344_5566_7788);
    assert_eq!(read_str(&d, &mut pos).unwrap(), "\u{e9}t\u{e9}");
    assert_eq!(pos, d.len());
    assert!(read_u16(&d, &mut pos).is_err());
    assert!(read_u64(&d, &mut pos).is_err());
    assert!(read_str(&d, &mut pos).is_err());
    assert_eq!(pos, d.len());
    let mut at = 0;
    assert!(read_str(&[2, 0, 0, 0, 0xc3, 0x28], &mut at).is_err());
    let mut at = 0;
    assert!(read_str(&[9, 0, 0, 0, 65], &mut at).is_err());
}

#[test]
fn the_time_range_covers_all_chunks() {
    let mut w = SingleFileWriter::open().chunk_target(1);
    let s = w.add_schema(&schema("t")).unwrap();
    let c = w.add_channel("c", s).unwrap();
    for t in [5, 9, 2, 7] {
        w.write(c, Timestamp(t), b"x").unwrap();
    }
    w.finish().unwrap();
    let r = opened(&w.take_output());
    assert_eq!(r.chunk_index().len(), 4);
    assert_eq!(r.time_range(), Some((2, 9)));
    assert_eq!(r.message_count(), Some(4));
}
