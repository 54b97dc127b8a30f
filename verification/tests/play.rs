use doracap::memory::MemReader;
use doracap::message::{OwnedMessage, Schema, Timestamp};
use doracap::play::{PlayOptions, Player, TryNext, Upcoming};
use doracap::record::Recorder;
use doracap::sequential;
use doracap::singlefile::reader::SingleFileReader;
use doracap::singlefile::writer::SingleFileWriter;
use doracap::storage::{read_all_chunks, StorageReader};

fn msg(ns: u64) -> OwnedMessage {
    OwnedMessage {
        channel: "c".into(),
        stamp: Timestamp(ns),
        schema: Schema { id: 0, typename: "t".into(), encoding: "e".into() },
        payload: Vec::new(),
    }
}

fn stamp_of(m: Option<OwnedMessage>) -> Option<u64> {
    m.map(|m| m.stamp.0)
}

#[test]
fn sorts_by_stamp_then_seeks() {
    let reader = MemReader::new(vec![msg(30), msg(10), msg(20)]);
    let mut player = Player::open(reader, PlayOptions::default()).unwrap();

    assert_eq!(player.messages()[0].stamp, Timestamp(10));
    assert_eq!(player.messages()[2].stamp, Timestamp(30));
    assert_eq!(player.duration(), Timestamp(20));

    player.seek(Timestamp(20), 0);
    assert_eq!(player.next_message(0).unwrap().stamp, Timestamp(20));
    assert_eq!(player.next_message(0).unwrap().stamp, Timestamp(30));
    assert!(player.next_message(0).is_none());

    player.seek_ratio(player.duration().0, 0);
    assert_eq!(player.next_message(0).unwrap().stamp, Timestamp(30));
}

fn chunked(chunk_target: usize, stamps: &[u64]) -> SingleFileReader {
    let writer = SingleFileWriter::open().chunk_target(chunk_target);
    let mut rec = Recorder::new(writer);
    let schema = Schema { id: 0, typename: "t/c".into(), encoding: "raw".into() };
    rec.add_channel("c", &schema).unwrap();
    for t in stamps {
        rec.write("c", Timestamp(*t), &vec![0xBB; 60]).unwrap();
    }
    rec.finish().unwrap();
    SingleFileReader::open(rec.into_writer().take_output()).unwrap()
}

#[test]
fn streams_chunked_v2_with_seek() {
    let stamps: Vec<u64> = (0..12u64).map(|i| i * 10).collect();
    let mut player = Player::open(chunked(120, &stamps), PlayOptions::default()).unwrap();
    assert_eq!(player.message_count(), 12);
    let mut got = Vec::new();
    while let Some(m) = player.next_message(0) {
        got.push(m.stamp.0);
    }
    assert_eq!(got, (0..12).map(|i| i * 10).collect::<Vec<_>>());
    player.seek(Timestamp(55), 0);
    assert_eq!(player.next_message(0).unwrap().stamp.0, 60);
    player.seek_ratio(player.duration().0, 0);
    assert_eq!(player.next_message(0).unwrap().stamp.0, 110);
}

#[test]
fn seek_finds_the_first_message_not_earlier() {
    let stamps = [5, 5, 7, 9, 9, 9, 12];
    for target in 0..14u64 {
        let mut p = Player::open(chunked(150, &stamps), PlayOptions::default()).unwrap();
        p.seek(Timestamp(target), 0);
        let want: Vec<u64> = stamps.iter().copied().filter(|t| *t >= target).collect();
        let mut got = Vec::new();
        while let Some(m) = p.next_message(0) {
            got.push(m.stamp.0);
        }
        assert_eq!(got, want, "target {target}");
    }
}

#[test]
fn seek_reaches_a_chunk_behind_which_an_earlier_one_follows() {
    // The second chunk is earlier than the first one.
    let mut p = Player::open(chunked(70, &[100, 50]), PlayOptions::default()).unwrap();
    p.seek(Timestamp(80), 0);
    assert_eq!(stamp_of(p.next_message(0)), Some(100));
}

#[test]
fn chunks_out_of_order_are_played_in_order_of_time() {
    let mut p = Player::open(chunked(70, &[100, 50]), PlayOptions::default()).unwrap();
    assert_eq!(p.message_count(), 2);
    assert_eq!(p.first_stamp(), Some(Timestamp(50)));
    assert_eq!(p.last_stamp(), Some(Timestamp(100)));
    assert_eq!(p.now(0), Timestamp(50));
    assert_eq!(stamp_of(p.next_message(0)), Some(50));
    assert_eq!(stamp_of(p.next_message(0)), Some(100));
    assert!(p.next_message(0).is_none());
}

#[test]
fn equal_times_are_played_in_the_order_of_writing() {
    let mut rec = Recorder::new(SingleFileWriter::open().chunk_target(40));
    let schema = Schema { id: 0, typename: "t".into(), encoding: "raw".into() };
    rec.add_channel("c", &schema).unwrap();
    let stamps = [7u64, 9, 7, 3, 9, 3, 7];
    for (i, t) in stamps.iter().enumerate() {
        rec.write("c", Timestamp(*t), &[i as u8; 20]).unwrap();
    }
    rec.finish().unwrap();
    let reader = SingleFileReader::open(rec.into_writer().take_output()).unwrap();
    assert!(reader.chunk_index().len() > 2);
    let mut p = Player::open(reader, PlayOptions::default()).unwrap();
    let mut got = Vec::new();
    while let Some(m) = p.next_message(0) {
        got.push((m.stamp.0, m.payload[0]));
    }
    assert_eq!(got, vec![(3, 3), (3, 5), (7, 0), (7, 2), (7, 6), (9, 1), (9, 4)]);
}

#[test]
fn before_playing_it_is_the_time_of_the_first_message() {
    let ms = || MemReader::new(vec![msg(30), msg(10), msg(20)]);
    let mut p = Player::open(ms(), PlayOptions::default()).unwrap();
    assert_eq!(p.now(99), Timestamp(10));
    assert_eq!(stamp_of(p.next_message(0)), Some(10));
    assert_eq!(stamp_of(p.next_message(0)), Some(20));
    assert_eq!(p.now(99), Timestamp(10));
    let p = sequential::Player::open(ms(), PlayOptions::default()).unwrap();
    assert_eq!(p.now(99), Timestamp(30));
    let p = Player::open(MemReader::new(vec![]), PlayOptions::default()).unwrap();
    assert_eq!(p.now(99), Timestamp(0));
}

#[test]
fn streaming_and_reading_all_agree() {
    let stamps: Vec<u64> = (0..30u64).map(|i| i / 3).collect();
    let mut a = Player::open(chunked(300, &stamps), PlayOptions::default()).unwrap();
    let mut b = Player::open(chunked(300, &stamps), PlayOptions::default()).unwrap();
    let all: Vec<u64> = b.messages().iter().map(|m| m.stamp.0).collect();
    assert_eq!(all, stamps);
    for t in stamps {
        assert_eq!(stamp_of(a.next_message(0)), Some(t));
        assert_eq!(stamp_of(b.next_message(0)), Some(t));
    }
    assert_eq!(a.first_stamp(), Some(Timestamp(0)));
    assert_eq!(a.last_stamp(), Some(Timestamp(9)));
    assert_eq!(b.last_stamp(), Some(Timestamp(9)));
}

#[test]
fn looping_starts_over() {
    let opts = PlayOptions::default().looped(true);
    let mut p = Player::open(MemReader::new(vec![msg(1), msg(2)]), opts).unwrap();
    let got: Vec<Option<u64>> = (0..5).map(|_| stamp_of(p.next_message(0))).collect();
    assert_eq!(got, vec![Some(1), Some(2), Some(1), Some(2), Some(1)]);
    let mut none = Player::open(MemReader::new(vec![]), opts).unwrap();
    assert!(none.next_message(0).is_none());
    assert_eq!(none.duration(), Timestamp(0));
    assert_eq!(none.first_stamp(), None);
}

#[test]
fn paced_messages_wait() {
    let opts = PlayOptions::default().rate(1.0f64.to_bits());
    let mut p = Player::open(MemReader::new(vec![msg(100), msg(150)]), opts).unwrap();
    assert_eq!(p.now(0), Timestamp(0));
    assert!(matches!(p.poll(1000), Upcoming::Paced { start: 1000, delta: 0 }));
    assert!(matches!(p.try_next(1000, 0), TryNext::Ready(_)));
    assert!(matches!(p.poll(1010), Upcoming::Paced { start: 1000, delta: 50 }));
    assert!(matches!(p.try_next(1049, 50), TryNext::NonBlocking));
    assert!(matches!(p.try_next(1050, 50), TryNext::Ready(_)));
    assert!(matches!(p.try_next(1060, 50), TryNext::End));
    assert_eq!(p.clock(), Some((1000, 100)));
    assert_eq!(p.now(777), Timestamp(777));
}

#[test]
fn zero_and_negative_rates_do_not_pace() {
    for rate in [0.0f64, -0.0, -1.0, f64::NEG_INFINITY] {
        let opts = PlayOptions::default().rate(rate.to_bits());
        let mut p = Player::open(MemReader::new(vec![msg(100), msg(150)]), opts).unwrap();
        assert!(matches!(p.poll(5), Upcoming::Now), "rate {rate}");
        assert_eq!(p.clock(), None);
        assert_eq!(p.now(777), Timestamp(100));
    }
    for rate in [f64::MIN_POSITIVE, 2.5, f64::INFINITY, f64::NAN, -f64::NAN] {
        let opts = PlayOptions::default().rate(rate.to_bits());
        let mut p = Player::open(MemReader::new(vec![msg(100)]), opts).unwrap();
        assert!(matches!(p.poll(5), Upcoming::Paced { .. }), "rate {rate}");
    }
}

#[test]
fn seeking_and_changing_the_rate_set_the_clock() {
    let opts = PlayOptions::default().rate(1.0f64.to_bits());
    let mut p = Player::open(MemReader::new(vec![msg(100), msg(150), msg(400)]), opts).unwrap();
    p.seek(Timestamp(120), 9);
    assert_eq!(p.clock(), Some((9, 150)));
    p.seek(Timestamp(500), 10);
    assert_eq!(p.clock(), Some((10, 500)));
    p.set_rate(2.0f64.to_bits(), 11);
    assert_eq!(p.clock(), Some((11, 500)));
    p.seek_to_start(12);
    assert_eq!(p.clock(), Some((12, 100)));
    p.set_rate(0, 13);
    assert_eq!(p.clock(), None);
}

#[test]
fn messages_that_cannot_be_read_end_the_playing() {
    let writer = SingleFileWriter::open().chunk_target(70).compressor(0);
    let mut rec = Recorder::new(writer);
    let schema = Schema { id: 0, typename: "t".into(), encoding: "raw".into() };
    rec.add_channel("c", &schema).unwrap();
    for t in 0..3u64 {
        rec.write("c", Timestamp(t), &vec![1; 60]).unwrap();
    }
    rec.finish().unwrap();
    let mut bytes = rec.into_writer().take_output();
    let good = SingleFileReader::open(bytes.clone()).unwrap();
    let second = good.chunk_index()[1].offset as usize;
    bytes[second + 60] ^= 1;
    let bad = || SingleFileReader::open(bytes.clone()).unwrap();
    let mut p = Player::open(bad(), PlayOptions::default()).unwrap();
    assert_eq!(p.message_count(), 3);
    assert_eq!(stamp_of(p.next_message(0)), Some(0));
    assert!(p.next_message(0).is_none());
    let mut p = Player::open(bad(), PlayOptions::default()).unwrap();
    let all: Vec<u64> = p.messages().iter().map(|m| m.stamp.0).collect();
    assert_eq!(all, vec![0, 2]);
}

#[test]
fn a_reading_end_that_fails_is_not_opened() {
    // A file without trailer, whose only chunk is damaged.
    let bad = || {
        let writer = SingleFileWriter::open().compressor(0);
        let mut rec = Recorder::new(writer);
        let schema = Schema { id: 0, typename: "t".into(), encoding: "raw".into() };
        rec.add_channel("c", &schema).unwrap();
        rec.write("c", Timestamp(1), &[1; 60]).unwrap();
        rec.finish().unwrap();
        let mut bytes = rec.into_writer().take_output();
        let n = bytes.len();
        bytes.truncate(n - 60);
        bytes[n - 70] ^= 1;
        SingleFileReader::open(bytes).unwrap()
    };
    assert_eq!(
        Player::open(bad(), PlayOptions::default()).err().unwrap().0,
        "chunk crc mismatch"
    );
    assert_eq!(
        sequential::Player::open(bad(), PlayOptions::default()).err().unwrap().0,
        "chunk crc mismatch"
    );
}

#[test]
fn reading_chunk_by_chunk_gives_all_messages() {
    let mut r = chunked(120, &[1, 2, 3, 4, 5]);
    let stamps: Vec<u64> = read_all_chunks(&mut r).unwrap().iter().map(|m| m.stamp.0).collect();
    assert_eq!(stamps, vec![1, 2, 3, 4, 5]);
    let mut m = MemReader::new(vec![msg(1)]);
    assert!(read_all_chunks(&mut m).unwrap().is_empty());
    assert_eq!(
        m.read_chunk_at(0).unwrap_err().0,
        "chunked read unsupported by this storage reader"
    );
    assert_eq!(m.read_all().unwrap().len(), 1);
    assert!(m.read_all().unwrap().is_empty());
    assert!(m.schemas().is_empty() && m.channels().is_empty());
}

#[test]
fn the_sequential_player_keeps_the_stored_order() {
    let ms = vec![msg(30), msg(10), msg(20)];
    let opts = PlayOptions::default().rate(1.0f64.to_bits()).looped(true);
    let mut p = sequential::Player::open(MemReader::new(ms), opts).unwrap();
    assert_eq!(p.messages().len(), 3);
    assert!(matches!(p.poll(5), Upcoming::Paced { start: 5, delta: 0 }));
    assert_eq!(stamp_of(p.next_message(5)), Some(30));
    assert!(matches!(p.poll(5), Upcoming::Paced { start: 5, delta: -20 }));
    assert!(matches!(p.try_next(5, 1), TryNext::NonBlocking));
    assert!(matches!(p.try_next(6, 1), TryNext::Ready(_)));
    assert_eq!(stamp_of(p.next_message(6)), Some(20));
    assert_eq!(stamp_of(p.next_message(7)), Some(30));
    assert_eq!(p.clock(), Some((7, 30)));
    assert_eq!(p.now(8), Timestamp(8));
    p.seek_to_start(9);
    assert_eq!(p.clock(), Some((9, 30)));
}

#[test]
fn looped_calls_go_round() {
    let opts = PlayOptions::default().looped(true);
    let ms = || MemReader::new(vec![msg(30), msg(10), msg(20)]);
    let mut p = Player::open(ms(), opts).unwrap();
    let mut s = sequential::Player::open(ms(), opts).unwrap();
    let mut c = Player::open(chunked(70, &[30, 10, 20]), opts).unwrap();
    for k in 0..10u64 {
        assert_eq!(stamp_of(p.next_message(k)), Some([10, 20, 30][k as usize % 3]));
        assert_eq!(stamp_of(c.next_message(k)), Some([10, 20, 30][k as usize % 3]));
        assert_eq!(stamp_of(s.next_message(k)), Some([30, 10, 20][k as usize % 3]));
    }
}

#[test]
fn calls_after_seeking_give_the_rest_and_then_none() {
    let stamps = [5u64, 9, 5, 7, 7];
    for before in 0..7 {
        for target in 4..11u64 {
            let mut p = Player::open(chunked(70, &stamps), PlayOptions::default()).unwrap();
            for k in 0..before {
                p.next_message(k);
            }
            p.seek(Timestamp(target), 0);
            for want in [5u64, 5, 7, 7, 9].iter().filter(|t| **t >= target) {
                assert_eq!(stamp_of(p.next_message(0)), Some(*want));
            }
            assert!(p.next_message(0).is_none());
            assert!(p.next_message(0).is_none());
        }
    }
}
