//! A check of the whole way: sample messages are recorded, read back, decoded and compared.

use crate::compress::COMPRESS_DEFLATE;
use crate::fastlio::conv::{point_field, zeros};
use crate::fastlio::lio::schema_of;
use crate::fastlio::{conv, lio};
use crate::layout::RecordView;
use crate::message::{ChannelView, Error, MessageView, Schema, SchemaView, Timestamp};
use crate::msgs::codec;
use crate::msgs::codec::Codec;
use crate::msgs::types::{
    CloudView, FieldView, Header, HeaderView, Imu, ImuView, PointCloud, PointField, Time,
};
use crate::play::{PlayOptions, Player, PlayerView};
use crate::record::{Recorder, RecorderView};
use crate::singlefile::reader::{ReaderView, SingleFileReader};
use crate::singlefile::writer::{ClosedChunk, SingleFileWriter, WriterView};
use crate::singlefile::{laws, writer};
use crate::storage::{ChannelId, StorageReader};
use crate::text::{push_text, same_text, text_of, with_number};
use crate::{compress, layout, le, message, order, play, record, text, wire};
use vstd::prelude::*;

verus! {

/// The time stamp of a moment.
pub fn ts_of(t: &Time) -> (r: Timestamp)
    requires
        i64::MIN <= t.sec * 1_000_000_000,
        message::nanos(t.sec as int, t.nsec as int) <= i64::MAX,
    ensures
        r.0 == message::two_complement_64(message::nanos(t.sec as int, t.nsec as int)),
{
    Timestamp::from_sec_nsec(t.sec, t.nsec)
}

// ---------- the samples ----------

pub open spec fn sample_header() -> HeaderView {
    HeaderView { stamp: Time { sec: 100, nsec: 0 }, frame_id: "map"@ }
}

/// Four points of twelve bytes each.
pub open spec fn sample_cloud() -> CloudView {
    CloudView {
        header: sample_header(),
        height: 1,
        width: 4,
        fields: seq![
            conv::field_view("x"@, 0, 7),
            conv::field_view("y"@, 4, 7),
            conv::field_view("z"@, 8, 7),
        ],
        is_bigendian: false,
        point_step: 12,
        row_step: 48,
        data: Seq::new(48, |i: int| 0xaau8),
        is_dense: true,
    }
}

/// Turn rates of 0.1, 0.2 and 0.3, and an acceleration of 9.8 upwards.
pub open spec fn sample_imu() -> ImuView {
    ImuView {
        header: sample_header(),
        orientation: seq![0, 0, 0, 0x3ff0_0000_0000_0000],
        orientation_cov: conv::nine_zeros(),
        ang_vel: seq![0x3fb9_9999_9999_999a, 0x3fc9_9999_9999_999a, 0x3fd3_3333_3333_3333],
        ang_vel_cov: conv::nine_zeros(),
        lin_acc: seq![0, 0, 0x4023_9999_9999_999a],
        lin_acc_cov: conv::nine_zeros(),
    }
}

fn header() -> (h: Header)
    ensures
        h@ == sample_header(),
{
    Header { stamp: Time { sec: 100, nsec: 0 }, frame_id: text_of("map") }
}

fn cloud() -> (c: PointCloud)
    ensures
        c@ == sample_cloud(),
{
    let mut fields: Vec<PointField> = Vec::new();
    fields.push(point_field("x", 0, 7));
    fields.push(point_field("y", 4, 7));
    fields.push(point_field("z", 8, 7));
    let mut data: Vec<u8> = Vec::new();
    let mut i: usize = 0;
    while i < 48
        invariant
            i <= 48,
            data@ == Seq::new(i as nat, |k: int| 0xaau8),
        decreases 48 - i,
    {
        data.push(0xaa);
        i = i + 1;
        assert(data@ =~= Seq::new(i as nat, |k: int| 0xaau8));
    }
    assert(message::views(fields@) =~= sample_cloud().fields);
    PointCloud {
        header: header(),
        height: 1,
        width: 4,
        fields,
        is_bigendian: false,
        point_step: 12,
        row_step: 48,
        data,
        is_dense: true,
    }
}

fn imu() -> (m: Imu)
    ensures
        m@ == sample_imu(),
{
    let orientation: [u64; 4] = [0, 0, 0, 0x3ff0_0000_0000_0000];
    let ang_vel: [u64; 3] = [
        0x3fb9_9999_9999_999a,
        0x3fc9_9999_9999_999a,
        0x3fd3_3333_3333_3333,
    ];
    let lin_acc: [u64; 3] = [0, 0, 0x4023_9999_9999_999a];
    assert(orientation@ =~= sample_imu().orientation);
    assert(ang_vel@ =~= sample_imu().ang_vel);
    assert(lin_acc@ =~= sample_imu().lin_acc);
    Imu {
        header: header(),
        orientation,
        orientation_cov: zeros(),
        ang_vel,
        ang_vel_cov: zeros(),
        lin_acc,
        lin_acc_cov: zeros(),
    }
}

pub open spec fn sample_stamp() -> u64 {
    100_000_000_000
}

/// The records of the samples.
pub open spec fn sample_records() -> Seq<RecordView> {
    seq![
        RecordView {
            channel: 1,
            stamp: sample_stamp(),
            payload: PointCloud::encoded(sample_cloud()),
        },
        RecordView { channel: 2, stamp: sample_stamp(), payload: Imu::encoded(sample_imu()) },
    ]
}

pub open spec fn sample_schemas() -> Seq<SchemaView> {
    Seq::empty().push(SchemaView { id: 1, ..lio::schema_for::<PointCloud>() }).push(
        SchemaView { id: 2, ..lio::schema_for::<Imu>() },
    )
}

pub open spec fn sample_channels() -> Seq<ChannelView> {
    Seq::empty().push(ChannelView { id: 1, name: "lidar"@, schema_id: 1 }).push(
        ChannelView { id: 2, name: "imu"@, schema_id: 2 },
    )
}

/// What the bytes of the samples become in the file.
pub open spec fn sample_block() -> Result<Seq<u8>, Seq<char>> {
    compress::packed(COMPRESS_DEFLATE, layout::records_bytes(sample_records()))
}

/// Whether `d` is a finished file that holds the samples, and `w` is how it was written.
pub open spec fn holds_samples(w: WriterView, d: Seq<u8>) -> bool {
    &&& w.complete()
    &&& w.file() == d
    &&& w.head_schemas == sample_schemas()
    &&& w.head_channels == sample_channels()
    &&& sample_block() is Ok
    &&& w.log == seq![
        ClosedChunk { records: sample_records(), block: sample_block()->Ok_0 },
    ]
}

// ---------- sizes ----------

proof fn lemma_text_bytes_len(s: Seq<char>)
    ensures
        wire::text_bytes(s).len() <= 4 + 4 * s.len(),
{
    conv::lemma_text_len(s);
    le::lemma_le_bytes_len(vstd::utf8::encode_utf8(s).len(), 4);
}

proof fn lemma_bits_len(s: Seq<u64>)
    ensures
        codec::bits_bytes(s).len() == 8 * s.len(),
    decreases s.len(),
{
    if s.len() > 0 {
        lemma_bits_len(s.drop_last());
        le::lemma_le_bytes_len(s.last() as nat, 8);
    }
}

proof fn lemma_header_len(h: HeaderView)
    ensures
        codec::header_bytes(h).len() <= 16 + 4 * h.frame_id.len(),
{
    lemma_text_bytes_len(h.frame_id);
    le::lemma_le_bytes_len(message::two_complement_64(h.stamp.sec as int) as nat, 8);
    le::lemma_le_bytes_len(h.stamp.nsec as nat, 4);
}

proof fn lemma_imu_len()
    ensures
        Imu::encoded(sample_imu()).len() < 1000,
{
    reveal(codec::imu_bytes);
    reveal_strlit("map");
    let v = sample_imu();
    lemma_header_len(v.header);
    lemma_bits_len(v.orientation);
    lemma_bits_len(v.orientation_cov);
    lemma_bits_len(v.ang_vel);
    lemma_bits_len(v.ang_vel_cov);
    lemma_bits_len(v.lin_acc);
    lemma_bits_len(v.lin_acc_cov);
}

proof fn lemma_fields_len(s: Seq<FieldView>)
    requires
        forall|i: int| 0 <= i < s.len() ==> (#[trigger] s[i]).name.len() <= 4,
    ensures
        codec::fields_bytes(s).len() <= 29 * s.len(),
    decreases s.len(),
{
    if s.len() > 0 {
        let f = s.last();
        let front = s.drop_last();
        assert forall|i: int| 0 <= i < front.len() implies (#[trigger] front[i]).name.len() <= 4 by {
            assert(s[i].name.len() <= 4);
        }
        lemma_fields_len(front);
        assert(s[s.len() - 1].name.len() <= 4);
        lemma_text_bytes_len(f.name);
        le::lemma_le_bytes_len(f.offset as nat, 4);
        le::lemma_le_bytes_len(f.count as nat, 4);
    }
}

proof fn lemma_cloud_len()
    ensures
        PointCloud::encoded(sample_cloud()).len() < 1000,
{
    reveal(codec::cloud_front_bytes);
    reveal(codec::cloud_back_bytes);
    reveal_strlit("map");
    reveal_strlit("x");
    reveal_strlit("y");
    reveal_strlit("z");
    let v = sample_cloud();
    lemma_header_len(v.header);
    lemma_fields_len(v.fields);
    le::lemma_le_bytes_len(v.height as nat, 4);
    le::lemma_le_bytes_len(v.width as nat, 4);
    le::lemma_le_bytes_len(v.fields.len(), 4);
    le::lemma_le_bytes_len(v.point_step as nat, 4);
    le::lemma_le_bytes_len(v.row_step as nat, 4);
    le::lemma_le_bytes_len(v.data.len(), 4);
}

// ---------- recording ----------

/// Adding a channel to a container file does not fail.
proof fn lemma_adding_succeeds(
    before: RecorderView<SingleFileWriter>,
    name: Seq<char>,
    schema: SchemaView,
    after: RecorderView<SingleFileWriter>,
    id: Result<ChannelId, Error>,
)
    requires
        record::added(before, name, schema, after, id),
    ensures
        id is Ok,
        lio::channel_step_done(before, name, schema, after, Ok::<(), Error>(())),
{
    lio::lemma_channel_step(before, name, schema, after, id, Ok::<(), Error>(()));
}

proof fn lemma_samples_differ()
    ensures
        "lidar"@ != "imu"@,
        lio::schema_for::<PointCloud>().typename.len() != lio::schema_for::<Imu>().typename.len(),
{
    lio::lemma_names_differ();
    lio::lemma_types_differ();
}

/// The state of the writer once the channels of the samples are declared.
spec fn declared_writer() -> WriterView {
    WriterView {
        schemas: sample_schemas(),
        channels: sample_channels(),
        ..WriterView::fresh()
    }
}

proof fn lemma_declared_sound()
    ensures
        declared_writer().sound(),
{
}

/// A recorder of a new container file that knows the channels of the samples.
fn sample_recorder() -> (r: Result<Recorder<SingleFileWriter>, Error>)
    ensures
        r matches Ok(rec) && lio::knows(
            rec@,
            sample_schemas(),
            sample_channels(),
            WriterView::fresh(),
        ),
{
    let file: SingleFileWriter = SingleFileWriter::open();
    let mut rec: Recorder<SingleFileWriter> = Recorder::new(file);
    let ghost m0 = rec@;
    proof {
        lemma_samples_differ();
        lio::lemma_nothing_known(file);
    }
    let schema: Schema = schema_of::<PointCloud>();
    let id: Result<ChannelId, Error> = rec.add_channel("lidar", &schema);
    let ghost m1 = rec@;
    proof {
        lemma_adding_succeeds(m0, "lidar"@, schema@, m1, id);
        lio::lemma_declare(
            m0,
            "lidar"@,
            schema@,
            m1,
            Seq::empty(),
            Seq::empty(),
            WriterView::fresh(),
        );
    }
    if let Err(e) = id {
        return Err(e);
    }
    let schema: Schema = schema_of::<Imu>();
    let id: Result<ChannelId, Error> = rec.add_channel("imu", &schema);
    proof {
        lemma_adding_succeeds(m1, "imu"@, schema@, rec@, id);
        let a = Seq::empty().push(SchemaView { id: 1, ..lio::schema_for::<PointCloud>() });
        let b = Seq::empty().push(ChannelView { id: 1, name: "lidar"@, schema_id: 1 });
        lio::lemma_declare(m1, "imu"@, schema@, rec@, a, b, WriterView::fresh());
    }
    if let Err(e) = id {
        return Err(e);
    }
    Ok(rec)
}

proof fn lemma_known_channels(rec: RecorderView<SingleFileWriter>)
    requires
        rec.channels == Seq::new(
            sample_channels().len(),
            |i: int| (sample_channels()[i].name, ChannelId(sample_channels()[i].id)),
        ),
    ensures
        record::kept_under(rec.channels, "lidar"@) == Some(ChannelId(1)),
        record::kept_under(rec.channels, "imu"@) == Some(ChannelId(2)),
{
    lemma_samples_differ();
    let s = rec.channels;
    assert(s.last() == ("imu"@, ChannelId(2)));
    assert(s.drop_last().last() == ("lidar"@, ChannelId(1)));
    reveal_with_fuel(record::kept_under, 3);
}

/// The state of the writer once the samples are written: both wait in the open chunk.
proof fn lemma_samples_written()
    ensures
        ({
            let rs = sample_records();
            let a = declared_writer().after_write(rs[0]);
            let b = a.0.after_write(rs[1]);
            &&& a.1 is None
            &&& b.1 is None
            &&& b.0.pending == rs
            &&& b.0.log.len() == 0
            &&& b.0.taken.len() == 0
            &&& b.0.header_written
            &&& !b.0.finished
            &&& b.0.compressor == COMPRESS_DEFLATE
            &&& b.0.head_schemas == sample_schemas()
            &&& b.0.head_channels == sample_channels()
        }),
{
    lemma_cloud_len();
    lemma_imu_len();
    let rs = sample_records();
    let b = declared_writer().after_write(rs[0]).0.after_write(rs[1]);
    assert(b.0.pending =~= rs);
}

/// The state of the writer once the recording is finished.
proof fn lemma_samples_finished(w: WriterView)
    requires
        w.pending == sample_records(),
        w.log.len() == 0,
        w.taken.len() == 0,
        w.header_written,
        !w.finished,
        w.compressor == COMPRESS_DEFLATE,
        w.head_schemas == sample_schemas(),
        w.head_channels == sample_channels(),
    ensures
        ({
            let (after, e) = w.after_finish();
            match sample_block() {
                Err(words) => e == Some(words),
                Ok(block) => {
                    &&& e is None
                    &&& after.taken.len() == 0
                    &&& after.head_schemas == sample_schemas()
                    &&& after.head_channels == sample_channels()
                    &&& after.log == seq![ClosedChunk { records: sample_records(), block }]
                },
            }
        }),
{
    let rs = sample_records();
    assert(order::in_time_order(rs));
    order::law_sorting_keeps_order(rs);
    if let Ok(block) = sample_block() {
        assert(w.log.push(ClosedChunk { records: rs, block }) =~= seq![
            ClosedChunk { records: rs, block },
        ]);
    }
}

/// Records the samples. This fails only where they cannot be compressed.
pub fn record_samples() -> (r: Result<Vec<u8>, Error>)
    ensures
        match r {
            Ok(bytes) => samples_in(bytes@),
            Err(e) => sample_block() == Err::<Seq<u8>, Seq<char>>(e@),
        },
{
    let mut rec: Recorder<SingleFileWriter> = sample_recorder()?;
    proof {
        lemma_declared_sound();
        lemma_known_channels(rec@);
        lemma_samples_written();
        assert(rec@.writer@ == declared_writer());
    }
    let c: PointCloud = cloud();
    let mut buf: Vec<u8> = Vec::new();
    c.encode(&mut buf);
    assert(buf@ =~= sample_records()[0].payload);
    rec.write("lidar", ts_of(&c.header.stamp), buf.as_slice())?;
    let m: Imu = imu();
    let mut buf: Vec<u8> = Vec::new();
    m.encode(&mut buf);
    assert(buf@ =~= sample_records()[1].payload);
    rec.write("imu", ts_of(&m.header.stamp), buf.as_slice())?;
    proof {
        lemma_samples_finished(rec@.writer@);
    }
    rec.finish()?;
    let mut w: SingleFileWriter = rec.into_writer();
    let ghost done = w@;
    let bytes: Vec<u8> = w.take_output();
    proof {
        assert(done.file() =~= bytes@);
        assert(holds_samples(done, bytes@));
    }
    Ok(bytes)
}

/// Whether `d` is a finished file that holds the samples.
pub open spec fn samples_in(d: Seq<u8>) -> bool {
    exists|w: WriterView| holds_samples(w, d)
}

// ---------- checking ----------

/// What was found of the samples so far.
pub struct Seen {
    pub cloud: Option<CloudView>,
    pub imu: Option<ImuView>,
}

/// What was found once the message `m` is played, or the words of the error.
pub open spec fn seen_next(s: Seen, m: MessageView) -> Result<Seen, Seq<char>> {
    if m.channel == "lidar"@ {
        match PointCloud::decoded(m.payload) {
            Ok(c) => Ok(Seen { cloud: Some(c), ..s }),
            Err(e) => Err("decode: "@ + e),
        }
    } else if m.channel == "imu"@ {
        match Imu::decoded(m.payload) {
            Ok(i) => Ok(Seen { imu: Some(i), ..s }),
            Err(e) => Err("decode: "@ + e),
        }
    } else {
        Err("unexpected channel "@ + m.channel)
    }
}

/// What is found once the messages `ms` are played, or the words of the first error.
pub open spec fn seen(ms: Seq<MessageView>) -> Result<Seen, Seq<char>>
    decreases ms.len(),
{
    if ms.len() == 0 {
        Ok(Seen { cloud: None, imu: None })
    } else {
        match seen(ms.drop_last()) {
            Err(e) => Err(e),
            Ok(s) => seen_next(s, ms.last()),
        }
    }
}

/// Whether a player plays the samples, or the words of what is wrong.
pub open spec fn verdict(p: PlayerView) -> Result<(), Seq<char>> {
    let ms = p.all_messages();
    if ms.len() != 2 {
        Err("expected 2 messages, got "@ + text::decimal(ms.len()))
    } else {
        match seen(
            ms.take(
                if p.total < 2 {
                    p.total as int
                } else {
                    2
                },
            ),
        ) {
            Err(e) => Err(e),
            Ok(s) => if s.cloud != Some(sample_cloud()) {
                Err("PointCloud round-trip mismatch"@)
            } else if !(s.imu is Some && s.imu->Some_0.same_as(sample_imu())) {
                Err("Imu round-trip mismatch"@)
            } else {
                Ok(())
            },
        }
    }
}

/// How the samples are played: as fast as possible, once.
pub open spec fn plain() -> PlayOptions {
    PlayOptions { rate: 0, loop_: false }
}

/// Whether the file `d` plays the samples, or the words of what is wrong.
pub open spec fn file_verdict(d: Seq<u8>) -> Result<(), Seq<char>> {
    match ReaderView::of_file(d) {
        Err(e) => Err(e),
        Ok(r) => if r.index.len() == 0 && r.whole_content() is Err {
            Err(r.whole_content()->Err_0)
        } else {
            verdict(laws::player_of(r, plain()))
        },
    }
}

fn decode_failure(e: codec::DecodeError) -> (r: Error)
    ensures
        r@ == "decode: "@ + e@,
{
    Error(e.describe())
}

/// Plays all messages and compares them with the samples.
pub fn check_player<R: StorageReader>(player: &mut Player<R>) -> (r: Result<(), Error>)
    requires
        old(player).sound(),
        old(player)@.options == plain(),
        old(player)@.pos == 0,
    ensures
        match r {
            Ok(_) => verdict(old(player)@) is Ok,
            Err(e) => verdict(old(player)@) == Err::<(), Seq<char>>(e@),
        },
{
    let n: usize = player.messages().len();
    let ghost p = old(player)@;
    let ghost ms = p.all_messages();
    assert(ms.len() == n);
    if n != 2 {
        return Err(Error(with_number("expected 2 messages, got ", n as u64)));
    }
    let mut got_cloud: Option<PointCloud> = None;
    let mut got_imu: Option<Imu> = None;
    let ghost end = if p.total < 2 {
        p.total as int
    } else {
        2
    };
    assert(ms.take(0).len() == 0);
    loop
        invariant
            player.sound(),
            player@.all == Some(ms),
            player@.total == p.total,
            player@.options == plain(),
            player@.pos <= end,
            end == (if p.total < 2 {
                p.total as int
            } else {
                2
            }),
            ms.len() == 2,
            ms == p.all_messages(),
            p == old(player)@,
            seen(ms.take(player@.pos as int)) is Ok,
            seen(ms.take(player@.pos as int))->Ok_0.cloud == (match got_cloud {
                Some(c) => Some(c@),
                None => None::<CloudView>,
            }),
            seen(ms.take(player@.pos as int))->Ok_0.imu == (match got_imu {
                Some(m) => Some(m@),
                None => None::<ImuView>,
            }),
        ensures
            player@.pos == end,
        decreases end - player@.pos,
    {
        let ghost k = player@.pos as int;
        match player.next_message(0) {
            None => {
                break ;
            },
            Some(m) => {
                proof {
                    assert(m@ == ms[k]);
                    assert(ms.take(k + 1).drop_last() =~= ms.take(k));
                    assert(ms.take(k + 1).last() == ms[k]);
                    lemma_seen_stops(ms, k + 1, end);
                }
                if same_text(m.channel.as_str(), "lidar") {
                    match PointCloud::decode(m.payload.as_slice()) {
                        Ok(c) => {
                            got_cloud = Some(c);
                        },
                        Err(e) => {
                            return Err(decode_failure(e));
                        },
                    }
                } else if same_text(m.channel.as_str(), "imu") {
                    match Imu::decode(m.payload.as_slice()) {
                        Ok(i) => {
                            got_imu = Some(i);
                        },
                        Err(e) => {
                            return Err(decode_failure(e));
                        },
                    }
                } else {
                    let mut words: String = text_of("unexpected channel ");
                    push_text(&mut words, m.channel.as_str());
                    return Err(Error(words));
                }
            },
        }
    }
    let same_cloud: bool = match &got_cloud {
        Some(c) => c.same_as(&cloud()),
        None => false,
    };
    if !same_cloud {
        return Err(Error::msg("PointCloud round-trip mismatch"));
    }
    let same_imu: bool = match &got_imu {
        Some(m) => m.same_as(&imu()),
        None => false,
    };
    if !same_imu {
        return Err(Error::msg("Imu round-trip mismatch"));
    }
    Ok(())
}

/// An error among the first messages is the error of all of them.
proof fn lemma_seen_stops(ms: Seq<MessageView>, i: int, n: int)
    requires
        0 <= i <= n <= ms.len(),
    ensures
        seen(ms.take(i)) is Err ==> seen(ms.take(n)) == seen(ms.take(i)),
    decreases n,
{
    if i < n {
        lemma_seen_stops(ms, i, n - 1);
        assert(ms.take(n).drop_last() =~= ms.take(n - 1));
    }
}

/// Reads the file `data` and compares what it plays with the samples.
pub fn check_samples(data: Vec<u8>) -> (r: Result<(), Error>)
    requires
        layout::index_fits(data@),
        ReaderView::of_file(data@) matches Ok(v) ==> play::count_before(
            v.index,
            v.index.len() as int,
        ) <= usize::MAX,
    ensures
        match r {
            Ok(_) => file_verdict(data@) is Ok,
            Err(e) => file_verdict(data@) == Err::<(), Seq<char>>(e@),
        },
{
    let reader: SingleFileReader = SingleFileReader::open(data)?;
    let options: PlayOptions = PlayOptions::default();
    proof {
        laws::lemma_player_of(reader, options);
        assert(options == plain());
    }
    let mut player: Player<SingleFileReader> = Player::open(reader, options)?;
    check_player(&mut player)
}

// ---------- what was recorded passes ----------

proof fn lemma_tables_fit()
    ensures
        laws::tables_fit(sample_schemas(), sample_channels()),
{
    codec::lemma_names();
    reveal_strlit("doracap/PointCloud");
    reveal_strlit("doracap/Imu");
    reveal_strlit("rbag1");
    reveal_strlit("lidar");
    reveal_strlit("imu");
    conv::lemma_text_len(PointCloud::TYPE_NAME@);
    conv::lemma_text_len(Imu::TYPE_NAME@);
    conv::lemma_text_len("rbag1"@);
    conv::lemma_text_len("lidar"@);
    conv::lemma_text_len("imu"@);
}

proof fn lemma_samples_fit()
    ensures
        PointCloud::fits(sample_cloud()),
        Imu::fits(sample_imu()),
{
    reveal_strlit("map");
    reveal_strlit("x");
    reveal_strlit("y");
    reveal_strlit("z");
    conv::lemma_text_len("map"@);
    conv::lemma_text_len("x"@);
    conv::lemma_text_len("y"@);
    conv::lemma_text_len("z"@);
}

proof fn lemma_file_fits(w: WriterView, d: Seq<u8>)
    requires
        holds_samples(w, d),
        d.len() < 0x1_0000_0000,
    ensures
        laws::file_fits(w),
        w.recorded() == sample_records(),
{
    lemma_tables_fit();
    lemma_cloud_len();
    lemma_imu_len();
    let rs = sample_records();
    assert(rs.drop_last().drop_last() =~= Seq::empty());
    reveal_with_fuel(layout::records_size, 3);
    assert(w.log.drop_last() =~= Seq::empty());
    reveal_with_fuel(writer::log_bytes, 2);
    reveal_with_fuel(writer::log_records, 2);
    assert(writer::log_bytes(w.log).len() >= sample_block()->Ok_0.len());
    assert(w.recorded() =~= rs);
}

/// The messages that the records of the samples stand for.
spec fn sample_messages() -> Seq<MessageView> {
    seq![
        MessageView {
            channel: "lidar"@,
            stamp: sample_stamp(),
            schema: sample_schemas()[0],
            payload: PointCloud::encoded(sample_cloud()),
        },
        MessageView {
            channel: "imu"@,
            stamp: sample_stamp(),
            schema: sample_schemas()[1],
            payload: Imu::encoded(sample_imu()),
        },
    ]
}

proof fn lemma_samples_resolve()
    ensures
        layout::resolved_all(sample_schemas(), sample_channels(), sample_records())
            == sample_messages(),
{
    let w = declared_writer();
    lemma_declared_sound();
    let rs = sample_records();
    laws::law_message_on_declared_channel_resolves(w, 0, 0, rs[0].stamp, rs[0].payload);
    laws::law_message_on_declared_channel_resolves(w, 1, 1, rs[1].stamp, rs[1].payload);
    assert(layout::resolved_all(sample_schemas(), sample_channels(), rs) =~= sample_messages());
}

#[verifier::rlimit(40)]
proof fn lemma_samples_pass()
    ensures
        seen(sample_messages()) matches Ok(s) && s.cloud == Some(sample_cloud()) && s.imu == Some(
            sample_imu(),
        ),
        sample_imu().same_as(sample_imu()),
{
    lemma_samples_differ();
    lemma_samples_fit();
    PointCloud::law_decodes_to_itself(sample_cloud());
    Imu::law_decodes_to_itself(sample_imu());
    let ms = sample_messages();
    assert(ms.drop_last().drop_last() =~= Seq::empty());
    assert(ms.drop_last().last() == ms[0]);
    reveal_with_fuel(seen, 3);
}

#[verifier::rlimit(40)]
proof fn lemma_samples_played(w: WriterView, d: Seq<u8>)
    requires
        holds_samples(w, d),
        d.len() < 0x1_0000_0000,
    ensures
        layout::index_fits(d),
        ReaderView::of_file(d) matches Ok(r) && r.index.len() == 1 && laws::player_of(
            r,
            plain(),
        ).total == 2 && laws::player_of(r, plain()).all_messages() == sample_messages(),
{
    lemma_file_fits(w, d);
    lemma_samples_resolve();
    laws::law_finished_file_reads_back(w);
    laws::law_finished_file_reads_by_chunk(w, 0);
    laws::law_finished_file_is_playable(w, plain());
    let p = laws::player_of(ReaderView::of_file(d)->Ok_0, plain());
    assert(order::in_time_order(w.recorded()));
    play::law_streaming_plays_what_reading_all_gives(p, 0);
    play::law_streaming_plays_what_reading_all_gives(p, 1);
    laws::law_finished_file_plays_what_was_recorded(w, plain(), 0);
    laws::law_finished_file_plays_what_was_recorded(w, plain(), 1);
    assert(p.all_messages() =~= sample_messages());
}

/// A file that holds the samples passes the check, as long as its sizes fit their fields.
#[verifier::rlimit(40)]
pub proof fn law_recorded_samples_pass(d: Seq<u8>)
    requires
        samples_in(d),
        d.len() < 0x1_0000_0000,
    ensures
        layout::index_fits(d),
        ReaderView::of_file(d) matches Ok(r) && play::count_before(r.index, r.index.len() as int)
            <= usize::MAX,
        file_verdict(d) is Ok,
{
    let w = choose|w: WriterView| holds_samples(w, d);
    lemma_samples_played(w, d);
    lemma_samples_pass();
    assert(sample_messages().take(2) =~= sample_messages());
}

/// Records the samples, reads them back and compares. This fails only where the samples cannot
/// be compressed, or where they are blown up beyond what the fields of a file can say.
pub fn roundtrip() -> (r: Result<Vec<u8>, Error>)
    ensures
        match r {
            Ok(bytes) => samples_in(bytes@) && file_verdict(bytes@) is Ok,
            Err(e) => sample_block() == Err::<Seq<u8>, Seq<char>>(e@) || exists|d: Seq<u8>|
                samples_in(d) && #[trigger] d.len() >= 0x1_0000_0000,
        },
{
    let bytes: Vec<u8> = record_samples()?;
    if bytes.len() as u64 >= 0x1_0000_0000 {
        return Err(Error::msg("recording too long"));
    }
    proof {
        law_recorded_samples_pass(bytes@);
    }
    let copy: Vec<u8> = bytes.clone();
    assert(copy@ =~= bytes@);
    check_samples(copy)?;
    Ok(bytes)
}

/// A player passes the check only if it plays two messages, and among them one on the channel
/// `lidar` that decodes to the sample cloud, and one on the channel `imu` that decodes to the same
/// measurement as the sample.
pub proof fn law_only_the_samples_pass(p: PlayerView)
    requires
        verdict(p) is Ok,
    ensures
        p.all_messages().len() == 2,
        exists|i: int|
            0 <= i < 2 && (#[trigger] p.all_messages()[i]).channel == "lidar"@
                && PointCloud::decoded(p.all_messages()[i].payload) == Ok::<CloudView, Seq<char>>(
                sample_cloud(),
            ),
        exists|i: int|
            0 <= i < 2 && (#[trigger] p.all_messages()[i]).channel == "imu"@ && (Imu::decoded(
                p.all_messages()[i].payload,
            ) matches Ok(m) && m.same_as(sample_imu())),
{
    lemma_samples_differ();
    let ms = p.all_messages();
    let n = if p.total < 2 {
        p.total as int
    } else {
        2
    };
    lemma_seen_where(ms.take(n));
    let s = seen(ms.take(n))->Ok_0;
    assert(forall|i: int| 0 <= i < n ==> #[trigger] ms.take(n)[i] == ms[i]);
    let a = choose|i: int|
        0 <= i < n && (#[trigger] ms.take(n)[i]).channel == "lidar"@ && PointCloud::decoded(
            ms.take(n)[i].payload,
        ) == Ok::<CloudView, Seq<char>>(s.cloud->Some_0);
    let b = choose|i: int|
        0 <= i < n && (#[trigger] ms.take(n)[i]).channel == "imu"@ && Imu::decoded(
            ms.take(n)[i].payload,
        ) == Ok::<ImuView, Seq<char>>(s.imu->Some_0);
    assert(ms[a] == ms.take(n)[a]);
    assert(ms[b] == ms.take(n)[b]);
}

/// What was found stands in one of the messages.
proof fn lemma_seen_where(ms: Seq<MessageView>)
    ensures
        seen(ms) matches Ok(s) ==> (s.cloud is Some ==> exists|i: int|
            0 <= i < ms.len() && (#[trigger] ms[i]).channel == "lidar"@ && PointCloud::decoded(
                ms[i].payload,
            ) == Ok::<CloudView, Seq<char>>(s.cloud->Some_0)) && (s.imu is Some ==> exists|i: int|
            0 <= i < ms.len() && (#[trigger] ms[i]).channel == "imu"@ && Imu::decoded(ms[i].payload)
                == Ok::<ImuView, Seq<char>>(s.imu->Some_0)),
    decreases ms.len(),
{
    if ms.len() > 0 {
        let front = ms.drop_last();
        lemma_seen_where(front);
        assert(ms[ms.len() - 1] == ms.last());
        assert(forall|i: int| 0 <= i < front.len() ==> #[trigger] front[i] == ms[i]);
        if let Ok(f) = seen(front) {
            if let Ok(s) = seen(ms) {
                if f.cloud is Some && s.cloud == f.cloud {
                    let i = choose|i: int|
                        0 <= i < front.len() && (#[trigger] front[i]).channel == "lidar"@
                            && PointCloud::decoded(front[i].payload) == Ok::<CloudView, Seq<char>>(
                            f.cloud->Some_0,
                        );
                    assert(ms[i] == front[i]);
                }
                if f.imu is Some && s.imu == f.imu {
                    let i = choose|i: int|
                        0 <= i < front.len() && (#[trigger] front[i]).channel == "imu"@
                            && Imu::decoded(front[i].payload) == Ok::<ImuView, Seq<char>>(
                            f.imu->Some_0,
                        );
                    assert(ms[i] == front[i]);
                }
            }
        }
    }
}

} // verus!
