//! What calls do, in terms of what they are given and what they give back.

use crate::cli::{Lidar, PlayArgs};
use crate::export::{MapPoint, PosRow};
use crate::fastlio::conv::{AviaMsg, ImuRaw, SensorData, SensorView, StandardMsg};
use crate::fastlio::lio::{LioRecorder, PoseRow};
use crate::fastlio::source::{BagDataSource, Taken};
use crate::fastlio::{clouds, conv, lio, source};
use crate::inspect::Topic;
use crate::json::{Number, Scalar};
use crate::jsonvalue::Json;
use crate::layout::RecordView;
use crate::message::{ChunkIndex, Error, MessageView, OwnedMessage, Timestamp};
use crate::msgs::codec::{Codec, DecodeError};
use crate::msgs::types::{Imu, PointCloud, PoseStamped, SceneMeta, Time};
use crate::play::{PlayOptions, Player, PlayerView, TryNext, Upcoming};
use crate::record::Recorder;
use crate::singlefile::reader::{ReaderView, SingleFileReader};
use crate::singlefile::writer::{SingleFileWriter, WriterView};
use crate::singlefile::{laws, policy};
use crate::storage::{ChannelId, StorageReader, StorageWriter};
use crate::{cli, compress, crc, export, inspect, json, jsonline, jsonvalue, layout, le};
use crate::{message, order, pacing, play, record, sequential, split, text};
use vstd::prelude::*;

verus! {

// ---------- playing ----------

/// After a change of speed, whenever it is asked for, the next message is due at the moment of the
/// change, wherever playing was; the place, and what there is to play, stay.
pub proof fn law_set_rate_makes_the_next_message_due<R: StorageReader>(rate: u64, now: u64, t: u64)
    requires
        !play::unpaced(rate),
    ensures
        forall|p: &mut Player<R>, q: &mut Player<R>, r: Upcoming|
            #![trigger call_ensures(Player::<R>::set_rate, (p, rate, now), ()),
                call_ensures(Player::<R>::poll, (q, t), r)]
            call_ensures(Player::<R>::set_rate, (p, rate, now), ()) && call_ensures(
                Player::<R>::poll,
                (q, t),
                r,
            ) && q@ == final(p)@ && p@.playable() && p@.pos < p@.total ==> r == (Upcoming::Paced {
                start: now,
                delta: 0,
            }) && final(q)@.pos == p@.pos && final(q)@.all_messages() == p@.all_messages(),
{
    assert forall|p: &mut Player<R>, q: &mut Player<R>, r: Upcoming|
        #![trigger call_ensures(Player::<R>::set_rate, (p, rate, now), ()),
                call_ensures(Player::<R>::poll, (q, t), r)]
        call_ensures(Player::<R>::set_rate, (p, rate, now), ()) && call_ensures(
            Player::<R>::poll,
            (q, t),
            r,
        ) && q@ == final(p)@ && p@.playable() && p@.pos < p@.total implies r == (Upcoming::Paced {
        start: now,
        delta: 0,
    }) && final(q)@.pos == p@.pos && final(q)@.all_messages() == p@.all_messages() by {
        pacing::law_change_of_speed_is_due_now(p@, rate, now, Seq::empty());
    }
}

/// The times that a player tells are those of the messages in order of time: the first, the last,
/// and from the one to the other the duration.
pub proof fn law_duration_is_from_the_first_to_the_last<R: StorageReader>(
    p: &Player<R>,
    d: Timestamp,
    first: Option<Timestamp>,
    last: Option<Timestamp>,
    chunks: Seq<ChunkIndex>,
    contents: Seq<Result<Seq<MessageView>, Seq<char>>>,
    whole: Result<Seq<MessageView>, Seq<char>>,
)
    requires
        call_ensures(Player::<R>::duration, (p,), d),
        call_ensures(Player::<R>::first_stamp, (p,), first),
        call_ensures(Player::<R>::last_stamp, (p,), last),
        play::readable(chunks, contents, whole),
        pacing::plays(p@, chunks, contents, whole),
    ensures
        ({
            let ms = order::time_sorted(play::stored(chunks, contents, whole));
            &&& ms.len() > 0 ==> d.0 == ms.last().stamp - ms.first().stamp
            &&& ms.len() > 0 ==> first == Some(Timestamp(ms.first().stamp)) && last == Some(
                Timestamp(ms.last().stamp),
            )
            &&& ms.len() == 0 ==> d.0 == 0 && first is None && last is None
        }),
{
    pacing::law_duration_spans_the_messages(p@, chunks, contents, whole);
}

/// A player gives the message at its place and goes one further; behind the last one it gives
/// nothing, or the first one again where it starts over.
pub proof fn law_next_message_gives_the_next<R: StorageReader>(now: u64)
    ensures
        forall|p: &mut Player<R>, r: Option<OwnedMessage>|
            #![trigger call_ensures(Player::<R>::next_message, (p, now), r)]
            call_ensures(Player::<R>::next_message, (p, now), r) && p@.playable() ==> {
                let ms = p@.all_messages();
                &&& p@.pos < p@.total ==> r is Some && r->Some_0@ == ms[p@.pos as int]
                    && final(p)@.pos == p@.pos + 1
                &&& p@.pos == p@.total && p@.total > 0 && p@.options.loop_ ==> r is Some
                    && r->Some_0@ == ms[0] && final(p)@.pos == 1
                &&& p@.pos == p@.total && !p@.options.loop_ ==> r is None && final(p)@.pos == p@.pos
            },
{
    assert forall|p: &mut Player<R>, r: Option<OwnedMessage>|
        #![trigger call_ensures(Player::<R>::next_message, (p, now), r)]
        call_ensures(Player::<R>::next_message, (p, now), r) && p@.playable() implies {
        let ms = p@.all_messages();
        &&& p@.pos < p@.total ==> r is Some && r->Some_0@ == ms[p@.pos as int] && final(p)@.pos
            == p@.pos + 1
        &&& p@.pos == p@.total && p@.total > 0 && p@.options.loop_ ==> r is Some && r->Some_0@
            == ms[0] && final(p)@.pos == 1
        &&& p@.pos == p@.total && !p@.options.loop_ ==> r is None && final(p)@.pos == p@.pos
    } by {
        let v = p@;
        if v.pos < v.total || v.total > 0 {
            let i = if v.pos < v.total {
                v.pos
            } else {
                0
            };
            play::law_streaming_plays_what_reading_all_gives(v, i);
            let w = v.poised(now);
            assert(w.message_at(i) == v.message_at(i));
        }
    }
}

/// A paced message is given as soon as its time has come on the wall clock, and not before; one
/// that is not paced is given at once.
pub proof fn law_try_next_waits<R: StorageReader>(now: u64, wait: u64)
    ensures
        forall|p: &mut Player<R>, r: TryNext|
            #![trigger call_ensures(Player::<R>::try_next, (p, now, wait), r)]
            call_ensures(Player::<R>::try_next, (p, now, wait), r) && p@.playable() && p@.pos
                < p@.total ==> {
                let ms = p@.all_messages();
                let began = match p@.start {
                    Some(s) => s,
                    None => now,
                };
                if !play::unpaced(p@.options.rate) && now < began + wait && (p@.start is None
                    || p@.first_ts is Some) {
                    r is NonBlocking && final(p)@.pos == p@.pos
                } else {
                    (r matches TryNext::Ready(m) && m@ == ms[p@.pos as int]) && final(p)@.pos
                        == p@.pos + 1
                }
            },
{
    assert forall|p: &mut Player<R>, r: TryNext|
        #![trigger call_ensures(Player::<R>::try_next, (p, now, wait), r)]
        call_ensures(Player::<R>::try_next, (p, now, wait), r) && p@.playable() && p@.pos
            < p@.total implies {
        let ms = p@.all_messages();
        let began = match p@.start {
            Some(s) => s,
            None => now,
        };
        if !play::unpaced(p@.options.rate) && now < began + wait && (p@.start is None
            || p@.first_ts is Some) {
            r is NonBlocking && final(p)@.pos == p@.pos
        } else {
            (r matches TryNext::Ready(m) && m@ == ms[p@.pos as int]) && final(p)@.pos == p@.pos + 1
        }
    } by {
        let v = p@;
        play::law_streaming_plays_what_reading_all_gives(v, v.pos);
        let w = v.poised(now);
        assert(w.message_at(v.pos) == v.message_at(v.pos));
    }
}

/// Seeking leads to the first message that is not earlier than the time that is sought, and behind
/// the last one where all are earlier; going by an offset seeks that much behind the first message.
pub proof fn law_seeking_leads_to_the_first_not_earlier<R: StorageReader>(
    target: Timestamp,
    offset: u64,
    now: u64,
)
    ensures
        forall|p: &mut Player<R>|
            #![trigger call_ensures(Player::<R>::seek, (p, target, now), ())]
            call_ensures(Player::<R>::seek, (p, target, now), ()) && p@.playable()
                ==> first_not_earlier(p@.all_messages(), target.0 as int, final(p)@.pos as int),
        forall|p: &mut Player<R>|
            #![trigger call_ensures(Player::<R>::seek_ratio, (p, offset, now), ())]
            call_ensures(Player::<R>::seek_ratio, (p, offset, now), ()) && p@.playable() && (
            p@.first_stamp() matches Some(f) && f + offset <= u64::MAX) ==> first_not_earlier(
                p@.all_messages(),
                p@.first_stamp()->Some_0 + offset,
                final(p)@.pos as int,
            ),
        forall|p: &mut Player<R>|
            #![trigger call_ensures(Player::<R>::seek_to_start, (p, now), ())]
            call_ensures(Player::<R>::seek_to_start, (p, now), ()) ==> final(p)@.pos == 0,
{
    assert forall|p: &mut Player<R>|
        #![trigger call_ensures(Player::<R>::seek, (p, target, now), ())]
        call_ensures(Player::<R>::seek, (p, target, now), ())
            && p@.playable() implies first_not_earlier(
        p@.all_messages(),
        target.0 as int,
        final(p)@.pos as int,
    ) by {
        lemma_sought_place(p@, target.0, now);
    }
    assert forall|p: &mut Player<R>|
        #![trigger call_ensures(Player::<R>::seek_ratio, (p, offset, now), ())]
        call_ensures(Player::<R>::seek_ratio, (p, offset, now), ()) && p@.playable() && (
        p@.first_stamp() matches Some(f) && f + offset <= u64::MAX) implies first_not_earlier(
        p@.all_messages(),
        p@.first_stamp()->Some_0 + offset,
        final(p)@.pos as int,
    ) by {
        lemma_sought_place(p@, (p@.first_stamp()->Some_0 + offset) as u64, now);
    }
}

/// Whether `j` is the place of the first of `ms` that is not earlier than `t`.
pub open spec fn first_not_earlier(ms: Seq<MessageView>, t: int, j: int) -> bool {
    &&& 0 <= j <= ms.len()
    &&& forall|i: int| 0 <= i < j ==> (#[trigger] ms[i]).stamp < t
    &&& j < ms.len() ==> ms[j].stamp >= t
}

proof fn lemma_sought_place(v: PlayerView, target: u64, now: u64)
    requires
        v.playable(),
    ensures
        first_not_earlier(v.all_messages(), target as int, v.sought(target, now).pos as int),
{
    let u = PlayerView { options: PlayOptions { loop_: false, ..v.options }, ..v };
    play::law_calls_after_seeking(u, target, now, Seq::empty());
    assert(u.sought(target, now).pos == v.sought(target, now).pos);
    assert(u.all_messages() == v.all_messages());
}

/// While time passes, the recorded time is what it has come to; where it does not, it is that of
/// the message at which playing began, and before that the first one of a player that is not paced.
pub proof fn law_now_is_the_recorded_time<R: StorageReader>(
    p: &Player<R>,
    simulated: u64,
    r: Timestamp,
)
    requires
        call_ensures(Player::<R>::now, (p, simulated), r),
    ensures
        !play::unpaced(p@.options.rate) && p@.start is Some ==> r.0 == simulated,
        play::unpaced(p@.options.rate) && p@.first_ts is Some ==> r.0 == p@.first_ts->Some_0,
        play::unpaced(p@.options.rate) && p@.first_ts is None ==> r.0 == (match p@.first_stamp() {
            Some(t) => t,
            None => 0,
        }),
        !play::unpaced(p@.options.rate) && p@.start is None && p@.first_ts is None ==> r.0 == 0,
{
}

// ---------- recording ----------

/// A message is handed to the writing end under the id of its channel, with its time and its
/// payload; on a name that is not known nothing is written.
pub proof fn law_writing_goes_to_the_channel<W: StorageWriter>(
    channel: &str,
    stamp: Timestamp,
    payload: &[u8],
)
    ensures
        forall|rec: &mut Recorder<W>, r: Result<(), Error>, k: int|
            #![trigger call_ensures(Recorder::<W>::write, (rec, channel, stamp, payload), r),
                rec@.channels[k]]
            call_ensures(Recorder::<W>::write, (rec, channel, stamp, payload), r) && 0 <= k
                < rec@.channels.len() && rec@.channels[k].0 == channel@ && (forall|j: int|
                k < j < rec@.channels.len() ==> (#[trigger] rec@.channels[j]).0 != channel@)
                ==> W::written(
                rec@.writer,
                rec@.channels[k].1,
                stamp,
                payload@,
                final(rec)@.writer,
                r,
            ),
        forall|rec: &mut Recorder<W>, r: Result<(), Error>|
            #![trigger call_ensures(Recorder::<W>::write, (rec, channel, stamp, payload), r)]
            call_ensures(Recorder::<W>::write, (rec, channel, stamp, payload), r) && (forall|j: int|
                0 <= j < rec@.channels.len() ==> (#[trigger] rec@.channels[j]).0 != channel@)
                ==> final(rec)@ == rec@ && r is Err && r->Err_0@ == "unknown channel: "@ + channel@,
{
    assert forall|rec: &mut Recorder<W>, r: Result<(), Error>, k: int|
        #![trigger call_ensures(Recorder::<W>::write, (rec, channel, stamp, payload), r),
                rec@.channels[k]]
        call_ensures(Recorder::<W>::write, (rec, channel, stamp, payload), r) && 0 <= k
            < rec@.channels.len() && rec@.channels[k].0 == channel@ && (forall|j: int|
            k < j < rec@.channels.len() ==> (#[trigger] rec@.channels[j]).0
                != channel@) implies W::written(
        rec@.writer,
        rec@.channels[k].1,
        stamp,
        payload@,
        final(rec)@.writer,
        r,
    ) by {
        record::law_what_was_kept_last_is_found(rec@.channels, channel@, k);
    }
    assert forall|rec: &mut Recorder<W>, r: Result<(), Error>|
        #![trigger call_ensures(Recorder::<W>::write, (rec, channel, stamp, payload), r)]
        call_ensures(Recorder::<W>::write, (rec, channel, stamp, payload), r) && (forall|j: int|
            0 <= j < rec@.channels.len() ==> (#[trigger] rec@.channels[j]).0
                != channel@) implies final(rec)@ == rec@ && r is Err && r->Err_0@
        == "unknown channel: "@ + channel@ by {
        record::law_what_was_kept_last_is_found(rec@.channels, channel@, -1);
    }
}

/// Whether `payload` decodes to the pose `p` in the frame of the map.
pub open spec fn holds_pose(payload: Seq<u8>, p: PoseRow) -> bool {
    PoseStamped::decoded(payload) matches Ok(m) && {
        &&& m.header.stamp == p.stamp
        &&& m.header.frame_id == "map"@
        &&& m.position.len() == 3 && m.orientation.len() == 4
        &&& forall|i: int| 0 <= i < 3 ==> #[trigger] m.position[i] == p.position@[i]
        &&& forall|i: int| 0 <= i < 4 ==> #[trigger] m.orientation[i] == p.orientation@[i]
    }
}

/// What is written for a pose goes to the channel `pose`, at the time of the pose, decodes to that
/// pose, number by number, and the pose is kept where that succeeds.
pub proof fn law_write_pose_records_the_pose<W: StorageWriter>(p: PoseRow)
    ensures
        forall|l: &mut LioRecorder<W>, r: Result<(), Error>, k: int|
            #![trigger call_ensures(LioRecorder::<W>::write_pose, (l, p), r), l@.rec.channels[k]]
            call_ensures(LioRecorder::<W>::write_pose, (l, p), r) && 0 <= k < l@.rec.channels.len()
                && l@.rec.channels[k].0 == "pose"@ && (forall|j: int|
                k < j < l@.rec.channels.len() ==> (#[trigger] l@.rec.channels[j]).0 != "pose"@)
                ==> (exists|payload: Seq<u8>|
                #[trigger] holds_pose(payload, p) && W::written(
                    l@.rec.writer,
                    l@.rec.channels[k].1,
                    p.at,
                    payload,
                    final(l)@.rec.writer,
                    r,
                )) && final(l)@.poses == (if r is Ok {
                l@.poses.push(p)
            } else {
                l@.poses
            }),
{
    assert forall|l: &mut LioRecorder<W>, r: Result<(), Error>, k: int|
        #![trigger call_ensures(LioRecorder::<W>::write_pose, (l, p), r), l@.rec.channels[k]]
        call_ensures(LioRecorder::<W>::write_pose, (l, p), r) && 0 <= k < l@.rec.channels.len()
            && l@.rec.channels[k].0 == "pose"@ && (forall|j: int|
            k < j < l@.rec.channels.len() ==> (#[trigger] l@.rec.channels[j]).0
                != "pose"@) implies (exists|payload: Seq<u8>|
        #[trigger] holds_pose(payload, p) && W::written(
            l@.rec.writer,
            l@.rec.channels[k].1,
            p.at,
            payload,
            final(l)@.rec.writer,
            r,
        )) && final(l)@.poses == (if r is Ok {
        l@.poses.push(p)
    } else {
        l@.poses
    }) by {
        let payload = PoseStamped::encoded(lio::pose_message(p));
        lio::law_recorded_pose_decodes(p);
        record::law_what_was_kept_last_is_found(l@.rec.channels, "pose"@, k);
        assert(holds_pose(payload, p));
    }
}

/// What is written for sensor data goes to the channel of the sensor, at the time that is given,
/// and is read back as that sensor data.
pub proof fn law_push_records_the_sample<W: StorageWriter>(data: &SensorData, at: Timestamp)
    requires
        conv::sensor_fits(data@),
    ensures
        forall|l: &mut LioRecorder<W>, r: Result<(), Error>, k: int|
            #![trigger call_ensures(LioRecorder::<W>::push, (l, data, at), r), l@.rec.channels[k]]
            call_ensures(LioRecorder::<W>::push, (l, data, at), r) && 0 <= k
                < l@.rec.channels.len() && l@.rec.channels[k].0 == sensor_channel(data@) && (forall|
                j: int,
            |
                k < j < l@.rec.channels.len() ==> (#[trigger] l@.rec.channels[j]).0
                    != sensor_channel(data@)) ==> exists|payload: Seq<u8>|
                #[trigger] conv::sensor_of(sensor_channel(data@), payload) == Some(data@)
                    && W::written(
                    l@.rec.writer,
                    l@.rec.channels[k].1,
                    at,
                    payload,
                    final(l)@.rec.writer,
                    r,
                ),
{
    assert forall|l: &mut LioRecorder<W>, r: Result<(), Error>, k: int|
        #![trigger call_ensures(LioRecorder::<W>::push, (l, data, at), r), l@.rec.channels[k]]
        call_ensures(LioRecorder::<W>::push, (l, data, at), r) && 0 <= k < l@.rec.channels.len()
            && l@.rec.channels[k].0 == sensor_channel(data@) && (forall|j: int|
            k < j < l@.rec.channels.len() ==> (#[trigger] l@.rec.channels[j]).0 != sensor_channel(
                data@,
            )) implies exists|payload: Seq<u8>|
        #[trigger] conv::sensor_of(sensor_channel(data@), payload) == Some(data@) && W::written(
            l@.rec.writer,
            l@.rec.channels[k].1,
            at,
            payload,
            final(l)@.rec.writer,
            r,
        ) by {
        let payload = conv::recorded_as(data@).2;
        conv::law_sensor_data_comes_back(data@);
        record::law_what_was_kept_last_is_found(l@.rec.channels, sensor_channel(data@), k);
        assert(conv::sensor_of(sensor_channel(data@), payload) == Some(data@));
    }
}

/// The channel of a sensor.
pub open spec fn sensor_channel(v: SensorView) -> Seq<char> {
    if v is Imu {
        "imu"@
    } else {
        "lidar"@
    }
}

/// Sensor data that is encoded and decoded is the same, on the channel of its sensor and under its
/// own time.
pub proof fn law_encoded_sensor_data_decodes(
    data: &SensorData,
    e: (&'static str, Time, Vec<u8>),
    m: &OwnedMessage,
    r: Option<SensorData>,
)
    requires
        call_ensures(conv::encode, (data,), e),
        call_ensures(conv::decode_message, (m,), r),
        conv::sensor_fits(data@),
        m.channel@ == e.0@,
        m.payload@ == e.2@,
    ensures
        e.0@ == sensor_channel(data@),
        e.1 == (match data@ {
            SensorView::Imu(t, _, _) => t,
            SensorView::LidarStandard(t, _) => t,
            SensorView::LidarAvia(t, _) => t,
        }),
        r matches Some(d) && d@ == data@,
{
    conv::law_sensor_data_comes_back(data@);
}

/// What is encoded of a message decodes to it.
pub proof fn law_encoded_messages_decode<T: Codec>(m: &T, buf: &[u8], r: Result<T, DecodeError>)
    requires
        T::fits(m@),
        call_ensures(T::decode, (buf,), r),
    ensures
        forall|out: &mut Vec<u8>|
            #![trigger call_ensures(T::encode, (m, out), ())]
            call_ensures(T::encode, (m, out), ()) && final(out)@ == out@ + buf@ ==> (r matches Ok(x)
                && x@ == m@),
{
    T::law_decodes_to_itself(m@);
    assert forall|out: &mut Vec<u8>|
        #![trigger call_ensures(T::encode, (m, out), ())]
        call_ensures(T::encode, (m, out), ()) && final(out)@ == out@ + buf@ implies (r matches Ok(x)
        && x@ == m@) by {
        let n = out@.len() as int;
        let e = T::encoded(m@);
        assert((out@ + e).subrange(n, n + e.len()) =~= e);
        assert((out@ + buf@).subrange(n, n + buf@.len()) =~= buf@);
        assert((out@ + e).len() == (out@ + buf@).len());
    }
}

// ---------- writing out ----------

/// The text of a trajectory is its heading and a line for each row, in order, with the time, the
/// orientation and the position of that row.
pub proof fn law_pos_text_has_a_line_for_each_row(rows: &[PosRow], r: String)
    requires
        call_ensures(export::pos_text, (rows,), r),
        forall|i: int|
            0 <= i < rows@.len() ==> export::all_words(export::row_words(#[trigger] rows@[i])),
    ensures
        ({
            let lines = split::split(r@, '\n');
            &&& lines.len() == rows@.len() + 2
            &&& lines[0] == "# time qw qx qy qz pos_x pos_y pos_z"@
            &&& lines[rows@.len() as int + 1].len() == 0
            &&& forall|i: int|
                #![trigger rows@[i]]
                0 <= i < rows@.len() ==> split::split(lines[i + 1], ' ') == seq![
                    rows@[i].time@,
                    rows@[i].quat@[0]@,
                    rows@[i].quat@[1]@,
                    rows@[i].quat@[2]@,
                    rows@[i].quat@[3]@,
                    rows@[i].pos@[0]@,
                    rows@[i].pos@[1]@,
                    rows@[i].pos@[2]@,
                ]
        }),
{
    export::law_trajectory_has_a_line_for_each_row(rows@, r@);
}

/// The text of a map is a head that counts the points, and a line for each point, in order, with
/// its place and how strongly it reflects.
pub proof fn law_pcd_text_has_a_line_for_each_point(points: &[MapPoint], r: String)
    requires
        call_ensures(export::pcd_text, (points,), r),
        forall|i: int|
            0 <= i < points@.len() ==> export::all_words(
                export::point_words(#[trigger] points@[i]),
            ),
    ensures
        ({
            let lines = split::split(r@, '\n');
            let count = text::decimal(points@.len());
            &&& lines.len() == points@.len() + 12
            &&& lines[2] == "FIELDS x y z intensity"@
            &&& lines[6] == "WIDTH "@ + count
            &&& lines[9] == "POINTS "@ + count
            &&& lines[10] == "DATA ascii"@
            &&& forall|i: int|
                #![trigger points@[i]]
                0 <= i < points@.len() ==> split::split(lines[i + 11], ' ') == seq![
                    points@[i].x@,
                    points@[i].y@,
                    points@[i].z@,
                    points@[i].intensity@,
                ]
        }),
{
    export::law_map_has_a_line_for_each_point(points@, r@);
}

/// The numbers that are listed for a recorded scan are its time, then the x, y and z of its points,
/// in order.
pub proof fn law_scalars_of_a_scan_are_its_points(m: &OwnedMessage, v: SensorView, s: Vec<Scalar>)
    requires
        call_ensures(json::message_scalars, (m,), s),
        conv::sensor_fits(v),
        m.schema.typename@ == "doracap/PointCloud"@,
        m.payload@ == conv::recorded_as(v).2,
    ensures
        v matches SensorView::LidarStandard(_, points) ==> s@.len() == 1 + 3 * points.len() && s@[0]
            == Scalar::Stamp(m.stamp.0) && forall|i: int|
            #![trigger points[i]]
            0 <= i < points.len() ==> s@[1 + 3 * i] == Scalar::Coordinate(
                Number::Single(points[i].x),
            ) && s@[2 + 3 * i] == Scalar::Coordinate(Number::Single(points[i].y)) && s@[3 + 3 * i]
                == Scalar::Coordinate(Number::Single(points[i].z)),
        v matches SensorView::LidarAvia(_, points) ==> s@.len() == 1 + 3 * points.len() && s@[0]
            == Scalar::Stamp(m.stamp.0) && forall|i: int|
            #![trigger points[i]]
            0 <= i < points.len() ==> s@[1 + 3 * i] == Scalar::Coordinate(
                Number::Single(points[i].x),
            ) && s@[2 + 3 * i] == Scalar::Coordinate(Number::Single(points[i].y)) && s@[3 + 3 * i]
                == Scalar::Coordinate(Number::Single(points[i].z)),
{
    clouds::law_listed_numbers_are_those_of_the_scan(m@, v);
}

/// The line of a message, with its numbers written out by `w`, reads as the object that the laws of
/// its type give.
pub proof fn law_message_to_json_gives_the_line(
    m: &OwnedMessage,
    texts: &[String],
    r: String,
    w: spec_fn(Scalar) -> Seq<char>,
    names: Seq<Seq<char>>,
    values: Seq<Json>,
)
    requires
        call_ensures(json::message_to_json, (m, texts), r),
        message::views(texts@) == jsonline::written_out(m@, w),
        jsonline::line_is(m@, w, names, values),
    ensures
        jsonvalue::value_from(r@, 0) == Some((Json::Object(names, values), r@.len() as int)),
{
}

/// The summary of a message names its channel, its time, its type and the size of its payload.
pub proof fn law_summary_names_the_message(m: &OwnedMessage, stamp: &str, r: String)
    requires
        call_ensures(json::summary, (m, stamp), r),
    ensures
        r@ == m.channel@ + " stamp="@ + stamp@ + " type="@ + m.schema.typename@ + " payload="@
            + text::decimal(m.payload@.len()) + "B"@,
{
}

/// A moment is written out in seconds, behind a minus sign where they are negative, with the
/// nanoseconds as nine decimals.
pub proof fn law_moments_are_written_in_seconds(t: &Time, r: String)
    requires
        call_ensures(Time::describe, (t,), r),
        t.nsec < 1_000_000_000,
    ensures
        ({
            let n = r@.len() - 10;
            &&& n > 0
            &&& r@[n] == '.'
            &&& t.sec >= 0 ==> text::decimal_value(r@.subrange(0, n)) == t.sec
            &&& t.sec < 0 ==> r@[0] == '-' && text::decimal_value(r@.subrange(1, n)) == -t.sec
            &&& text::decimal_value(r@.subrange(n + 1, n + 10)) == t.nsec
        }),
{
    let a = text::signed_decimal(t.sec as int);
    let b = text::padded(t.nsec as nat, 9);
    reveal_strlit(".");
    text::law_signed_decimal_stands_for_its_number(t.sec as int);
    text::law_padded_stands_for_its_number(t.nsec as nat, 9);
    text::law_nanoseconds_take_nine_digits(t.nsec as nat);
    let n = r@.len() - 10;
    assert(r@.subrange(0, n) =~= a);
    assert(r@.subrange(1, n) =~= a.drop_first());
    assert(r@.subrange(n + 1, n + 10) =~= b);
}

// ---------- files and blocks ----------

/// A block that was compressed decompresses to what it was made of.
pub proof fn law_compressed_blocks_decompress(
    code: u32,
    data: &[u8],
    packed: Vec<u8>,
    block: &[u8],
    n: usize,
    r: Result<Vec<u8>, Error>,
)
    requires
        call_ensures(compress::compress_block, (code, data), Ok(packed)),
        call_ensures(compress::decompress_block, (code, block, n), r),
        block@ == packed@,
        n == data@.len(),
    ensures
        r matches Ok(v) && v@ == data@,
{
}

/// The range of times of a file is from the earliest time at which a chunk begins to the latest at
/// which one ends.
pub proof fn law_time_range_spans_the_chunks(f: &SingleFileReader, r: Option<(u64, u64)>, i: int)
    requires
        call_ensures(SingleFileReader::time_range, (f,), r),
        0 <= i < f@.index.len(),
    ensures
        r matches Some((a, b)) && a <= f@.index[i].start_stamp && f@.index[i].end_stamp <= b && (
        exists|k: int| 0 <= k < f@.index.len() && (#[trigger] f@.index[k]).start_stamp == a) && (
        exists|k: int| 0 <= k < f@.index.len() && (#[trigger] f@.index[k]).end_stamp == b),
{
}

/// Reading for a time starts at the last chunk that begins at that time or before; where none does,
/// at the first one.
pub proof fn law_seek_chunk_is_the_last_that_began(
    f: &SingleFileReader,
    target: u64,
    r: Option<usize>,
    k: int,
)
    requires
        call_ensures(SingleFileReader::seek_chunk, (f, target), r),
    ensures
        f@.index.len() == 0 <==> r is None,
        0 <= k < f@.index.len() && f@.index[k].start_stamp <= target && (forall|j: int|
            k < j < f@.index.len() ==> (#[trigger] f@.index[j]).start_stamp > target) ==> r == Some(
            k as usize,
        ),
        f@.index.len() > 0 && (forall|j: int|
            0 <= j < f@.index.len() ==> (#[trigger] f@.index[j]).start_stamp > target) ==> r
            == Some(0usize),
{
    if let Some(i) = r {
        assert(f@.index[i as int] == f@.index[i as int]);
    }
}

// ---------- the rest ----------

/// The lidar of Livox has six scan lines, every other one sixteen.
pub proof fn law_lidars_have_their_scan_lines(lidar: Lidar, n: usize)
    requires
        call_ensures(cli::scan_lines, (lidar,), n),
    ensures
        lidar is Avia ==> n == 6,
        lidar !is Avia ==> n == 16,
{
}

/// Lidars go by their names; without one, or under another one, it is that of Livox.
pub proof fn law_lidars_go_by_their_names(name: Option<String>, r: Lidar)
    requires
        call_ensures(cli::lidar_named, (name,), r),
    ensures
        r is Velo16 <==> name is Some && name->Some_0@ == "velo16"@,
        r is Ouster <==> name is Some && name->Some_0@ == "ouster"@,
        r is Marsim <==> name is Some && name->Some_0@ == "marsim"@,
{
    reveal_strlit("velo16");
    reveal_strlit("ouster");
    reveal_strlit("marsim");
    assert("velo16"@[0] == 'v' && "ouster"@[0] == 'o' && "marsim"@[0] == 'm');
}

/// A time stamp holds the nanoseconds since the origin; before it, they count down from the top.
pub proof fn law_time_stamps_count_nanoseconds(sec: i64, nsec: u32, t: Timestamp)
    requires
        call_ensures(Timestamp::from_sec_nsec, (sec, nsec), t),
        i64::MIN <= sec * 1_000_000_000,
        sec * 1_000_000_000 + nsec <= i64::MAX,
    ensures
        sec * 1_000_000_000 + nsec >= 0 ==> t.0 == sec * 1_000_000_000 + nsec,
        sec * 1_000_000_000 + nsec < 0 ==> t.0 == sec * 1_000_000_000 + nsec
            + 0x1_0000_0000_0000_0000,
{
}

/// What is the same as something, that is the same as it.
pub proof fn law_comparing_goes_both_ways(a: &SensorData, b: &SensorData, r: bool, back: bool)
    requires
        call_ensures(source::sensor_eq, (a, b), r),
        call_ensures(source::sensor_eq, (b, a), back),
    ensures
        r == back,
{
    if r {
        lemma_same_both_ways(a@, b@);
    }
    if back {
        lemma_same_both_ways(b@, a@);
    }
}

proof fn lemma_same_both_ways(a: SensorView, b: SensorView)
    requires
        source::same_sample(a, b),
    ensures
        source::same_sample(b, a),
{
}

// ---------- conversions ----------

/// The cloud of a scan of a spinning lidar holds its points one behind the other, 22 bytes each,
/// and is read back as that scan.
pub proof fn law_standard_to_pc_lays_down_the_points(
    s: &StandardMsg,
    c: PointCloud,
    again: &PointCloud,
    r: Option<StandardMsg>,
    i: int,
)
    requires
        call_ensures(conv::standard_to_pc, (s,), c),
        call_ensures(conv::pc_to_standard, (again,), r),
        again@ == c@,
        22 * s.points@.len() < 0x1_0000_0000,
        0 <= i < s.points@.len(),
    ensures
        ({
            let d = c.data@;
            let p = s.points@[i];
            &&& c.header.stamp == s.stamp
            &&& c.header.frame_id@ == "lidar"@
            &&& c.height == 1 && c.width == s.points@.len()
            &&& c.point_step == 22 && c.row_step == 22 * s.points@.len()
            &&& !c.is_bigendian && c.is_dense
            &&& le::le_value(d.subrange(22 * i, 22 * i + 4)) == p.x
            &&& le::le_value(d.subrange(22 * i + 4, 22 * i + 8)) == p.y
            &&& le::le_value(d.subrange(22 * i + 8, 22 * i + 12)) == p.z
            &&& le::le_value(d.subrange(22 * i + 12, 22 * i + 16)) == p.intensity
            &&& le::le_value(d.subrange(22 * i + 16, 22 * i + 20)) == p.time
            &&& le::le_value(d.subrange(22 * i + 20, 22 * i + 22)) == p.ring
        }),
        r matches Some(x) && x.stamp == s.stamp && x.points@ == s.points@,
{
    clouds::law_standard_scan_is_recorded_point_by_point(s.stamp, s.points@);
    conv::law_standard_comes_back(s.stamp, s.points@);
    assert(again@.header.stamp == again.header.stamp);
}

/// The cloud of a scan of a Livox lidar holds its points one behind the other, 20 bytes each, and
/// is read back as that scan.
pub proof fn law_avia_to_pc_lays_down_the_points(
    s: &AviaMsg,
    c: PointCloud,
    again: &PointCloud,
    r: Option<AviaMsg>,
    i: int,
)
    requires
        call_ensures(conv::avia_to_pc, (s,), c),
        call_ensures(conv::pc_to_avia, (again,), r),
        again@ == c@,
        20 * s.points@.len() < 0x1_0000_0000,
        0 <= i < s.points@.len(),
    ensures
        ({
            let d = c.data@;
            let p = s.points@[i];
            &&& c.header.stamp == s.stamp
            &&& c.header.frame_id@ == "lidar"@
            &&& c.height == 1 && c.width == s.points@.len()
            &&& c.point_step == 20 && c.row_step == 20 * s.points@.len()
            &&& !c.is_bigendian && c.is_dense
            &&& le::le_value(d.subrange(20 * i, 20 * i + 4)) == p.x
            &&& le::le_value(d.subrange(20 * i + 4, 20 * i + 8)) == p.y
            &&& le::le_value(d.subrange(20 * i + 8, 20 * i + 12)) == p.z
            &&& d[20 * i + 12] == p.reflectivity
            &&& le::le_value(d.subrange(20 * i + 13, 20 * i + 15)) == p.tag
            &&& d[20 * i + 15] == p.line
            &&& le::le_value(d.subrange(20 * i + 16, 20 * i + 20)) == p.offset_time
        }),
        r matches Some(x) && x.stamp == s.stamp && x.points@ == s.points@,
{
    clouds::law_avia_scan_is_recorded_point_by_point(s.stamp, s.points@);
    conv::law_avia_comes_back(s.stamp, s.points@);
    assert(again@.header.stamp == again.header.stamp);
}

/// The message of a measurement holds its time, its accelerations and its turn rates, in the frame
/// of the sensor, and is read back as that measurement.
pub proof fn law_imu_to_msg_keeps_the_measurement(
    imu: &ImuRaw,
    m: Imu,
    again: &Imu,
    r: ImuRaw,
)
    requires
        call_ensures(conv::imu_to_msg, (imu,), m),
        call_ensures(conv::imu_from_msg, (again,), r),
        again@ == m@,
    ensures
        m.header.stamp == imu.stamp,
        m.header.frame_id@ == "imu"@,
        m.lin_acc@ == imu.acc@,
        m.ang_vel@ == imu.gyr@,
        m.orientation@ == seq![0u64, 0, 0, 0x3ff0_0000_0000_0000],
        r.stamp == imu.stamp,
        r.acc@ == imu.acc@,
        r.gyr@ == imu.gyr@,
{
    conv::law_imu_comes_back(*imu, m);
    conv::law_imu_comes_back(*imu, *again);
    assert(m@.orientation == m.orientation@);
}

// ---------- a file from its beginning to its end ----------

/// A message that is written to a container file is recorded under its channel, with its time and
/// its payload, whether or not the call reports an error; in order of time it is recorded behind
/// the others.
pub proof fn law_written_messages_are_recorded(
    channel: ChannelId,
    stamp: Timestamp,
    payload: &[u8],
    t: u64,
)
    ensures
        forall|w: &mut SingleFileWriter, r: Result<(), Error>|
            #![trigger call_ensures(<SingleFileWriter as StorageWriter>::write,
                (w, channel, stamp, payload), r)]
            call_ensures(
                <SingleFileWriter as StorageWriter>::write,
                (w, channel, stamp, payload),
                r,
            ) ==> {
                let x = RecordView { channel: channel.0, stamp: stamp.0, payload: payload@ };
                &&& order::at_time(final(w)@.recorded(), t) == order::at_time(
                    w@.recorded().push(x),
                    t,
                )
                &&& order::in_time_order(w@.pending.push(x)) ==> final(w)@.recorded()
                    == w@.recorded().push(x)
                &&& w@.file().is_prefix_of(final(w)@.file())
            },
{
    assert forall|w: &mut SingleFileWriter, r: Result<(), Error>|
        #![trigger call_ensures(<SingleFileWriter as StorageWriter>::write,
                (w, channel, stamp, payload), r)]
        call_ensures(
            <SingleFileWriter as StorageWriter>::write,
            (w, channel, stamp, payload),
            r,
        ) implies {
        let x = RecordView { channel: channel.0, stamp: stamp.0, payload: payload@ };
        &&& order::at_time(final(w)@.recorded(), t) == order::at_time(w@.recorded().push(x), t)
        &&& order::in_time_order(w@.pending.push(x)) ==> final(w)@.recorded()
            == w@.recorded().push(x)
        &&& w@.file().is_prefix_of(final(w)@.file())
    } by {
        let x = RecordView { channel: channel.0, stamp: stamp.0, payload: payload@ };
        laws::law_writing_loses_nothing(w@, x, t);
        if order::in_time_order(w@.pending.push(x)) {
            laws::law_writing_in_order_appends(w@, x);
        }
        policy::law_writing_only_appends(w@, x);
    }
}

/// A container file that was finished without error is opened and read as all that was recorded.
pub proof fn law_finished_files_are_read_back(data: Vec<u8>, f: Result<SingleFileReader, Error>)
    requires
        call_ensures(SingleFileReader::open, (data,), f),
    ensures
        forall|w: &mut SingleFileWriter|
            #![trigger call_ensures(<SingleFileWriter as StorageWriter>::finish, (w,), Ok(()))]
            call_ensures(<SingleFileWriter as StorageWriter>::finish, (w,), Ok(())) && w@.sound()
                && !w@.finished && laws::file_fits(final(w)@) && data@ == final(w)@.file() ==> (
            f matches Ok(reader) && reader.whole_content() == Ok::<Seq<MessageView>, Seq<char>>(
                layout::resolved_all(
                    final(w)@.head_schemas,
                    final(w)@.head_channels,
                    final(w)@.recorded(),
                ),
            )) && (order::in_time_order(w@.pending) ==> final(w)@.recorded() == w@.recorded()),
{
    assert forall|w: &mut SingleFileWriter|
        #![trigger call_ensures(<SingleFileWriter as StorageWriter>::finish, (w,), Ok(()))]
        call_ensures(<SingleFileWriter as StorageWriter>::finish, (w,), Ok(())) && w@.sound()
            && !w@.finished && laws::file_fits(final(w)@) && data@ == final(w)@.file() implies (
    f matches Ok(reader) && reader.whole_content() == Ok::<Seq<MessageView>, Seq<char>>(
        layout::resolved_all(
            final(w)@.head_schemas,
            final(w)@.head_channels,
            final(w)@.recorded(),
        ),
    )) && (order::in_time_order(w@.pending) ==> final(w)@.recorded() == w@.recorded()) by {
        laws::law_finished_file_reads_back(final(w)@);
        laws::law_finishing_loses_nothing(w@, 0);
    }
}

/// A new container file is empty, will be deflated, and closes its chunks at four mebibytes; the
/// two can be set, the size to one byte at least.
pub proof fn law_new_files_are_empty(
    w: SingleFileWriter,
    code: u32,
    coded: SingleFileWriter,
    bytes: usize,
    sized: SingleFileWriter,
)
    requires
        call_ensures(SingleFileWriter::open, (), w),
        call_ensures(SingleFileWriter::compressor, (w, code), coded),
        call_ensures(SingleFileWriter::chunk_target, (w, bytes), sized),
    ensures
        w@.recorded().len() == 0 && w@.file().len() == 0,
        w@.schemas.len() == 0 && w@.channels.len() == 0,
        w@.compressor == 2 && w@.chunk_target == 4194304,
        coded@.compressor == code && coded@.chunk_target == 4194304,
        sized@.compressor == 2 && sized@.chunk_target == (if bytes == 0 {
            1
        } else {
            bytes
        }),
        coded@.recorded().len() == 0 && sized@.recorded().len() == 0,
{
    policy::law_new_writer_is_empty();
}

// ---------- the command line ----------

/// The arguments of `play` begin behind the names of the program and of the command.
pub proof fn law_play_begins_behind_the_command(args: &[String], r: Result<PlayArgs, String>)
    requires
        call_ensures(cli::parse_play, (args,), r),
    ensures
        args@.len() <= 2 ==> (r matches Ok(p) && p.file is None && p.rate is Unlimited && !p.loop_
            && !p.as_json && p.show is None && p.seek is None && p.seek_ratio is None),
        args@.len() == 3 && args@[2]@ == "--loop"@ ==> (r matches Ok(p) && p.file is None && p.loop_
            && !p.as_json),
        args@.len() == 3 && (args@[2]@.len() == 0 || args@[2]@[0] != '-') ==> (r matches Ok(p)
            && p.file matches Some(f) && f@ == args@[2]@),
{
    let w = cli::words(args@);
    if args@.len() <= 2 {
        cli::law_play_without_arguments(w);
    } else if args@.len() == 3 {
        assert(w[2] == args@[2]@);
        cli::law_play_reads_words(w, 2, cli::no_settings());
        if args@[2]@.len() == 0 || args@[2]@[0] != '-' {
            cli::law_play_reads_files(w, 2, cli::no_settings());
        }
    }
}

/// The value of an argument stands behind the first one of its name.
pub proof fn law_arg_str_gives_what_stands_behind(
    args: &[String],
    name: &str,
    r: Option<String>,
    k: int,
)
    requires
        call_ensures(cli::arg_str, (args, name), r),
        0 <= k <= args@.len(),
        forall|j: int| 0 <= j < k ==> (#[trigger] args@[j])@ != name@,
    ensures
        k == args@.len() ==> r is None,
        k < args@.len() && args@[k]@ == name@ && k + 1 < args@.len() ==> (r matches Some(t) && t@
            == args@[k + 1]@),
        k < args@.len() && args@[k]@ == name@ && k + 1 == args@.len() ==> r is None,
{
    let w = cli::words(args@);
    assert forall|j: int| 0 <= j < k implies w[j] != name@ by {
        assert(w[j] == args@[j]@);
    }
    cli::law_value_stands_behind_the_first_name(w, name@, k);
}

/// Bytes followed by their checksum, least significant byte first, have one and the same checksum,
/// whatever they are.
pub proof fn law_checksums_check(data: &[u8], sum: u32, all: &[u8], r: u32)
    requires
        call_ensures(crc::crc32, (data,), sum),
        call_ensures(crc::crc32, (all,), r),
        all@ == data@ + le::le_bytes(sum as nat, 4),
    ensures
        r == 0x2144_df1c,
{
    crc::law_data_with_its_crc_has_one_crc(data@);
}

// ---------- opening ----------

/// How to play goes by what is asked for: as fast as possible and once, unless a speed or starting
/// over is set, and neither changes the other.
pub proof fn law_options_are_set_one_by_one(
    d: PlayOptions,
    o: PlayOptions,
    rate: u64,
    paced: PlayOptions,
    looped: bool,
    round: PlayOptions,
)
    requires
        call_ensures(<PlayOptions as Default>::default, (), d),
        call_ensures(PlayOptions::rate, (o, rate), paced),
        call_ensures(PlayOptions::looped, (o, looped), round),
    ensures
        play::unpaced(d.rate) && !d.loop_,
        paced.rate == rate && paced.loop_ == o.loop_,
        round.rate == o.rate && round.loop_ == looped,
{
}

/// A player that was just opened on what can be read stands before the first of all stored messages
/// in order of time, with its clock not going; all of them can be had, and are counted.
pub proof fn law_opened_players_stand_at_the_beginning<R: StorageReader>(
    reader: R,
    options: PlayOptions,
    r: Result<Player<R>, Error>,
)
    requires
        call_ensures(Player::<R>::open, (reader, options), r),
        play::readable(
            reader.chunk_list(),
            Seq::new(reader.chunk_list().len(), |i: int| reader.chunk_content(i)),
            reader.whole_content(),
        ),
    ensures
        ({
            let kept = if reader.chunk_list().len() == 0 {
                reader.whole_content()->Ok_0
            } else {
                play::gathered(
                    Seq::new(reader.chunk_list().len(), |i: int| reader.chunk_content(i)),
                )
            };
            r matches Ok(p) && p@.pos == 0 && p@.options == options && p@.total == kept.len()
                && p@.all_messages() == order::time_sorted(kept) && p@.clock() is None
                && p@.playable()
        }),
{
    let chunks = reader.chunk_list();
    let contents = Seq::new(chunks.len(), |i: int| reader.chunk_content(i));
    pacing::law_opened_player_counts_what_is_stored(
        options,
        chunks,
        contents,
        reader.whole_content(),
    );
    play::law_readable_is_playable(options, chunks, contents, reader.whole_content());
    play::lemma_opened(options, chunks, contents, reader.whole_content());
}

/// All messages of a player are handed out in order of time, and are as many as are counted;
/// playing goes on where it was.
pub proof fn law_messages_are_handed_out_in_order<R: StorageReader>(r: &[OwnedMessage])
    ensures
        forall|p: &mut Player<R>|
            #![trigger call_ensures(Player::<R>::messages, (p,), r)]
            call_ensures(Player::<R>::messages, (p,), r) && p@.playable() ==> r@.len() == p@.total
                && (forall|i: int|
                0 <= i < r@.len() ==> (#[trigger] r@[i])@ == p@.all_messages()[i])
                && order::in_time_order(message::views(r@)) && final(p)@.pos == p@.pos
                && final(p)@.all_messages() == p@.all_messages(),
{
    assert forall|p: &mut Player<R>|
        #![trigger call_ensures(Player::<R>::messages, (p,), r)]
        call_ensures(Player::<R>::messages, (p,), r) && p@.playable() implies r@.len() == p@.total
        && (forall|i: int| 0 <= i < r@.len() ==> (#[trigger] r@[i])@ == p@.all_messages()[i])
        && order::in_time_order(message::views(r@)) && final(p)@.pos == p@.pos
        && final(p)@.all_messages() == p@.all_messages() by {
        let v = p@;
        let all = v.all_messages();
        assert(message::views(r@) == all);
        assert(message::views(r@).len() == r@.len());
        if v.all is None {
            order::law_sorted_is_in_order(play::gathered(v.contents));
            let u = PlayerView { options: PlayOptions { loop_: false, ..v.options }, ..v };
            play::law_calls_after_seeking(u, 0, 0, Seq::empty());
            assert(u.all_messages() == all);
        }
        assert forall|i: int| 0 <= i < r@.len() implies (#[trigger] r@[i])@ == all[i] by {
            assert(message::views(r@)[i] == r@[i]@);
        }
    }
}

/// A player of the stored order gives the stored messages one by one, as they are stored.
pub proof fn law_stored_messages_are_given_in_order<R: StorageReader>(
    reader: R,
    options: PlayOptions,
    r: Result<sequential::Player<R>, Error>,
    now: u64,
)
    requires
        call_ensures(sequential::Player::<R>::open, (reader, options), r),
    ensures
        reader.whole_content() is Ok <==> r is Ok,
        r matches Ok(p) ==> p@.messages == reader.whole_content()->Ok_0 && p@.pos == 0 && p@.options
            == options && p@.clock() is None,
        forall|p: &mut sequential::Player<R>, m: Option<OwnedMessage>|
            #![trigger call_ensures(sequential::Player::<R>::next_message, (p, now), m)]
            call_ensures(sequential::Player::<R>::next_message, (p, now), m) && p@.sound() ==> {
                let ms = p@.messages;
                &&& p@.pos < ms.len() ==> m is Some && m->Some_0@ == ms[p@.pos as int]
                    && final(p)@.pos == p@.pos + 1
                &&& p@.pos >= ms.len() && !p@.options.loop_ ==> m is None && final(p)@.pos == p@.pos
                &&& p@.pos >= ms.len() && p@.options.loop_ && ms.len() > 0 ==> m is Some
                    && m->Some_0@ == ms[0] && final(p)@.pos == 1
                &&& final(p)@.messages == ms
            },
{
}

/// The next sample is that of the first message, from the place of the source on, that holds one.
pub proof fn law_next_gives_the_first_sample<R: StorageReader>(now: u64, i: nat, d: SensorView)
    ensures
        forall|s: &mut BagDataSource<R>, r: Option<SensorData>|
            #![trigger call_ensures(BagDataSource::<R>::next, (s, now), r)]
            call_ensures(BagDataSource::<R>::next, (s, now), r) && s@.pos <= i < s@.total && (
            forall|j: nat|
                s@.pos <= j < i ==> (#[trigger] s@.message_at(j) matches Ok(m) && conv::sensor_of(
                    m.channel,
                    m.payload,
                ) is None)) && (s@.message_at(i) matches Ok(m) && conv::sensor_of(
                m.channel,
                m.payload,
            ) == Some(d)) ==> r is Some && r->Some_0@ == d && final(s)@.pos == i + 1,
{
    assert forall|s: &mut BagDataSource<R>, r: Option<SensorData>|
        #![trigger call_ensures(BagDataSource::<R>::next, (s, now), r)]
        call_ensures(BagDataSource::<R>::next, (s, now), r) && s@.pos <= i < s@.total && (forall|
            j: nat,
        |
            s@.pos <= j < i ==> (#[trigger] s@.message_at(j) matches Ok(m) && conv::sensor_of(
                m.channel,
                m.payload,
            ) is None)) && (s@.message_at(i) matches Ok(m) && conv::sensor_of(m.channel, m.payload)
            == Some(d)) implies r is Some && r->Some_0@ == d && final(s)@.pos == i + 1 by {
        source::law_next_sample_is_the_first(s@, i, d, now);
    }
}

// ---------- looking into a recording ----------

/// The topics of a recording are its channels, in order, each with the type of its schema.
pub proof fn law_topics_are_the_channels<R: StorageReader>(
    reader: &R,
    r: Vec<Topic>,
    i: int,
    k: int,
)
    requires
        call_ensures(inspect::topics::<R>, (reader,), r),
        0 <= i < reader.channel_list().len(),
        0 <= k < reader.schema_list().len(),
        reader.schema_list()[k].id == reader.channel_list()[i].schema_id,
        forall|j: int| 0 <= j < k ==> (#[trigger] reader.schema_list()[j]).id
            != reader.channel_list()[i].schema_id,
    ensures
        r@.len() == reader.channel_list().len(),
        r@[i].name@ == reader.channel_list()[i].name,
        r@[i].typename@ == reader.schema_list()[k].typename,
{
    inspect::law_type_is_that_of_the_schema(
        reader.schema_list(),
        reader.channel_list()[i].schema_id,
        k,
    );
}

/// The messages of a finished file are counted as they were recorded.
pub proof fn law_count_messages_counts_what_was_recorded(
    w: WriterView,
    f: &SingleFileReader,
    n: u64,
    m: Option<u64>,
)
    requires
        call_ensures(inspect::count_messages, (f,), n),
        call_ensures(SingleFileReader::message_count, (f,), m),
        w.complete(),
        laws::file_fits(w),
        w.recorded().len() <= usize::MAX,
        ReaderView::of_file(w.file()) == Ok::<ReaderView, Seq<char>>(f@),
    ensures
        n == w.recorded().len(),
        m == Some(w.recorded().len() as u64),
{
    inspect::law_messages_of_a_finished_file_are_counted(w);
    laws::law_finished_file_reads_back(w);
}

/// Bytes in hexadecimal are two digits for each byte.
pub proof fn law_hex_has_two_digits_for_each_byte(data: &[u8], r: String, i: int)
    requires
        call_ensures(text::hex, (data,), r),
        0 <= i < data@.len(),
    ensures
        r@.len() == 2 * data@.len(),
        r@[2 * i] == "0123456789abcdef"@[data@[i] as int / 16],
        r@[2 * i + 1] == "0123456789abcdef"@[data@[i] as int % 16],
{
    text::law_hexadecimal_stands_for_its_bytes(data@);
}

/// What is handed out of a file, piece by piece, is the file.
pub proof fn law_pieces_are_the_file(r: Vec<u8>)
    ensures
        forall|w: &mut SingleFileWriter|
            #![trigger call_ensures(SingleFileWriter::take_output, (w,), r)]
            call_ensures(SingleFileWriter::take_output, (w,), r) ==> final(w)@.taken == w@.taken
                + r@ && final(w)@.out.len() == 0 && w@.taken + r@ == w@.file()
                && final(w)@.recorded() == w@.recorded(),
{
}

/// What the channels of a mapping run are for.
pub proof fn law_scene_meta_names_the_channels(world: &str, has_pose: bool, r: SceneMeta)
    requires
        call_ensures(lio::scene_meta, (world, has_pose), r),
    ensures
        r.world_frame@ == world@,
        r.channels@.len() == (if has_pose {
            3int
        } else {
            2
        }),
        r.channels@[0].name@ == "imu"@ && r.channels@[0].role@ == "imu"@,
        r.channels@[0].frame_id@ == "imu"@,
        r.channels@[1].name@ == "lidar"@ && r.channels@[1].role@ == "lidar"@,
        r.channels@[1].frame_id@ == "lidar"@,
        has_pose ==> r.channels@[2].name@ == "pose"@ && r.channels@[2].role@ == "pose"@
            && r.channels@[2].frame_id@ == world@,
{
    lio::law_scene_names_the_channels(world@, has_pose);
    let v = r@.channels;
    assert(v.len() == r.channels@.len());
    assert(v[0] == r.channels@[0]@);
    assert(v[1] == r.channels@[1]@);
    if has_pose {
        assert(v[2] == r.channels@[2]@);
    }
}

// ---------- a recording of sensor data ----------

/// What is recorded of sensor data goes to the channel of the sensor, at the time that is given,
/// and is read back as that sensor data.
pub proof fn law_record_sample_records_the_sample<W: StorageWriter>(
    data: &SensorData,
    at: Timestamp,
)
    requires
        conv::sensor_fits(data@),
    ensures
        forall|rec: &mut Recorder<W>, r: Result<(), Error>, k: int|
            #![trigger call_ensures(lio::record_sample::<W>, (rec, data, at), r), rec@.channels[k]]
            call_ensures(lio::record_sample::<W>, (rec, data, at), r) && 0 <= k
                < rec@.channels.len() && rec@.channels[k].0 == sensor_channel(data@) && (forall|
                j: int,
            |
                k < j < rec@.channels.len() ==> (#[trigger] rec@.channels[j]).0 != sensor_channel(
                    data@,
                )) ==> exists|payload: Seq<u8>|
                #[trigger] conv::sensor_of(sensor_channel(data@), payload) == Some(data@)
                    && W::written(
                    rec@.writer,
                    rec@.channels[k].1,
                    at,
                    payload,
                    final(rec)@.writer,
                    r,
                ),
{
    assert forall|rec: &mut Recorder<W>, r: Result<(), Error>, k: int|
        #![trigger call_ensures(lio::record_sample::<W>, (rec, data, at), r), rec@.channels[k]]
        call_ensures(lio::record_sample::<W>, (rec, data, at), r) && 0 <= k < rec@.channels.len()
            && rec@.channels[k].0 == sensor_channel(data@) && (forall|j: int|
            k < j < rec@.channels.len() ==> (#[trigger] rec@.channels[j]).0 != sensor_channel(
                data@,
            )) implies exists|payload: Seq<u8>|
        #[trigger] conv::sensor_of(sensor_channel(data@), payload) == Some(data@) && W::written(
            rec@.writer,
            rec@.channels[k].1,
            at,
            payload,
            final(rec)@.writer,
            r,
        ) by {
        let payload = conv::recorded_as(data@).2;
        conv::law_sensor_data_comes_back(data@);
        record::law_what_was_kept_last_is_found(rec@.channels, sensor_channel(data@), k);
        assert(conv::sensor_of(sensor_channel(data@), payload) == Some(data@));
    }
}

/// Whether a container file begins as a recording of sensor data does: its head declares the
/// channels of the sensors, perhaps one for poses, and one for the scene, and its one message is
/// the scene, at the time zero, in the frame of the map.
pub open spec fn begins_as_recording(w: WriterView, has_pose: bool) -> bool {
    let n: int = if has_pose {
        4
    } else {
        3
    };
    &&& w.head_channels.len() == n
    &&& w.head_channels[0].name == "imu"@
    &&& w.head_channels[1].name == "lidar"@
    &&& has_pose ==> w.head_channels[2].name == "pose"@
    &&& w.head_channels[n - 1].name == "scene"@
    &&& w.recorded().len() == 1
    &&& w.recorded()[0].stamp == 0
    &&& w.recorded()[0].channel == w.head_channels[n - 1].id
    &&& SceneMeta::decoded(w.recorded()[0].payload) matches Ok(s) && s.world_frame == "map"@
        && s.channels.len() == n - 1 && (forall|i: int|
        0 <= i < n - 1 ==> (#[trigger] s.channels[i]).name == w.head_channels[i].name
            && s.channels[i].role == s.channels[i].name)
}

/// A recording of sensor data into a new container file begins with its channels and its scene.
#[verifier::rlimit(40)]
pub proof fn law_recordings_begin_with_their_channels(
    file: SingleFileWriter,
    has_pose: bool,
    rec: Recorder<SingleFileWriter>,
    l: LioRecorder<SingleFileWriter>,
)
    requires
        file@ == WriterView::fresh(),
        call_ensures(lio::start_recording::<SingleFileWriter>, (file, has_pose), Ok(rec)),
        call_ensures(LioRecorder::<SingleFileWriter>::new, (file,), Ok(l)),
    ensures
        begins_as_recording(rec@.writer@, has_pose),
        begins_as_recording(l@.rec.writer@, true),
        l@.poses.len() == 0,
{
    policy::law_new_writer_is_empty();
    lio::law_recording_declares_its_channels_first(file, has_pose, rec@);
    lio::law_recording_declares_its_channels_first(file, true, l@.rec);
    lio::law_recorded_scene_decodes(has_pose);
    lio::law_recorded_scene_decodes(true);
    lio::law_scene_names_the_channels("map"@, has_pose);
    lio::law_scene_names_the_channels("map"@, true);
}

/// A source gives what its next message holds: sensor data, or the word that it holds none; it
/// comes to its end behind the last message.
pub proof fn law_sources_give_what_messages_hold<R: StorageReader>(now: u64)
    ensures
        forall|s: &mut BagDataSource<R>, t: Taken|
            #![trigger call_ensures(BagDataSource::<R>::next_message, (s, now), t)]
            call_ensures(BagDataSource::<R>::next_message, (s, now), t) && s@.playable() ==> {
                let m = s@.all_messages()[s@.pos as int];
                &&& s@.pos < s@.total ==> final(s)@.pos == s@.pos + 1 && match t {
                    Taken::Sample(d) => conv::sensor_of(m.channel, m.payload) == Some(d@),
                    Taken::Other => conv::sensor_of(m.channel, m.payload) is None,
                    _ => false,
                }
                &&& s@.pos == s@.total && !s@.options.loop_ ==> t is End && final(s)@.pos == s@.pos
            },
{
    assert forall|s: &mut BagDataSource<R>, t: Taken|
        #![trigger call_ensures(BagDataSource::<R>::next_message, (s, now), t)]
        call_ensures(BagDataSource::<R>::next_message, (s, now), t) && s@.playable() implies {
        let m = s@.all_messages()[s@.pos as int];
        &&& s@.pos < s@.total ==> final(s)@.pos == s@.pos + 1 && match t {
            Taken::Sample(d) => conv::sensor_of(m.channel, m.payload) == Some(d@),
            Taken::Other => conv::sensor_of(m.channel, m.payload) is None,
            _ => false,
        }
        &&& s@.pos == s@.total && !s@.options.loop_ ==> t is End && final(s)@.pos == s@.pos
    } by {
        let v = s@;
        if v.pos < v.total {
            play::law_streaming_plays_what_reading_all_gives(v, v.pos);
            let w = v.poised(now);
            assert(w.message_at(v.pos) == v.message_at(v.pos));
            source::law_taken_is_what_the_message_holds(t, v.all_messages()[v.pos as int]);
        }
    }
}

/// Played as they are stored, a paced message is given as soon as its time has come on the wall
/// clock, and not before; one that is not paced is given at once.
pub proof fn law_stored_messages_wait<R: StorageReader>(now: u64, wait: u64)
    ensures
        forall|p: &mut sequential::Player<R>, r: TryNext|
            #![trigger call_ensures(sequential::Player::<R>::try_next, (p, now, wait), r)]
            call_ensures(sequential::Player::<R>::try_next, (p, now, wait), r) && p@.sound()
                && p@.pos < p@.messages.len() ==> {
                let began = match p@.start {
                    Some(s) => s,
                    None => now,
                };
                if !play::unpaced(p@.options.rate) && now < began + wait && (p@.start is None
                    || p@.first_ts is Some) {
                    r is NonBlocking && final(p)@.pos == p@.pos
                } else {
                    (r matches TryNext::Ready(m) && m@ == p@.messages[p@.pos as int])
                        && final(p)@.pos == p@.pos + 1
                }
            },
{
}

} // verus!
