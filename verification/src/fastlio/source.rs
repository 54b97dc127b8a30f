//! A recording as a source of sensor data.

use crate::fastlio::conv;
use crate::fastlio::conv::{
    decode_message, AviaPointMsg, SensorData, SensorView, StdPointMsg,
};
use crate::layout;
use crate::message;
use crate::order;
use crate::message::{Error, MessageView, OwnedMessage};
use crate::msgs::same;
use crate::msgs::same::numbers_agree;
use crate::msgs::types::Time;
use crate::play;
use crate::play::{PlayOptions, Player, PlayerView, TryNext, Upcoming};
use crate::singlefile::laws;
use crate::singlefile::reader::ReaderView;
use crate::singlefile::writer::WriterView;
use crate::storage::StorageReader;
use vstd::prelude::*;

verus! {

/// What taking a message gives.
#[derive(Debug)]
pub enum Taken {
    /// The message holds sensor data.
    Sample(SensorData),
    /// The message holds none.
    Other,
    /// The next message is not due yet.
    NonBlocking,
    /// There are no more messages.
    End,
}

/// What a sensor gave, as a message holds it.
pub open spec fn sample_in(m: MessageView) -> Option<SensorView> {
    conv::sensor_of(m.channel, m.payload)
}

/// Whether `t` is what taking the message `m` gives.
pub open spec fn taken_from(t: Taken, m: MessageView) -> bool {
    match t {
        Taken::Sample(d) => sample_in(m) == Some(d@),
        Taken::Other => sample_in(m) is None,
        _ => false,
    }
}

/// The first sample among the messages from number `pos` on, and the number of the message that
/// is next after it. The search ends where there are no more messages, or where one cannot be
/// had.
pub open spec fn sample_from(v: PlayerView, pos: nat) -> (Option<SensorView>, nat)
    decreases v.total - pos,
{
    if pos >= v.total {
        (None, pos)
    } else {
        match v.message_at(pos) {
            Err(e) => (None, pos),
            Ok(m) => match sample_in(m) {
                Some(d) => (Some(d), pos + 1),
                None => sample_from(v, pos + 1),
            },
        }
    }
}

/// Whether a message ends a search for samples: it holds one, or it cannot be had.
pub open spec fn ends_search(v: PlayerView, pos: nat) -> bool {
    v.message_at(pos) matches Ok(m) ==> sample_in(m) is Some
}

/// Whether a search for a sample comes to an end: playing does, or some message ends it.
pub open spec fn search_ends(v: PlayerView) -> bool {
    !v.options.loop_ || exists|i: nat| i < v.total && #[trigger] ends_search(v, i)
}

/// Whether the search for the next sample starts over: it comes to the end, and playing goes on
/// from there.
pub open spec fn search_turns(v: PlayerView) -> bool {
    let (sample, pos) = sample_from(v, v.pos);
    pos >= v.total && sample is None && v.total > 0 && v.options.loop_
}

/// The next sample, and the number of the message that is next after it.
pub open spec fn next_sample(v: PlayerView) -> (Option<SensorView>, nat) {
    sample_from(
        v,
        if search_turns(v) {
            0
        } else {
            v.pos
        },
    )
}

/// The state after a search at the moment `now`: behind the sample, with the clock going as it
/// goes for the first message that was taken since playing started over, if it did.
pub open spec fn searched(v: PlayerView, now: u64) -> PlayerView {
    PlayerView {
        pos: next_sample(v).1,
        ..if search_turns(v) {
            v.restarted(now)
        } else {
            v.poised(now)
        }
    }
}

/// A search that starts before a message that ends it ends there at the latest.
proof fn lemma_search_ends(v: PlayerView, pos: nat, i: nat)
    requires
        pos <= i < v.total,
        ends_search(v, i),
    ensures
        ({
            let (sample, next) = sample_from(v, pos);
            sample is Some || next < v.total
        }),
    decreases i - pos,
{
    if !ends_search(v, pos) {
        lemma_search_ends(v, pos + 1, i);
    }
}

/// Plays a recording as a stream of sensor data.
pub struct BagDataSource<R: StorageReader> {
    player: Player<R>,
}

impl<R: StorageReader> View for BagDataSource<R> {
    type V = PlayerView;

    closed spec fn view(&self) -> PlayerView {
        self.player@
    }
}

fn taken(m: OwnedMessage) -> (t: Taken)
    ensures
        taken_from(t, m@),
{
    match decode_message(&m) {
        Some(d) => Taken::Sample(d),
        None => Taken::Other,
    }
}

impl<R: StorageReader> BagDataSource<R> {
    /// The invariant of the player.
    pub closed spec fn sound(&self) -> bool {
        self.player.sound()
    }

    /// The reading end.
    pub closed spec fn reading_end(&self) -> R {
        self.player.reading_end()
    }

    /// Opens a reading end. With a chunk index nothing is read yet.
    pub fn open(reader: R, options: PlayOptions) -> (r: Result<Self, Error>)
        requires
            play::count_before(reader.chunk_list(), reader.chunk_list().len() as int)
                <= usize::MAX,
        ensures
            match r {
                Ok(s) => s.sound() && s@ == play::opened(reader, options) && (
                reader.chunk_list().len() == 0 ==> reader.whole_content() is Ok) && (
                reader.chunk_list().len() > 0 ==> s.reading_end() == reader),
                Err(e) => reader.chunk_list().len() == 0 && reader.whole_content() == Err::<
                    Seq<MessageView>,
                    Seq<char>,
                >(e@),
            },
    {
        let player: Player<R> = Player::open(reader, options)?;
        Ok(BagDataSource { player })
    }

    /// Makes ready to take the next message, and says when that is due.
    pub fn poll(&mut self, now: u64) -> (r: Upcoming)
        requires
            old(self).sound(),
        ensures
            final(self).sound(),
            final(self)@ == old(self)@.poised(now),
            r == old(self)@.poised(now).upcoming(),
    {
        self.player.poll(now)
    }

    /// Takes the next message. To keep the pace, wait first for what [`BagDataSource::poll`]
    /// says.
    pub fn next_message(&mut self, now: u64) -> (t: Taken)
        requires
            old(self).sound(),
        ensures
            final(self).sound(),
            ({
                let ready = old(self)@.poised(now);
                if !ready.at_end() && ready.message_at(ready.pos) is Ok {
                    taken_from(t, ready.message_at(ready.pos)->Ok_0) && final(self)@
                        == ready.advanced()
                } else {
                    t is End && final(self)@ == ready
                }
            }),
    {
        match self.player.next_message(now) {
            Some(m) => taken(m),
            None => Taken::End,
        }
    }

    /// Takes the next message if it is due: where it is paced, `wait` nanoseconds of the wall
    /// clock after playing began.
    pub fn try_next(&mut self, now: u64, wait: u64) -> (t: Taken)
        requires
            old(self).sound(),
        ensures
            final(self).sound(),
            ({
                let ready = old(self)@.poised(now);
                let early = ready.upcoming() matches Upcoming::Paced { start, delta } && now < start
                    + wait;
                if early {
                    t is NonBlocking && final(self)@ == ready
                } else if ready.upcoming() is End {
                    t is End && final(self)@ == ready
                } else {
                    ready.message_at(ready.pos) matches Ok(m) && taken_from(t, m) && final(self)@
                        == ready.advanced()
                }
            }),
    {
        match self.player.try_next(now, wait) {
            TryNext::Ready(m) => taken(m),
            TryNext::NonBlocking => Taken::NonBlocking,
            TryNext::End => Taken::End,
        }
    }

    /// Takes messages up to the next sample, as fast as possible. A source that starts over and
    /// has no sample at all is left out: the search would not end.
    pub fn next(&mut self, now: u64) -> (r: Option<SensorData>)
        requires
            old(self).sound(),
            search_ends(old(self)@),
        ensures
            final(self).sound(),
            conv::same_sensor(r, next_sample(old(self)@).0),
            final(self)@ == searched(old(self)@, now),
    {
        let ghost was = self@;
        let ghost mut again: bool = false;
        let ghost mut taken: bool = false;
        loop
            invariant
                self.sound(),
                search_ends(was),
                was == old(self)@,
                !again && !taken ==> self@ == was,
                !again ==> self@ == (PlayerView { pos: self@.pos, ..if taken {
                    was.poised(now)
                } else {
                    was
                } }) && sample_from(was, was.pos) == sample_from(was, self@.pos) && was.pos
                    <= self@.pos,
                taken ==> !was.at_end() && was.pos < was.total,
                again ==> self@ == (PlayerView { pos: self@.pos, ..was.restarted(now) })
                    && search_turns(was) && sample_from(was, 0) == sample_from(was, self@.pos),
            decreases (if again { 0int } else { 1int }), was.total - self@.pos,
        {
            let ghost before = self@;
            proof {
                assert(before.options == was.options && before.total == was.total);
                let turn = before.pos >= was.total && !before.at_end();
                if turn {
                    let i = choose|i: nat| i < was.total && #[trigger] ends_search(was, i);
                    lemma_search_ends(was, 0, i);
                    again = true;
                } else if !again && !before.at_end() {
                    taken = true;
                }
                let ready = before.poised(now);
                assert(ready.message_at(ready.pos) == was.message_at(ready.pos));
                assert(forall|k: nat| #[trigger] before.message_at(k) == was.message_at(k));
            }
            match self.next_message(now) {
                Taken::Sample(d) => {
                    assert(self@ =~= searched(was, now));
                    return Some(d);
                },
                Taken::Other => {},
                _ => {
                    assert(self@ =~= searched(was, now));
                    return None;
                },
            }
        }
    }
}

/// A sample that was recorded is what is played of it: for message `i` of a finished file, in
/// order of time, if it was recorded as sensor data is.
pub proof fn law_recorded_sample_is_played(
    w: WriterView,
    options: PlayOptions,
    i: nat,
    v: SensorView,
)
    requires
        w.complete(),
        laws::file_fits(w),
        w.recorded().len() <= usize::MAX,
        i < w.recorded().len(),
        conv::sensor_fits(v),
        ({
            let m = order::time_sorted(
                layout::resolved_all(w.head_schemas, w.head_channels, w.recorded()),
            )[i as int];
            m.channel == conv::recorded_as(v).0 && m.payload == conv::recorded_as(v).2
        }),
    ensures
        ReaderView::of_file(w.file()) matches Ok(r) && sample_from(
            laws::player_of(r, options),
            i,
        ) == (Some(v), i + 1),
{
    laws::law_finished_file_is_playable(w, options);
    laws::law_finished_file_plays_what_was_recorded(w, options, i);
    conv::law_sensor_data_comes_back(v);
}

// ---------- comparing ----------

/// Whether two bit patterns are those of equal 32-bit numbers.
pub open spec fn equal_floats(a: u32, b: u32) -> bool {
    let nan = |x: u32| x % 0x8000_0000 > 0x7f80_0000;
    let zero = |x: u32| x == 0 || x == 0x8000_0000;
    !nan(a) && !nan(b) && (a == b || (zero(a) && zero(b)))
}

fn floats_agree(a: u32, b: u32) -> (r: bool)
    ensures
        r == equal_floats(a, b),
{
    let nan: bool = a % 0x8000_0000 > 0x7f80_0000 || b % 0x8000_0000 > 0x7f80_0000;
    let zeros: bool = (a == 0 || a == 0x8000_0000) && (b == 0 || b == 0x8000_0000);
    !nan && (a == b || zeros)
}

/// Whether two moments are the same nanosecond.
pub open spec fn same_moment(a: Time, b: Time) -> bool {
    message::nanos(a.sec as int, a.nsec as int) == message::nanos(b.sec as int, b.nsec as int)
}

fn moments_agree(a: &Time, b: &Time) -> (r: bool)
    ensures
        r == same_moment(*a, *b),
{
    a.sec as i128 * 1_000_000_000 + a.nsec as i128 == b.sec as i128 * 1_000_000_000
        + b.nsec as i128
}

pub open spec fn same_standard_point(p: StdPointMsg, q: StdPointMsg) -> bool {
    equal_floats(p.x, q.x) && equal_floats(p.y, q.y) && equal_floats(p.z, q.z) && equal_floats(
        p.intensity,
        q.intensity,
    ) && equal_floats(p.time, q.time) && p.ring == q.ring
}

pub open spec fn same_avia_point(p: AviaPointMsg, q: AviaPointMsg) -> bool {
    equal_floats(p.x, q.x) && equal_floats(p.y, q.y) && equal_floats(p.z, q.z) && p.reflectivity
        == q.reflectivity && p.tag == q.tag && p.line == q.line && p.offset_time == q.offset_time
}

/// Whether two samples are the same: of the same kind, of the same nanosecond, with equal
/// numbers.
pub open spec fn same_sample(a: SensorView, b: SensorView) -> bool {
    match (a, b) {
        (SensorView::Imu(s, acc, gyr), SensorView::Imu(t, acc2, gyr2)) => same_moment(s, t)
            && same::all_equal(acc, acc2) && same::all_equal(gyr, gyr2),
        (SensorView::LidarStandard(s, ps), SensorView::LidarStandard(t, qs)) => same_moment(s, t)
            && ps.len() == qs.len() && forall|i: int|
            0 <= i < ps.len() ==> same_standard_point(#[trigger] ps[i], qs[i]),
        (SensorView::LidarAvia(s, ps), SensorView::LidarAvia(t, qs)) => same_moment(s, t)
            && ps.len() == qs.len() && forall|i: int|
            0 <= i < ps.len() ==> same_avia_point(#[trigger] ps[i], qs[i]),
        _ => false,
    }
}

fn standard_points_agree(ps: &[StdPointMsg], qs: &[StdPointMsg]) -> (r: bool)
    ensures
        r == (ps@.len() == qs@.len() && forall|i: int|
            0 <= i < ps@.len() ==> same_standard_point(#[trigger] ps@[i], qs@[i])),
{
    if ps.len() != qs.len() {
        return false;
    }
    let mut i: usize = 0;
    while i < ps.len()
        invariant
            i <= ps@.len(),
            ps@.len() == qs@.len(),
            forall|k: int| 0 <= k < i ==> same_standard_point(#[trigger] ps@[k], qs@[k]),
        decreases ps@.len() - i,
    {
        let p: StdPointMsg = ps[i];
        let q: StdPointMsg = qs[i];
        let same: bool = floats_agree(p.x, q.x) && floats_agree(p.y, q.y) && floats_agree(p.z, q.z)
            && floats_agree(p.intensity, q.intensity) && floats_agree(p.time, q.time) && p.ring
            == q.ring;
        if !same {
            assert(!same_standard_point(ps@[i as int], qs@[i as int]));
            return false;
        }
        i = i + 1;
    }
    true
}

fn avia_points_agree(ps: &[AviaPointMsg], qs: &[AviaPointMsg]) -> (r: bool)
    ensures
        r == (ps@.len() == qs@.len() && forall|i: int|
            0 <= i < ps@.len() ==> same_avia_point(#[trigger] ps@[i], qs@[i])),
{
    if ps.len() != qs.len() {
        return false;
    }
    let mut i: usize = 0;
    while i < ps.len()
        invariant
            i <= ps@.len(),
            ps@.len() == qs@.len(),
            forall|k: int| 0 <= k < i ==> same_avia_point(#[trigger] ps@[k], qs@[k]),
        decreases ps@.len() - i,
    {
        let p: AviaPointMsg = ps[i];
        let q: AviaPointMsg = qs[i];
        let same: bool = floats_agree(p.x, q.x) && floats_agree(p.y, q.y) && floats_agree(p.z, q.z)
            && p.reflectivity == q.reflectivity && p.tag == q.tag && p.line == q.line
            && p.offset_time == q.offset_time;
        if !same {
            assert(!same_avia_point(ps@[i as int], qs@[i as int]));
            return false;
        }
        i = i + 1;
    }
    true
}

/// Whether two samples are the same.
pub fn sensor_eq(a: &SensorData, b: &SensorData) -> (r: bool)
    ensures
        r == same_sample(a@, b@),
{
    match (a, b) {
        (SensorData::Imu(x), SensorData::Imu(y)) => moments_agree(&x.stamp, &y.stamp)
            && numbers_agree(&x.acc, &y.acc) && numbers_agree(&x.gyr, &y.gyr),
        (SensorData::LidarStandard(x), SensorData::LidarStandard(y)) => moments_agree(
            &x.stamp,
            &y.stamp,
        ) && standard_points_agree(x.points.as_slice(), y.points.as_slice()),
        (SensorData::LidarAvia(x), SensorData::LidarAvia(y)) => moments_agree(&x.stamp, &y.stamp)
            && avia_points_agree(x.points.as_slice(), y.points.as_slice()),
        _ => false,
    }
}

/// 32-bit numbers are equal as IEEE 754 numbers are: what is not a number (all bits of the exponent
/// set, and some bit of the fraction) is not even equal to itself, the zeros are equal to each
/// other, and all others are equal to themselves alone.
pub proof fn law_floats_are_equal_by_value(a: u32, b: u32)
    ensures
        equal_floats(a, a) == ((a >> 23) & 0xff != 0xff || a & 0x7f_ffff == 0),
        equal_floats(a, b) == equal_floats(b, a),
        (a & 0x7fff_ffff == 0 && b & 0x7fff_ffff == 0) ==> equal_floats(a, b),
        a != b && equal_floats(a, b) ==> (a & 0x7fff_ffff == 0 && b & 0x7fff_ffff == 0),
        a == b && ((a >> 23) & 0xff != 0xff || a & 0x7f_ffff == 0) ==> equal_floats(a, b),
{
    assert((a % 0x8000_0000 > 0x7f80_0000) == ((a >> 23) & 0xff == 0xff && a & 0x7f_ffff != 0))
        by (bit_vector);
    assert((a == 0 || a == 0x8000_0000) == (a & 0x7fff_ffff == 0)) by (bit_vector);
    assert((b == 0 || b == 0x8000_0000) == (b & 0x7fff_ffff == 0)) by (bit_vector);
}

/// Moments with less than a second of nanoseconds are the same only if their parts are; a second
/// is 1 000 000 000 nanoseconds.
pub proof fn law_same_moments(a: Time, b: Time)
    ensures
        a.nsec < 1_000_000_000 && b.nsec < 1_000_000_000 ==> same_moment(a, b) == (a.sec == b.sec
            && a.nsec == b.nsec),
        same_moment(a, b) == ((a.sec - b.sec) * 1_000_000_000 == b.nsec - a.nsec),
{
}

/// Measurements are the same where their moments are the same and their numbers are equal, place by
/// place.
pub proof fn law_same_measurements(
    s: Time,
    acc: Seq<u64>,
    gyr: Seq<u64>,
    t: Time,
    acc2: Seq<u64>,
    gyr2: Seq<u64>,
)
    requires
        acc.len() == 3 && gyr.len() == 3 && acc2.len() == 3 && gyr2.len() == 3,
    ensures
        same_sample(SensorView::Imu(s, acc, gyr), SensorView::Imu(t, acc2, gyr2)) == (same_moment(
            s,
            t,
        ) && same::equal_numbers(acc[0], acc2[0]) && same::equal_numbers(acc[1], acc2[1])
            && same::equal_numbers(acc[2], acc2[2]) && same::equal_numbers(gyr[0], gyr2[0])
            && same::equal_numbers(gyr[1], gyr2[1]) && same::equal_numbers(gyr[2], gyr2[2])),
{
}

/// Scans are the same where their moments are the same and their points agree in everything, one by
/// one.
pub proof fn law_same_scans(
    s: Time,
    ps: Seq<StdPointMsg>,
    t: Time,
    qs: Seq<StdPointMsg>,
    ls: Seq<AviaPointMsg>,
    ms: Seq<AviaPointMsg>,
)
    ensures
        same_sample(SensorView::LidarStandard(s, ps), SensorView::LidarStandard(t, qs)) == (
        same_moment(s, t) && ps.len() == qs.len() && forall|i: int|
            0 <= i < ps.len() ==> equal_floats((#[trigger] ps[i]).x, qs[i].x) && equal_floats(
                ps[i].y,
                qs[i].y,
            ) && equal_floats(ps[i].z, qs[i].z) && equal_floats(ps[i].intensity, qs[i].intensity)
                && equal_floats(ps[i].time, qs[i].time) && ps[i].ring == qs[i].ring),
        same_sample(SensorView::LidarAvia(s, ls), SensorView::LidarAvia(t, ms)) == (same_moment(
            s,
            t,
        ) && ls.len() == ms.len() && forall|i: int|
            0 <= i < ls.len() ==> equal_floats((#[trigger] ls[i]).x, ms[i].x) && equal_floats(
                ls[i].y,
                ms[i].y,
            ) && equal_floats(ls[i].z, ms[i].z) && ls[i].reflectivity == ms[i].reflectivity
                && ls[i].tag == ms[i].tag && ls[i].line == ms[i].line && ls[i].offset_time
                == ms[i].offset_time),
{
    assert(forall|i: int|
        0 <= i < ps.len() ==> same_standard_point(#[trigger] ps[i], qs[i]) == (equal_floats(
            ps[i].x,
            qs[i].x,
        ) && equal_floats(ps[i].y, qs[i].y) && equal_floats(ps[i].z, qs[i].z) && equal_floats(
            ps[i].intensity,
            qs[i].intensity,
        ) && equal_floats(ps[i].time, qs[i].time) && ps[i].ring == qs[i].ring));
    assert(forall|i: int|
        0 <= i < ls.len() ==> same_avia_point(#[trigger] ls[i], ms[i]) == (equal_floats(
            ls[i].x,
            ms[i].x,
        ) && equal_floats(ls[i].y, ms[i].y) && equal_floats(ls[i].z, ms[i].z) && ls[i].reflectivity
            == ms[i].reflectivity && ls[i].tag == ms[i].tag && ls[i].line == ms[i].line
            && ls[i].offset_time == ms[i].offset_time));
}

/// Samples of different kinds are never the same.
pub proof fn law_kinds_are_told_apart(a: SensorView, b: SensorView)
    ensures
        same_sample(a, b) ==> (a is Imu) == (b is Imu) && (a is LidarStandard) == (
        b is LidarStandard) && (a is LidarAvia) == (b is LidarAvia),
{
}

/// The messages that hold no sample are passed over.
proof fn lemma_passed_over(v: PlayerView, pos: nat, i: nat)
    requires
        pos <= i <= v.total,
        forall|j: nat|
            pos <= j < i ==> (#[trigger] v.message_at(j) matches Ok(m) && conv::sensor_of(
                m.channel,
                m.payload,
            ) is None),
    ensures
        sample_from(v, pos) == sample_from(v, i),
    decreases i - pos,
{
    if pos < i {
        assert(v.message_at(pos) matches Ok(m) && conv::sensor_of(m.channel, m.payload) is None);
        lemma_passed_over(v, pos + 1, i);
    }
}

/// The next sample is that of the first message from the place of the player on that holds one, and
/// playing goes on behind that message.
pub proof fn law_next_sample_is_the_first(v: PlayerView, i: nat, d: SensorView, now: u64)
    requires
        v.pos <= i < v.total,
        forall|j: nat|
            v.pos <= j < i ==> (#[trigger] v.message_at(j) matches Ok(m) && conv::sensor_of(
                m.channel,
                m.payload,
            ) is None),
        v.message_at(i) matches Ok(m) && conv::sensor_of(m.channel, m.payload) == Some(d),
    ensures
        next_sample(v) == (Some(d), i + 1),
        searched(v, now) == (PlayerView { pos: i + 1, ..v.poised(now) }),
{
    lemma_passed_over(v, v.pos, i);
}

/// Where no message from the place of the player on holds a sample, the search comes to the end;
/// a player that starts over searches from the first message on.
pub proof fn law_search_comes_to_the_end(v: PlayerView, i: nat, d: SensorView, now: u64)
    requires
        v.pos <= v.total,
        forall|j: nat|
            v.pos <= j < v.total ==> (#[trigger] v.message_at(j) matches Ok(m) && conv::sensor_of(
                m.channel,
                m.payload,
            ) is None),
    ensures
        !v.options.loop_ || v.total == 0 ==> next_sample(v) == (None::<SensorView>, v.total)
            && searched(v, now) == (PlayerView { pos: v.total, ..v.poised(now) }),
        v.options.loop_ && i < v.total && (forall|j: nat|
            j < i ==> (#[trigger] v.message_at(j) matches Ok(m) && conv::sensor_of(
                m.channel,
                m.payload,
            ) is None)) && (v.message_at(i) matches Ok(m) && conv::sensor_of(m.channel, m.payload)
            == Some(d)) ==> next_sample(v) == (Some(d), i + 1) && searched(v, now) == (PlayerView {
            pos: i + 1,
            ..v.restarted(now)
        }),
{
    lemma_passed_over(v, v.pos, v.total);
    if v.options.loop_ && i < v.total && (forall|j: nat|
        j < i ==> (#[trigger] v.message_at(j) matches Ok(m) && conv::sensor_of(
            m.channel,
            m.payload,
        ) is None)) {
        lemma_passed_over(v, 0, i);
    }
}

/// What is taken of a message is the sensor data that it holds, or the word that it holds none.
pub proof fn law_taken_is_what_the_message_holds(t: Taken, m: MessageView)
    requires
        taken_from(t, m),
    ensures
        t is Sample <==> conv::sensor_of(m.channel, m.payload) is Some,
        t is Other <==> conv::sensor_of(m.channel, m.payload) is None,
        t matches Taken::Sample(d) ==> conv::sensor_of(m.channel, m.payload) == Some(d@),
{
}

} // verus!
