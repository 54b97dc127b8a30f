//! The playing front end: messages in order of time, paced by a clock.
//!
//! Recordings with a chunk index are streamed: one chunk is unpacked at a time. Others are read
//! whole and sorted. The wall clock is a number of nanoseconds that the caller reads.

use crate::message::{ChunkIndex, Error, MessageView, OwnedMessage, Timestamp};
use crate::order::sort_by_stamp;
use crate::storage::StorageReader;
use crate::text::{push_text, with_number};
use crate::{message, order, text};
use vstd::arithmetic::div_mod;
use vstd::prelude::*;

verus! {

/// How to play.
#[derive(Clone, Copy, Debug)]
pub struct PlayOptions {
    /// The speed, as the bit pattern of a 64-bit IEEE 754 number: zero plays as fast as
    /// possible, one in real time.
    pub rate: u64,
    /// Whether to start over at the end.
    pub loop_: bool,
}

impl Default for PlayOptions {
    fn default() -> (r: Self)
        ensures
            r.rate == 0,
            !r.loop_,
    {
        PlayOptions { rate: 0, loop_: false }
    }
}

impl PlayOptions {
    pub fn rate(self, r: u64) -> (o: Self)
        ensures
            o == (PlayOptions { rate: r, ..self }),
    {
        PlayOptions { rate: r, ..self }
    }

    pub fn looped(self, l: bool) -> (o: Self)
        ensures
            o == (PlayOptions { loop_: l, ..self }),
    {
        PlayOptions { loop_: l, ..self }
    }
}

/// Whether the number with the bit pattern `rate` is zero or less: a zero of either sign, or a
/// negative number down to minus infinity. Anything that is not a number is not.
pub open spec fn unpaced(rate: u64) -> bool {
    rate == 0 || 0x8000_0000_0000_0000 <= rate <= 0xfff0_0000_0000_0000
}

pub fn is_unpaced(rate: u64) -> (r: bool)
    ensures
        r == unpaced(rate),
{
    rate == 0 || (0x8000_0000_0000_0000 <= rate && rate <= 0xfff0_0000_0000_0000)
}

/// `a - b` as a signed 64-bit number.
pub open spec fn signed_diff(a: u64, b: u64) -> int {
    let d = (a - b) % 0x1_0000_0000_0000_0000;
    if d >= 0x8000_0000_0000_0000 {
        d - 0x1_0000_0000_0000_0000
    } else {
        d
    }
}

pub fn signed_difference(a: u64, b: u64) -> (d: i64)
    ensures
        d == signed_diff(a, b),
{
    let w: u64 = a.wrapping_sub(b);
    proof {
        assert(w >= 0x8000_0000_0000_0000 ==> (w as i64) as int == w - 0x1_0000_0000_0000_0000)
            by (bit_vector);
        assert(w < 0x8000_0000_0000_0000 ==> (w as i64) as int == w) by (bit_vector);
    }
    w as i64
}

/// What `try_next` finds.
#[derive(Debug)]
pub enum TryNext {
    Ready(OwnedMessage),
    /// The next message is not due yet.
    NonBlocking,
    /// There are no more messages.
    End,
}

/// When the next message is to be played.
#[derive(Clone, Copy, Debug)]
pub enum Upcoming {
    /// There are no more messages.
    End,
    /// As soon as possible.
    Now,
    /// `delta` nanoseconds of recorded time after the moment `start` of the wall clock.
    Paced { start: u64, delta: i64 },
}

/// The number of messages in the first `n` chunks.
pub open spec fn count_before(chunks: Seq<ChunkIndex>, n: int) -> nat
    decreases n,
{
    if n <= 0 {
        0
    } else {
        count_before(chunks, n - 1) + chunks[n - 1].msg_count as nat
    }
}

/// Whether the messages that an index announces can be counted.
pub fn counts_fit(chunks: &[ChunkIndex]) -> (r: bool)
    ensures
        r == (count_before(chunks@, chunks@.len() as int) <= usize::MAX),
{
    let mut total: usize = 0;
    let mut i: usize = 0;
    while i < chunks.len()
        invariant
            i <= chunks@.len(),
            total == count_before(chunks@, i as int),
        decreases chunks@.len() - i,
    {
        proof {
            lemma_count_grows(chunks@, i + 1, chunks@.len() as int);
        }
        match total.checked_add(chunks[i].msg_count as usize) {
            Some(n) => {
                total = n;
            },
            None => {
                return false;
            },
        }
        i = i + 1;
    }
    true
}

/// The last one of the first `n` chunks that begins with message `pos` or an earlier one.
pub open spec fn chunk_with(chunks: Seq<ChunkIndex>, pos: int, n: int) -> int
    decreases n,
{
    if n <= 1 {
        0
    } else if count_before(chunks, n - 1) <= pos {
        n - 1
    } else {
        chunk_with(chunks, pos, n - 1)
    }
}

/// The first chunk, from `i` on, that does not end before the time `t`.
pub open spec fn chunk_reaching(chunks: Seq<ChunkIndex>, t: u64, i: int) -> int
    decreases chunks.len() - i,
{
    if i >= chunks.len() || chunks[i].end_stamp >= t {
        i
    } else {
        chunk_reaching(chunks, t, i + 1)
    }
}

/// The number of leading messages of `s` that are earlier than `t`.
pub open spec fn earlier(s: Seq<MessageView>, t: u64) -> nat
    decreases s.len(),
{
    if s.len() == 0 || s[0].stamp >= t {
        0
    } else {
        1 + earlier(s.drop_first(), t)
    }
}

/// Whether no chunk begins before the ones before it end.
pub open spec fn in_order(chunks: Seq<ChunkIndex>) -> bool {
    forall|a: int, b: int|
        0 <= a < b < chunks.len() ==> (#[trigger] chunks[a]).end_stamp <= (
        #[trigger] chunks[b]).start_stamp
}

/// The earliest time at which a chunk begins.
pub open spec fn earliest(chunks: Seq<ChunkIndex>) -> u64
    decreases chunks.len(),
{
    if chunks.len() <= 1 || chunks.last().start_stamp < earliest(chunks.drop_last()) {
        chunks.last().start_stamp
    } else {
        earliest(chunks.drop_last())
    }
}

/// The latest time at which a chunk ends.
pub open spec fn latest(chunks: Seq<ChunkIndex>) -> u64
    decreases chunks.len(),
{
    if chunks.len() <= 1 || chunks.last().end_stamp > latest(chunks.drop_last()) {
        chunks.last().end_stamp
    } else {
        latest(chunks.drop_last())
    }
}

/// The messages of all chunks that can be read, chunk after chunk.
pub open spec fn gathered(contents: Seq<Result<Seq<MessageView>, Seq<char>>>) -> Seq<MessageView>
    decreases contents.len(),
{
    if contents.len() == 0 {
        Seq::empty()
    } else {
        match contents.last() {
            Ok(ms) => gathered(contents.drop_last()) + ms,
            Err(e) => gathered(contents.drop_last()),
        }
    }
}

/// The state of a [`Player`].
#[verifier::ext_equal]
pub struct PlayerView {
    pub options: PlayOptions,
    pub chunks: Seq<ChunkIndex>,
    /// What reading each chunk gives.
    pub contents: Seq<Result<Seq<MessageView>, Seq<char>>>,
    pub total: nat,
    /// All messages in order of time, where they are not played chunk by chunk: where there are
    /// no chunks, where the chunks are not in order of time, and where all were asked for.
    pub all: Option<Seq<MessageView>>,
    pub pos: nat,
    /// When playing began, on the wall clock.
    pub start: Option<u64>,
    /// The recorded time that belongs to `start`.
    pub first_ts: Option<u64>,
}

impl PlayerView {
    /// Whether the parts agree with each other.
    pub open spec fn sound(self) -> bool {
        &&& self.contents.len() == self.chunks.len()
        &&& self.total <= usize::MAX
        &&& self.chunks.len() > 0 ==> self.total == count_before(
            self.chunks,
            self.chunks.len() as int,
        )
        &&& self.chunks.len() == 0 ==> self.all is Some && self.all->Some_0.len() == self.total
        &&& self.all matches Some(v) ==> order::in_time_order(v)
        &&& self.all is None ==> in_order(self.chunks)
        &&& self.pos <= self.total
    }

    pub open spec fn no_such_message(pos: nat) -> Seq<char> {
        "ordinal "@ + text::decimal(pos) + " out of range"@
    }

    /// The messages of chunk `c`, in order of time.
    pub open spec fn sorted_chunk(self, c: int) -> Result<Seq<MessageView>, Seq<char>> {
        match self.contents[c] {
            Ok(ms) => Ok(order::time_sorted(ms)),
            Err(e) => Err(e),
        }
    }

    /// Message number `pos`, or the words of the error that getting it gives.
    pub open spec fn message_at(self, pos: nat) -> Result<MessageView, Seq<char>> {
        match self.all {
            Some(v) => if pos < v.len() {
                Ok(v[pos as int])
            } else {
                Err(Self::no_such_message(pos))
            },
            None => {
                let c = chunk_with(self.chunks, pos as int, self.chunks.len() as int);
                match self.sorted_chunk(c) {
                    Err(e) => Err(e),
                    Ok(ms) => {
                        let local = pos - count_before(self.chunks, c);
                        if local < ms.len() {
                            Ok(ms[local])
                        } else {
                            Err(Self::no_such_message(pos))
                        }
                    },
                }
            },
        }
    }

    /// The time of message number `pos`, if it can be had.
    pub open spec fn stamp_at(self, pos: nat) -> Option<u64> {
        match self.message_at(pos) {
            Ok(m) => Some(m.stamp),
            Err(e) => None,
        }
    }

    /// The time of the first message; where the chunks are not in order, the earliest time that
    /// the index gives.
    pub open spec fn first_stamp(self) -> Option<u64> {
        if !in_order(self.chunks) {
            Some(earliest(self.chunks))
        } else {
            match self.all {
                Some(v) => if v.len() > 0 {
                    Some(v.first().stamp)
                } else {
                    None
                },
                None => Some(self.chunks.first().start_stamp),
            }
        }
    }

    /// The time of the last message; where the chunks are not in order, the latest time that the
    /// index gives.
    pub open spec fn last_stamp(self) -> Option<u64> {
        if !in_order(self.chunks) {
            Some(latest(self.chunks))
        } else {
            match self.all {
                Some(v) => if v.len() > 0 {
                    Some(v.last().stamp)
                } else {
                    None
                },
                None => Some(self.chunks.last().end_stamp),
            }
        }
    }

    pub open spec fn duration(self) -> u64 {
        match (self.first_stamp(), self.last_stamp()) {
            (Some(a), Some(b)) => if a <= b {
                (b - a) as u64
            } else {
                0
            },
            _ => 0,
        }
    }

    /// The number of the first message that is not earlier than `t`, or the words of the error
    /// that finding it gives.
    pub open spec fn ordinal_for(self, t: u64) -> Result<nat, Seq<char>> {
        match self.all {
            Some(v) => Ok(earlier(v, t)),
            None => {
                let c = chunk_reaching(self.chunks, t, 0);
                if c >= self.chunks.len() {
                    Ok(self.total)
                } else {
                    match self.sorted_chunk(c) {
                        Err(e) => Err(e),
                        Ok(ms) => Ok(count_before(self.chunks, c) + earlier(ms, t)),
                    }
                }
            },
        }
    }

    /// The clock set going, if it was not: the message to be played next is due `now`.
    pub open spec fn timed(self, now: u64) -> PlayerView {
        if self.start is Some {
            self
        } else {
            PlayerView {
                start: Some(now),
                first_ts: Some(
                    match self.stamp_at(self.pos) {
                        Some(s) => s,
                        None => 0,
                    },
                ),
                ..self
            }
        }
    }

    /// Back at the beginning.
    pub open spec fn restarted(self, now: u64) -> PlayerView {
        PlayerView { pos: 0, start: None, first_ts: None, ..self }.timed(now)
    }

    /// The playing position for the time `target`, which is due `now`.
    pub open spec fn sought(self, target: u64, now: u64) -> PlayerView {
        let ord = match self.ordinal_for(target) {
            Ok(n) => n,
            Err(e) => self.total,
        };
        let moved = PlayerView {
            pos: if ord < self.total {
                ord
            } else {
                self.total
            },
            ..self
        };
        PlayerView {
            start: Some(now),
            first_ts: Some(
                match moved.stamp_at(moved.pos) {
                    Some(s) => s,
                    None => target,
                },
            ),
            ..moved
        }
    }

    /// The speed changed; the message to be played next is due `now`.
    pub open spec fn with_rate(self, rate: u64, now: u64) -> PlayerView {
        PlayerView {
            options: PlayOptions { rate, ..self.options },
            start: Some(now),
            first_ts: Some(
                match self.stamp_at(self.pos) {
                    Some(s) => s,
                    None => match self.first_ts {
                        Some(f) => f,
                        None => 0,
                    },
                },
            ),
            ..self
        }
    }

    /// Whether there is nothing more to play.
    pub open spec fn at_end(self) -> bool {
        self.total == 0 || (self.pos >= self.total && !self.options.loop_)
    }

    /// Ready to play the next message: started over where that is due, with the clock going.
    pub open spec fn poised(self, now: u64) -> PlayerView {
        if self.at_end() {
            self
        } else if self.pos >= self.total {
            self.restarted(now)
        } else {
            self.timed(now)
        }
    }

    /// When the next message is to be played.
    pub open spec fn upcoming(self) -> Upcoming {
        if self.at_end() {
            Upcoming::End
        } else {
            match self.stamp_at(self.pos) {
                None => Upcoming::End,
                Some(s) => if unpaced(self.options.rate) {
                    Upcoming::Now
                } else {
                    match (self.start, self.first_ts) {
                        (Some(start), Some(first)) => Upcoming::Paced {
                            start,
                            delta: signed_diff(s, first) as i64,
                        },
                        _ => Upcoming::Now,
                    }
                },
            }
        }
    }

    /// The next message taken.
    pub open spec fn advanced(self) -> PlayerView {
        PlayerView { pos: self.pos + 1, ..self }
    }

    /// What taking a message at the moment `now` gives.
    pub open spec fn given(self, now: u64) -> Option<MessageView> {
        let ready = self.poised(now);
        if ready.at_end() {
            None
        } else {
            match ready.message_at(ready.pos) {
                Ok(m) => Some(m),
                Err(e) => None,
            }
        }
    }

    /// The state after taking a message at the moment `now`.
    pub open spec fn after(self, now: u64) -> PlayerView {
        if self.given(now) is Some {
            self.poised(now).advanced()
        } else {
            self.poised(now)
        }
    }

    /// The state after taking messages at the moments `clock`, one after the other.
    pub open spec fn after_all(self, clock: Seq<u64>) -> PlayerView
        decreases clock.len(),
    {
        if clock.len() == 0 {
            self
        } else {
            self.after_all(clock.drop_last()).after(clock.last())
        }
    }

    /// What the call number `k`, from zero on, gives, where messages are taken at the moments
    /// `clock`.
    pub open spec fn call(self, clock: Seq<u64>, k: int) -> Option<MessageView> {
        self.after_all(clock.take(k)).given(clock[k])
    }
}

/// Plays what a reading end holds.
pub struct Player<R: StorageReader> {
    reader: R,
    options: PlayOptions,
    chunks: Vec<ChunkIndex>,
    chunk_starts: Vec<usize>,
    /// Whether the chunks are in order of time.
    ordered: bool,
    total: usize,
    all: Option<Vec<OwnedMessage>>,
    /// The chunk that is unpacked, and its messages in order of time.
    loaded: Option<(usize, Vec<OwnedMessage>)>,
    pos: usize,
    start: Option<u64>,
    first_ts: Option<u64>,
}

impl<R: StorageReader> View for Player<R> {
    type V = PlayerView;

    closed spec fn view(&self) -> PlayerView {
        let contents = Seq::new(self.chunks@.len(), |i: int| self.reader.chunk_content(i));
        PlayerView {
            options: self.options,
            chunks: self.chunks@,
            contents,
            total: self.total as nat,
            all: match self.all {
                Some(v) => Some(message::views(v@)),
                None => if in_order(self.chunks@) {
                    None
                } else {
                    Some(order::time_sorted(gathered(contents)))
                },
            },
            pos: self.pos as nat,
            start: self.start,
            first_ts: self.first_ts,
        }
    }
}

pub proof fn lemma_count_grows(chunks: Seq<ChunkIndex>, a: int, b: int)
    requires
        0 <= a <= b,
    ensures
        count_before(chunks, a) <= count_before(chunks, b),
    decreases b,
{
    if a < b {
        lemma_count_grows(chunks, a, b - 1);
    }
}

proof fn lemma_chunk_with(chunks: Seq<ChunkIndex>, pos: int, n: int)
    requires
        0 < n,
        0 <= pos,
    ensures
        0 <= chunk_with(chunks, pos, n) < n,
        count_before(chunks, chunk_with(chunks, pos, n)) <= pos,
        chunk_with(chunks, pos, n) + 1 < n ==> pos < count_before(
            chunks,
            chunk_with(chunks, pos, n) + 1,
        ),
    decreases n,
{
    if n > 1 && count_before(chunks, n - 1) > pos {
        lemma_chunk_with(chunks, pos, n - 1);
    }
}

proof fn lemma_earlier(s: Seq<MessageView>, t: u64)
    ensures
        earlier(s, t) <= s.len(),
        earlier(s, t) < s.len() ==> s[earlier(s, t) as int].stamp >= t,
        forall|i: int| 0 <= i < earlier(s, t) ==> (#[trigger] s[i]).stamp < t,
    decreases s.len(),
{
    if s.len() > 0 && s[0].stamp < t {
        let r = s.drop_first();
        lemma_earlier(r, t);
        assert forall|i: int| 0 <= i < earlier(s, t) implies (#[trigger] s[i]).stamp < t by {
            if i > 0 {
                assert(r[i - 1] == s[i]);
            }
        }
    }
}

proof fn lemma_earlier_is(s: Seq<MessageView>, t: u64, n: int)
    requires
        0 <= n <= s.len(),
        forall|i: int| 0 <= i < n ==> (#[trigger] s[i]).stamp < t,
        n < s.len() ==> s[n].stamp >= t,
    ensures
        earlier(s, t) == n,
{
    lemma_earlier(s, t);
    if earlier(s, t) < n {
        assert(s[earlier(s, t) as int].stamp < t);
    }
}

/// The number of messages of `v` that are earlier than `t`, where `v` is in order of time.
fn find_time(v: &Vec<OwnedMessage>, t: u64) -> (n: usize)
    requires
        order::in_time_order(message::views(v@)),
    ensures
        n == earlier(message::views(v@), t),
        n <= v@.len(),
{
    let ghost s = message::views(v@);
    let mut lo: usize = 0;
    let mut hi: usize = v.len();
    while lo < hi
        invariant
            lo <= hi <= v.len(),
            s == message::views(v@),
            order::in_time_order(s),
            forall|i: int| 0 <= i < lo ==> (#[trigger] s[i]).stamp < t,
            forall|i: int| hi <= i < s.len() ==> (#[trigger] s[i]).stamp >= t,
        decreases hi - lo,
    {
        let mid: usize = lo + (hi - lo) / 2;
        assert(s[mid as int].stamp == v@[mid as int].stamp.0);
        if v[mid].stamp.0 < t {
            assert forall|i: int| 0 <= i < mid + 1 implies (#[trigger] s[i]).stamp < t by {
                assert(order::Timed::time_key(s[i]) <= order::Timed::time_key(s[mid as int]));
            }
            lo = mid + 1;
        } else {
            assert forall|i: int| mid <= i < s.len() implies (#[trigger] s[i]).stamp >= t by {
                assert(order::Timed::time_key(s[mid as int]) <= order::Timed::time_key(s[i]));
            }
            hi = mid;
        }
    }
    proof {
        lemma_earlier_is(s, t, lo as int);
    }
    lo
}

fn is_in_order(chunks: &[ChunkIndex]) -> (r: bool)
    ensures
        r == in_order(chunks@),
{
    if chunks.len() == 0 {
        return true;
    }
    let mut end: u64 = chunks[0].end_stamp;
    let mut i: usize = 1;
    let ghost mut at = 0int;
    while i < chunks.len()
        invariant
            1 <= i <= chunks@.len(),
            0 <= at < i,
            end == chunks@[at].end_stamp,
            forall|a: int| 0 <= a < i ==> (#[trigger] chunks@[a]).end_stamp <= end,
            in_order(chunks@.take(i as int)),
        decreases chunks@.len() - i,
    {
        let c: ChunkIndex = chunks[i];
        if c.start_stamp < end {
            assert(chunks@[at].end_stamp > chunks@[i as int].start_stamp);
            return false;
        }
        proof {
            let some = chunks@.take(i + 1);
            assert forall|a: int, b: int| 0 <= a < b < some.len() implies (
            #[trigger] some[a]).end_stamp <= (#[trigger] some[b]).start_stamp by {
                if b < i {
                    let fewer = chunks@.take(i as int);
                    assert(fewer[a] == some[a] && fewer[b] == some[b]);
                } else {
                    assert(chunks@[a].end_stamp <= end);
                }
            }
        }
        if c.end_stamp > end {
            end = c.end_stamp;
            proof {
                at = i as int;
            }
        }
        i = i + 1;
    }
    assert(chunks@.take(i as int) =~= chunks@);
    true
}

fn first_start(chunks: &[ChunkIndex]) -> (t: u64)
    requires
        chunks@.len() > 0,
    ensures
        t == earliest(chunks@),
{
    let mut t: u64 = chunks[0].start_stamp;
    let mut i: usize = 1;
    while i < chunks.len()
        invariant
            1 <= i <= chunks@.len(),
            t == earliest(chunks@.take(i as int)),
        decreases chunks@.len() - i,
    {
        assert(chunks@.take(i + 1).drop_last() =~= chunks@.take(i as int));
        if chunks[i].start_stamp < t {
            t = chunks[i].start_stamp;
        }
        i = i + 1;
    }
    assert(chunks@.take(i as int) =~= chunks@);
    t
}

fn last_end(chunks: &[ChunkIndex]) -> (t: u64)
    requires
        chunks@.len() > 0,
    ensures
        t == latest(chunks@),
{
    let mut t: u64 = chunks[0].end_stamp;
    let mut i: usize = 1;
    while i < chunks.len()
        invariant
            1 <= i <= chunks@.len(),
            t == latest(chunks@.take(i as int)),
        decreases chunks@.len() - i,
    {
        assert(chunks@.take(i + 1).drop_last() =~= chunks@.take(i as int));
        if chunks[i].end_stamp > t {
            t = chunks[i].end_stamp;
        }
        i = i + 1;
    }
    assert(chunks@.take(i as int) =~= chunks@);
    t
}

fn no_such_message(pos: usize) -> (e: Error)
    ensures
        e@ == PlayerView::no_such_message(pos as nat),
{
    let mut words: String = with_number("ordinal ", pos as u64);
    push_text(&mut words, " out of range");
    Error(words)
}

impl<R: StorageReader> Player<R> {
    /// The invariant of a player.
    pub closed spec fn sound(&self) -> bool {
        &&& self@.sound()
        &&& self.ordered == in_order(self.chunks@)
        &&& self.chunk_starts@.len() == self.chunks@.len()
        &&& forall|i: int|
            0 <= i < self.chunk_starts@.len() ==> #[trigger] self.chunk_starts@[i] == count_before(
                self.chunks@,
                i,
            )
        &&& self.loaded matches Some(l) ==> l.0 < self.chunks@.len() && self@.sorted_chunk(
            l.0 as int,
        ) == Ok::<Seq<MessageView>, Seq<char>>(message::views(l.1@))
    }

    /// The reading end.
    pub closed spec fn reading_end(&self) -> R {
        self.reader
    }

    /// Opens a reading end. With a chunk index nothing is read yet; without one, all messages are
    /// read, and sorted by time.
    pub fn open(reader: R, options: PlayOptions) -> (r: Result<Self, Error>)
        requires
            count_before(reader.chunk_list(), reader.chunk_list().len() as int) <= usize::MAX,
        ensures
            match r {
                Ok(p) => p.sound() && p@ == opened(reader, options) && (reader.chunk_list().len()
                    == 0 ==> reader.whole_content() is Ok) && (reader.chunk_list().len() > 0
                    ==> p.reading_end() == reader),
                Err(e) => reader.chunk_list().len() == 0 && reader.whole_content() == Err::<
                    Seq<MessageView>,
                    Seq<char>,
                >(e@),
            },
    {
        let mut reader: R = reader;
        let ghost was = reader;
        let index: &[ChunkIndex] = reader.chunk_index();
        let ghost list = index@;
        let n: usize = index.len();
        let mut chunks: Vec<ChunkIndex> = Vec::new();
        let mut chunk_starts: Vec<usize> = Vec::new();
        let mut total: usize = 0;
        let mut i: usize = 0;
        while i < n
            invariant
                i <= n,
                n == index@.len(),
                list == index@,
                count_before(list, n as int) <= usize::MAX,
                chunks@ == list.take(i as int),
                chunk_starts@.len() == i,
                total == count_before(list, i as int),
                forall|k: int|
                    0 <= k < i ==> #[trigger] chunk_starts@[k] == count_before(list, k),
            decreases n - i,
        {
            proof {
                lemma_count_grows(list, i + 1, n as int);
            }
            chunk_starts.push(total);
            chunks.push(index[i]);
            total = total + index[i].msg_count as usize;
            i = i + 1;
            assert(chunks@ =~= list.take(i as int));
        }
        assert(chunks@ =~= list);
        let ordered: bool = is_in_order(chunks.as_slice());
        let mut all: Option<Vec<OwnedMessage>> = None;
        if chunks.len() == 0 {
            let messages: Vec<OwnedMessage> = reader.read_all()?;
            let sorted: Vec<OwnedMessage> = sort_by_stamp(messages);
            proof {
                order::law_sorted_is_in_order(message::views(messages@));
                order::lemma_sorted_len(message::views(messages@));
            }
            total = sorted.len();
            all = Some(sorted);
        }
        let p = Player {
            reader,
            options,
            chunks,
            chunk_starts,
            ordered,
            total,
            all,
            loaded: None,
            pos: 0,
            start: None,
            first_ts: None,
        };
        proof {
            assert(p@.contents =~= opened(was, options).contents);
            assert(p@ =~= opened(was, options));
            order::law_sorted_is_in_order(gathered(p@.contents));
        }
        Ok(p)
    }
}

/// The state of a player that was just opened.
pub open spec fn opened<R: StorageReader>(reader: R, options: PlayOptions) -> PlayerView {
    let chunks = reader.chunk_list();
    let contents = Seq::new(chunks.len(), |i: int| reader.chunk_content(i));
    fresh(options, chunks, contents, reader.whole_content())
}

/// The state of a player of the given chunks that was just opened; where there are none, `whole`
/// is what reading all messages gives.
pub open spec fn fresh(
    options: PlayOptions,
    chunks: Seq<ChunkIndex>,
    contents: Seq<Result<Seq<MessageView>, Seq<char>>>,
    whole: Result<Seq<MessageView>, Seq<char>>,
) -> PlayerView {
    let all = if chunks.len() == 0 {
        match whole {
            Ok(ms) => Some(order::time_sorted(ms)),
            Err(e) => None,
        }
    } else if in_order(chunks) {
        None
    } else {
        Some(order::time_sorted(gathered(contents)))
    };
    PlayerView {
        options,
        chunks,
        contents,
        total: if chunks.len() == 0 && all is Some {
            all->Some_0.len()
        } else {
            count_before(chunks, chunks.len() as int)
        },
        all,
        pos: 0,
        start: None,
        first_ts: None,
    }
}

impl<R: StorageReader> Player<R> {
    /// Unpacks chunk `c`, unless it is unpacked, and puts it in order of time.
    fn ensure_loaded(&mut self, c: usize) -> (r: Result<(), Error>)
        requires
            old(self).sound(),
            c < old(self)@.chunks.len(),
        ensures
            final(self).sound(),
            final(self)@ == old(self)@,
            final(self).chunk_starts == old(self).chunk_starts,
            match r {
                Ok(_) => final(self).loaded matches Some(l) && l.0 == c,
                Err(e) => old(self)@.sorted_chunk(c as int) == Err::<Seq<MessageView>, Seq<char>>(
                    e@,
                ),
            },
    {
        if let Some(l) = &self.loaded {
            if l.0 == c {
                return Ok(());
            }
        }
        let ghost was = self@;
        let r: Result<Vec<OwnedMessage>, Error> = self.reader.read_chunk_at(c);
        assert(self@.contents =~= was.contents);
        match r {
            Err(e) => Err(e),
            Ok(msgs) => {
                let sorted: Vec<OwnedMessage> = sort_by_stamp(msgs);
                self.loaded = Some((c, sorted));
                assert(self@.contents =~= was.contents);
                Ok(())
            },
        }
    }

    /// The chunk that message `pos` belongs to.
    fn chunk_containing(&self, pos: usize) -> (c: usize)
        requires
            self.sound(),
            self@.chunks.len() > 0,
        ensures
            c == chunk_with(self@.chunks, pos as int, self@.chunks.len() as int),
    {
        let mut n: usize = self.chunks.len();
        while n > 1 && self.chunk_starts[n - 1] > pos
            invariant
                self.sound(),
                1 <= n <= self.chunks.len(),
                chunk_with(self@.chunks, pos as int, self@.chunks.len() as int) == chunk_with(
                    self@.chunks,
                    pos as int,
                    n as int,
                ),
            decreases n,
        {
            n = n - 1;
        }
        n - 1
    }

    /// Message number `pos`.
    fn message_at(&mut self, pos: usize) -> (r: Result<OwnedMessage, Error>)
        requires
            old(self).sound(),
        ensures
            final(self).sound(),
            final(self)@ == old(self)@,
            match r {
                Ok(m) => old(self)@.message_at(pos as nat) == Ok::<MessageView, Seq<char>>(m@),
                Err(e) => old(self)@.message_at(pos as nat) == Err::<MessageView, Seq<char>>(e@),
            },
    {
        self.arrange();
        if let Some(all) = &self.all {
            if pos < all.len() {
                return Ok(all[pos].clone());
            }
            return Err(no_such_message(pos));
        }
        let c: usize = self.chunk_containing(pos);
        proof {
            lemma_chunk_with(self@.chunks, pos as int, self@.chunks.len() as int);
        }
        self.ensure_loaded(c)?;
        let local: usize = pos - self.chunk_starts[c];
        match &self.loaded {
            Some(l) => {
                if local < l.1.len() {
                    Ok(l.1[local].clone())
                } else {
                    Err(no_such_message(pos))
                }
            },
            None => Err(no_such_message(pos)),
        }
    }

    /// The time of message number `pos`.
    fn stamp_at(&mut self, pos: usize) -> (r: Option<u64>)
        requires
            old(self).sound(),
        ensures
            final(self).sound(),
            final(self)@ == old(self)@,
            r == old(self)@.stamp_at(pos as nat),
    {
        self.arrange();
        if let Some(all) = &self.all {
            if pos < all.len() {
                return Some(all[pos].stamp.0);
            }
            return None;
        }
        let c: usize = self.chunk_containing(pos);
        proof {
            lemma_chunk_with(self@.chunks, pos as int, self@.chunks.len() as int);
        }
        if self.ensure_loaded(c).is_err() {
            return None;
        }
        let local: usize = pos - self.chunk_starts[c];
        match &self.loaded {
            Some(l) => {
                if local < l.1.len() {
                    Some(l.1[local].stamp.0)
                } else {
                    None
                }
            },
            None => None,
        }
    }

    /// The number of the first message that is not earlier than `t`.
    fn ordinal_for_stamp(&mut self, t: u64) -> (r: Result<usize, Error>)
        requires
            old(self).sound(),
        ensures
            final(self).sound(),
            final(self)@ == old(self)@,
            match r {
                Ok(n) => old(self)@.ordinal_for(t) is Ok && n == (if old(self)@.ordinal_for(
                    t,
                )->Ok_0 > usize::MAX {
                    usize::MAX as nat
                } else {
                    old(self)@.ordinal_for(t)->Ok_0
                }),
                Err(e) => old(self)@.ordinal_for(t) == Err::<nat, Seq<char>>(e@),
            },
    {
        self.arrange();
        if let Some(all) = &self.all {
            return Ok(find_time(all, t));
        }
        let mut c: usize = 0;
        while c < self.chunks.len() && self.chunks[c].end_stamp < t
            invariant
                c <= self.chunks.len(),
                chunk_reaching(self@.chunks, t, 0) == chunk_reaching(self@.chunks, t, c as int),
            decreases self.chunks.len() - c,
        {
            c = c + 1;
        }
        if c == self.chunks.len() {
            return Ok(self.total);
        }
        self.ensure_loaded(c)?;
        let mut local: usize = 0;
        if let Some(l) = &self.loaded {
            proof {
                if let Ok(ms) = self@.contents[c as int] {
                    order::law_sorted_is_in_order(ms);
                }
            }
            local = find_time(&l.1, t);
        }
        Ok(self.chunk_starts[c].saturating_add(local))
    }

    /// Reads all messages, in order of time. What cannot be read is left out.
    pub fn messages(&mut self) -> (r: &[OwnedMessage])
        requires
            old(self).sound(),
        ensures
            message::views(r@) == old(self)@.all_messages(),
            final(self).sound(),
            final(self)@ == (PlayerView {
                all: Some(old(self)@.all_messages()),
                ..old(self)@
            }),
    {
        let ghost was = self@;
        if self.all.is_none() {
            self.load_all();
        }
        match &self.all {
            Some(v) => v.as_slice(),
            None => &[],
        }
    }

    /// Reads all messages where the chunks are not in order of time.
    fn arrange(&mut self)
        requires
            old(self).sound(),
        ensures
            final(self).sound(),
            final(self)@ == old(self)@,
            final(self).all is None ==> final(self)@.all is None,
    {
        if self.all.is_none() && !self.ordered {
            self.load_all();
        }
    }

    fn load_all(&mut self)
        requires
            old(self).sound(),
            old(self).all is None,
        ensures
            final(self).sound(),
            final(self).all is Some,
            final(self)@ == (PlayerView {
                all: Some(old(self)@.all_messages()),
                ..old(self)@
            }),
    {
        let ghost was = self@;
        let mut v: Vec<OwnedMessage> = Vec::new();
        let mut i: usize = 0;
        assert(message::views(v@) =~= Seq::empty());
        assert(was.contents.take(0).len() == 0);
        while i < self.chunks.len()
            invariant
                self.sound(),
                self@ == was,
                i <= self.chunks.len(),
                message::views(v@) == gathered(was.contents.take(i as int)),
            decreases self.chunks.len() - i,
        {
            let ghost before = message::views(v@);
            assert(was.contents.take(i + 1).drop_last() =~= was.contents.take(i as int));
            let r: Result<Vec<OwnedMessage>, Error> = self.reader.read_chunk_at(i);
            assert(self@.contents =~= was.contents);
            if let Ok(msgs) = r {
                let mut msgs: Vec<OwnedMessage> = msgs;
                let ghost more = message::views(msgs@);
                v.append(&mut msgs);
                assert(message::views(v@) =~= before + more);
            }
            i = i + 1;
        }
        assert(was.contents.take(i as int) =~= was.contents);
        let sorted: Vec<OwnedMessage> = sort_by_stamp(v);
        proof {
            order::law_sorted_is_in_order(message::views(v@));
        }
        self.all = Some(sorted);
        self.loaded = None;
        assert(self@.contents =~= was.contents);
    }

    /// The number of messages.
    pub fn message_count(&self) -> (n: usize)
        ensures
            n == self@.total,
    {
        self.total
    }

    /// The time of the first message.
    pub fn first_stamp(&self) -> (r: Option<Timestamp>)
        requires
            self.sound(),
        ensures
            match r {
                Some(t) => self@.first_stamp() == Some(t.0),
                None => self@.first_stamp() is None,
            },
    {
        if !self.ordered {
            return Some(Timestamp(first_start(self.chunks.as_slice())));
        }
        if let Some(all) = &self.all {
            if all.len() == 0 {
                return None;
            }
            return Some(all[0].stamp);
        }
        Some(Timestamp(self.chunks[0].start_stamp))
    }

    /// The time of the last message.
    pub fn last_stamp(&self) -> (r: Option<Timestamp>)
        requires
            self.sound(),
        ensures
            match r {
                Some(t) => self@.last_stamp() == Some(t.0),
                None => self@.last_stamp() is None,
            },
    {
        if !self.ordered {
            return Some(Timestamp(last_end(self.chunks.as_slice())));
        }
        if let Some(all) = &self.all {
            if all.len() == 0 {
                return None;
            }
            return Some(all[all.len() - 1].stamp);
        }
        Some(Timestamp(self.chunks[self.chunks.len() - 1].end_stamp))
    }

    /// The time from the first message to the last.
    pub fn duration(&self) -> (r: Timestamp)
        requires
            self.sound(),
        ensures
            r.0 == self@.duration(),
    {
        match (self.first_stamp(), self.last_stamp()) {
            (Some(a), Some(b)) => Timestamp(b.0.saturating_sub(a.0)),
            _ => Timestamp(0),
        }
    }
}

impl PlayerView {
    /// All messages that can be read, in order of time.
    pub open spec fn all_messages(self) -> Seq<MessageView> {
        match self.all {
            Some(v) => v,
            None => order::time_sorted(gathered(self.contents)),
        }
    }
}

impl<R: StorageReader> Player<R> {
    /// Sets the clock going, once.
    fn init_time(&mut self, now: u64)
        requires
            old(self).sound(),
        ensures
            final(self).sound(),
            final(self)@ == old(self)@.timed(now),
    {
        if self.start.is_none() {
            let s: Option<u64> = self.stamp_at(self.pos);
            let ghost was = self@;
            self.start = Some(now);
            self.first_ts = Some(
                match s {
                    Some(s) => s,
                    None => 0,
                },
            );
            assert(self@.contents =~= was.contents);
        }
    }

    /// Goes back to the beginning.
    pub fn seek_to_start(&mut self, now: u64)
        requires
            old(self).sound(),
        ensures
            final(self).sound(),
            final(self)@ == old(self)@.restarted(now),
    {
        let ghost was = self@;
        self.pos = 0;
        self.start = None;
        self.first_ts = None;
        assert(self@.contents =~= was.contents);
        self.init_time(now);
    }

    /// Goes to the first message that is not earlier than `target`.
    pub fn seek(&mut self, target: Timestamp, now: u64)
        requires
            old(self).sound(),
        ensures
            final(self).sound(),
            final(self)@ == old(self)@.sought(target.0, now),
    {
        let ord: usize = match self.ordinal_for_stamp(target.0) {
            Ok(n) => n,
            Err(_) => self.total,
        };
        let ghost was = self@;
        self.pos = if ord < self.total {
            ord
        } else {
            self.total
        };
        assert(self@.contents =~= was.contents);
        let anchor: u64 = match self.stamp_at(self.pos) {
            Some(s) => s,
            None => target.0,
        };
        self.first_ts = Some(anchor);
        self.start = Some(now);
        assert(self@.contents =~= was.contents);
    }

    /// Goes to the first message that is not earlier than `offset` nanoseconds after the first
    /// one. The offset of a given part of the whole is that part of [`Player::duration`].
    pub fn seek_ratio(&mut self, offset: u64, now: u64)
        requires
            old(self).sound(),
            old(self)@.first_or_zero() + offset <= u64::MAX,
        ensures
            final(self).sound(),
            final(self)@ == old(self)@.sought((old(self)@.first_or_zero() + offset) as u64, now),
    {
        let first: u64 = match self.first_stamp() {
            Some(t) => t.0,
            None => 0,
        };
        self.seek(Timestamp(first + offset), now);
    }

    /// Changes the speed.
    pub fn set_rate(&mut self, rate: u64, now: u64)
        requires
            old(self).sound(),
        ensures
            final(self).sound(),
            final(self)@ == old(self)@.with_rate(rate, now),
    {
        let s: Option<u64> = self.stamp_at(self.pos);
        let ghost was = self@;
        let cur: u64 = match s {
            Some(s) => s,
            None => match self.first_ts {
                Some(f) => f,
                None => 0,
            },
        };
        self.options = PlayOptions { rate, loop_: self.options.loop_ };
        self.first_ts = Some(cur);
        self.start = Some(now);
        assert(self@.contents =~= was.contents);
    }

    /// Makes ready to play the next message, and says when that is due.
    pub fn poll(&mut self, now: u64) -> (r: Upcoming)
        requires
            old(self).sound(),
        ensures
            final(self).sound(),
            final(self)@ == old(self)@.poised(now),
            r == old(self)@.poised(now).upcoming(),
    {
        if self.total == 0 {
            return Upcoming::End;
        }
        if self.pos >= self.total {
            if !self.options.loop_ {
                return Upcoming::End;
            }
            self.seek_to_start(now);
        } else {
            self.init_time(now);
        }
        match self.stamp_at(self.pos) {
            None => Upcoming::End,
            Some(stamp) => self.due_for(stamp),
        }
    }

    /// When a message of the time `stamp` is due.
    fn due_for(&self, stamp: u64) -> (r: Upcoming)
        ensures
            r == (if unpaced(self@.options.rate) {
                Upcoming::Now
            } else {
                match (self@.start, self@.first_ts) {
                    (Some(start), Some(first)) => Upcoming::Paced {
                        start,
                        delta: signed_diff(stamp, first) as i64,
                    },
                    _ => Upcoming::Now,
                }
            }),
    {
        if is_unpaced(self.options.rate) {
            return Upcoming::Now;
        }
        match (self.start, self.first_ts) {
            (Some(start), Some(first)) => Upcoming::Paced {
                start,
                delta: signed_difference(stamp, first),
            },
            _ => Upcoming::Now,
        }
    }

    /// Takes the next message, where it can be had.
    fn take_next(&mut self) -> (r: Option<OwnedMessage>)
        requires
            old(self).sound(),
            old(self)@.pos < old(self)@.total,
        ensures
            final(self).sound(),
            match r {
                Some(m) => old(self)@.message_at(old(self)@.pos) == Ok::<MessageView, Seq<char>>(m@)
                    && final(self)@ == old(self)@.advanced(),
                None => old(self)@.message_at(old(self)@.pos) is Err && final(self)@ == old(self)@,
            },
    {
        match self.message_at(self.pos) {
            Err(_) => None,
            Ok(m) => {
                let ghost was = self@;
                self.pos = self.pos + 1;
                assert(self@.contents =~= was.contents);
                Some(m)
            },
        }
    }

    /// Takes the next message. To keep the pace, wait first for what [`Player::poll`] says.
    pub fn next_message(&mut self, now: u64) -> (r: Option<OwnedMessage>)
        requires
            old(self).sound(),
        ensures
            final(self).sound(),
            match r {
                Some(m) => old(self)@.given(now) == Some(m@),
                None => old(self)@.given(now) is None,
            },
            final(self)@ == old(self)@.after(now),
    {
        match self.poll(now) {
            Upcoming::End => None,
            _ => self.take_next(),
        }
    }

    /// Takes the next message if it is due: where it is paced, `wait` nanoseconds of the wall
    /// clock after playing began.
    pub fn try_next(&mut self, now: u64, wait: u64) -> (r: TryNext)
        requires
            old(self).sound(),
        ensures
            final(self).sound(),
            ({
                let ready = old(self)@.poised(now);
                let early = ready.upcoming() matches Upcoming::Paced { start, delta } && now < start
                    + wait;
                match r {
                    TryNext::Ready(m) => !early && !ready.at_end() && ready.message_at(ready.pos)
                        == Ok::<MessageView, Seq<char>>(m@) && final(self)@ == ready.advanced(),
                    TryNext::NonBlocking => early && final(self)@ == ready,
                    TryNext::End => ready.upcoming() is End && final(self)@ == ready,
                }
            }),
    {
        match self.poll(now) {
            Upcoming::End => {
                return TryNext::End;
            },
            Upcoming::Now => {},
            Upcoming::Paced { start, delta: _ } => {
                if (now as u128) < start as u128 + wait as u128 {
                    return TryNext::NonBlocking;
                }
            },
        }
        match self.take_next() {
            Some(m) => TryNext::Ready(m),
            None => TryNext::End,
        }
    }

    /// When playing began on the wall clock, and the recorded time that belongs to it; `None`
    /// where time does not pass, because nothing was played yet or playing is not paced.
    pub fn clock(&self) -> (r: Option<(u64, u64)>)
        ensures
            r == self@.clock(),
    {
        if is_unpaced(self.options.rate) {
            return None;
        }
        match self.start {
            None => None,
            Some(s) => Some(
                (
                    s,
                    match self.first_ts {
                        Some(f) => f,
                        None => 0,
                    },
                ),
            ),
        }
    }

    /// The recorded time that it is now: `simulated` where time passes, else that of the
    /// message at which playing began. Before that it is the time of the first message where
    /// playing is not paced, and zero where it is.
    pub fn now(&self, simulated: u64) -> (r: Timestamp)
        requires
            self.sound(),
        ensures
            r.0 == (if self@.clock() is Some {
                simulated
            } else {
                match self@.first_ts {
                    Some(f) => f,
                    None => if unpaced(self@.options.rate) {
                        self@.first_or_zero()
                    } else {
                        0
                    },
                }
            }),
    {
        match self.clock() {
            Some(_) => Timestamp(simulated),
            None => match self.first_ts {
                Some(f) => Timestamp(f),
                None => match self.first_stamp() {
                    Some(t) if is_unpaced(self.options.rate) => t,
                    _ => Timestamp(0),
                },
            },
        }
    }
}

impl PlayerView {
    pub open spec fn first_or_zero(self) -> u64 {
        match self.first_stamp() {
            Some(t) => t,
            None => 0,
        }
    }

    /// When playing began on the wall clock, and the recorded time that belongs to it, where
    /// time passes.
    pub open spec fn clock(self) -> Option<(u64, u64)> {
        if unpaced(self.options.rate) {
            None
        } else {
            match self.start {
                None => None,
                Some(s) => Some(
                    (
                        s,
                        match self.first_ts {
                            Some(f) => f,
                            None => 0,
                        },
                    ),
                ),
            }
        }
    }
}

/// Whether a chunk can be read and its index entry tells the truth: how many messages there are,
/// at least one, and when the first and the last one are.
pub open spec fn entry_holds(c: ChunkIndex, content: Result<Seq<MessageView>, Seq<char>>) -> bool {
    content matches Ok(ms) && ms.len() > 0 && ms.len() == c.msg_count && c.start_stamp
        == order::time_sorted(ms).first().stamp && c.end_stamp == order::time_sorted(
        ms,
    ).last().stamp
}

impl PlayerView {
    /// Whether all messages can be played.
    pub open spec fn playable(self) -> bool {
        &&& self.sound()
        &&& self.all matches Some(v) ==> v.len() == self.total
        &&& forall|c: int|
            0 <= c < self.chunks.len() ==> #[trigger] entry_holds(self.chunks[c], self.contents[c])
    }

}

proof fn lemma_chunk_reaching(chunks: Seq<ChunkIndex>, t: u64, i: int)
    requires
        0 <= i <= chunks.len(),
    ensures
        i <= chunk_reaching(chunks, t, i) <= chunks.len(),
        chunk_reaching(chunks, t, i) < chunks.len() ==> chunks[chunk_reaching(
            chunks,
            t,
            i,
        )].end_stamp >= t,
        forall|k: int|
            i <= k < chunk_reaching(chunks, t, i) ==> (#[trigger] chunks[k]).end_stamp < t,
    decreases chunks.len() - i,
{
    if i < chunks.len() && chunks[i].end_stamp < t {
        lemma_chunk_reaching(chunks, t, i + 1);
    }
}

pub proof fn lemma_chunk_with_is(chunks: Seq<ChunkIndex>, pos: int, n: int, c: int)
    requires
        0 <= c < n,
        count_before(chunks, c) <= pos < count_before(chunks, c + 1),
    ensures
        chunk_with(chunks, pos, n) == c,
    decreases n,
{
    if c < n - 1 {
        lemma_count_grows(chunks, c + 1, n - 1);
        lemma_chunk_with_is(chunks, pos, n - 1, c);
    }
}

/// Message `k` of chunk `c` is message number `count_before(c) + k`.
pub proof fn lemma_message_of_chunk(v: PlayerView, c: int, k: int)
    requires
        v.playable(),
        v.all is None,
        0 <= c < v.chunks.len(),
        0 <= k < v.chunks[c].msg_count,
    ensures
        v.sorted_chunk(c) is Ok,
        k < v.sorted_chunk(c)->Ok_0.len(),
        v.sorted_chunk(c)->Ok_0.len() == v.chunks[c].msg_count,
        order::in_time_order(v.sorted_chunk(c)->Ok_0),
        v.message_at((count_before(v.chunks, c) + k) as nat) == Ok::<MessageView, Seq<char>>(
            v.sorted_chunk(c)->Ok_0[k],
        ),
{
    assert(entry_holds(v.chunks[c], v.contents[c]));
    let ms = v.contents[c]->Ok_0;
    order::lemma_sorted_len(ms);
    order::law_sorted_is_in_order(ms);
    lemma_chunk_with_is(
        v.chunks,
        count_before(v.chunks, c) + k,
        v.chunks.len() as int,
        c,
    );
}

/// Where message number `pos` is: its chunk, and its place in that chunk.
pub proof fn lemma_place(v: PlayerView, pos: int) -> (place: (int, int))
    requires
        v.playable(),
        v.all is None,
        0 <= pos < v.total,
    ensures
        0 <= place.0 < v.chunks.len(),
        0 <= place.1 < v.chunks[place.0].msg_count,
        pos == count_before(v.chunks, place.0) + place.1,
{
    let n = v.chunks.len() as int;
    lemma_chunk_with(v.chunks, pos, n);
    let c = chunk_with(v.chunks, pos, n);
    (c, pos - count_before(v.chunks, c))
}

/// Seeking goes to the first message that is not earlier than the target: all before it are
/// earlier, and it is not.
pub proof fn law_seek_finds_the_first(v: PlayerView, target: u64, now: u64)
    requires
        v.playable(),
    ensures
        ({
            let w = v.sought(target, now);
            &&& w.pos <= w.total
            &&& forall|i: nat|
                i < w.pos ==> ((#[trigger] w.message_at(i)) is Ok && w.message_at(i)->Ok_0.stamp
                    < target)
            &&& w.pos < w.total ==> w.message_at(w.pos) is Ok && w.message_at(w.pos)->Ok_0.stamp
                >= target
        }),
{
    let w = v.sought(target, now);
    assert(forall|i: nat| #[trigger] w.message_at(i) == v.message_at(i));
    match v.all {
        Some(all) => {
            lemma_earlier(all, target);
        },
        None => {
            lemma_chunk_reaching(v.chunks, target, 0);
            let c = chunk_reaching(v.chunks, target, 0);
            if c < v.chunks.len() {
                assert(entry_holds(v.chunks[c], v.contents[c]));
                lemma_message_of_chunk(v, c, 0);
                let ms = v.sorted_chunk(c)->Ok_0;
                lemma_earlier(ms, target);
                assert(ms.last().stamp >= target);
                assert(earlier(ms, target) < ms.len());
                lemma_message_of_chunk(v, c, earlier(ms, target) as int);
                lemma_count_grows(v.chunks, c + 1, v.chunks.len() as int);
            }
            assert forall|i: nat| i < w.pos implies (#[trigger] w.message_at(i)) is Ok
                && w.message_at(i)->Ok_0.stamp < target by {
                lemma_message_before(v, target, c, i as int);
            }
        },
    }
}

/// A message in front of the place that seeking finds is earlier than the target.
proof fn lemma_message_before(v: PlayerView, target: u64, c: int, i: int)
    requires
        v.playable(),
        v.all is None,
        c == chunk_reaching(v.chunks, target, 0),
        0 <= i < v.total,
        c < v.chunks.len() ==> (v.sorted_chunk(c) is Ok && i < count_before(v.chunks, c) + earlier(
            v.sorted_chunk(c)->Ok_0,
            target,
        )),
    ensures
        v.message_at(i as nat) is Ok,
        v.message_at(i as nat)->Ok_0.stamp < target,
{
    let (a, k) = lemma_place(v, i);
    lemma_message_of_chunk(v, a, k);
    lemma_chunk_reaching(v.chunks, target, 0);
    assert(entry_holds(v.chunks[a], v.contents[a]));
    let ms = v.sorted_chunk(a)->Ok_0;
    if a < c {
        assert(v.chunks[a].end_stamp < target);
        assert(order::Timed::time_key(ms[k]) <= order::Timed::time_key(ms[ms.len() - 1]));
    } else if a == c {
        lemma_earlier(ms, target);
    } else {
        assert(entry_holds(v.chunks[c], v.contents[c]));
        lemma_earlier(v.sorted_chunk(c)->Ok_0, target);
        lemma_message_of_chunk(v, c, 0);
        lemma_count_grows(v.chunks, c + 1, a);
    }
}

/// Messages are played in order of time.
pub proof fn law_playing_keeps_the_order_of_time(v: PlayerView, i: nat, j: nat)
    requires
        v.playable(),
        i <= j < v.total,
    ensures
        v.message_at(i) is Ok,
        v.message_at(j) is Ok,
        v.message_at(i)->Ok_0.stamp <= v.message_at(j)->Ok_0.stamp,
{
    match v.all {
        Some(all) => {
            assert(order::Timed::time_key(all[i as int]) <= order::Timed::time_key(all[j as int]));
        },
        None => {
            let (a, k) = lemma_place(v, i as int);
            let (b, l) = lemma_place(v, j as int);
            lemma_message_of_chunk(v, a, k);
            lemma_message_of_chunk(v, b, l);
            let ma = v.sorted_chunk(a)->Ok_0;
            let mb = v.sorted_chunk(b)->Ok_0;
            if a > b {
                lemma_count_grows(v.chunks, b + 1, a);
            } else if a == b {
                assert(order::Timed::time_key(ma[k]) <= order::Timed::time_key(ma[l]));
            } else {
                assert(entry_holds(v.chunks[a], v.contents[a]));
                assert(entry_holds(v.chunks[b], v.contents[b]));
                assert(order::Timed::time_key(ma[k]) <= order::Timed::time_key(ma[ma.len() - 1]));
                assert(order::Timed::time_key(mb[0]) <= order::Timed::time_key(mb[l]));
                assert(v.chunks[a].end_stamp <= v.chunks[b].start_stamp);
            }
        },
    }
}

/// The chunks in order of time, one behind the other.
spec fn streamed(v: PlayerView, n: int) -> Seq<MessageView>
    decreases n,
{
    if n <= 0 {
        Seq::empty()
    } else {
        streamed(v, n - 1) + v.sorted_chunk(n - 1)->Ok_0
    }
}

proof fn lemma_streamed(v: PlayerView, n: int)
    requires
        v.playable(),
        v.all is None,
        0 <= n <= v.chunks.len(),
    ensures
        streamed(v, n).len() == count_before(v.chunks, n),
        forall|i: int|
            0 <= i < streamed(v, n).len() ==> v.message_at(i as nat) == Ok::<
                MessageView,
                Seq<char>,
            >(#[trigger] streamed(v, n)[i]),
        order::time_sorted(streamed(v, n)) == order::time_sorted(gathered(v.contents.take(n))),
    decreases n,
{
    if n <= 0 {
        assert(v.contents.take(n).len() == 0);
    } else {
        lemma_streamed(v, n - 1);
        let c = n - 1;
        assert(entry_holds(v.chunks[c], v.contents[c]));
        let ms = v.contents[c]->Ok_0;
        let sorted = order::time_sorted(ms);
        order::lemma_sorted_len(ms);
        order::law_sorted_is_in_order(ms);
        assert forall|i: int| 0 <= i < streamed(v, n).len() implies v.message_at(i as nat) == Ok::<
            MessageView,
            Seq<char>,
        >(#[trigger] streamed(v, n)[i]) by {
            let before = count_before(v.chunks, c);
            if i >= before {
                lemma_message_of_chunk(v, c, i - before);
            } else {
                assert(streamed(v, n)[i] == streamed(v, c)[i]);
            }
        }
        assert(v.contents.take(n).drop_last() =~= v.contents.take(c));
        order::law_sorting_keeps_order(sorted);
        order::lemma_merge_sorts(streamed(v, c), sorted);
        order::lemma_merge_sorts(gathered(v.contents.take(c)), ms);
    }
}

/// Playing gives the same messages in the same order as reading all of them and sorting them by
/// time.
pub proof fn law_streaming_plays_what_reading_all_gives(v: PlayerView, i: nat)
    requires
        v.playable(),
        i < v.total,
    ensures
        v.all_messages().len() == v.total,
        v.message_at(i) == Ok::<MessageView, Seq<char>>(v.all_messages()[i as int]),
{
    if v.all is None {
        let n = v.chunks.len() as int;
        lemma_streamed(v, n);
        assert(v.contents.take(n) =~= v.contents);
        let s = streamed(v, n);
        assert forall|a: int, b: int| 0 <= a <= b < s.len() implies order::Timed::time_key(
            #[trigger] s[a],
        ) <= order::Timed::time_key(#[trigger] s[b]) by {
            law_playing_keeps_the_order_of_time(v, a as nat, b as nat);
        }
        order::law_sorting_keeps_order(s);
    }
}

/// The messages as they are stored, of a reading end with the given chunks; where there are none,
/// `whole` is what reading all messages gives.
pub open spec fn stored(
    chunks: Seq<ChunkIndex>,
    contents: Seq<Result<Seq<MessageView>, Seq<char>>>,
    whole: Result<Seq<MessageView>, Seq<char>>,
) -> Seq<MessageView> {
    if chunks.len() == 0 {
        whole->Ok_0
    } else {
        gathered(contents)
    }
}

/// Whether all messages of a reading end can be read, and the index tells the truth; where there
/// are no chunks, `whole` is what reading all messages gives.
pub open spec fn readable(
    chunks: Seq<ChunkIndex>,
    contents: Seq<Result<Seq<MessageView>, Seq<char>>>,
    whole: Result<Seq<MessageView>, Seq<char>>,
) -> bool {
    &&& contents.len() == chunks.len()
    &&& forall|c: int| 0 <= c < chunks.len() ==> #[trigger] entry_holds(chunks[c], contents[c])
    &&& chunks.len() == 0 ==> whole is Ok
    &&& stored(chunks, contents, whole).len() <= usize::MAX
}

proof fn lemma_gathered_len(
    chunks: Seq<ChunkIndex>,
    contents: Seq<Result<Seq<MessageView>, Seq<char>>>,
    n: int,
)
    requires
        0 <= n <= chunks.len(),
        contents.len() == chunks.len(),
        forall|c: int| 0 <= c < chunks.len() ==> #[trigger] entry_holds(chunks[c], contents[c]),
    ensures
        gathered(contents.take(n)).len() == count_before(chunks, n),
    decreases n,
{
    if n > 0 {
        lemma_gathered_len(chunks, contents, n - 1);
        assert(contents.take(n).drop_last() =~= contents.take(n - 1));
        assert(entry_holds(chunks[n - 1], contents[n - 1]));
    }
}

/// The chunk for the number behind all messages is the last one.
pub proof fn lemma_last_chunk(chunks: Seq<ChunkIndex>, pos: int, n: int)
    requires
        0 <= n <= chunks.len(),
        pos == count_before(chunks, n),
    ensures
        n > 0 ==> chunk_with(chunks, pos, n) == n - 1,
        n > 0 ==> pos - count_before(chunks, n - 1) == chunks[n - 1].msg_count,
{
}

/// Chunks that tell the truth hold messages.
pub proof fn lemma_first_chunk_counts(
    chunks: Seq<ChunkIndex>,
    contents: Seq<Result<Seq<MessageView>, Seq<char>>>,
)
    requires
        chunks.len() > 0,
        contents.len() == chunks.len(),
        forall|c: int| 0 <= c < chunks.len() ==> #[trigger] entry_holds(chunks[c], contents[c]),
    ensures
        gathered(contents).len() > 0,
{
    let n = chunks.len() as int;
    lemma_gathered_len(chunks, contents, n);
    assert(contents.take(n) =~= contents);
    assert(entry_holds(chunks[n - 1], contents[n - 1]));
}

/// A player of what can be read can play it all.
pub proof fn law_readable_is_playable(
    options: PlayOptions,
    chunks: Seq<ChunkIndex>,
    contents: Seq<Result<Seq<MessageView>, Seq<char>>>,
    whole: Result<Seq<MessageView>, Seq<char>>,
)
    requires
        readable(chunks, contents, whole),
    ensures
        fresh(options, chunks, contents, whole).playable(),
{
    let kept = stored(chunks, contents, whole);
    order::lemma_sorted_len(kept);
    order::law_sorted_is_in_order(kept);
    lemma_gathered_len(chunks, contents, chunks.len() as int);
    assert(contents.take(chunks.len() as int) =~= contents);
}

pub proof fn lemma_opened(
    options: PlayOptions,
    chunks: Seq<ChunkIndex>,
    contents: Seq<Result<Seq<MessageView>, Seq<char>>>,
    whole: Result<Seq<MessageView>, Seq<char>>,
)
    requires
        fresh(options, chunks, contents, whole).playable(),
    ensures
        ({
            let v = fresh(options, chunks, contents, whole);
            let kept = stored(chunks, contents, whole);
            &&& v.total == kept.len()
            &&& v.all_messages() == order::time_sorted(kept)
            &&& order::time_sorted(kept).len() == kept.len()
        }),
{
    let v = fresh(options, chunks, contents, whole);
    let kept = stored(chunks, contents, whole);
    order::lemma_sorted_len(kept);
    lemma_all_len(v);
}

/// The position after `k` messages were asked for, from position `pos` of `total` on.
pub open spec fn moved(pos: int, total: int, looped: bool, k: int) -> int {
    if k == 0 {
        pos
    } else if looped && total > 0 {
        (pos + k - 1) % total + 1
    } else if pos + k <= total {
        pos + k
    } else {
        total
    }
}

/// From the end, playing goes on at the beginning.
pub proof fn lemma_turn(pos: int, total: int, k: int)
    requires
        0 <= pos <= total,
        total > 0,
        k >= 0,
    ensures
        ({
            let p = moved(pos, total, true, k);
            &&& 0 <= p <= total
            &&& (if p < total {
                p
            } else {
                0
            }) == (pos + k) % total
        }),
{
    if k == 0 {
        if pos < total {
            div_mod::lemma_small_mod(pos as nat, total as nat);
        } else {
            div_mod::lemma_mod_self_0(total);
        }
    } else {
        let r = (pos + k - 1) % total;
        div_mod::lemma_mod_bound(pos + k - 1, total);
        div_mod::lemma_add_mod_noop(pos + k - 1, 1, total);
        div_mod::lemma_add_mod_noop(r, 1, total);
        div_mod::lemma_small_mod(r as nat, total as nat);
        if r + 1 < total {
            div_mod::lemma_small_mod((r + 1) as nat, total as nat);
        } else {
            div_mod::lemma_mod_self_0(total);
        }
    }
}

/// Taking messages changes nothing but the position and the clock.
proof fn lemma_calls(v: PlayerView, clock: Seq<u64>)
    requires
        v.playable(),
    ensures
        ({
            let w = v.after_all(clock);
            w == (PlayerView {
                pos: moved(
                    v.pos as int,
                    v.total as int,
                    v.options.loop_,
                    clock.len() as int,
                ) as nat,
                start: w.start,
                first_ts: w.first_ts,
                ..v
            })
        }),
    decreases clock.len(),
{
    if clock.len() > 0 {
        let front = clock.drop_last();
        lemma_calls(v, front);
        lemma_call(v, v.after_all(front), clock.last(), front.len() as int);
        assert(v.after_all(clock) == v.after_all(front).after(clock.last()));
    }
}

/// What taking a message gives after `k` others.
proof fn lemma_call(v: PlayerView, w: PlayerView, now: u64, k: int)
    requires
        k >= 0,
        v.playable(),
        w == (PlayerView {
            pos: moved(v.pos as int, v.total as int, v.options.loop_, k) as nat,
            start: w.start,
            first_ts: w.first_ts,
            ..v
        }),
    ensures
        w.given(now) == (if v.options.loop_ && v.total > 0 {
            Some(v.all_messages()[(v.pos + k) % v.total as int])
        } else if v.pos + k < v.total {
            Some(v.all_messages()[v.pos + k])
        } else {
            None
        }),
        w.after(now) == (PlayerView {
            pos: moved(v.pos as int, v.total as int, v.options.loop_, k + 1) as nat,
            start: w.after(now).start,
            first_ts: w.after(now).first_ts,
            ..v
        }),
{
    let ready = w.poised(now);
    assert(forall|i: nat| #[trigger] ready.message_at(i) == v.message_at(i));
    if v.options.loop_ && v.total > 0 {
        lemma_turn(v.pos as int, v.total as int, k);
    }
    if !ready.at_end() {
        assert(ready.pos < v.total);
        law_streaming_plays_what_reading_all_gives(v, ready.pos);
    }
}

/// Messages that are taken one after the other are the messages in order of time, from the
/// playing position on; behind the last one there is none.
pub proof fn law_calls_give_the_rest_in_order(v: PlayerView, clock: Seq<u64>, k: int)
    requires
        v.playable(),
        !v.options.loop_,
        0 <= k < clock.len(),
    ensures
        v.call(clock, k) == (if v.pos + k < v.total {
            Some(v.all_messages()[v.pos + k])
        } else {
            None
        }),
{
    lemma_calls(v, clock.take(k));
    lemma_call(v, v.after_all(clock.take(k)), clock[k], k);
}

/// A looped player never comes to an end: it gives the messages in order of time, from the
/// playing position on, and behind the last one the first one again.
pub proof fn law_looped_calls_go_round(v: PlayerView, clock: Seq<u64>, k: int)
    requires
        v.playable(),
        v.options.loop_,
        v.total > 0,
        0 <= k < clock.len(),
    ensures
        v.all_messages().len() == v.total,
        v.call(clock, k) == Some(v.all_messages()[(v.pos + k) % v.total as int]),
{
    lemma_calls(v, clock.take(k));
    lemma_call(v, v.after_all(clock.take(k)), clock[k], k);
    law_streaming_plays_what_reading_all_gives(v, 0);
}

/// The calls on a player that was just opened, at the moments `clock`, give every message once,
/// in order of time, messages of one time in the order in which they are stored, and then none.
pub proof fn law_opened_player_plays_all_in_order(
    options: PlayOptions,
    chunks: Seq<ChunkIndex>,
    contents: Seq<Result<Seq<MessageView>, Seq<char>>>,
    whole: Result<Seq<MessageView>, Seq<char>>,
    clock: Seq<u64>,
)
    requires
        readable(chunks, contents, whole),
        !options.loop_,
    ensures
        ({
            let v = fresh(options, chunks, contents, whole);
            let kept = stored(chunks, contents, whole);
            let played = order::time_sorted(kept);
            &&& forall|k: int|
                0 <= k < clock.len() ==> #[trigger] v.call(clock, k) == (if k < kept.len() {
                    Some(played[k])
                } else {
                    None
                })
            &&& played.len() == kept.len()
            &&& played.to_multiset() == kept.to_multiset()
            &&& order::in_time_order(played)
            &&& forall|t: u64| #[trigger] order::at_time(played, t) == order::at_time(kept, t)
        }),
{
    law_readable_is_playable(options, chunks, contents, whole);
    let v = fresh(options, chunks, contents, whole);
    let kept = stored(chunks, contents, whole);
    let played = order::time_sorted(kept);
    lemma_opened(options, chunks, contents, whole);
    order::law_sorted_is_in_order(kept);
    order::law_sorting_loses_nothing(kept);
    assert forall|t: u64| #[trigger] order::at_time(played, t) == order::at_time(kept, t) by {
        order::law_sorting_is_stable(kept, t);
    }
    assert forall|k: int| 0 <= k < clock.len() implies #[trigger] v.call(clock, k) == (if k
        < kept.len() {
        Some(played[k])
    } else {
        None
    }) by {
        law_calls_give_the_rest_in_order(v, clock, k);
    }
}

/// The calls on a looped player that was just opened give the messages in order of time again and
/// again: call number `k` that of number `k` modulo their count.
pub proof fn law_opened_looped_player_goes_round(
    options: PlayOptions,
    chunks: Seq<ChunkIndex>,
    contents: Seq<Result<Seq<MessageView>, Seq<char>>>,
    whole: Result<Seq<MessageView>, Seq<char>>,
    clock: Seq<u64>,
    k: int,
)
    requires
        readable(chunks, contents, whole),
        options.loop_,
        stored(chunks, contents, whole).len() > 0,
        0 <= k < clock.len(),
    ensures
        ({
            let kept = stored(chunks, contents, whole);
            let played = order::time_sorted(kept);
            &&& played.len() == kept.len()
            &&& fresh(options, chunks, contents, whole).call(clock, k) == Some(
                played[k % kept.len() as int],
            )
        }),
{
    law_readable_is_playable(options, chunks, contents, whole);
    lemma_opened(options, chunks, contents, whole);
    law_looped_calls_go_round(fresh(options, chunks, contents, whole), clock, k);
}

/// After seeking, wherever playing was, the calls at the moments `clock` give exactly the
/// messages that are not earlier than the target, in order of time, and then none.
pub proof fn law_calls_after_seeking(v: PlayerView, target: u64, now: u64, clock: Seq<u64>)
    requires
        v.playable(),
        !v.options.loop_,
    ensures
        ({
            let ms = v.all_messages();
            let w = v.sought(target, now);
            let j = w.pos as int;
            &&& ms.len() == v.total
            &&& j <= ms.len()
            &&& forall|i: int| 0 <= i < j ==> (#[trigger] ms[i]).stamp < target
            &&& forall|i: int| j <= i < ms.len() ==> (#[trigger] ms[i]).stamp >= target
            &&& forall|k: int|
                0 <= k < clock.len() ==> #[trigger] w.call(clock, k) == (if j + k < ms.len() {
                    Some(ms[j + k])
                } else {
                    None
                })
        }),
{
    let ms = v.all_messages();
    let w = v.sought(target, now);
    let j = w.pos as int;
    law_seek_finds_the_first(v, target, now);
    lemma_all_len(v);
    assert(forall|i: nat| #[trigger] w.message_at(i) == v.message_at(i));
    assert forall|i: int| 0 <= i < j implies (#[trigger] ms[i]).stamp < target by {
        law_streaming_plays_what_reading_all_gives(v, i as nat);
        assert(w.message_at(i as nat)->Ok_0.stamp < target);
    }
    assert forall|i: int| j <= i < ms.len() implies (#[trigger] ms[i]).stamp >= target by {
        law_streaming_plays_what_reading_all_gives(v, i as nat);
        law_playing_keeps_the_order_of_time(v, j as nat, i as nat);
    }
    assert(w.playable());
    assert forall|k: int| 0 <= k < clock.len() implies #[trigger] w.call(clock, k) == (if j + k
        < ms.len() {
        Some(ms[j + k])
    } else {
        None
    }) by {
        law_calls_give_the_rest_in_order(w, clock, k);
    }
}

proof fn lemma_all_len(v: PlayerView)
    requires
        v.playable(),
    ensures
        v.all_messages().len() == v.total,
{
    if v.total > 0 {
        law_streaming_plays_what_reading_all_gives(v, 0);
    } else if v.all is None {
        let n = v.chunks.len() as int;
        lemma_streamed(v, n);
        assert(v.contents.take(n) =~= v.contents);
        order::lemma_sorted_len(streamed(v, n));
    }
}

proof fn lemma_span(v: PlayerView, n: int)
    requires
        v.playable(),
        0 < n <= v.chunks.len(),
    ensures
        ({
            let s = order::time_sorted(gathered(v.contents.take(n)));
            &&& s.len() > 0
            &&& s.first().stamp == earliest(v.chunks.take(n))
            &&& s.last().stamp == latest(v.chunks.take(n))
        }),
    decreases n,
{
    let c = n - 1;
    assert(entry_holds(v.chunks[c], v.contents[c]));
    let ms = v.contents[c]->Ok_0;
    order::lemma_sorted_len(ms);
    order::law_sorted_is_in_order(ms);
    assert(v.contents.take(n).drop_last() =~= v.contents.take(c));
    assert(v.chunks.take(n).drop_last() =~= v.chunks.take(c));
    let before = gathered(v.contents.take(c));
    if c == 0 {
        assert(v.contents.take(c).len() == 0);
        assert(gathered(v.contents.take(n)) =~= ms);
    } else {
        lemma_span(v, c);
        order::law_sorted_is_in_order(before);
        order::lemma_merge_sorts(before, ms);
        order::lemma_merged_ends(order::time_sorted(before), order::time_sorted(ms));
    }
}

/// Of a player that was just opened, the first and the last time are those of the first and of
/// the last message that it plays.
pub proof fn law_first_and_last_time_are_played(
    options: PlayOptions,
    chunks: Seq<ChunkIndex>,
    contents: Seq<Result<Seq<MessageView>, Seq<char>>>,
    whole: Result<Seq<MessageView>, Seq<char>>,
)
    requires
        readable(chunks, contents, whole),
        stored(chunks, contents, whole).len() > 0,
    ensures
        ({
            let v = fresh(options, chunks, contents, whole);
            &&& v.first_stamp() == v.stamp_at(0)
            &&& v.last_stamp() == v.stamp_at((v.total - 1) as nat)
        }),
{
    law_readable_is_playable(options, chunks, contents, whole);
    let v = fresh(options, chunks, contents, whole);
    lemma_opened(options, chunks, contents, whole);
    law_streaming_plays_what_reading_all_gives(v, 0);
    law_streaming_plays_what_reading_all_gives(v, (v.total - 1) as nat);
    if chunks.len() > 0 {
        let n = chunks.len() as int;
        lemma_span(v, n);
        assert(contents.take(n) =~= contents);
        assert(chunks.take(n) =~= chunks);
        if in_order(chunks) {
            lemma_span_in_order(v, n);
        }
    }
}

proof fn lemma_span_in_order(v: PlayerView, n: int)
    requires
        v.playable(),
        in_order(v.chunks),
        0 < n <= v.chunks.len(),
    ensures
        earliest(v.chunks.take(n)) == v.chunks[0].start_stamp,
        latest(v.chunks.take(n)) == v.chunks[n - 1].end_stamp,
    decreases n,
{
    assert(v.chunks.take(n).last() == v.chunks[n - 1]);
    if n > 1 {
        lemma_span_in_order(v, n - 1);
        assert(v.chunks.take(n).drop_last() =~= v.chunks.take(n - 1));
        assert(entry_holds(v.chunks[0], v.contents[0]));
        assert(entry_holds(v.chunks[n - 1], v.contents[n - 1]));
        lemma_entry_span(v.chunks[0], v.contents[0]);
        lemma_entry_span(v.chunks[n - 1], v.contents[n - 1]);
        assert(v.chunks[0].end_stamp <= v.chunks[n - 1].start_stamp);
        assert(v.chunks[n - 2].end_stamp <= v.chunks[n - 1].start_stamp);
    }
}

proof fn lemma_entry_span(c: ChunkIndex, content: Result<Seq<MessageView>, Seq<char>>)
    requires
        entry_holds(c, content),
    ensures
        c.start_stamp <= c.end_stamp,
{
    let s = order::time_sorted(content->Ok_0);
    order::lemma_sorted_len(content->Ok_0);
    order::law_sorted_is_in_order(content->Ok_0);
    assert(order::Timed::time_key(s[0]) <= order::Timed::time_key(s[s.len() - 1]));
}

/// At the end of a looped recording, playing starts over with the first message.
pub proof fn law_looping_starts_over(v: PlayerView, now: u64)
    requires
        v.sound(),
        v.total > 0,
        v.pos == v.total,
        v.options.loop_,
    ensures
        v.poised(now).pos == 0,
        !v.poised(now).at_end(),
        v.poised(now).message_at(0) == v.message_at(0),
{
}

} // verus!
