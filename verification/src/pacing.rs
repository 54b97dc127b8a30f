//! When messages are due: the laws of the clock of a player.

use crate::message::{ChunkIndex, MessageView};
use crate::play::{PlayOptions, PlayerView, Upcoming};
use crate::sequential::SequenceView;
use crate::{order, play};
use vstd::prelude::*;

verus! {

/// The distance of two times as it is handed out: whole where it fits a signed 64-bit number, else
/// its two's complement pattern.
pub open spec fn distance(from: u64, to: u64) -> i64 {
    if to - from > i64::MAX {
        (to - from - 0x1_0000_0000_0000_0000) as i64
    } else if to - from < i64::MIN {
        (to - from + 0x1_0000_0000_0000_0000) as i64
    } else {
        (to - from) as i64
    }
}

/// The distance of two times is the later one less the earlier one, with its sign, wherever that
/// fits; it always differs from it by a multiple of two to the power of 64.
pub proof fn law_signed_difference_is_the_distance(a: u64, b: u64)
    ensures
        i64::MIN <= play::signed_diff(a, b) <= i64::MAX,
        play::signed_diff(a, b) == distance(b, a),
        i64::MIN <= a - b <= i64::MAX ==> play::signed_diff(a, b) == a - b,
        play::signed_diff(a, b) == a - b || play::signed_diff(a, b) == a - b
            + 0x1_0000_0000_0000_0000 || play::signed_diff(a, b) == a - b - 0x1_0000_0000_0000_0000,
{
}

/// A speed does not pace exactly where it is a zero, or a number with its sign bit set: what is
/// not a number, and every positive number, does. Without its sign, a number is at most infinity.
pub proof fn law_only_positive_speeds_pace(rate: u64)
    ensures
        ({
            let negative = rate / 0x8000_0000_0000_0000 == 1;
            let size = rate % 0x8000_0000_0000_0000;
            let is_number = size <= 0x7ff0_0000_0000_0000;
            &&& size == 0 ==> play::unpaced(rate)
            &&& !is_number ==> !play::unpaced(rate)
            &&& is_number && size > 0 ==> (play::unpaced(rate) <==> negative)
        }),
{
}

// ---------- the player ----------

/// Taking messages without starting over leaves a clock that is going as it is.
proof fn lemma_clock_stays(v: PlayerView, clock: Seq<u64>)
    requires
        v.playable(),
        v.start is Some,
        v.pos + clock.len() <= v.total,
    ensures
        v.after_all(clock) == (PlayerView { pos: v.pos + clock.len(), ..v }),
    decreases clock.len(),
{
    if clock.len() > 0 {
        let front = clock.drop_last();
        lemma_clock_stays(v, front);
        let w = v.after_all(front);
        assert(w.poised(clock.last()) == w);
        play::law_playing_keeps_the_order_of_time(v, w.pos, w.pos);
        assert(w.message_at(w.pos) == v.message_at(w.pos));
    }
}

/// With a clock that is going, each message is due as long after the recorded time of the clock as
/// the two are apart, however many messages were taken and whenever that was.
pub proof fn law_messages_are_due_by_their_times(v: PlayerView, clock: Seq<u64>)
    requires
        v.playable(),
        !play::unpaced(v.options.rate),
        v.start is Some,
        v.first_ts is Some,
        v.pos + clock.len() < v.total,
    ensures
        v.after_all(clock).upcoming() == (Upcoming::Paced {
            start: v.start->Some_0,
            delta: distance(
                v.first_ts->Some_0,
                v.all_messages()[(v.pos + clock.len()) as int].stamp,
            ),
        }),
{
    lemma_clock_stays(v, clock);
    let w = v.after_all(clock);
    play::law_streaming_plays_what_reading_all_gives(v, w.pos);
    assert(w.message_at(w.pos) == v.message_at(w.pos));
    law_signed_difference_is_the_distance(
        v.all_messages()[w.pos as int].stamp,
        v.first_ts->Some_0,
    );
}

/// Where playing is not paced, every message is due at once.
pub proof fn law_unpaced_messages_are_due_at_once(v: PlayerView, now: u64)
    requires
        v.playable(),
        play::unpaced(v.options.rate),
        v.total > 0,
        v.pos < v.total || v.options.loop_,
    ensures
        v.poised(now).upcoming() is Now,
        v.clock() is None,
{
    let w = v.poised(now);
    play::law_streaming_plays_what_reading_all_gives(v, w.pos);
    assert(w.message_at(w.pos) == v.message_at(w.pos));
}

/// There is nothing to wait for where nothing is left, and only there.
pub proof fn law_end_comes_behind_the_last_message(v: PlayerView, now: u64)
    requires
        v.playable(),
    ensures
        v.poised(now).upcoming() is End <==> v.total == 0 || (v.pos == v.total && !v.options.loop_),
{
    let w = v.poised(now);
    if v.total > 0 && !(v.pos == v.total && !v.options.loop_) {
        play::law_streaming_plays_what_reading_all_gives(v, w.pos);
        assert(w.message_at(w.pos) == v.message_at(w.pos));
    }
}

/// The clock of a state whose next message was made due at the moment `now`: that message is due
/// now, and each later one as long after it as their times are apart.
proof fn lemma_anchored(w: PlayerView, now: u64, clock: Seq<u64>)
    requires
        w.playable(),
        !play::unpaced(w.options.rate),
        w.pos + clock.len() < w.total,
        w.start == Some(now),
        w.first_ts == w.stamp_at(w.pos),
    ensures
        w.upcoming() == (Upcoming::Paced { start: now, delta: 0 }),
        w.after_all(clock).upcoming() == (Upcoming::Paced {
            start: now,
            delta: distance(
                w.all_messages()[w.pos as int].stamp,
                w.all_messages()[(w.pos + clock.len()) as int].stamp,
            ),
        }),
{
    play::law_streaming_plays_what_reading_all_gives(w, w.pos);
    law_messages_are_due_by_their_times(w, Seq::empty());
    law_messages_are_due_by_their_times(w, clock);
    assert(w.after_all(Seq::empty()) == w);
}

/// After a change of speed, wherever playing is and whatever was played before, the next message
/// is due at the moment of the change, and each later one as long after it as their times are
/// apart.
pub proof fn law_change_of_speed_is_due_now(v: PlayerView, rate: u64, now: u64, clock: Seq<u64>)
    requires
        v.playable(),
        !play::unpaced(rate),
        v.pos + clock.len() < v.total,
    ensures
        ({
            let w = v.with_rate(rate, now);
            let ms = v.all_messages();
            &&& w.upcoming() == (Upcoming::Paced { start: now, delta: 0 })
            &&& w.clock() == Some((now, ms[v.pos as int].stamp))
            &&& w.after_all(clock).upcoming() == (Upcoming::Paced {
                start: now,
                delta: distance(
                    ms[v.pos as int].stamp,
                    ms[(v.pos + clock.len()) as int].stamp,
                ),
            })
        }),
{
    let w = v.with_rate(rate, now);
    play::law_streaming_plays_what_reading_all_gives(v, v.pos);
    assert(w.message_at(w.pos) == v.message_at(v.pos));
    lemma_anchored(w, now, clock);
}

/// A change of speed sets the speed and nothing else that is played: the same messages follow, in
/// the same order. Behind the last message the recorded time stays where it was.
pub proof fn law_change_of_speed_keeps_the_messages(
    v: PlayerView,
    rate: u64,
    now: u64,
    clock: Seq<u64>,
    k: int,
)
    requires
        v.playable(),
        0 <= k < clock.len(),
    ensures
        ({
            let w = v.with_rate(rate, now);
            &&& w.options.rate == rate
            &&& w.options.loop_ == v.options.loop_
            &&& w.pos == v.pos
            &&& w.total == v.total
            &&& w.all_messages() == v.all_messages()
            &&& w.first_stamp() == v.first_stamp()
            &&& w.last_stamp() == v.last_stamp()
            &&& w.call(clock, k) == v.call(clock, k)
            &&& v.pos == v.total ==> w.start == Some(now) && w.first_ts == Some(
                match v.first_ts {
                    Some(t) => t,
                    None => 0,
                },
            )
        }),
{
    let w = v.with_rate(rate, now);
    assert(w.playable());
    if v.options.loop_ && v.total > 0 {
        play::law_looped_calls_go_round(v, clock, k);
        play::law_looped_calls_go_round(w, clock, k);
    } else {
        lemma_calls_of_unlooped(v, clock, k);
        lemma_calls_of_unlooped(w, clock, k);
    }
    if v.pos == v.total {
        lemma_nothing_behind(v);
    }
}

/// Behind the last message there is none.
proof fn lemma_nothing_behind(v: PlayerView)
    requires
        v.playable(),
    ensures
        v.message_at(v.total) is Err,
{
    if v.all is None {
        let n = v.chunks.len() as int;
        let c = play::chunk_with(v.chunks, v.total as int, n);
        play::lemma_last_chunk(v.chunks, v.total as int, n);
        if n > 0 {
            assert(play::entry_holds(v.chunks[c], v.contents[c]));
            order::lemma_sorted_len(v.contents[c]->Ok_0);
        }
    }
}

/// Calls on a player that has nothing to loop over.
proof fn lemma_calls_of_unlooped(v: PlayerView, clock: Seq<u64>, k: int)
    requires
        v.playable(),
        0 <= k < clock.len(),
        !v.options.loop_ || v.total == 0,
    ensures
        v.call(clock, k) == (if v.pos + k < v.total {
            Some(v.all_messages()[v.pos + k])
        } else {
            None
        }),
{
    if v.options.loop_ {
        lemma_empty_stays(v, clock.take(k));
    } else {
        play::law_calls_give_the_rest_in_order(v, clock, k);
    }
}

proof fn lemma_empty_stays(v: PlayerView, clock: Seq<u64>)
    requires
        v.total == 0,
    ensures
        v.after_all(clock) == v,
    decreases clock.len(),
{
    if clock.len() > 0 {
        lemma_empty_stays(v, clock.drop_last());
    }
}

/// The first message that is played is due at the moment when it is asked for, and each later one
/// as long after it as their times are apart.
pub proof fn law_first_message_is_due_now(v: PlayerView, now: u64, clock: Seq<u64>)
    requires
        v.playable(),
        !play::unpaced(v.options.rate),
        v.start is None,
        v.pos + clock.len() < v.total,
    ensures
        ({
            let w = v.poised(now);
            let ms = v.all_messages();
            &&& w.upcoming() == (Upcoming::Paced { start: now, delta: 0 })
            &&& w.clock() == Some((now, ms[v.pos as int].stamp))
            &&& w.after_all(clock).upcoming() == (Upcoming::Paced {
                start: now,
                delta: distance(
                    ms[v.pos as int].stamp,
                    ms[(v.pos + clock.len()) as int].stamp,
                ),
            })
        }),
{
    let w = v.poised(now);
    play::law_streaming_plays_what_reading_all_gives(v, v.pos);
    assert(w.message_at(w.pos) == v.message_at(v.pos));
    lemma_anchored(w, now, clock);
}

/// Where playing starts over, at the end of a looped recording or on going back to the start, the
/// first message is due at that moment, and each later one as long after it as their times are
/// apart: no time of the round before is left.
pub proof fn law_starting_over_is_due_now(v: PlayerView, now: u64, clock: Seq<u64>)
    requires
        v.playable(),
        !play::unpaced(v.options.rate),
        clock.len() < v.total,
    ensures
        ({
            let w = v.restarted(now);
            let ms = v.all_messages();
            &&& v.options.loop_ && v.pos == v.total ==> v.poised(now) == w
            &&& w.pos == 0
            &&& w.upcoming() == (Upcoming::Paced { start: now, delta: 0 })
            &&& w.clock() == Some((now, ms[0].stamp))
            &&& w.after_all(clock).upcoming() == (Upcoming::Paced {
                start: now,
                delta: distance(ms[0].stamp, ms[clock.len() as int].stamp),
            })
        }),
{
    let w = v.restarted(now);
    play::law_streaming_plays_what_reading_all_gives(v, 0);
    assert(w.message_at(0) == v.message_at(0));
    lemma_anchored(w, now, clock);
}

/// After seeking, wherever playing was, the message that is next is due at the moment of seeking,
/// and each later one as long after it as their times are apart; behind the last message it is
/// the time that was sought.
pub proof fn law_sought_message_is_due_now(v: PlayerView, target: u64, now: u64, clock: Seq<u64>)
    requires
        v.playable(),
        !play::unpaced(v.options.rate),
    ensures
        ({
            let w = v.sought(target, now);
            let ms = v.all_messages();
            &&& w.pos < w.total ==> w.upcoming() == (Upcoming::Paced { start: now, delta: 0 })
                && w.clock() == Some((now, ms[w.pos as int].stamp))
            &&& w.pos == w.total ==> w.clock() == Some((now, target))
            &&& w.pos + clock.len() < w.total ==> w.after_all(clock).upcoming() == (
            Upcoming::Paced {
                start: now,
                delta: distance(
                    ms[w.pos as int].stamp,
                    ms[(w.pos + clock.len()) as int].stamp,
                ),
            })
        }),
{
    let w = v.sought(target, now);
    assert(w.playable());
    play::law_seek_finds_the_first(v, target, now);
    assert(w.message_at(w.pos) == v.message_at(w.pos));
    if w.pos < w.total {
        play::law_streaming_plays_what_reading_all_gives(v, w.pos);
        lemma_anchored(w, now, Seq::empty());
    } else {
        lemma_nothing_behind(v);
    }
    if w.pos + clock.len() < w.total {
        lemma_anchored(w, now, clock);
    }
}

/// Seeking changes nothing of what there is to play, nor how.
pub proof fn law_seeking_keeps_the_recording(v: PlayerView, target: u64, now: u64)
    ensures
        ({
            let w = v.sought(target, now);
            &&& w.options == v.options
            &&& w.total == v.total
            &&& w.all_messages() == v.all_messages()
            &&& w.first_stamp() == v.first_stamp()
            &&& w.last_stamp() == v.last_stamp()
            &&& w.duration() == v.duration()
        }),
{
}

// ---------- the time line ----------

/// Whether `v` is a state of a player of the given chunks, wherever playing is: its messages were
/// put in order when it was opened, or since then.
pub open spec fn plays(
    v: PlayerView,
    chunks: Seq<ChunkIndex>,
    contents: Seq<Result<Seq<MessageView>, Seq<char>>>,
    whole: Result<Seq<MessageView>, Seq<char>>,
) -> bool {
    &&& v.chunks == chunks
    &&& v.contents == contents
    &&& v.total == play::stored(chunks, contents, whole).len()
    &&& v.pos <= v.total
    &&& v.all == play::fresh(v.options, chunks, contents, whole).all || v.all == Some(
        order::time_sorted(play::stored(chunks, contents, whole)),
    )
}

/// A player that was just opened counts the messages that are stored.
pub proof fn law_opened_player_counts_what_is_stored(
    options: PlayOptions,
    chunks: Seq<ChunkIndex>,
    contents: Seq<Result<Seq<MessageView>, Seq<char>>>,
    whole: Result<Seq<MessageView>, Seq<char>>,
)
    requires
        play::readable(chunks, contents, whole),
    ensures
        ({
            let v = play::fresh(options, chunks, contents, whole);
            &&& v.total == play::stored(chunks, contents, whole).len()
            &&& v.pos == 0
            &&& v.options == options
            &&& v.clock() is None
            &&& plays(v, chunks, contents, whole)
        }),
{
    play::law_readable_is_playable(options, chunks, contents, whole);
    play::lemma_opened(options, chunks, contents, whole);
}

/// The first time, the last time and the duration of a recording are those of its messages in
/// order of time, wherever playing is: the duration is the time of the last message less that of
/// the first one, so that the first time and the duration add up to the last time.
pub proof fn law_duration_spans_the_messages(
    v: PlayerView,
    chunks: Seq<ChunkIndex>,
    contents: Seq<Result<Seq<MessageView>, Seq<char>>>,
    whole: Result<Seq<MessageView>, Seq<char>>,
)
    requires
        play::readable(chunks, contents, whole),
        plays(v, chunks, contents, whole),
    ensures
        ({
            let kept = play::stored(chunks, contents, whole);
            let ms = order::time_sorted(kept);
            &&& ms.len() == kept.len()
            &&& kept.len() > 0 ==> {
                &&& v.first_stamp() == Some(ms[0].stamp)
                &&& v.last_stamp() == Some(ms[ms.len() - 1].stamp)
                &&& v.duration() == ms[ms.len() - 1].stamp - ms[0].stamp
                &&& v.first_or_zero() + v.duration() == ms[ms.len() - 1].stamp
                &&& v.stamp_at(0) == Some(ms[0].stamp)
                &&& v.stamp_at((v.total - 1) as nat) == Some(ms[ms.len() - 1].stamp)
                &&& forall|i: int|
                    0 <= i < kept.len() ==> v.first_or_zero() <= (#[trigger] kept[i]).stamp
                        <= v.first_or_zero() + v.duration()
            }
            &&& kept.len() == 0 ==> v.first_stamp() is None && v.last_stamp() is None
                && v.duration() == 0 && v.first_or_zero() == 0
        }),
{
    let kept = play::stored(chunks, contents, whole);
    let ms = order::time_sorted(kept);
    let f = play::fresh(v.options, chunks, contents, whole);
    order::lemma_sorted_len(kept);
    order::law_sorted_is_in_order(kept);
    play::law_readable_is_playable(v.options, chunks, contents, whole);
    play::lemma_opened(v.options, chunks, contents, whole);
    if kept.len() > 0 {
        let n = ms.len() as int;
        play::law_first_and_last_time_are_played(v.options, chunks, contents, whole);
        play::law_streaming_plays_what_reading_all_gives(f, 0);
        play::law_streaming_plays_what_reading_all_gives(f, (n - 1) as nat);
        assert(order::Timed::time_key(ms[0]) <= order::Timed::time_key(ms[n - 1]));
        if v.all == f.all {
            assert(v.message_at(0) == f.message_at(0));
            assert(v.message_at((n - 1) as nat) == f.message_at((n - 1) as nat));
        }
        assert forall|i: int| 0 <= i < kept.len() implies ms[0].stamp <= (#[trigger] kept[i]).stamp
            <= ms[n - 1].stamp by {
            let j = lemma_kept_is_played(kept, i);
            assert(order::Timed::time_key(ms[0]) <= order::Timed::time_key(ms[j]));
            assert(order::Timed::time_key(ms[j]) <= order::Timed::time_key(ms[n - 1]));
        }
    } else if chunks.len() > 0 {
        assert(play::entry_holds(chunks[0], contents[0]));
        play::lemma_first_chunk_counts(chunks, contents);
    }
}

/// Where a stored message is among the played ones.
proof fn lemma_kept_is_played(kept: Seq<MessageView>, i: int) -> (j: int)
    requires
        0 <= i < kept.len(),
    ensures
        0 <= j < order::time_sorted(kept).len(),
        order::time_sorted(kept)[j] == kept[i],
{
    broadcast use vstd::seq_lib::group_to_multiset_ensures;

    let ms = order::time_sorted(kept);
    order::law_sorting_loses_nothing(kept);
    assert(kept.contains(kept[i]));
    assert(kept.to_multiset().count(kept[i]) > 0);
    assert(ms.contains(kept[i]));
    choose|j: int| 0 <= j < ms.len() && ms[j] == kept[i]
}

/// A part of the duration, counted from the first message, leads to a message: the first one that
/// is not earlier. No part leads to the first message, the whole to one of the time of the last.
pub proof fn law_part_of_the_duration_leads_to_a_message(
    v: PlayerView,
    chunks: Seq<ChunkIndex>,
    contents: Seq<Result<Seq<MessageView>, Seq<char>>>,
    whole: Result<Seq<MessageView>, Seq<char>>,
    offset: u64,
    now: u64,
)
    requires
        play::readable(chunks, contents, whole),
        plays(v, chunks, contents, whole),
        play::stored(chunks, contents, whole).len() > 0,
        offset <= v.duration(),
    ensures
        ({
            let ms = order::time_sorted(play::stored(chunks, contents, whole));
            let t = ms[0].stamp + offset;
            let w = v.sought((v.first_or_zero() + offset) as u64, now);
            &&& v.first_or_zero() + offset == t <= u64::MAX
            &&& w.pos < ms.len()
            &&& w.stamp_at(w.pos) == Some(ms[w.pos as int].stamp)
            &&& ms[w.pos as int].stamp >= t
            &&& forall|i: int| 0 <= i < w.pos ==> (#[trigger] ms[i]).stamp < t
            &&& offset == 0 ==> w.pos == 0
            &&& offset == v.duration() ==> ms[w.pos as int].stamp == ms[ms.len() - 1].stamp
        }),
{
    let kept = play::stored(chunks, contents, whole);
    let ms = order::time_sorted(kept);
    law_duration_spans_the_messages(v, chunks, contents, whole);
    lemma_plays_is_playable(v, chunks, contents, whole);
    let t = (v.first_or_zero() + offset) as u64;
    let w = v.sought(t, now);
    play::law_calls_after_seeking(
        PlayerView { options: PlayOptions { loop_: false, ..v.options }, ..v },
        t,
        now,
        Seq::empty(),
    );
    let u = PlayerView { options: PlayOptions { loop_: false, ..v.options }, ..v };
    assert(u.sought(t, now).pos == w.pos);
    assert(u.all_messages() == ms);
    assert(ms[ms.len() - 1].stamp >= t);
    order::law_sorted_is_in_order(kept);
    assert(order::Timed::time_key(ms[w.pos as int]) <= order::Timed::time_key(ms[ms.len() - 1]));
    play::law_streaming_plays_what_reading_all_gives(v, w.pos);
    assert(w.message_at(w.pos) == v.message_at(w.pos));
}

proof fn lemma_plays_is_playable(
    v: PlayerView,
    chunks: Seq<ChunkIndex>,
    contents: Seq<Result<Seq<MessageView>, Seq<char>>>,
    whole: Result<Seq<MessageView>, Seq<char>>,
)
    requires
        play::readable(chunks, contents, whole),
        plays(v, chunks, contents, whole),
    ensures
        v.playable(),
        v.all_messages() == order::time_sorted(play::stored(chunks, contents, whole)),
{
    let kept = play::stored(chunks, contents, whole);
    let f = play::fresh(v.options, chunks, contents, whole);
    order::lemma_sorted_len(kept);
    order::law_sorted_is_in_order(kept);
    play::law_readable_is_playable(v.options, chunks, contents, whole);
    play::lemma_opened(v.options, chunks, contents, whole);
}

// ---------- the player of the stored order ----------

/// Taking messages without starting over leaves a clock that is going as it is.
proof fn lemma_sequence_clock_stays(v: SequenceView, clock: Seq<u64>)
    requires
        v.sound(),
        v.start is Some,
        v.pos + clock.len() <= v.messages.len(),
    ensures
        v.after_all(clock) == (SequenceView { pos: v.pos + clock.len(), ..v }),
    decreases clock.len(),
{
    if clock.len() > 0 {
        lemma_sequence_clock_stays(v, clock.drop_last());
    }
}

/// Played as they are stored, messages are due by their times too: the clock begins with the first
/// message, and each message is due as long after that as their times are apart.
pub proof fn law_stored_messages_are_due_by_their_times(
    v: SequenceView,
    now: u64,
    clock: Seq<u64>,
)
    requires
        v.sound(),
        !play::unpaced(v.options.rate),
        v.pos + clock.len() < v.messages.len(),
        v.start is Some ==> v.first_ts == Some(v.messages[0].stamp),
    ensures
        ({
            let w = v.poised(now);
            let start = match v.start {
                Some(s) => s,
                None => now,
            };
            &&& w.clock() == Some((start, v.messages[0].stamp))
            &&& w.after_all(clock).upcoming() == (Upcoming::Paced {
                start,
                delta: distance(
                    v.messages[0].stamp,
                    v.messages[(v.pos + clock.len()) as int].stamp,
                ),
            })
        }),
{
    let w = v.poised(now);
    lemma_sequence_clock_stays(w, clock);
    law_signed_difference_is_the_distance(
        v.messages[(v.pos + clock.len()) as int].stamp,
        v.messages[0].stamp,
    );
}

/// Where playing of the stored order starts over, the first message is due at that moment.
pub proof fn law_stored_messages_start_over_now(v: SequenceView, now: u64, clock: Seq<u64>)
    requires
        v.sound(),
        !play::unpaced(v.options.rate),
        clock.len() < v.messages.len(),
    ensures
        ({
            let w = v.restarted(now);
            &&& v.options.loop_ && v.pos == v.messages.len() ==> v.poised(now) == w
            &&& w.pos == 0
            &&& w.upcoming() == (Upcoming::Paced { start: now, delta: 0 })
            &&& w.after_all(clock).upcoming() == (Upcoming::Paced {
                start: now,
                delta: distance(v.messages[0].stamp, v.messages[clock.len() as int].stamp),
            })
        }),
{
    let w = v.restarted(now);
    law_stored_messages_are_due_by_their_times(w, now, Seq::empty());
    law_stored_messages_are_due_by_their_times(w, now, clock);
    assert(w.after_all(Seq::empty()) == w);
}

/// Played as they are stored and not paced, messages are due at once; behind the last one there is
/// nothing to wait for, unless playing starts over.
pub proof fn law_stored_messages_come_to_an_end(v: SequenceView, now: u64)
    requires
        v.sound(),
    ensures
        v.poised(now).upcoming() is End <==> v.messages.len() == 0 || (v.pos == v.messages.len()
            && !v.options.loop_),
        play::unpaced(v.options.rate) ==> v.clock() is None && (v.poised(now).upcoming() is End
            || v.poised(now).upcoming() is Now),
{
}

/// Whatever the speed, the clock is set to the moment and to the time of the next message by a
/// change of speed, by seeking, by starting over and by the first message that is asked for; a clock
/// that is going is left as it is.
pub proof fn law_clock_is_set_whatever_the_speed(v: PlayerView, rate: u64, target: u64, now: u64)
    requires
        v.playable(),
    ensures
        ({
            let ms = v.all_messages();
            let sought = v.sought(target, now);
            &&& v.pos < v.total ==> v.with_rate(rate, now).start == Some(now) && v.with_rate(
                rate,
                now,
            ).first_ts == Some(ms[v.pos as int].stamp)
            &&& sought.start == Some(now)
            &&& sought.pos < v.total ==> sought.first_ts == Some(ms[sought.pos as int].stamp)
            &&& sought.pos == v.total ==> sought.first_ts == Some(target)
            &&& v.total > 0 ==> v.restarted(now).start == Some(now) && v.restarted(now).first_ts
                == Some(ms[0].stamp) && v.restarted(now).pos == 0
            &&& v.start is None && v.pos < v.total ==> v.poised(now).start == Some(now)
                && v.poised(now).first_ts == Some(ms[v.pos as int].stamp) && v.poised(now).pos
                == v.pos
            &&& v.start is Some && v.pos < v.total ==> v.poised(now) == v
        }),
{
    let sought = v.sought(target, now);
    play::law_seek_finds_the_first(v, target, now);
    if v.pos < v.total {
        play::law_streaming_plays_what_reading_all_gives(v, v.pos);
    }
    if sought.pos < v.total {
        play::law_streaming_plays_what_reading_all_gives(v, sought.pos);
        assert(sought.message_at(sought.pos) == v.message_at(sought.pos));
    } else {
        lemma_nothing_behind(v);
        assert(sought.message_at(v.total) == v.message_at(v.total));
    }
    if v.total > 0 {
        play::law_streaming_plays_what_reading_all_gives(v, 0);
        let start = PlayerView { pos: 0, start: None, first_ts: None, ..v };
        assert(start.message_at(0) == v.message_at(0));
    }
}

/// Played as they are stored, whatever the speed, the clock is set to the moment and to the time of
/// the first message when one is asked for, and again where playing starts over.
pub proof fn law_stored_clock_is_set_whatever_the_speed(v: SequenceView, now: u64)
    requires
        v.sound(),
        v.messages.len() > 0,
    ensures
        v.restarted(now).start == Some(now),
        v.restarted(now).first_ts == Some(v.messages[0].stamp),
        v.restarted(now).pos == 0,
        v.start is None && v.pos < v.messages.len() ==> v.poised(now).start == Some(now) && v.poised(
            now,
        ).first_ts == Some(v.messages[0].stamp) && v.poised(now).pos == v.pos,
        v.start is Some && v.pos < v.messages.len() ==> v.poised(now) == v,
{
}

} // verus!
