//! What playing does with a recording of which some chunks cannot be read.

use crate::message::{ChunkIndex, MessageView};
use crate::play::PlayerView;
use crate::{order, play};
use vstd::prelude::*;

verus! {

/// The number of messages that an index announces is the sum of those of its entries.
pub proof fn law_announced_messages_add_up(chunks: Seq<ChunkIndex>, c: ChunkIndex)
    ensures
        play::count_before(Seq::empty(), 0) == 0,
        play::count_before(chunks.push(c), chunks.len() + 1 as int) == play::count_before(
            chunks,
            chunks.len() as int,
        ) + c.msg_count,
{
    lemma_front_counts(chunks, c, chunks.len() as int);
}

proof fn lemma_front_counts(chunks: Seq<ChunkIndex>, c: ChunkIndex, n: int)
    requires
        0 <= n <= chunks.len(),
    ensures
        play::count_before(chunks.push(c), n) == play::count_before(chunks, n),
    decreases n,
{
    if n > 0 {
        lemma_front_counts(chunks, c, n - 1);
    }
}

/// Of several chunks, the messages of those that can be read are gathered, one chunk behind the
/// other, and those that cannot be read are left out.
pub proof fn law_unreadable_chunks_are_left_out(
    contents: Seq<Result<Seq<MessageView>, Seq<char>>>,
    ms: Seq<MessageView>,
    e: Seq<char>,
)
    ensures
        play::gathered(Seq::empty()).len() == 0,
        play::gathered(contents.push(Ok(ms))) == play::gathered(contents) + ms,
        play::gathered(contents.push(Err(e))) == play::gathered(contents),
{
    assert(contents.push(Ok(ms)).drop_last() =~= contents);
    assert(contents.push(Err(e)).drop_last() =~= contents);
}

/// Where the next message is in a chunk that cannot be read, playing comes to its end there: no
/// message is given, and the place stays.
pub proof fn law_unreadable_chunk_ends_playing(v: PlayerView, c: int, now: u64)
    requires
        v.sound(),
        v.all is None,
        0 <= c < v.chunks.len(),
        v.contents[c] is Err,
        play::count_before(v.chunks, c) <= v.pos < play::count_before(v.chunks, c + 1),
    ensures
        v.message_at(v.pos) == Err::<MessageView, Seq<char>>(v.contents[c]->Err_0),
        v.poised(now).upcoming() is End,
        v.given(now) is None,
        v.after(now).pos == v.pos,
        v.after(now).total == v.total,
{
    play::lemma_chunk_with_is(v.chunks, v.pos as int, v.chunks.len() as int, c);
    play::lemma_count_grows(v.chunks, c + 1, v.chunks.len() as int);
    let w = v.poised(now);
    assert(w.message_at(w.pos) == v.message_at(v.pos));
}

/// Where a chunk holds fewer messages than the index says, playing comes to its end behind them.
pub proof fn law_missing_messages_end_playing(v: PlayerView, c: int, now: u64)
    requires
        v.sound(),
        v.all is None,
        0 <= c < v.chunks.len(),
        v.contents[c] is Ok,
        play::count_before(v.chunks, c) + v.contents[c]->Ok_0.len() <= v.pos < play::count_before(
            v.chunks,
            c + 1,
        ),
    ensures
        v.message_at(v.pos) is Err,
        v.poised(now).upcoming() is End,
        v.given(now) is None,
        v.after(now).pos == v.pos,
{
    play::lemma_chunk_with_is(v.chunks, v.pos as int, v.chunks.len() as int, c);
    play::lemma_count_grows(v.chunks, c + 1, v.chunks.len() as int);
    order::lemma_sorted_len(v.contents[c]->Ok_0);
    let w = v.poised(now);
    assert(w.message_at(w.pos) == v.message_at(v.pos));
}

/// A message of a chunk that can be read is played from it, whether or not other chunks can be
/// read: the messages of a chunk in order of time, numbered behind those that the index announces
/// for the chunks before.
pub proof fn law_readable_chunks_are_played(v: PlayerView, c: int, k: int, now: u64)
    requires
        v.sound(),
        v.all is None,
        0 <= c < v.chunks.len(),
        v.contents[c] is Ok,
        v.contents[c]->Ok_0.len() == v.chunks[c].msg_count,
        0 <= k < v.chunks[c].msg_count,
        v.pos == play::count_before(v.chunks, c) + k,
    ensures
        v.given(now) == Some(order::time_sorted(v.contents[c]->Ok_0)[k]),
        v.after(now).pos == v.pos + 1,
{
    play::lemma_chunk_with_is(v.chunks, v.pos as int, v.chunks.len() as int, c);
    play::lemma_count_grows(v.chunks, c + 1, v.chunks.len() as int);
    order::lemma_sorted_len(v.contents[c]->Ok_0);
    let w = v.poised(now);
    assert(w.message_at(w.pos) == v.message_at(v.pos));
}

/// Seeking for a time reads the first chunk that does not end before it, and no other. Where that
/// cannot be read, and where there is none, playing goes behind the last message.
pub proof fn law_seeking_reads_one_chunk(v: PlayerView, t: u64, c: int, k: int, now: u64)
    requires
        v.sound(),
        v.all is None,
        0 <= c <= v.chunks.len(),
        forall|b: int| 0 <= b < c ==> (#[trigger] v.chunks[b]).end_stamp < t,
        c < v.chunks.len() ==> v.chunks[c].end_stamp >= t,
    ensures
        c == v.chunks.len() ==> v.sought(t, now).pos == v.total,
        c < v.chunks.len() && v.contents[c] is Err ==> v.sought(t, now).pos == v.total,
        c < v.chunks.len() && (v.contents[c] matches Ok(ms) && {
            let sorted = order::time_sorted(ms);
            &&& ms.len() == v.chunks[c].msg_count
            &&& 0 <= k < sorted.len()
            &&& sorted[k].stamp >= t
            &&& forall|j: int| 0 <= j < k ==> (#[trigger] sorted[j]).stamp < t
        }) ==> v.sought(t, now).pos == play::count_before(v.chunks, c) + k && v.sought(
            t,
            now,
        ).stamp_at(v.sought(t, now).pos) == Some(order::time_sorted(v.contents[c]->Ok_0)[k].stamp),
{
    lemma_reaching(v.chunks, t, 0, c);
    if c < v.chunks.len() {
        if let Ok(ms) = v.contents[c] {
            let sorted = order::time_sorted(ms);
            order::lemma_sorted_len(ms);
            if ms.len() == v.chunks[c].msg_count && 0 <= k < sorted.len() && sorted[k].stamp >= t
                && (forall|j: int| 0 <= j < k ==> (#[trigger] sorted[j]).stamp < t) {
                lemma_earlier(sorted, t, k);
                let p = play::count_before(v.chunks, c) + k;
                play::lemma_count_grows(v.chunks, c + 1, v.chunks.len() as int);
                play::lemma_chunk_with_is(v.chunks, p, v.chunks.len() as int, c);
                let w = v.sought(t, now);
                assert(w.message_at(w.pos) == v.message_at(w.pos));
            }
        }
    }
}

proof fn lemma_reaching(chunks: Seq<ChunkIndex>, t: u64, i: int, c: int)
    requires
        0 <= i <= c <= chunks.len(),
        forall|b: int| i <= b < c ==> (#[trigger] chunks[b]).end_stamp < t,
        c < chunks.len() ==> chunks[c].end_stamp >= t,
    ensures
        play::chunk_reaching(chunks, t, i) == c,
    decreases c - i,
{
    if i < c {
        assert(chunks[i].end_stamp < t);
        lemma_reaching(chunks, t, i + 1, c);
    }
}

proof fn lemma_earlier(s: Seq<MessageView>, t: u64, k: int)
    requires
        0 <= k < s.len(),
        s[k].stamp >= t,
        forall|j: int| 0 <= j < k ==> (#[trigger] s[j]).stamp < t,
    ensures
        play::earlier(s, t) == k,
    decreases k,
{
    if k > 0 {
        assert(s[0].stamp < t);
        let rest = s.drop_first();
        assert forall|j: int| 0 <= j < k - 1 implies (#[trigger] rest[j]).stamp < t by {
            assert(s[j + 1].stamp < t);
        }
        lemma_earlier(rest, t, k - 1);
    }
}

} // verus!
