//! Stable ordering by time stamp.

use crate::message;
use crate::message::{MessageView, OwnedMessage};
use vstd::prelude::*;

verus! {

/// Something with a place on the time line.
pub trait Timed: Sized {
    spec fn time_key(self) -> u64;
}

impl Timed for MessageView {
    open spec fn time_key(self) -> u64 {
        self.stamp
    }
}

/// A value whose view is [`Timed`].
pub trait HasStamp: View + Sized where <Self as View>::V: Timed {
    fn stamp_nanos(&self) -> (ns: u64)
        ensures
            ns == self@.time_key(),
    ;
}

impl HasStamp for OwnedMessage {
    fn stamp_nanos(&self) -> (ns: u64) {
        self.stamp.0
    }
}

/// `s` with `x` put behind every element that is not later than `x`.
pub open spec fn inserted<V: Timed>(s: Seq<V>, x: V) -> Seq<V>
    decreases s.len(),
{
    if s.len() == 0 || s.last().time_key() <= x.time_key() {
        s.push(x)
    } else {
        inserted(s.drop_last(), x).push(s.last())
    }
}

/// `s` in order of time; what has the same time keeps its order.
pub open spec fn time_sorted<V: Timed>(s: Seq<V>) -> Seq<V>
    decreases s.len(),
{
    if s.len() == 0 {
        s
    } else {
        inserted(time_sorted(s.drop_last()), s.last())
    }
}

/// Whether the times of `s` never go back.
pub open spec fn in_time_order<V: Timed>(s: Seq<V>) -> bool {
    forall|i: int, j: int| 0 <= i <= j < s.len() ==> (#[trigger] s[i]).time_key() <= (
    #[trigger] s[j]).time_key()
}

/// The elements of `s` whose time is `t`.
pub open spec fn at_time<V: Timed>(s: Seq<V>, t: u64) -> Seq<V>
    decreases s.len(),
{
    if s.len() == 0 {
        s
    } else if s.last().time_key() == t {
        at_time(s.drop_last(), t).push(s.last())
    } else {
        at_time(s.drop_last(), t)
    }
}

/// Two runs in one, the later element last, and of two of the same time that of `r` last.
pub open spec fn merged<V: Timed>(l: Seq<V>, r: Seq<V>) -> Seq<V>
    decreases l.len() + r.len(),
{
    if r.len() == 0 {
        l
    } else if l.len() == 0 {
        r
    } else if l.last().time_key() <= r.last().time_key() {
        merged(l, r.drop_last()).push(r.last())
    } else {
        merged(l.drop_last(), r).push(l.last())
    }
}

proof fn lemma_merged_last<V: Timed>(l: Seq<V>, r: Seq<V>)
    ensures
        merged(l, r).len() == l.len() + r.len(),
        r.len() > 0 && (l.len() == 0 || l.last().time_key() <= r.last().time_key()) ==> merged(
            l,
            r,
        ).last() == r.last(),
        l.len() > 0 && (r.len() == 0 || l.last().time_key() > r.last().time_key()) ==> merged(
            l,
            r,
        ).last() == l.last(),
    decreases l.len() + r.len(),
{
    if r.len() > 0 && l.len() > 0 {
        if l.last().time_key() <= r.last().time_key() {
            lemma_merged_last(l, r.drop_last());
        } else {
            lemma_merged_last(l.drop_last(), r);
        }
    }
}

proof fn lemma_insert_into_merged<V: Timed>(l: Seq<V>, r: Seq<V>, x: V)
    ensures
        merged(l, inserted(r, x)) == inserted(merged(l, r), x),
    decreases l.len() + r.len(),
{
    lemma_merged_last(l, r);
    if r.len() == 0 || r.last().time_key() <= x.time_key() {
        assert(r.push(x).drop_last() =~= r);
        if l.len() == 0 || l.last().time_key() <= x.time_key() {
        } else {
            lemma_insert_into_merged(l.drop_last(), r, x);
            let base = merged(l.drop_last(), r);
            if r.len() == 0 {
                assert(merged(l, r) =~= l);
                assert(l =~= base.push(l.last()));
            }
            assert(base.push(l.last()).drop_last() =~= base);
        }
    } else {
        let rr = r.drop_last();
        assert(inserted(r, x).drop_last() =~= inserted(rr, x));
        if l.len() == 0 {
        } else if l.last().time_key() <= r.last().time_key() {
            lemma_insert_into_merged(l, rr, x);
            assert(merged(l, rr).push(r.last()).drop_last() =~= merged(l, rr));
        } else {
            lemma_insert_into_merged(l.drop_last(), r, x);
            let base = merged(l.drop_last(), r);
            assert(base.push(l.last()).drop_last() =~= base);
        }
    }
}

/// Sorting two parts and merging them sorts the whole.
pub proof fn lemma_merge_sorts<V: Timed>(a: Seq<V>, b: Seq<V>)
    ensures
        time_sorted(a + b) == merged(time_sorted(a), time_sorted(b)),
    decreases b.len(),
{
    if b.len() == 0 {
        assert(a + b =~= a);
    } else {
        assert((a + b).drop_last() =~= a + b.drop_last());
        lemma_merge_sorts(a, b.drop_last());
        lemma_insert_into_merged(time_sorted(a), time_sorted(b.drop_last()), b.last());
    }
}

/// Two runs in one begin with the earlier beginning and end with the later end.
pub proof fn lemma_merged_ends<V: Timed>(l: Seq<V>, r: Seq<V>)
    requires
        in_time_order(l),
        in_time_order(r),
        l.len() > 0,
        r.len() > 0,
    ensures
        merged(l, r).len() == l.len() + r.len(),
        merged(l, r).first().time_key() == if r.first().time_key() < l.first().time_key() {
            r.first().time_key()
        } else {
            l.first().time_key()
        },
        merged(l, r).last().time_key() == if r.last().time_key() > l.last().time_key() {
            r.last().time_key()
        } else {
            l.last().time_key()
        },
    decreases l.len() + r.len(),
{
    assert(l[0].time_key() <= l[l.len() - 1].time_key());
    assert(r[0].time_key() <= r[r.len() - 1].time_key());
    if l.last().time_key() <= r.last().time_key() {
        let d = r.drop_last();
        if d.len() > 0 {
            lemma_front_in_order(r);
            lemma_merged_ends(l, d);
        } else {
            assert(merged(l, d) == l);
        }
    } else {
        let d = l.drop_last();
        if d.len() > 0 {
            lemma_front_in_order(l);
            lemma_merged_ends(d, r);
        } else {
            assert(merged(d, r) == r);
        }
    }
}

proof fn lemma_front_in_order<V: Timed>(s: Seq<V>)
    requires
        in_time_order(s),
        s.len() > 0,
    ensures
        in_time_order(s.drop_last()),
{
    let d = s.drop_last();
    assert forall|i: int, j: int| 0 <= i <= j < d.len() implies (#[trigger] d[i]).time_key() <= (
    #[trigger] d[j]).time_key() by {
        assert(s[i].time_key() <= s[j].time_key());
    }
}

proof fn lemma_inserted_len<V: Timed>(s: Seq<V>, x: V)
    ensures
        inserted(s, x).len() == s.len() + 1,
    decreases s.len(),
{
    if s.len() == 0 || s.last().time_key() <= x.time_key() {
    } else {
        lemma_inserted_len(s.drop_last(), x);
    }
}

pub proof fn lemma_sorted_len<V: Timed>(s: Seq<V>)
    ensures
        time_sorted(s).len() == s.len(),
    decreases s.len(),
{
    if s.len() > 0 {
        lemma_sorted_len(s.drop_last());
        lemma_inserted_len(time_sorted(s.drop_last()), s.last());
    }
}

proof fn lemma_inserted_ordered<V: Timed>(s: Seq<V>, x: V)
    requires
        in_time_order(s),
    ensures
        in_time_order(inserted(s, x)),
        inserted(s, x).last() == x || (s.len() > 0 && inserted(s, x).last() == s.last()),
    decreases s.len(),
{
    lemma_inserted_len(s, x);
    if s.len() == 0 || s.last().time_key() <= x.time_key() {
    } else {
        let d = s.drop_last();
        lemma_inserted_ordered(d, x);
        lemma_inserted_len(d, x);
        let r = inserted(d, x);
        assert(r.last().time_key() <= s.last().time_key()) by {
            if d.len() > 0 {
                assert(s[d.len() - 1].time_key() <= s[s.len() - 1].time_key());
            }
        }
        let whole = r.push(s.last());
        assert forall|i: int, j: int| 0 <= i <= j < whole.len() implies (
        #[trigger] whole[i]).time_key() <= (#[trigger] whole[j]).time_key() by {
            if j == r.len() && i < r.len() {
                assert(r[i].time_key() <= r[r.len() - 1].time_key());
            }
        }
    }
}

/// The result of sorting never goes back in time.
pub proof fn law_sorted_is_in_order<V: Timed>(s: Seq<V>)
    ensures
        in_time_order(time_sorted(s)),
    decreases s.len(),
{
    if s.len() > 0 {
        law_sorted_is_in_order(s.drop_last());
        lemma_inserted_ordered(time_sorted(s.drop_last()), s.last());
    }
}

proof fn lemma_inserted_at_time<V: Timed>(s: Seq<V>, x: V, t: u64)
    ensures
        at_time(inserted(s, x), t) == if x.time_key() == t {
            at_time(s, t).push(x)
        } else {
            at_time(s, t)
        },
    decreases s.len(),
{
    if s.len() == 0 || s.last().time_key() <= x.time_key() {
        assert(s.push(x).drop_last() =~= s);
    } else {
        let r = inserted(s.drop_last(), x);
        lemma_inserted_at_time(s.drop_last(), x, t);
        assert(r.push(s.last()).drop_last() =~= r);
        if s.last().time_key() == t && x.time_key() == t {
            assert(false);
        }
    }
}

/// Sorting is stable and loses nothing: for every time, the elements of that time are the same,
/// in the same order, before and after.
pub proof fn law_sorting_is_stable<V: Timed>(s: Seq<V>, t: u64)
    ensures
        at_time(time_sorted(s), t) == at_time(s, t),
        time_sorted(s).len() == s.len(),
    decreases s.len(),
{
    lemma_sorted_len(s);
    if s.len() > 0 {
        law_sorting_is_stable(s.drop_last(), t);
        lemma_inserted_at_time(time_sorted(s.drop_last()), s.last(), t);
    }
}

proof fn lemma_inserted_loses_nothing<V: Timed>(s: Seq<V>, x: V)
    ensures
        inserted(s, x).to_multiset() == s.to_multiset().insert(x),
    decreases s.len(),
{
    broadcast use vstd::seq_lib::group_to_multiset_ensures;

    if s.len() > 0 && s.last().time_key() > x.time_key() {
        lemma_inserted_loses_nothing(s.drop_last(), x);
        assert(s.drop_last().push(s.last()) =~= s);
        assert(s.drop_last().to_multiset().insert(x).insert(s.last())
            =~= s.drop_last().to_multiset().insert(s.last()).insert(x));
    }
}

/// Sorting keeps every element as often as it occurs.
pub proof fn law_sorting_loses_nothing<V: Timed>(s: Seq<V>)
    ensures
        time_sorted(s).to_multiset() == s.to_multiset(),
    decreases s.len(),
{
    broadcast use vstd::seq_lib::group_to_multiset_ensures;

    if s.len() > 0 {
        law_sorting_loses_nothing(s.drop_last());
        lemma_inserted_loses_nothing(time_sorted(s.drop_last()), s.last());
        assert(s.drop_last().push(s.last()) =~= s);
    } else {
        assert(time_sorted(s) =~= s);
    }
}

/// What is in order already stays as it is.
pub proof fn law_sorting_keeps_order<V: Timed>(s: Seq<V>)
    requires
        in_time_order(s),
    ensures
        time_sorted(s) == s,
    decreases s.len(),
{
    if s.len() > 0 {
        let d = s.drop_last();
        assert forall|i: int, j: int| 0 <= i <= j < d.len() implies (#[trigger] d[i]).time_key()
            <= (#[trigger] d[j]).time_key() by {
            assert(s[i].time_key() <= s[j].time_key());
        }
        law_sorting_keeps_order(d);
        if d.len() > 0 {
            assert(s[d.len() - 1].time_key() <= s[s.len() - 1].time_key());
        }
        assert(d.push(s.last()) =~= s);
    }
}

fn merge<T: HasStamp>(l: Vec<T>, r: Vec<T>) -> (out: Vec<T>) where <T as View>::V: Timed
    ensures
        message::views(out@) == merged(message::views(l@), message::views(r@)),
{
    let ghost whole = merged(message::views(l@), message::views(r@));
    let mut l: Vec<T> = l;
    let mut r: Vec<T> = r;
    // The latest elements, the very latest first.
    let mut back: Vec<T> = Vec::new();
    proof {
        assert(whole =~= merged(message::views(l@), message::views(r@)) + message::views(back@).reverse());
    }
    while l.len() > 0 && r.len() > 0
        invariant
            whole == merged(message::views(l@), message::views(r@)) + message::views(back@).reverse(),
        decreases l.len() + r.len(),
    {
        let ghost was_back = message::views(back@);
        let ghost vl = message::views(l@);
        let ghost vr = message::views(r@);
        if l[l.len() - 1].stamp_nanos() <= r[r.len() - 1].stamp_nanos() {
            if let Some(x) = r.pop() {
                back.push(x);
                proof {
                    assert(message::views(r@) =~= vr.drop_last());
                    assert(message::views(back@) =~= was_back.push(x@));
                    assert(merged(vl, vr) =~= merged(vl, message::views(r@)).push(x@));
                    assert(whole =~= merged(vl, message::views(r@)) + message::views(back@).reverse());
                }
            }
        } else {
            if let Some(x) = l.pop() {
                back.push(x);
                proof {
                    assert(message::views(l@) =~= vl.drop_last());
                    assert(message::views(back@) =~= was_back.push(x@));
                    assert(merged(vl, vr) =~= merged(message::views(l@), vr).push(x@));
                    assert(whole =~= merged(message::views(l@), vr) + message::views(back@).reverse());
                }
            }
        }
    }
    let mut out: Vec<T> = if r.len() == 0 {
        l
    } else {
        r
    };
    while back.len() > 0
        invariant
            whole == message::views(out@) + message::views(back@).reverse(),
        decreases back.len(),
    {
        let ghost was_back = message::views(back@);
        let ghost was_out = message::views(out@);
        if let Some(x) = back.pop() {
            out.push(x);
            proof {
                assert(message::views(back@) =~= was_back.drop_last());
                assert(message::views(out@) =~= was_out.push(x@));
                assert(was_back.reverse() =~= seq![x@] + message::views(back@).reverse());
                assert(whole =~= message::views(out@) + message::views(back@).reverse());
            }
        }
    }
    assert(message::views(out@) =~= whole);
    out
}

/// Sorts by time; elements of the same time keep their order.
pub fn sort_by_stamp<T: HasStamp>(v: Vec<T>) -> (out: Vec<T>) where <T as View>::V: Timed
    ensures
        message::views(out@) == time_sorted(message::views(v@)),
    decreases v@.len(),
{
    let mut v: Vec<T> = v;
    let ghost all = message::views(v@);
    if v.len() <= 1 {
        proof {
            if all.len() == 1 {
                assert(all.drop_last().len() == 0);
                assert(time_sorted(all.drop_last()) =~= Seq::empty());
                assert(time_sorted(all) =~= all);
            }
        }
        return v;
    }
    let mid: usize = v.len() / 2;
    let right: Vec<T> = v.split_off(mid);
    proof {
        assert(all =~= message::views(v@) + message::views(right@));
        lemma_merge_sorts(message::views(v@), message::views(right@));
    }
    merge(sort_by_stamp(v), sort_by_stamp(right))
}

} // verus!
