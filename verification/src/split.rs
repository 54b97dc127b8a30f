//! Texts cut into parts at a character.

use vstd::prelude::*;

verus! {

/// The parts of `s` between the occurrences of `c`; one more than `c` occurs.
pub open spec fn split(s: Seq<char>, c: char) -> Seq<Seq<char>>
    decreases s.len(),
{
    if s.len() == 0 {
        seq![Seq::empty()]
    } else if s.last() == c {
        split(s.drop_last(), c).push(Seq::empty())
    } else {
        let parts = split(s.drop_last(), c);
        parts.drop_last().push(parts.last().push(s.last()))
    }
}

/// Whether `c` does not occur in `s`.
pub open spec fn free_of(s: Seq<char>, c: char) -> bool {
    forall|i: int| 0 <= i < s.len() ==> #[trigger] s[i] != c
}

proof fn lemma_split_some(s: Seq<char>, c: char)
    ensures
        split(s, c).len() > 0,
    decreases s.len(),
{
    if s.len() > 0 {
        lemma_split_some(s.drop_last(), c);
    }
}

/// A text in which `c` does not occur is one part.
pub proof fn lemma_one_part(s: Seq<char>, c: char)
    requires
        free_of(s, c),
    ensures
        split(s, c) == seq![s],
    decreases s.len(),
{
    if s.len() == 0 {
        assert(s =~= Seq::empty());
    } else {
        let front = s.drop_last();
        assert forall|i: int| 0 <= i < front.len() implies #[trigger] front[i] != c by {
            assert(s[i] != c);
        }
        assert(s[s.len() - 1] != c);
        lemma_one_part(front, c);
        assert(front.push(s.last()) =~= s);
        assert(split(s, c) =~= seq![s]);
    }
}

/// Two texts with `c` between them have the parts of both.
pub proof fn lemma_split_joined(a: Seq<char>, b: Seq<char>, c: char)
    ensures
        split(a + seq![c] + b, c) == split(a, c) + split(b, c),
    decreases b.len(),
{
    let s = a + seq![c] + b;
    lemma_split_some(a, c);
    lemma_split_some(b, c);
    if b.len() == 0 {
        assert(s.drop_last() =~= a);
        assert(split(s, c) =~= split(a, c) + split(b, c));
    } else {
        assert(s.drop_last() =~= a + seq![c] + b.drop_last());
        assert(s.last() == b.last());
        lemma_split_joined(a, b.drop_last(), c);
        lemma_split_some(b.drop_last(), c);
        assert(split(s, c) =~= split(a, c) + split(b, c));
    }
}

/// A part in front of the rest of a text.
pub proof fn lemma_first_part(a: Seq<char>, b: Seq<char>, c: char)
    requires
        free_of(a, c),
    ensures
        split(a + seq![c] + b, c) == seq![a] + split(b, c),
{
    lemma_split_joined(a, b, c);
    lemma_one_part(a, c);
}

/// What is put behind a text without `c` in it goes to its last part.
pub proof fn lemma_appended(a: Seq<char>, b: Seq<char>, c: char)
    requires
        free_of(b, c),
    ensures
        split(a, c).len() > 0,
        split(a + b, c) == split(a, c).drop_last().push(split(a, c).last() + b),
    decreases b.len(),
{
    lemma_split_some(a, c);
    let parts = split(a, c);
    if b.len() == 0 {
        assert(a + b =~= a);
        assert(parts.last() + b =~= parts.last());
        assert(parts.drop_last().push(parts.last()) =~= parts);
    } else {
        let front = b.drop_last();
        assert forall|i: int| 0 <= i < front.len() implies #[trigger] front[i] != c by {
            assert(b[i] != c);
        }
        assert(b[b.len() - 1] != c);
        lemma_appended(a, front, c);
        assert((a + b).drop_last() =~= a + front);
        assert((parts.last() + front).push(b.last()) =~= parts.last() + b);
        assert(split(a + b, c) =~= parts.drop_last().push(parts.last() + b));
    }
}

} // verus!
