//! Little-endian integers inside byte sequences.

use vstd::prelude::*;

verus! {

/// The `n` low-order bytes of `v`, least significant byte first.
pub open spec fn le_bytes(v: nat, n: nat) -> Seq<u8>
    decreases n,
{
    if n == 0 {
        Seq::empty()
    } else {
        seq![(v % 256) as u8] + le_bytes(v / 256, (n - 1) as nat)
    }
}

/// The number that `s` holds, least significant byte first.
pub open spec fn le_value(s: Seq<u8>) -> nat
    decreases s.len(),
{
    if s.len() == 0 {
        0
    } else {
        s[0] as nat + 256 * le_value(s.drop_first())
    }
}

/// One more than the largest number that fits in `n` bytes.
pub open spec fn le_limit(n: nat) -> nat
    decreases n,
{
    if n == 0 {
        1
    } else {
        256 * le_limit((n - 1) as nat)
    }
}

pub proof fn lemma_le_limits()
    ensures
        le_limit(1) == 0x100,
        le_limit(2) == 0x1_0000,
        le_limit(4) == 0x1_0000_0000,
        le_limit(8) == 0x1_0000_0000_0000_0000,
{
    reveal_with_fuel(le_limit, 9);
}

pub proof fn lemma_le_bytes_len(v: nat, n: nat)
    ensures
        le_bytes(v, n).len() == n,
    decreases n,
{
    if n > 0 {
        lemma_le_bytes_len(v / 256, (n - 1) as nat);
    }
}

/// Reading back what was laid down gives the number again.
pub proof fn lemma_le_value_of_bytes(v: nat, n: nat)
    requires
        v < le_limit(n),
    ensures
        le_value(le_bytes(v, n)) == v,
        le_bytes(v, n).len() == n,
    decreases n,
{
    if n > 0 {
        lemma_le_value_of_bytes(v / 256, (n - 1) as nat);
        assert(le_bytes(v, n).drop_first() =~= le_bytes(v / 256, (n - 1) as nat));
    }
}

pub proof fn lemma_le_value_bound(s: Seq<u8>)
    ensures
        le_value(s) < le_limit(s.len()),
    decreases s.len(),
{
    if s.len() > 0 {
        lemma_le_value_bound(s.drop_first());
    }
}

/// Laying down what was read gives the bytes again.
pub proof fn lemma_le_bytes_of_value(s: Seq<u8>)
    ensures
        le_bytes(le_value(s), s.len()) == s,
    decreases s.len(),
{
    if s.len() > 0 {
        lemma_le_bytes_of_value(s.drop_first());
        let v = le_value(s);
        assert(v % 256 == s[0] as nat && v / 256 == le_value(s.drop_first()));
        assert(le_bytes(v, s.len()) =~= s);
    }
}

/// Appends the bytes of `s` to `out`.
pub fn push_bytes(out: &mut Vec<u8>, s: &[u8])
    ensures
        final(out)@ == old(out)@ + s@,
{
    let ghost before = out@;
    out.extend_from_slice(s);
    assert(out@ =~= before + s@);
}

/// Appends the `n` low-order bytes of `v` to `out`.
pub fn push_le(out: &mut Vec<u8>, v: u64, n: usize)
    ensures
        final(out)@ == old(out)@ + le_bytes(v as nat, n as nat),
{
    let ghost before = out@;
    let mut rest: u64 = v;
    let mut left: usize = n;
    assert(out@ + le_bytes(v as nat, n as nat) =~= before + le_bytes(v as nat, n as nat));
    while left > 0
        invariant
            out@ + le_bytes(rest as nat, left as nat) == before + le_bytes(v as nat, n as nat),
        decreases left,
    {
        let ghost shown = out@;
        out.push((rest % 256) as u8);
        proof {
            assert(out@ + le_bytes((rest / 256) as nat, (left - 1) as nat) =~= shown + le_bytes(
                rest as nat,
                left as nat,
            ));
        }
        rest = rest / 256;
        left = left - 1;
    }
    assert(out@ =~= out@ + le_bytes(rest as nat, 0));
}

/// The number in the `n` bytes of `d` that start at `pos`.
pub fn get_le(d: &[u8], pos: usize, n: usize) -> (v: u64)
    requires
        n <= 8,
        pos + n <= d@.len(),
    ensures
        v as nat == le_value(d@.subrange(pos as int, pos + n)),
        v < le_limit(n as nat),
{
    let mut v: u64 = 0;
    let mut i: usize = n;
    proof {
        assert(d@.subrange(pos + n, pos + n) =~= Seq::<u8>::empty());
    }
    while i > 0
        invariant
            i <= n <= 8,
            pos + n <= d.len(),
            v as nat == le_value(d@.subrange(pos + i, pos + n)),
        decreases i,
    {
        i = i - 1;
        proof {
            let tail = d@.subrange(pos + i + 1, pos + n);
            let whole = d@.subrange(pos + i, pos + n);
            assert(whole.drop_first() =~= tail);
            lemma_le_value_bound(whole);
            lemma_le_value_bound(tail);
            lemma_le_limits();
            lemma_le_limit_monotonic(whole.len(), 8);
        }
        v = v * 256 + d[pos + i] as u64;
    }
    proof {
        lemma_le_value_bound(d@.subrange(pos as int, pos + n));
    }
    v
}

/// The number in the `n` bytes of `d` that start at `pos`, most significant byte first.
pub fn get_be(d: &[u8], pos: usize, n: usize) -> (v: u64)
    requires
        n <= 8,
        pos + n <= d@.len(),
    ensures
        v as nat == le_value(d@.subrange(pos as int, pos + n).reverse()),
        v < le_limit(n as nat),
{
    let mut v: u64 = 0;
    let mut i: usize = 0;
    proof {
        assert(d@.subrange(pos as int, pos as int).reverse() =~= Seq::<u8>::empty());
    }
    while i < n
        invariant
            i <= n <= 8,
            pos + n <= d.len(),
            v as nat == le_value(d@.subrange(pos as int, pos + i).reverse()),
        decreases n - i,
    {
        proof {
            let before = d@.subrange(pos as int, pos + i).reverse();
            let after = d@.subrange(pos as int, pos + i + 1).reverse();
            assert(after.drop_first() =~= before);
            lemma_le_value_bound(after);
            lemma_le_limits();
            lemma_le_limit_monotonic(after.len(), 8);
        }
        v = v * 256 + d[pos + i] as u64;
        i = i + 1;
    }
    proof {
        lemma_le_value_bound(d@.subrange(pos as int, pos + n).reverse());
    }
    v
}

pub proof fn lemma_le_limit_monotonic(a: nat, b: nat)
    requires
        a <= b,
    ensures
        1 <= le_limit(a) <= le_limit(b),
    decreases b,
{
    if b > 0 {
        if a < b {
            lemma_le_limit_monotonic(a, (b - 1) as nat);
        } else {
            lemma_le_limit_monotonic((a - 1) as nat, (b - 1) as nat);
        }
    }
}

/// Of two runs of bytes, the one behind counts for as many times as the one in front has values;
/// a single byte counts for itself.
pub proof fn law_bytes_behind_count_for_more(a: Seq<u8>, b: Seq<u8>, x: u8)
    ensures
        le_value(seq![x]) == x,
        le_value(a + b) == le_value(a) + vstd::arithmetic::power::pow(256, a.len()) * le_value(b),
    decreases a.len(),
{
    assert(seq![x].drop_first().len() == 0);
    assert(le_value(seq![x].drop_first()) == 0);
    let p = vstd::arithmetic::power::pow(256, a.len());
    let v = le_value(b) as int;
    if a.len() == 0 {
        assert(a + b =~= b);
        vstd::arithmetic::power::lemma_pow0(256);
    } else {
        let t = a.drop_first();
        assert((a + b).drop_first() =~= t + b);
        law_bytes_behind_count_for_more(t, b, x);
        let q = vstd::arithmetic::power::pow(256, t.len());
        reveal(vstd::arithmetic::power::pow);
        assert(p == 256 * q);
        assert(256 * (q * v) == (256 * q) * v) by (nonlinear_arith);
    }
}

} // verus!
