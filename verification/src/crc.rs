//! The IEEE CRC-32 that guards each chunk.

use crate::le;
use vstd::prelude::*;

verus! {

/// One step of the division by the reflected IEEE polynomial.
pub open spec fn crc_bit(c: u32) -> u32 {
    if c & 1 == 1 {
        (c >> 1) ^ 0xedb8_8320
    } else {
        c >> 1
    }
}

/// `n` steps of the division.
pub open spec fn crc_bits(c: u32, n: nat) -> u32
    decreases n,
{
    if n == 0 {
        c
    } else {
        crc_bit(crc_bits(c, (n - 1) as nat))
    }
}

/// The register after `data`, from the register `c`.
pub open spec fn crc_run(c: u32, data: Seq<u8>) -> u32
    decreases data.len(),
{
    if data.len() == 0 {
        c
    } else {
        crc_bits(crc_run(c, data.drop_last()) ^ (data.last() as u32), 8)
    }
}

/// The CRC-32 of `data`.
pub open spec fn crc32_of(data: Seq<u8>) -> u32 {
    !crc_run(0xffff_ffff, data)
}

/// The CRC-32 of `data` (the same as zlib's `crc32`).
pub fn crc32(data: &[u8]) -> (r: u32)
    ensures
        r == crc32_of(data@),
{
    let mut crc: u32 = 0xffff_ffffu32;
    let mut i: usize = 0;
    assert(data@.subrange(0, 0) =~= Seq::<u8>::empty());
    while i < data.len()
        invariant
            i <= data.len(),
            crc == crc_run(0xffff_ffff, data@.subrange(0, i as int)),
        decreases data.len() - i,
    {
        let ghost before = crc;
        crc = crc ^ (data[i] as u32);
        let ghost start = crc;
        let mut k: u32 = 0;
        while k < 8
            invariant
                k <= 8,
                crc == crc_bits(start, k as nat),
            decreases 8 - k,
        {
            let mask: u32 = 0u32.wrapping_sub(crc & 1);
            proof {
                assert(crc & 1 == 0 || crc & 1 == 1) by (bit_vector);
                assert(crc & 1 == 1 ==> (crc >> 1) ^ (0xedb8_8320u32 & 0xffff_ffffu32) == (crc >> 1)
                    ^ 0xedb8_8320u32) by (bit_vector);
                assert((crc >> 1) ^ (0xedb8_8320u32 & 0u32) == crc >> 1) by (bit_vector);
            }
            crc = (crc >> 1) ^ (0xedb8_8320 & mask);
            k = k + 1;
        }
        proof {
            let more = data@.subrange(0, i + 1);
            assert(more.drop_last() =~= data@.subrange(0, i as int));
        }
        i = i + 1;
    }
    assert(data@.subrange(0, i as int) =~= data@);
    !crc
}

// ---------- what it guards against ----------

proof fn lemma_bit_injective(a: u32, b: u32)
    requires
        crc_bit(a) == crc_bit(b),
    ensures
        a == b,
{
    assert(crc_bit(a) == crc_bit(b) ==> a == b) by (bit_vector);
}

proof fn lemma_bits_injective(a: u32, b: u32, n: nat)
    requires
        crc_bits(a, n) == crc_bits(b, n),
    ensures
        a == b,
    decreases n,
{
    if n > 0 {
        lemma_bit_injective(crc_bits(a, (n - 1) as nat), crc_bits(b, (n - 1) as nat));
        lemma_bits_injective(a, b, (n - 1) as nat);
    }
}

/// Different registers stay different, and so do the registers after different bytes.
proof fn lemma_run_injective(c: u32, d: u32, data: Seq<u8>)
    requires
        crc_run(c, data) == crc_run(d, data),
    ensures
        c == d,
    decreases data.len(),
{
    if data.len() > 0 {
        let b = data.last() as u32;
        let x = crc_run(c, data.drop_last());
        let y = crc_run(d, data.drop_last());
        lemma_bits_injective(x ^ b, y ^ b, 8);
        assert(x ^ b == y ^ b ==> x == y) by (bit_vector);
        lemma_run_injective(c, d, data.drop_last());
    }
}

proof fn lemma_run_joined(c: u32, a: Seq<u8>, b: Seq<u8>)
    ensures
        crc_run(c, a + b) == crc_run(crc_run(c, a), b),
    decreases b.len(),
{
    if b.len() == 0 {
        assert(a + b =~= a);
    } else {
        assert((a + b).drop_last() =~= a + b.drop_last());
        lemma_run_joined(c, a, b.drop_last());
    }
}

/// Data in which one byte was changed, wherever that is, has another CRC.
pub proof fn law_one_changed_byte_is_noticed(data: Seq<u8>, i: int, b: u8)
    requires
        0 <= i < data.len(),
        b != data[i],
    ensures
        crc32_of(data.update(i, b)) != crc32_of(data),
{
    let front = data.take(i);
    let back = data.skip(i + 1);
    let a = data[i];
    assert(data =~= front + (seq![a] + back));
    assert(data.update(i, b) =~= front + (seq![b] + back));
    let c = crc_run(0xffff_ffff, front);
    lemma_run_joined(0xffff_ffff, front, seq![a] + back);
    lemma_run_joined(0xffff_ffff, front, seq![b] + back);
    lemma_run_joined(c, seq![a], back);
    lemma_run_joined(c, seq![b], back);
    let x = crc_run(c, seq![a]);
    let y = crc_run(c, seq![b]);
    lemma_run_one(c, Seq::empty(), a);
    lemma_run_one(c, Seq::empty(), b);
    assert(x == crc_bits(c ^ (a as u32), 8) && y == crc_bits(c ^ (b as u32), 8));
    let p = crc_run(x, back);
    let q = crc_run(y, back);
    assert(!p == !q ==> p == q) by (bit_vector);
    if p == q {
        lemma_run_injective(x, y, back);
        lemma_bits_injective(c ^ (a as u32), c ^ (b as u32), 8);
        assert(c ^ (a as u32) == c ^ (b as u32) ==> a == b) by (bit_vector);
    }
}

/// A step of the division of two registers at once.
proof fn lemma_bit_of_both(a: u32, b: u32)
    ensures
        crc_bit(a ^ b) == crc_bit(a) ^ crc_bit(b),
{
    assert(crc_bit(a ^ b) == crc_bit(a) ^ crc_bit(b)) by (bit_vector);
}

proof fn lemma_bits_of_both(a: u32, b: u32, n: nat)
    ensures
        crc_bits(a ^ b, n) == crc_bits(a, n) ^ crc_bits(b, n),
    decreases n,
{
    if n > 0 {
        lemma_bits_of_both(a, b, (n - 1) as nat);
        lemma_bit_of_both(crc_bits(a, (n - 1) as nat), crc_bits(b, (n - 1) as nat));
    }
}

/// Zeros are shifted out as they are.
proof fn lemma_shifted(c: u32, n: nat)
    requires
        n <= 8,
        c & 0xff == 0,
    ensures
        crc_bits(c, n) == c >> (n as u32),
    decreases n,
{
    if n == 0 {
        assert(c >> 0u32 == c) by (bit_vector);
    } else {
        lemma_shifted(c, (n - 1) as nat);
        let k = (n - 1) as u32;
        assert(c & 0xff == 0 && k < 8 ==> (c >> k) & 1 == 0 && (c >> k) >> 1 == c >> ((k
            + 1) as u32)) by (bit_vector);
    }
}

/// Eight steps of the division move the upper bytes down and fold in what the lowest byte gives.
proof fn lemma_eight_steps(c: u32)
    ensures
        crc_bits(c, 8) == (c >> 8) ^ crc_bits(c & 0xff, 8),
{
    let hi = c & 0xffff_ff00;
    let lo = c & 0xff;
    assert(hi == c & 0xffff_ff00 && lo == c & 0xff ==> hi ^ lo == c && hi & 0xff == 0 && hi >> 8
        == c >> 8) by (bit_vector);
    lemma_bits_of_both(hi, lo, 8);
    lemma_shifted(hi, 8);
}

proof fn lemma_low_bytes()
    ensures
        crc_bits(0xff, 8) == 0x2d02_ef8d,
        crc_bits(0x72, 8) == 0xbe0b_1010,
        crc_bits(0, 8) == 0,
        crc_bits(0xed, 8) == 0xdebb_9ec5,
{
    lemma_twice_four(0xff);
    lemma_twice_four(0x72);
    lemma_twice_four(0);
    lemma_twice_four(0xed);
    assert(four_steps(four_steps(0xff)) == 0x2d02_ef8d) by (bit_vector);
    assert(four_steps(four_steps(0x72)) == 0xbe0b_1010) by (bit_vector);
    assert(four_steps(four_steps(0)) == 0) by (bit_vector);
    assert(four_steps(four_steps(0xed)) == 0xdebb_9ec5) by (bit_vector);
}

spec fn four_steps(c: u32) -> u32 {
    crc_bit(crc_bit(crc_bit(crc_bit(c))))
}

proof fn lemma_twice_four(c: u32)
    ensures
        crc_bits(c, 8) == four_steps(four_steps(c)),
{
    reveal_with_fuel(crc_bits, 9);
}

proof fn lemma_run_one(c: u32, data: Seq<u8>, b: u8)
    ensures
        crc_run(c, data.push(b)) == crc_bits(crc_run(c, data) ^ (b as u32), 8),
{
    assert(data.push(b).drop_last() =~= data);
}

/// Data with its CRC behind it, least significant byte first, has the same CRC whatever the data
/// is.
pub proof fn law_data_with_its_crc_has_one_crc(data: Seq<u8>)
    ensures
        crc32_of(data + le::le_bytes(crc32_of(data) as nat, 4)) == 0x2144_df1c,
{
    let r = crc_run(0xffff_ffff, data);
    let crc = !r;
    let b = le::le_bytes(crc as nat, 4);
    reveal_with_fuel(le::le_bytes, 5);
    let b0 = (crc % 256) as u8;
    let b1 = (crc / 256 % 256) as u8;
    let b2 = (crc / 256 / 256 % 256) as u8;
    let b3 = (crc / 256 / 256 / 256 % 256) as u8;
    assert(b =~= seq![b0, b1, b2, b3]);
    lemma_run_joined(0xffff_ffff, data, b);
    let s1 = Seq::empty().push(b0);
    let s2 = s1.push(b1);
    let s3 = s2.push(b2);
    assert(b =~= s3.push(b3));
    let c1 = crc_run(r, s1);
    let c2 = crc_run(r, s2);
    let c3 = crc_run(r, s3);
    let c4 = crc_run(r, b);
    lemma_run_one(r, Seq::empty(), b0);
    lemma_run_one(r, s1, b1);
    lemma_run_one(r, s2, b2);
    lemma_run_one(r, s3, b3);
    lemma_eight_steps(r ^ (b0 as u32));
    lemma_eight_steps(c1 ^ (b1 as u32));
    lemma_eight_steps(c2 ^ (b2 as u32));
    lemma_eight_steps(c3 ^ (b3 as u32));
    lemma_low_bytes();
    assert(crc == !r && b0 == (crc % 256) as u8 ==> (r ^ (b0 as u32)) & 0xff == 0xff && ((r ^ (
    b0 as u32)) >> 8) ^ 0x2d02_ef8d == (r >> 8) ^ 0x2d02_ef8d) by (bit_vector);
    assert(crc == !r && c1 == (r >> 8) ^ 0x2d02_ef8d && b1 == (crc / 256 % 256) as u8 ==> (c1 ^ (
    b1 as u32)) & 0xff == 0x72 && ((c1 ^ (b1 as u32)) >> 8) ^ 0xbe0b_1010 == (r >> 16)
        ^ 0xbe26_12ff) by (bit_vector);
    assert(crc == !r && c2 == (r >> 16) ^ 0xbe26_12ff && b2 == (crc / 256 / 256 % 256) as u8 ==> (c2
        ^ (b2 as u32)) & 0xff == 0 && ((c2 ^ (b2 as u32)) >> 8) ^ 0 == (r >> 24) ^ 0xbe_2612)
        by (bit_vector);
    assert(crc == !r && c3 == (r >> 24) ^ 0xbe_2612 && b3 == (crc / 256 / 256 / 256 % 256) as u8
        ==> (c3 ^ (b3 as u32)) & 0xff == 0xed && ((c3 ^ (b3 as u32)) >> 8) ^ 0xdebb_9ec5
        == 0xdebb_20e3) by (bit_vector);
    assert(!0xdebb_20e3u32 == 0x2144_df1c) by (bit_vector);
}

} // verus!
