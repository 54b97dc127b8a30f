//! Integers and texts as the container file holds them.

use crate::le::{get_le, push_bytes, push_le};
use crate::message::Error;
use crate::text::utf8_text;
use crate::le;
use vstd::prelude::*;
use vstd::utf8;

verus! {

/// What is said where the bytes run out.
pub open spec fn eof() -> Seq<char> {
    "unexpected end of file"@
}

/// Whether `magic` stands in `d` at `pos`.
pub open spec fn stands_at(d: Seq<u8>, pos: int, magic: Seq<u8>) -> bool {
    0 <= pos && pos + magic.len() <= d.len() && d.subrange(pos, pos + magic.len()) == magic
}

/// The number in the `n` bytes of `d` at `pos`.
pub open spec fn number(d: Seq<u8>, pos: int, n: nat) -> nat {
    le::le_value(d.subrange(pos, pos + n))
}

/// The number in the `n` bytes of `d` at `pos`, if they are there.
pub open spec fn uint_at(d: Seq<u8>, pos: int, n: nat) -> Result<nat, Seq<char>> {
    if pos + n > d.len() {
        Err(eof())
    } else {
        Ok(number(d, pos, n))
    }
}

/// The text in `d` at `pos` (its length in four bytes, then its UTF-8 form), and where it ends.
pub open spec fn text_at(d: Seq<u8>, pos: int) -> Result<(Seq<char>, int), Seq<char>> {
    match uint_at(d, pos, 4) {
        Err(e) => Err(e),
        Ok(len) => {
            let end = pos + 4 + len;
            if end > d.len() {
                Err(eof())
            } else if !utf8::valid_utf8(d.subrange(pos + 4, end)) {
                Err("bad utf8"@)
            } else {
                Ok((utf8::decode_utf8(d.subrange(pos + 4, end)), end))
            }
        },
    }
}

/// The stored form of a text.
pub open spec fn text_bytes(s: Seq<char>) -> Seq<u8> {
    le::le_bytes(utf8::encode_utf8(s).len(), 4) + utf8::encode_utf8(s)
}

/// Whether the length of a text fits its length field.
pub open spec fn text_fits(s: Seq<char>) -> bool {
    utf8::encode_utf8(s).len() < 0x1_0000_0000
}

/// Appends a text: its length in four bytes, then its UTF-8 form.
pub fn push_str(out: &mut Vec<u8>, s: &str)
    ensures
        final(out)@ == old(out)@ + text_bytes(s@),
{
    let ghost before = out@;
    let b: &[u8] = s.as_bytes();
    push_le(out, b.len() as u64, 4);
    push_bytes(out, b);
    assert(out@ =~= before + text_bytes(s@));
}

/// Whether `magic` stands in `d` at `pos`.
pub fn is_at(d: &[u8], pos: usize, magic: &[u8]) -> (r: bool)
    ensures
        r == stands_at(d@, pos as int, magic@),
{
    let n: usize = magic.len();
    if d.len() < n || pos > d.len() - n {
        return false;
    }
    let mut i: usize = 0;
    while i < n
        invariant
            n == magic.len(),
            pos + n <= d.len(),
            i <= n,
            forall|k: int| 0 <= k < i ==> d@[pos + k] == #[trigger] magic@[k],
        decreases n - i,
    {
        if d[pos + i] != magic[i] {
            proof {
                assert(d@.subrange(pos as int, pos + n)[i as int] == d@[pos + i]);
            }
            return false;
        }
        i = i + 1;
    }
    assert(d@.subrange(pos as int, pos + n) =~= magic@);
    true
}

fn read_uint(d: &[u8], pos: &mut usize, n: usize) -> (r: Result<u64, Error>)
    requires
        n <= 8,
    ensures
        match r {
            Ok(v) => uint_at(d@, *old(pos) as int, n as nat) == Ok::<nat, Seq<char>>(v as nat)
                && *final(pos) == *old(pos) + n && v < le::le_limit(n as nat) && *final(pos)
                <= d@.len(),
            Err(e) => uint_at(d@, *old(pos) as int, n as nat) == Err::<nat, Seq<char>>(e@)
                && *final(pos) == *old(pos),
        },
{
    if d.len() < n || *pos > d.len() - n {
        return Err(Error::msg("unexpected end of file"));
    }
    let v: u64 = get_le(d, *pos, n);
    *pos = *pos + n;
    Ok(v)
}

/// Reads a 16-bit number and moves on behind it.
pub fn read_u16(d: &[u8], pos: &mut usize) -> (r: Result<u16, Error>)
    ensures
        match r {
            Ok(v) => uint_at(d@, *old(pos) as int, 2) == Ok::<nat, Seq<char>>(v as nat)
                && *final(pos) == *old(pos) + 2 && *final(pos) <= d@.len(),
            Err(e) => uint_at(d@, *old(pos) as int, 2) == Err::<nat, Seq<char>>(e@) && *final(pos)
                == *old(pos),
        },
{
    proof {
        le::lemma_le_limits();
    }
    let v: u64 = read_uint(d, pos, 2)?;
    Ok(v as u16)
}

/// Reads a 32-bit number and moves on behind it.
pub fn read_u32(d: &[u8], pos: &mut usize) -> (r: Result<u32, Error>)
    ensures
        match r {
            Ok(v) => uint_at(d@, *old(pos) as int, 4) == Ok::<nat, Seq<char>>(v as nat)
                && *final(pos) == *old(pos) + 4 && *final(pos) <= d@.len(),
            Err(e) => uint_at(d@, *old(pos) as int, 4) == Err::<nat, Seq<char>>(e@) && *final(pos)
                == *old(pos),
        },
{
    proof {
        le::lemma_le_limits();
    }
    let v: u64 = read_uint(d, pos, 4)?;
    Ok(v as u32)
}

/// Reads a 64-bit number and moves on behind it.
pub fn read_u64(d: &[u8], pos: &mut usize) -> (r: Result<u64, Error>)
    ensures
        match r {
            Ok(v) => uint_at(d@, *old(pos) as int, 8) == Ok::<nat, Seq<char>>(v as nat)
                && *final(pos) == *old(pos) + 8 && *final(pos) <= d@.len(),
            Err(e) => uint_at(d@, *old(pos) as int, 8) == Err::<nat, Seq<char>>(e@) && *final(pos)
                == *old(pos),
        },
{
    read_uint(d, pos, 8)
}

/// Reads a text and moves on behind it; on an error the position may stand behind the length.
pub fn read_str(d: &[u8], pos: &mut usize) -> (r: Result<String, Error>)
    ensures
        match r {
            Ok(s) => text_at(d@, *old(pos) as int) == Ok::<(Seq<char>, int), Seq<char>>(
                (s@, *final(pos) as int),
            ) && *final(pos) <= d@.len(),
            Err(e) => text_at(d@, *old(pos) as int) == Err::<(Seq<char>, int), Seq<char>>(e@)
                && *final(pos) == *old(pos) + (if *old(pos) + 4 <= d@.len() {
                4int
            } else {
                0
            }),
        },
{
    let len: u32 = read_u32(d, pos)?;
    if len as u64 > (d.len() - *pos) as u64 {
        return Err(Error::msg("unexpected end of file"));
    }
    let n: usize = len as usize;
    match utf8_text(vstd::slice::slice_subrange(d, *pos, *pos + n)) {
        None => Err(Error::msg("bad utf8")),
        Some(s) => {
            *pos = *pos + n;
            Ok(s)
        },
    }
}

/// A text that was laid down reads back as itself.
pub proof fn lemma_text_reads_back(d: Seq<u8>, pos: int, s: Seq<char>)
    requires
        text_fits(s),
        stands_at(d, pos, text_bytes(s)),
    ensures
        text_at(d, pos) == Ok::<(Seq<char>, int), Seq<char>>((s, pos + text_bytes(s).len())),
        text_bytes(s).len() == 4 + utf8::encode_utf8(s).len(),
{
    let b = utf8::encode_utf8(s);
    le::lemma_le_limits();
    le::lemma_le_value_of_bytes(b.len(), 4);
    let t = text_bytes(s);
    assert(d.subrange(pos, pos + 4) =~= t.subrange(0, 4)) by {
        lemma_part(d, pos, t, 0, 4);
    }
    assert(t.subrange(0, 4) =~= le::le_bytes(b.len(), 4));
    assert(d.subrange(pos + 4, pos + 4 + b.len()) =~= t.subrange(4, t.len() as int)) by {
        lemma_part(d, pos, t, 4, t.len() as int);
    }
    assert(t.subrange(4, t.len() as int) =~= b);
    utf8::encode_utf8_valid_utf8(s);
    utf8::encode_utf8_decode_utf8(s);
}

/// A part of what stands at `pos` stands where it falls.
pub proof fn lemma_part(d: Seq<u8>, pos: int, t: Seq<u8>, i: int, j: int)
    requires
        stands_at(d, pos, t),
        0 <= i <= j <= t.len(),
    ensures
        d.subrange(pos + i, pos + j) == t.subrange(i, j),
        stands_at(d, pos + i, t.subrange(i, j)),
{
    let whole = d.subrange(pos, pos + t.len());
    assert forall|k: int| 0 <= k < j - i implies d.subrange(pos + i, pos + j)[k] == t.subrange(
        i,
        j,
    )[k] by {
        assert(whole[i + k] == t[i + k]);
    }
    assert(d.subrange(pos + i, pos + j) =~= t.subrange(i, j));
}

/// If `a` and `b` stand at `pos` one behind the other, each stands in its place.
pub proof fn lemma_two_parts(d: Seq<u8>, pos: int, a: Seq<u8>, b: Seq<u8>)
    requires
        stands_at(d, pos, a + b),
    ensures
        stands_at(d, pos, a),
        stands_at(d, pos + a.len(), b),
{
    let t = a + b;
    lemma_part(d, pos, t, 0, a.len() as int);
    lemma_part(d, pos, t, a.len() as int, t.len() as int);
    assert(t.subrange(0, a.len() as int) =~= a);
    assert(t.subrange(a.len() as int, t.len() as int) =~= b);
}

/// A number that was laid down reads back as itself.
pub proof fn lemma_number_reads_back(d: Seq<u8>, pos: int, v: nat, n: nat)
    requires
        v < le::le_limit(n),
        stands_at(d, pos, le::le_bytes(v, n)),
    ensures
        uint_at(d, pos, n) == Ok::<nat, Seq<char>>(v),
        number(d, pos, n) == v,
        le::le_bytes(v, n).len() == n,
        pos + n <= d.len(),
{
    le::lemma_le_value_of_bytes(v, n);
}

} // verus!
