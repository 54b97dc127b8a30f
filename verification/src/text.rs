//! Text: UTF-8 in and out, decimal and hexadecimal numbers.

use vstd::prelude::*;
use vstd::utf8;

verus! {

/// `String::push`: appends one character to the end of the string.
pub assume_specification[ String::push ](s: &mut String, c: char)
    ensures
        final(s)@ == old(s)@.push(c),
;

/// Calls `String::from_utf8`, which takes the bytes over as a string exactly when they are
/// valid UTF-8; the string then has those very bytes.
#[verifier::external_body]
fn from_utf8(bytes: Vec<u8>) -> (r: Result<String, ()>)
    ensures
        r is Ok <==> utf8::valid_utf8(bytes@),
        r matches Ok(s) ==> utf8::encode_utf8(s@) == bytes@,
{
    String::from_utf8(bytes).map_err(|_| ())
}

/// The text whose UTF-8 form is `bytes`, or `None` if they are not UTF-8.
pub fn utf8_text(bytes: &[u8]) -> (r: Option<String>)
    ensures
        r is Some <==> utf8::valid_utf8(bytes@),
        r matches Some(s) ==> s@ == utf8::decode_utf8(bytes@),
        r matches Some(s) ==> utf8::encode_utf8(s@) == bytes@,
{
    match from_utf8(vstd::slice::slice_to_vec(bytes)) {
        Ok(s) => {
            proof {
                utf8::encode_utf8_decode_utf8(s@);
            }
            Some(s)
        },
        Err(_) => None,
    }
}

/// Whether two texts are equal.
pub fn same_text(a: &str, b: &str) -> (r: bool)
    ensures
        r == (a@ == b@),
{
    a.to_owned() == b.to_owned()
}

/// A copy of a text.
pub fn text_of(s: &str) -> (r: String)
    ensures
        r@ == s@,
{
    s.to_owned()
}

/// The character of the decimal or hexadecimal digit `d`.
pub open spec fn digit_char(d: nat) -> char {
    if d < 10 {
        ('0' as u32 + d) as char
    } else {
        ('a' as u32 + (d - 10)) as char
    }
}

/// `n` in decimal.
pub open spec fn decimal(n: nat) -> Seq<char>
    decreases n,
{
    if n < 10 {
        seq![digit_char(n)]
    } else {
        decimal(n / 10).push(digit_char(n % 10))
    }
}

/// `bytes` in hexadecimal, two lower-case digits for each byte.
pub open spec fn hex_text(bytes: Seq<u8>) -> Seq<char> {
    Seq::new(
        2 * bytes.len(),
        |i: int|
            if i % 2 == 0 {
                digit_char((bytes[i / 2] / 16) as nat)
            } else {
                digit_char((bytes[i / 2] % 16) as nat)
            },
    )
}

/// The character of the decimal or hexadecimal digit `d`.
pub fn digit(d: u8) -> (c: char)
    requires
        d < 16,
    ensures
        c == digit_char(d as nat),
{
    match d {
        0 => '0',
        1 => '1',
        2 => '2',
        3 => '3',
        4 => '4',
        5 => '5',
        6 => '6',
        7 => '7',
        8 => '8',
        9 => '9',
        10 => 'a',
        11 => 'b',
        12 => 'c',
        13 => 'd',
        14 => 'e',
        _ => 'f',
    }
}

/// Appends `n` in decimal to `out`.
pub fn push_decimal(out: &mut String, n: u64)
    ensures
        final(out)@ == old(out)@ + decimal(n as nat),
    decreases n,
{
    let ghost before = out@;
    if n >= 10 {
        push_decimal(out, n / 10);
    }
    out.push(digit((n % 10) as u8));
    assert(out@ =~= before + decimal(n as nat));
}

/// Appends `s` to `out`.
pub fn push_text(out: &mut String, s: &str)
    ensures
        final(out)@ == old(out)@ + s@,
{
    vstd::string::StringExecFns::append(out, s);
}

/// `n` in decimal, with zeros before it up to `width` digits.
pub open spec fn padded(n: nat, width: nat) -> Seq<char> {
    let d = decimal(n);
    if d.len() < width {
        Seq::new((width - d.len()) as nat, |i: int| '0') + d
    } else {
        d
    }
}

/// `n` in decimal, with a minus sign where it is negative.
pub open spec fn signed_decimal(n: int) -> Seq<char> {
    if n < 0 {
        seq!['-'] + decimal((-n) as nat)
    } else {
        decimal(n as nat)
    }
}

/// Appends `n` in decimal, with zeros before it up to `width` digits.
pub fn push_padded(out: &mut String, n: u64, width: usize)
    ensures
        final(out)@ == old(out)@ + padded(n as nat, width as nat),
{
    let ghost before = out@;
    let mut digits: String = String::new();
    push_decimal(&mut digits, n);
    assert(digits@ =~= decimal(n as nat));
    let len: usize = vstd::string::StrSliceExecFns::unicode_len(digits.as_str());
    let mut k: usize = len;
    assert(out@ =~= before + Seq::new(0nat, |i: int| '0'));
    while k < width
        invariant
            len <= k,
            k <= width || k == len,
            out@ == before + Seq::new((k - len) as nat, |i: int| '0'),
        decreases width - k,
    {
        out.push('0');
        k = k + 1;
        assert(out@ =~= before + Seq::new((k - len) as nat, |i: int| '0'));
    }
    push_text(out, digits.as_str());
    assert(out@ =~= before + padded(n as nat, width as nat));
}

/// Appends `n` in decimal, with a minus sign where it is negative.
pub fn push_signed(out: &mut String, n: i64)
    ensures
        final(out)@ == old(out)@ + signed_decimal(n as int),
{
    let ghost before = out@;
    if n < 0 {
        out.push('-');
        let size: u64 = 0u64.wrapping_sub(n as u64);
        proof {
            assert(n < 0 ==> (n as u64) as int == n + 0x1_0000_0000_0000_0000) by (bit_vector);
        }
        push_decimal(out, size);
    } else {
        push_decimal(out, n as u64);
    }
    assert(out@ =~= before + signed_decimal(n as int));
}

/// The text `head`, followed by `n` in decimal.
pub fn with_number(head: &str, n: u64) -> (r: String)
    ensures
        r@ == head@ + decimal(n as nat),
{
    let mut s: String = text_of(head);
    push_decimal(&mut s, n);
    s
}

/// `data` in hexadecimal.
pub fn hex(data: &[u8]) -> (r: String)
    ensures
        r@ == hex_text(data@),
{
    let mut s: String = String::new();
    let mut i: usize = 0;
    while i < data.len()
        invariant
            i <= data.len(),
            s@ == hex_text(data@.subrange(0, i as int)),
        decreases data.len() - i,
    {
        let b: u8 = data[i];
        let ghost before = s@;
        s.push(digit(b / 16));
        s.push(digit(b % 16));
        proof {
            let more = data@.subrange(0, i + 1);
            assert(s@ =~= hex_text(more));
        }
        i = i + 1;
    }
    assert(data@.subrange(0, i as int) =~= data@);
    s
}

// ---------- what numbers in texts stand for ----------

/// The number that decimal digits stand for.
pub open spec fn decimal_value(s: Seq<char>) -> int
    decreases s.len(),
{
    if s.len() == 0 {
        0
    } else {
        10 * decimal_value(s.drop_last()) + (s.last() as u32 - '0' as u32)
    }
}

/// Whether a text is made of decimal digits alone.
pub open spec fn all_digits(s: Seq<char>) -> bool {
    forall|i: int| 0 <= i < s.len() ==> '0' <= #[trigger] s[i] <= '9'
}

/// A number in decimal is made of digits, stands for that number, and has no needless zero in
/// front.
pub proof fn law_decimal_stands_for_its_number(n: nat)
    ensures
        decimal_value(decimal(n)) == n,
        all_digits(decimal(n)),
        decimal(n).len() > 0,
        decimal(n).len() > 1 ==> decimal(n)[0] != '0',
    decreases n,
{
    if n < 10 {
        assert(seq![digit_char(n)].drop_last().len() == 0);
        assert(decimal_value(seq![digit_char(n)].drop_last()) == 0);
    } else {
        law_decimal_stands_for_its_number(n / 10);
        let front = decimal(n / 10);
        assert(decimal(n).drop_last() =~= front);
        if front.len() == 1 {
            lemma_one_digit(n / 10);
        }
    }
}

proof fn lemma_one_digit(n: nat)
    requires
        n > 0,
    ensures
        decimal(n)[0] != '0',
    decreases n,
{
    if n >= 10 {
        lemma_one_digit(n / 10);
        law_decimal_stands_for_its_number(n / 10);
    }
}

/// Zeros in front change nothing of what digits stand for.
proof fn lemma_zeros(k: nat, s: Seq<char>)
    ensures
        decimal_value(Seq::new(k, |i: int| '0') + s) == decimal_value(s),
    decreases k, s.len(),
{
    let z = Seq::new(k, |i: int| '0');
    if s.len() > 0 {
        assert((z + s).drop_last() =~= z + s.drop_last());
        lemma_zeros(k, s.drop_last());
    } else if k > 0 {
        let y = Seq::new((k - 1) as nat, |i: int| '0');
        assert((z + s).drop_last() =~= y + s);
        lemma_zeros((k - 1) as nat, s);
    } else {
        assert(z + s =~= s);
    }
}

/// A number with zeros before it up to a width is made of digits, stands for that number, and has
/// that width, or as many digits as the number takes if those are more.
pub proof fn law_padded_stands_for_its_number(n: nat, width: nat)
    ensures
        decimal_value(padded(n, width)) == n,
        all_digits(padded(n, width)),
        padded(n, width).len() >= width,
        padded(n, width).len() == width || padded(n, width) == decimal(n),
{
    law_decimal_stands_for_its_number(n);
    let d = decimal(n);
    if d.len() < width {
        lemma_zeros((width - d.len()) as nat, d);
    }
}

/// A number below a thousand million takes nine digits at most.
pub proof fn law_nanoseconds_take_nine_digits(n: nat)
    requires
        n < 1_000_000_000,
    ensures
        padded(n, 9).len() == 9,
{
    reveal_with_fuel(decimal, 10);
}

/// A number with its sign begins with a minus sign exactly where it is negative, and stands for
/// its size.
pub proof fn law_signed_decimal_stands_for_its_number(n: int)
    ensures
        ({
            let s = signed_decimal(n);
            &&& s.len() > 0
            &&& (s[0] == '-') == (n < 0)
            &&& n >= 0 ==> all_digits(s) && decimal_value(s) == n
            &&& n < 0 ==> all_digits(s.drop_first()) && decimal_value(s.drop_first()) == -n
        }),
{
    if n < 0 {
        law_decimal_stands_for_its_number((-n) as nat);
        assert(signed_decimal(n).drop_first() =~= decimal((-n) as nat));
    } else {
        law_decimal_stands_for_its_number(n as nat);
        assert('0' <= decimal(n as nat)[0] <= '9');
    }
}

/// The digits, in order, are those from zero to nine and the first six letters.
pub proof fn law_digits_are_in_order(d: nat)
    requires
        d < 16,
    ensures
        "0123456789abcdef"@[d as int] == digit_char(d),
{
    reveal_strlit("0123456789abcdef");
}

/// Bytes in hexadecimal are two digits for each byte, in order, the higher half first.
pub proof fn law_hexadecimal_stands_for_its_bytes(bytes: Seq<u8>)
    ensures
        ({
            let digits = "0123456789abcdef"@;
            let s = hex_text(bytes);
            &&& s.len() == 2 * bytes.len()
            &&& forall|i: int|
                #![trigger bytes[i]]
                0 <= i < bytes.len() ==> s[2 * i] == digits[bytes[i] as int / 16] && s[2 * i + 1]
                    == digits[bytes[i] as int % 16]
        }),
{
    let digits = "0123456789abcdef"@;
    let s = hex_text(bytes);
    assert forall|i: int| #![trigger bytes[i]] 0 <= i < bytes.len() implies s[2 * i]
        == digits[bytes[i] as int / 16] && s[2 * i + 1] == digits[bytes[i] as int % 16] by {
        law_digits_are_in_order((bytes[i] / 16) as nat);
        law_digits_are_in_order((bytes[i] % 16) as nat);
        assert((2 * i) / 2 == i && (2 * i) % 2 == 0);
        assert((2 * i + 1) / 2 == i && (2 * i + 1) % 2 == 1);
    }
}

} // verus!
