//! JSON values: how one is written without white space, and how it is read back.

use crate::json;
use vstd::prelude::*;

verus! {

/// A JSON value. A number is held as it is written.
pub enum Json {
    Text(Seq<char>),
    Number(Seq<char>),
    List(Seq<Json>),
    /// The names of the members, and their values.
    Object(Seq<Seq<char>>, Seq<Json>),
}

// ---------- numbers ----------

pub open spec fn is_digit(c: char) -> bool {
    '0' <= c <= '9'
}

/// Where the digits end that stand in `s` from `i` on.
pub open spec fn digits_end(s: Seq<char>, i: int) -> int
    decreases s.len() - i,
{
    if 0 <= i < s.len() && is_digit(s[i]) {
        digits_end(s, i + 1)
    } else {
        i
    }
}

/// Whether `s` from `i` on is nothing, or an exponent.
pub open spec fn is_exponent(s: Seq<char>, i: int) -> bool {
    if i < s.len() && (s[i] == 'e' || s[i] == 'E') {
        let j = if i + 1 < s.len() && (s[i + 1] == '+' || s[i + 1] == '-') {
            i + 2
        } else {
            i + 1
        };
        j < s.len() && digits_end(s, j) == s.len()
    } else {
        i == s.len()
    }
}

/// Whether `s` is a number: an optional sign, digits without a needless zero in front, an optional
/// fraction and an optional exponent.
pub open spec fn is_number(s: Seq<char>) -> bool {
    let a = if s.len() > 0 && s[0] == '-' {
        1int
    } else {
        0
    };
    let b = digits_end(s, a);
    let c = if b < s.len() && s[b] == '.' {
        digits_end(s, b + 1)
    } else {
        b
    };
    a < b && (s[a] != '0' || b == a + 1) && (c == b || c > b + 1) && is_exponent(s, c)
}

/// Whether a number may hold the character `c`.
pub open spec fn in_number(c: char) -> bool {
    is_digit(c) || c == '-' || c == '+' || c == '.' || c == 'e' || c == 'E'
}

/// Where the characters end, from `pos` on, that a number may hold.
pub open spec fn number_end(d: Seq<char>, pos: int) -> int
    decreases d.len() - pos,
{
    if 0 <= pos < d.len() && in_number(d[pos]) {
        number_end(d, pos + 1)
    } else {
        pos
    }
}

// ---------- writing ----------

/// The first `n` of `parts`, with commas between them.
pub open spec fn joined(parts: Seq<Seq<char>>, n: int) -> Seq<char>
    decreases n,
{
    if n <= 0 {
        Seq::empty()
    } else if n == 1 {
        parts[0]
    } else {
        joined(parts, n - 1) + seq![','] + parts[n - 1]
    }
}

/// A member of an object: its name, and its value as it is written.
pub open spec fn member(name: Seq<char>, value: Seq<char>) -> Seq<char> {
    json::quoted(name) + seq![':'] + value
}

/// A value as it is written.
pub open spec fn written(j: Json) -> Seq<char>
    decreases j, 0int,
{
    match j {
        Json::Text(s) => json::quoted(s),
        Json::Number(s) => s,
        Json::List(items) => seq!['['] + joined(
            items_written(items, items.len() as int),
            items.len() as int,
        ) + seq![']'],
        Json::Object(names, values) => seq!['{'] + joined(
            members_written(names, values, values.len() as int),
            values.len() as int,
        ) + seq!['}'],
    }
}

/// The first `n` of `items` as they are written.
pub open spec fn items_written(items: Seq<Json>, n: int) -> Seq<Seq<char>>
    decreases items, n,
{
    if n <= 0 || n > items.len() {
        Seq::empty()
    } else {
        items_written(items, n - 1).push(written(items[n - 1]))
    }
}

/// The first `n` members of an object as they are written.
pub open spec fn members_written(names: Seq<Seq<char>>, values: Seq<Json>, n: int) -> Seq<Seq<char>>
    decreases values, n,
{
    if n <= 0 || n > values.len() {
        Seq::empty()
    } else {
        members_written(names, values, n - 1).push(member(names[n - 1], written(values[n - 1])))
    }
}

/// Whether a value keeps to the grammar: its numbers are numbers, and each member of an object has
/// a name and a value.
pub open spec fn valid(j: Json) -> bool
    decreases j, 0int,
{
    match j {
        Json::Text(_) => true,
        Json::Number(s) => is_number(s),
        Json::List(items) => all_valid(items, items.len() as int),
        Json::Object(names, values) => names.len() == values.len() && all_valid(
            values,
            values.len() as int,
        ),
    }
}

/// Whether the first `n` of `items` keep to the grammar.
pub open spec fn all_valid(items: Seq<Json>, n: int) -> bool
    decreases items, n,
{
    n <= 0 || n > items.len() || (valid(items[n - 1]) && all_valid(items, n - 1))
}

// ---------- reading ----------

/// The value that is written in `d` at `pos`, and where it ends.
pub open spec fn value_from(d: Seq<char>, pos: int) -> Option<(Json, int)>
    decreases d.len() - pos, 1int,
{
    if pos < 0 || pos >= d.len() {
        None
    } else if d[pos] == '"' {
        match json::text_from(d, pos + 1) {
            None => None,
            Some((s, end)) => Some((Json::Text(s), end)),
        }
    } else if d[pos] == '[' {
        if pos + 1 < d.len() && d[pos + 1] == ']' {
            Some((Json::List(Seq::empty()), pos + 2))
        } else {
            match items_from(d, pos + 1) {
                None => None,
                Some((items, end)) => Some((Json::List(items), end)),
            }
        }
    } else if d[pos] == '{' {
        if pos + 1 < d.len() && d[pos + 1] == '}' {
            Some((Json::Object(Seq::empty(), Seq::empty()), pos + 2))
        } else {
            match members_from(d, pos + 1) {
                None => None,
                Some((names, values, end)) => Some((Json::Object(names, values), end)),
            }
        }
    } else {
        let s = d.subrange(pos, number_end(d, pos));
        if is_number(s) {
            Some((Json::Number(s), number_end(d, pos)))
        } else {
            None
        }
    }
}

/// The values, with commas between them, that are written in `d` from `pos` up to the end of a
/// list, and where that is.
pub open spec fn items_from(d: Seq<char>, pos: int) -> Option<(Seq<Json>, int)>
    decreases d.len() - pos, 2int,
{
    match value_from(d, pos) {
        None => None,
        Some((v, p)) => if p <= pos || p >= d.len() {
            None
        } else if d[p] == ']' {
            Some((seq![v], p + 1))
        } else if d[p] == ',' {
            match items_from(d, p + 1) {
                None => None,
                Some((vs, end)) => Some((seq![v] + vs, end)),
            }
        } else {
            None
        },
    }
}

/// The members, with commas between them, that are written in `d` from `pos` up to the end of an
/// object, and where that is.
pub open spec fn members_from(d: Seq<char>, pos: int) -> Option<(Seq<Seq<char>>, Seq<Json>, int)>
    decreases d.len() - pos, 2int,
{
    if pos < 0 || pos >= d.len() || d[pos] != '"' {
        None
    } else {
        match json::text_from(d, pos + 1) {
            None => None,
            Some((name, p)) => if p <= pos || p >= d.len() || d[p] != ':' {
                None
            } else {
                match value_from(d, p + 1) {
                    None => None,
                    Some((v, q)) => if q <= p || q >= d.len() {
                        None
                    } else if d[q] == '}' {
                        Some((seq![name], seq![v], q + 1))
                    } else if d[q] == ',' {
                        match members_from(d, q + 1) {
                            None => None,
                            Some((names, vs, end)) => Some((seq![name] + names, seq![v] + vs, end)),
                        }
                    } else {
                        None
                    },
                }
            },
        }
    }
}

// ---------- what is written is read back ----------

/// Whether `s` stands in `d` at `pos`.
pub open spec fn stands(d: Seq<char>, pos: int, s: Seq<char>) -> bool {
    0 <= pos && pos + s.len() <= d.len() && d.subrange(pos, pos + s.len()) == s
}

proof fn lemma_two(d: Seq<char>, pos: int, a: Seq<char>, b: Seq<char>)
    requires
        stands(d, pos, a + b),
    ensures
        stands(d, pos, a),
        stands(d, pos + a.len(), b),
{
    let s = d.subrange(pos, pos + (a + b).len());
    assert(d.subrange(pos, pos + a.len()) =~= s.subrange(0, a.len() as int));
    assert((a + b).subrange(0, a.len() as int) =~= a);
    assert(d.subrange(pos + a.len(), pos + a.len() + b.len()) =~= s.subrange(
        a.len() as int,
        s.len() as int,
    ));
    assert((a + b).subrange(a.len() as int, (a + b).len() as int) =~= b);
}

proof fn lemma_first_char(d: Seq<char>, pos: int, s: Seq<char>)
    requires
        stands(d, pos, s),
        s.len() > 0,
    ensures
        d[pos] == s[0],
{
    assert(d.subrange(pos, pos + s.len())[0] == s[0]);
}

proof fn lemma_digits(s: Seq<char>, i: int)
    requires
        0 <= i <= s.len(),
    ensures
        i <= digits_end(s, i) <= s.len(),
        forall|k: int| i <= k < digits_end(s, i) ==> is_digit(#[trigger] s[k]),
    decreases s.len() - i,
{
    if i < s.len() && is_digit(s[i]) {
        lemma_digits(s, i + 1);
    }
}

proof fn lemma_number_chars(s: Seq<char>)
    requires
        is_number(s),
    ensures
        s.len() > 0,
        forall|k: int| 0 <= k < s.len() ==> in_number(#[trigger] s[k]),
{
    let a = if s.len() > 0 && s[0] == '-' {
        1int
    } else {
        0
    };
    let b = digits_end(s, a);
    lemma_digits(s, a);
    let c = if b < s.len() && s[b] == '.' {
        digits_end(s, b + 1)
    } else {
        b
    };
    if b < s.len() && s[b] == '.' {
        lemma_digits(s, b + 1);
    }
    if c < s.len() {
        let j = if c + 1 < s.len() && (s[c + 1] == '+' || s[c + 1] == '-') {
            c + 2
        } else {
            c + 1
        };
        lemma_digits(s, j);
    }
}

proof fn lemma_number_end(d: Seq<char>, pos: int, end: int)
    requires
        0 <= pos <= end <= d.len(),
        forall|k: int| pos <= k < end ==> in_number(#[trigger] d[k]),
        end == d.len() || !in_number(d[end]),
    ensures
        number_end(d, pos) == end,
    decreases end - pos,
{
    if pos < end {
        lemma_number_end(d, pos + 1, end);
    }
}

/// A value begins with none of the characters that end or separate others.
proof fn lemma_first(j: Json)
    requires
        valid(j),
    ensures
        written(j).len() > 0,
        written(j)[0] != ']',
        written(j)[0] != '}',
{
    if let Json::Number(s) = j {
        lemma_number_chars(s);
        assert(in_number(s[0]));
    }
}

/// Where part `i` begins.
spec fn offset(parts: Seq<Seq<char>>, i: int) -> int {
    if i <= 0 {
        0
    } else {
        joined(parts, i).len() as int + 1
    }
}

proof fn lemma_part_stands(d: Seq<char>, pos: int, parts: Seq<Seq<char>>, n: int, i: int)
    requires
        stands(d, pos, joined(parts, n)),
        0 <= i < n,
    ensures
        stands(d, pos + offset(parts, i), parts[i]),
        offset(parts, i) + parts[i].len() == joined(parts, i + 1).len(),
        i + 1 < n ==> pos + offset(parts, i) + parts[i].len() < d.len() && d[pos + offset(parts, i)
            + parts[i].len()] == ',',
    decreases n,
{
    if n > 1 {
        let front = joined(parts, n - 1);
        lemma_two(d, pos, front + seq![','], parts[n - 1]);
        lemma_two(d, pos, front, seq![',']);
        lemma_first_char(d, pos + front.len(), seq![',']);
        if i < n - 1 {
            lemma_part_stands(d, pos, parts, n - 1, i);
        }
    }
}

proof fn lemma_valid_item(items: Seq<Json>, n: int, i: int)
    requires
        all_valid(items, n),
        0 <= i < n <= items.len(),
    ensures
        valid(items[i]),
    decreases n,
{
    if i < n - 1 {
        lemma_valid_item(items, n - 1, i);
    }
}

pub proof fn lemma_items_written(items: Seq<Json>, n: int)
    requires
        0 <= n <= items.len(),
    ensures
        items_written(items, n).len() == n,
        forall|i: int| 0 <= i < n ==> #[trigger] items_written(items, n)[i] == written(items[i]),
    decreases n,
{
    if n > 0 {
        lemma_items_written(items, n - 1);
    }
}

pub proof fn lemma_members_written(names: Seq<Seq<char>>, values: Seq<Json>, n: int)
    requires
        0 <= n <= values.len(),
    ensures
        members_written(names, values, n).len() == n,
        forall|i: int|
            0 <= i < n ==> #[trigger] members_written(names, values, n)[i] == member(
                names[i],
                written(values[i]),
            ),
    decreases n,
{
    if n > 0 {
        lemma_members_written(names, values, n - 1);
    }
}

proof fn lemma_text_reads(d: Seq<char>, pos: int, s: Seq<char>)
    requires
        stands(d, pos, json::quoted(s)),
    ensures
        d[pos] == '"',
        json::text_from(d, pos + 1) == Some((s, pos + json::quoted(s).len())),
{
    let e = json::escaped(s);
    lemma_two(d, pos, seq!['"'] + e, seq!['"']);
    lemma_two(d, pos, seq!['"'], e);
    lemma_first_char(d, pos, seq!['"']);
    lemma_first_char(d, pos + 1 + e.len(), seq!['"']);
    json::lemma_text_reads_back(d, pos + 1, s);
}

/// A value is read where it is written, if what follows cannot be taken for a part of a number.
proof fn lemma_value_reads(d: Seq<char>, pos: int, j: Json)
    requires
        valid(j),
        stands(d, pos, written(j)),
        pos + written(j).len() == d.len() || !in_number(d[pos + written(j).len()]),
    ensures
        value_from(d, pos) == Some((j, pos + written(j).len())),
    decreases j, 0int,
{
    lemma_first(j);
    lemma_first_char(d, pos, written(j));
    match j {
        Json::Text(s) => {
            lemma_text_reads(d, pos, s);
        },
        Json::Number(s) => {
            lemma_number_chars(s);
            assert forall|k: int| pos <= k < pos + s.len() implies in_number(#[trigger] d[k]) by {
                assert(d.subrange(pos, pos + s.len())[k - pos] == d[k]);
                assert(in_number(s[k - pos]));
            }
            assert(in_number(d[pos]));
            lemma_number_end(d, pos, pos + s.len());
        },
        Json::List(items) => {
            let n = items.len() as int;
            let parts = items_written(items, n);
            let inner = joined(parts, n);
            lemma_two(d, pos, seq!['['] + inner, seq![']']);
            lemma_two(d, pos, seq!['['], inner);
            lemma_first_char(d, pos, seq!['[']);
            lemma_first_char(d, pos + 1 + inner.len(), seq![']']);
            if n == 0 {
                assert(items =~= Seq::empty());
            } else {
                lemma_items_written(items, n);
                lemma_valid_item(items, n, 0);
                lemma_first(items[0]);
                lemma_part_stands(d, pos + 1, parts, n, 0);
                lemma_first_char(d, pos + 1, parts[0]);
                lemma_items_read(d, pos + 1, items, 0);
                assert(items.skip(0) =~= items);
            }
        },
        Json::Object(names, values) => {
            let n = values.len() as int;
            let parts = members_written(names, values, n);
            let inner = joined(parts, n);
            lemma_two(d, pos, seq!['{'] + inner, seq!['}']);
            lemma_two(d, pos, seq!['{'], inner);
            lemma_first_char(d, pos, seq!['{']);
            lemma_first_char(d, pos + 1 + inner.len(), seq!['}']);
            if n == 0 {
                assert(names =~= Seq::empty());
                assert(values =~= Seq::empty());
            } else {
                lemma_members_written(names, values, n);
                lemma_part_stands(d, pos + 1, parts, n, 0);
                lemma_first_char(d, pos + 1, parts[0]);
                lemma_members_read(d, pos + 1, names, values, 0);
                assert(names.skip(0) =~= names);
                assert(values.skip(0) =~= values);
            }
        },
    }
}

/// The items of a list are read, from item `i` on.
proof fn lemma_items_read(d: Seq<char>, pos: int, items: Seq<Json>, i: int)
    requires
        0 <= i < items.len(),
        all_valid(items, items.len() as int),
        ({
            let inner = joined(items_written(items, items.len() as int), items.len() as int);
            stands(d, pos, inner) && pos + inner.len() < d.len() && d[pos + inner.len()] == ']'
        }),
    ensures
        ({
            let parts = items_written(items, items.len() as int);
            items_from(d, pos + offset(parts, i)) == Some(
                (items.skip(i), pos + joined(parts, items.len() as int).len() + 1),
            )
        }),
    decreases items, items.len() - i,
{
    let n = items.len() as int;
    let parts = items_written(items, n);
    lemma_items_written(items, n);
    lemma_valid_item(items, n, i);
    lemma_part_stands(d, pos, parts, n, i);
    lemma_first(items[i]);
    lemma_value_reads(d, pos + offset(parts, i), items[i]);
    if i + 1 < n {
        lemma_items_read(d, pos, items, i + 1);
        assert(seq![items[i]] + items.skip(i + 1) =~= items.skip(i));
    } else {
        assert(seq![items[i]] =~= items.skip(i));
    }
}

/// The members of an object are read, from member `i` on.
proof fn lemma_members_read(
    d: Seq<char>,
    pos: int,
    names: Seq<Seq<char>>,
    values: Seq<Json>,
    i: int,
)
    requires
        0 <= i < values.len(),
        names.len() == values.len(),
        all_valid(values, values.len() as int),
        ({
            let inner = joined(
                members_written(names, values, values.len() as int),
                values.len() as int,
            );
            stands(d, pos, inner) && pos + inner.len() < d.len() && d[pos + inner.len()] == '}'
        }),
    ensures
        ({
            let parts = members_written(names, values, values.len() as int);
            members_from(d, pos + offset(parts, i)) == Some(
                (
                    names.skip(i),
                    values.skip(i),
                    pos + joined(parts, values.len() as int).len() + 1,
                ),
            )
        }),
    decreases values, values.len() - i,
{
    let n = values.len() as int;
    let parts = members_written(names, values, n);
    lemma_members_written(names, values, n);
    lemma_valid_item(values, n, i);
    lemma_part_stands(d, pos, parts, n, i);
    lemma_first(values[i]);
    let at = pos + offset(parts, i);
    let name = json::quoted(names[i]);
    lemma_two(d, at, name + seq![':'], written(values[i]));
    lemma_two(d, at, name, seq![':']);
    lemma_text_reads(d, at, names[i]);
    lemma_first_char(d, at + name.len(), seq![':']);
    lemma_value_reads(d, at + name.len() + 1, values[i]);
    if i + 1 < n {
        lemma_members_read(d, pos, names, values, i + 1);
        assert(seq![names[i]] + names.skip(i + 1) =~= names.skip(i));
        assert(seq![values[i]] + values.skip(i + 1) =~= values.skip(i));
    } else {
        assert(seq![names[i]] =~= names.skip(i));
        assert(seq![values[i]] =~= values.skip(i));
    }
}

/// A value that was written is read back, and nothing is left.
pub proof fn law_written_value_reads_back(j: Json)
    requires
        valid(j),
    ensures
        value_from(written(j), 0) == Some((j, written(j).len() as int)),
{
    assert(written(j).subrange(0, written(j).len() as int) =~= written(j));
    lemma_value_reads(written(j), 0, j);
}

} // verus!
