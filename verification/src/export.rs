//! Maps and trajectories as text files. Numbers come in as the texts that stand for them.

use crate::text::{push_decimal, push_text};
use crate::{split, text};
use vstd::prelude::*;

verus! {

/// A point of a map: its place, and how strongly it reflects.
#[derive(Debug)]
pub struct MapPoint {
    pub x: String,
    pub y: String,
    pub z: String,
    pub intensity: String,
}

/// A moment of a trajectory: the time, the orientation (w, x, y, z) and the position.
#[derive(Debug)]
pub struct PosRow {
    pub time: String,
    pub quat: [String; 4],
    pub pos: [String; 3],
}

/// The head of a PCD file of `n` points.
pub open spec fn pcd_head(n: nat) -> Seq<char> {
    "# .PCD v0.7 - Point Cloud Data file format\nVERSION 0.7\nFIELDS x y z intensity\nSIZE 4 4 4 4\nTYPE F F F F\nCOUNT 1 1 1 1\nWIDTH "@
        + text::decimal(n) + "\nHEIGHT 1\nVIEWPOINT 0 0 0 1 0 0 0\nPOINTS "@ + text::decimal(n)
        + "\nDATA ascii\n"@
}

pub open spec fn pcd_line(p: MapPoint) -> Seq<char> {
    p.x@ + " "@ + p.y@ + " "@ + p.z@ + " "@ + p.intensity@ + "\n"@
}

pub open spec fn pcd_lines(points: Seq<MapPoint>) -> Seq<char>
    decreases points.len(),
{
    if points.len() == 0 {
        Seq::empty()
    } else {
        pcd_lines(points.drop_last()) + pcd_line(points.last())
    }
}

/// A map as a PCD file.
pub fn pcd_text(points: &[MapPoint]) -> (r: String)
    ensures
        r@ == pcd_head(points@.len()) + pcd_lines(points@),
{
    let mut out: String = String::new();
    push_text(
        &mut out,
        "# .PCD v0.7 - Point Cloud Data file format\nVERSION 0.7\nFIELDS x y z intensity\nSIZE 4 4 4 4\nTYPE F F F F\nCOUNT 1 1 1 1\nWIDTH ",
    );
    push_decimal(&mut out, points.len() as u64);
    push_text(&mut out, "\nHEIGHT 1\nVIEWPOINT 0 0 0 1 0 0 0\nPOINTS ");
    push_decimal(&mut out, points.len() as u64);
    push_text(&mut out, "\nDATA ascii\n");
    let ghost head = pcd_head(points@.len());
    assert(out@ =~= head);
    let mut i: usize = 0;
    assert(points@.take(0).len() == 0);
    assert(out@ =~= head + pcd_lines(points@.take(0)));
    while i < points.len()
        invariant
            i <= points@.len(),
            out@ == head + pcd_lines(points@.take(i as int)),
        decreases points@.len() - i,
    {
        let p: &MapPoint = &points[i];
        push_text(&mut out, p.x.as_str());
        push_text(&mut out, " ");
        push_text(&mut out, p.y.as_str());
        push_text(&mut out, " ");
        push_text(&mut out, p.z.as_str());
        push_text(&mut out, " ");
        push_text(&mut out, p.intensity.as_str());
        push_text(&mut out, "\n");
        assert(points@.take(i + 1).drop_last() =~= points@.take(i as int));
        assert(out@ =~= head + (pcd_lines(points@.take(i as int)) + pcd_line(*p)));
        i = i + 1;
    }
    assert(points@.take(i as int) =~= points@);
    out
}

pub open spec fn pos_line(r: PosRow) -> Seq<char> {
    r.time@ + " "@ + r.quat@[0]@ + " "@ + r.quat@[1]@ + " "@ + r.quat@[2]@ + " "@ + r.quat@[3]@
        + " "@ + r.pos@[0]@ + " "@ + r.pos@[1]@ + " "@ + r.pos@[2]@ + "\n"@
}

pub open spec fn pos_lines(rows: Seq<PosRow>) -> Seq<char>
    decreases rows.len(),
{
    if rows.len() == 0 {
        Seq::empty()
    } else {
        pos_lines(rows.drop_last()) + pos_line(rows.last())
    }
}

/// A trajectory as a text file, with a line for each moment.
#[verifier::rlimit(40)]
pub fn pos_text(rows: &[PosRow]) -> (r: String)
    ensures
        r@ == "# time qw qx qy qz pos_x pos_y pos_z\n"@ + pos_lines(rows@),
{
    let mut out: String = String::new();
    push_text(&mut out, "# time qw qx qy qz pos_x pos_y pos_z\n");
    let ghost head = "# time qw qx qy qz pos_x pos_y pos_z\n"@;
    let mut i: usize = 0;
    assert(rows@.take(0).len() == 0);
    assert(out@ =~= head + pos_lines(rows@.take(0)));
    while i < rows.len()
        invariant
            i <= rows@.len(),
            out@ == head + pos_lines(rows@.take(i as int)),
        decreases rows@.len() - i,
    {
        let r: &PosRow = &rows[i];
        push_text(&mut out, r.time.as_str());
        push_text(&mut out, " ");
        push_text(&mut out, r.quat[0].as_str());
        push_text(&mut out, " ");
        push_text(&mut out, r.quat[1].as_str());
        push_text(&mut out, " ");
        push_text(&mut out, r.quat[2].as_str());
        push_text(&mut out, " ");
        push_text(&mut out, r.quat[3].as_str());
        push_text(&mut out, " ");
        push_text(&mut out, r.pos[0].as_str());
        push_text(&mut out, " ");
        push_text(&mut out, r.pos[1].as_str());
        push_text(&mut out, " ");
        push_text(&mut out, r.pos[2].as_str());
        push_text(&mut out, "\n");
        assert(rows@.take(i + 1).drop_last() =~= rows@.take(i as int));
        assert(out@ =~= head + (pos_lines(rows@.take(i as int)) + pos_line(*r)));
        i = i + 1;
    }
    assert(rows@.take(i as int) =~= rows@);
    out
}

// ---------- the texts, line by line ----------

/// Whether a text stands for itself between blanks and line breaks.
pub open spec fn is_word(s: Seq<char>) -> bool {
    split::free_of(s, ' ') && split::free_of(s, '\n')
}

/// The texts of a point.
pub open spec fn point_words(p: MapPoint) -> Seq<Seq<char>> {
    seq![p.x@, p.y@, p.z@, p.intensity@]
}

/// The texts of a moment of a trajectory.
pub open spec fn row_words(r: PosRow) -> Seq<Seq<char>> {
    seq![
        r.time@,
        r.quat@[0]@,
        r.quat@[1]@,
        r.quat@[2]@,
        r.quat@[3]@,
        r.pos@[0]@,
        r.pos@[1]@,
        r.pos@[2]@,
    ]
}

/// Whether all of `words` are words.
pub open spec fn all_words(words: Seq<Seq<char>>) -> bool {
    forall|i: int| 0 <= i < words.len() ==> is_word(#[trigger] words[i])
}

/// Words with a blank between each two of them.
spec fn spaced(words: Seq<Seq<char>>) -> Seq<char>
    decreases words.len(),
{
    if words.len() == 0 {
        Seq::empty()
    } else if words.len() == 1 {
        words[0]
    } else {
        spaced(words.drop_last()) + seq![' '] + words.last()
    }
}

proof fn lemma_spaced(words: Seq<Seq<char>>)
    requires
        words.len() > 0,
        all_words(words),
    ensures
        split::split(spaced(words), ' ') == words,
        split::free_of(spaced(words), '\n'),
    decreases words.len(),
{
    if words.len() == 1 {
        assert(is_word(words[0]));
        split::lemma_one_part(words[0], ' ');
        assert(seq![words[0]] =~= words);
    } else {
        let front = words.drop_last();
        let last = words[words.len() - 1];
        assert forall|i: int| 0 <= i < front.len() implies is_word(#[trigger] front[i]) by {
            assert(is_word(words[i]));
        }
        lemma_spaced(front);
        assert(is_word(last));
        split::lemma_one_part(last, ' ');
        split::lemma_split_joined(spaced(front), last, ' ');
        assert(front + seq![last] =~= words);
    }
}

proof fn lemma_blank()
    ensures
        " "@ == seq![' '],
        "\n"@ == seq!['\n'],
{
    reveal_strlit(" ");
    reveal_strlit("\n");
    assert(" "@ =~= seq![' ']);
    assert("\n"@ =~= seq!['\n']);
}

proof fn lemma_pos_line(r: PosRow)
    ensures
        pos_line(r) == spaced(row_words(r)) + seq!['\n'],
{
    let w = row_words(r);
    lemma_blank();
    reveal_with_fuel(spaced, 9);
    assert(w.drop_last() =~= w.take(7));
    assert(w.take(7).drop_last() =~= w.take(6));
    assert(w.take(6).drop_last() =~= w.take(5));
    assert(w.take(5).drop_last() =~= w.take(4));
    assert(w.take(4).drop_last() =~= w.take(3));
    assert(w.take(3).drop_last() =~= w.take(2));
    assert(w.take(2).drop_last() =~= w.take(1));
    assert(spaced(w.take(2)) == r.time@ + seq![' '] + r.quat@[0]@);
    assert(spaced(w.take(3)) == spaced(w.take(2)) + seq![' '] + r.quat@[1]@);
    assert(spaced(w.take(4)) == spaced(w.take(3)) + seq![' '] + r.quat@[2]@);
    assert(spaced(w.take(5)) == spaced(w.take(4)) + seq![' '] + r.quat@[3]@);
    assert(spaced(w.take(6)) == spaced(w.take(5)) + seq![' '] + r.pos@[0]@);
    assert(spaced(w.take(7)) == spaced(w.take(6)) + seq![' '] + r.pos@[1]@);
    assert(spaced(w) == spaced(w.take(7)) + seq![' '] + r.pos@[2]@);
}

proof fn lemma_pcd_line(p: MapPoint)
    ensures
        pcd_line(p) == spaced(point_words(p)) + seq!['\n'],
{
    let w = point_words(p);
    lemma_blank();
    reveal_with_fuel(spaced, 5);
    assert(w.drop_last() =~= w.take(3));
    assert(w.take(3).drop_last() =~= w.take(2));
    assert(w.take(2).drop_last() =~= w.take(1));
    assert(spaced(w.take(2)) == p.x@ + seq![' '] + p.y@);
    assert(spaced(w.take(3)) == spaced(w.take(2)) + seq![' '] + p.z@);
    assert(spaced(w) == spaced(w.take(3)) + seq![' '] + p.intensity@);
}

/// The parts of a text behind which a line comes.
proof fn lemma_line_behind(text: Seq<char>, words: Seq<Seq<char>>)
    requires
        words.len() > 0,
        all_words(words),
    ensures
        split::split(text + (spaced(words) + seq!['\n']), '\n') == split::split(
            text,
            '\n',
        ).drop_last().push(split::split(text, '\n').last() + spaced(words)).push(Seq::empty()),
{
    lemma_spaced(words);
    let line = spaced(words);
    assert(text + (line + seq!['\n']) =~= (text + line) + seq!['\n'] + Seq::empty());
    split::lemma_split_joined(text + line, Seq::empty(), '\n');
    split::lemma_appended(text, line, '\n');
    let parts = split::split(text, '\n');
    assert(parts.drop_last().push(parts.last() + line) + seq![Seq::<char>::empty()]
        =~= parts.drop_last().push(parts.last() + line).push(Seq::empty()));
}

proof fn lemma_pos_lines(rows: Seq<PosRow>)
    requires
        forall|i: int| 0 <= i < rows.len() ==> all_words(row_words(#[trigger] rows[i])),
    ensures
        ({
            let lines = split::split(pos_lines(rows), '\n');
            &&& lines.len() == rows.len() + 1
            &&& lines.last().len() == 0
            &&& forall|i: int|
                0 <= i < rows.len() ==> split::split(#[trigger] lines[i], ' ') == row_words(rows[i])
        }),
    decreases rows.len(),
{
    if rows.len() > 0 {
        let front = rows.drop_last();
        let row = rows[rows.len() - 1];
        assert forall|i: int| 0 <= i < front.len() implies all_words(
            row_words(#[trigger] front[i]),
        ) by {
            assert(all_words(row_words(rows[i])));
        }
        lemma_pos_lines(front);
        assert(all_words(row_words(row)));
        lemma_pos_line(row);
        lemma_spaced(row_words(row));
        lemma_line_behind(pos_lines(front), row_words(row));
        let before = split::split(pos_lines(front), '\n');
        let lines = split::split(pos_lines(rows), '\n');
        assert(before.last() + spaced(row_words(row)) =~= spaced(row_words(row)));
        assert forall|i: int| 0 <= i < rows.len() implies split::split(#[trigger] lines[i], ' ')
            == row_words(rows[i]) by {
            if i < front.len() {
                assert(lines[i] == before[i]);
                assert(rows[i] == front[i]);
            }
        }
    }
}

proof fn lemma_pcd_lines(points: Seq<MapPoint>)
    requires
        forall|i: int| 0 <= i < points.len() ==> all_words(point_words(#[trigger] points[i])),
    ensures
        ({
            let lines = split::split(pcd_lines(points), '\n');
            &&& lines.len() == points.len() + 1
            &&& lines.last().len() == 0
            &&& forall|i: int|
                0 <= i < points.len() ==> split::split(#[trigger] lines[i], ' ') == point_words(
                    points[i],
                )
        }),
    decreases points.len(),
{
    if points.len() > 0 {
        let front = points.drop_last();
        let point = points[points.len() - 1];
        assert forall|i: int| 0 <= i < front.len() implies all_words(
            point_words(#[trigger] front[i]),
        ) by {
            assert(all_words(point_words(points[i])));
        }
        lemma_pcd_lines(front);
        assert(all_words(point_words(point)));
        lemma_pcd_line(point);
        lemma_spaced(point_words(point));
        lemma_line_behind(pcd_lines(front), point_words(point));
        let before = split::split(pcd_lines(front), '\n');
        let lines = split::split(pcd_lines(points), '\n');
        assert(before.last() + spaced(point_words(point)) =~= spaced(point_words(point)));
        assert forall|i: int| 0 <= i < points.len() implies split::split(#[trigger] lines[i], ' ')
            == point_words(points[i]) by {
            if i < front.len() {
                assert(lines[i] == before[i]);
                assert(points[i] == front[i]);
            }
        }
    }
}

/// The text of a trajectory, cut at its line breaks, is its heading, then a line for each row, in
/// order, and nothing behind the last line break. Cut at its blanks, the line of a row is the
/// time, the four numbers of the orientation and the three of the position of that row.
pub proof fn law_trajectory_has_a_line_for_each_row(rows: Seq<PosRow>, text: Seq<char>)
    requires
        forall|i: int| 0 <= i < rows.len() ==> all_words(row_words(#[trigger] rows[i])),
        text == "# time qw qx qy qz pos_x pos_y pos_z\n"@ + pos_lines(rows),
    ensures
        ({
            let lines = split::split(text, '\n');
            &&& lines.len() == rows.len() + 2
            &&& lines[0] == "# time qw qx qy qz pos_x pos_y pos_z"@
            &&& lines[rows.len() as int + 1].len() == 0
            &&& forall|i: int|
                #![trigger rows[i]]
                0 <= i < rows.len() ==> split::split(lines[i + 1], ' ') == seq![
                    rows[i].time@,
                    rows[i].quat@[0]@,
                    rows[i].quat@[1]@,
                    rows[i].quat@[2]@,
                    rows[i].quat@[3]@,
                    rows[i].pos@[0]@,
                    rows[i].pos@[1]@,
                    rows[i].pos@[2]@,
                ]
        }),
{
    let head = "# time qw qx qy qz pos_x pos_y pos_z"@;
    reveal_strlit("# time qw qx qy qz pos_x pos_y pos_z\n");
    reveal_strlit("# time qw qx qy qz pos_x pos_y pos_z");
    assert("# time qw qx qy qz pos_x pos_y pos_z\n"@ =~= head + seq!['\n']);
    lemma_pos_lines(rows);
    let body = split::split(pos_lines(rows), '\n');
    split::lemma_first_part(head, pos_lines(rows), '\n');
    let lines = split::split(text, '\n');
    assert(lines == seq![head] + body);
    assert forall|i: int| #![trigger rows[i]] 0 <= i < rows.len() implies split::split(
        lines[i + 1],
        ' ',
    ) == row_words(rows[i]) by {
        assert(lines[i + 1] == body[i]);
    }
}

/// The head of a map of `n` points, line by line.
pub open spec fn head_lines(n: nat) -> Seq<Seq<char>> {
    seq![
        "# .PCD v0.7 - Point Cloud Data file format"@,
        "VERSION 0.7"@,
        "FIELDS x y z intensity"@,
        "SIZE 4 4 4 4"@,
        "TYPE F F F F"@,
        "COUNT 1 1 1 1"@,
        "WIDTH "@ + text::decimal(n),
        "HEIGHT 1"@,
        "VIEWPOINT 0 0 0 1 0 0 0"@,
        "POINTS "@ + text::decimal(n),
        "DATA ascii"@,
    ]
}

/// Lines, each with a line break behind it.
spec fn ended(lines: Seq<Seq<char>>) -> Seq<char>
    decreases lines.len(),
{
    if lines.len() == 0 {
        Seq::empty()
    } else {
        ended(lines.drop_last()) + lines.last() + seq!['\n']
    }
}

proof fn lemma_ended(lines: Seq<Seq<char>>, rest: Seq<char>)
    requires
        forall|i: int| 0 <= i < lines.len() ==> split::free_of(#[trigger] lines[i], '\n'),
    ensures
        split::split(ended(lines) + rest, '\n') == lines + split::split(rest, '\n'),
    decreases lines.len(),
{
    if lines.len() == 0 {
        assert(ended(lines) + rest =~= rest);
        assert(lines + split::split(rest, '\n') =~= split::split(rest, '\n'));
    } else {
        let front = lines.drop_last();
        let last = lines[lines.len() - 1];
        assert(split::free_of(last, '\n'));
        assert forall|i: int| 0 <= i < front.len() implies split::free_of(
            #[trigger] front[i],
            '\n',
        ) by {
            assert(split::free_of(lines[i], '\n'));
        }
        let more = last + seq!['\n'] + rest;
        assert(ended(lines) + rest =~= ended(front) + more);
        lemma_ended(front, more);
        split::lemma_first_part(last, rest, '\n');
        assert(front + (seq![last] + split::split(rest, '\n')) =~= lines + split::split(
            rest,
            '\n',
        ));
    }
}

proof fn lemma_digits_free(n: nat)
    ensures
        split::free_of(text::decimal(n), '\n'),
        split::free_of(text::decimal(n), ' '),
    decreases n,
{
    if n >= 10 {
        lemma_digits_free(n / 10);
    }
}

proof fn lemma_head_words(n: nat)
    ensures
        forall|i: int|
            0 <= i < head_lines(n).len() ==> split::free_of(#[trigger] head_lines(n)[i], '\n'),
{
    lemma_digits_free(n);
    reveal_strlit("# .PCD v0.7 - Point Cloud Data file format");
    reveal_strlit("VERSION 0.7");
    reveal_strlit("FIELDS x y z intensity");
    reveal_strlit("SIZE 4 4 4 4");
    reveal_strlit("TYPE F F F F");
    reveal_strlit("COUNT 1 1 1 1");
    reveal_strlit("WIDTH ");
    reveal_strlit("HEIGHT 1");
    reveal_strlit("VIEWPOINT 0 0 0 1 0 0 0");
    reveal_strlit("POINTS ");
    reveal_strlit("DATA ascii");
}

spec fn first_lines() -> Seq<char> {
    "# .PCD v0.7 - Point Cloud Data file format"@ + seq!['\n'] + "VERSION 0.7"@ + seq!['\n']
        + "FIELDS x y z intensity"@ + seq!['\n'] + "SIZE 4 4 4 4"@ + seq!['\n'] + "TYPE F F F F"@
        + seq!['\n'] + "COUNT 1 1 1 1"@ + seq!['\n']
}

proof fn lemma_first_lines()
    ensures
        "# .PCD v0.7 - Point Cloud Data file format\nVERSION 0.7\nFIELDS x y z intensity\nSIZE 4 4 4 4\nTYPE F F F F\nCOUNT 1 1 1 1\nWIDTH "@
            == first_lines() + "WIDTH "@,
{
    reveal_strlit("# .PCD v0.7 - Point Cloud Data file format\nVERSION 0.7\nFIELDS x y z intensity\nSIZE 4 4 4 4\nTYPE F F F F\nCOUNT 1 1 1 1\nWIDTH ");
    reveal_strlit("# .PCD v0.7 - Point Cloud Data file format");
    reveal_strlit("VERSION 0.7");
    reveal_strlit("FIELDS x y z intensity");
    reveal_strlit("SIZE 4 4 4 4");
    reveal_strlit("TYPE F F F F");
    reveal_strlit("COUNT 1 1 1 1");
    reveal_strlit("WIDTH ");
    assert("# .PCD v0.7 - Point Cloud Data file format\nVERSION 0.7\nFIELDS x y z intensity\nSIZE 4 4 4 4\nTYPE F F F F\nCOUNT 1 1 1 1\nWIDTH "@
        =~= first_lines() + "WIDTH "@);
}

proof fn lemma_more_lines()
    ensures
        "\nHEIGHT 1\nVIEWPOINT 0 0 0 1 0 0 0\nPOINTS "@ == seq!['\n'] + "HEIGHT 1"@ + seq!['\n']
            + "VIEWPOINT 0 0 0 1 0 0 0"@ + seq!['\n'] + "POINTS "@,
        "\nDATA ascii\n"@ == seq!['\n'] + "DATA ascii"@ + seq!['\n'],
{
    reveal_strlit("\nHEIGHT 1\nVIEWPOINT 0 0 0 1 0 0 0\nPOINTS ");
    reveal_strlit("\nDATA ascii\n");
    reveal_strlit("HEIGHT 1");
    reveal_strlit("VIEWPOINT 0 0 0 1 0 0 0");
    reveal_strlit("POINTS ");
    reveal_strlit("DATA ascii");
    assert("\nHEIGHT 1\nVIEWPOINT 0 0 0 1 0 0 0\nPOINTS "@ =~= seq!['\n'] + "HEIGHT 1"@ + seq![
        '\n',
    ] + "VIEWPOINT 0 0 0 1 0 0 0"@ + seq!['\n'] + "POINTS "@);
    assert("\nDATA ascii\n"@ =~= seq!['\n'] + "DATA ascii"@ + seq!['\n']);
}

proof fn lemma_regrouped(
    a: Seq<char>,
    w: Seq<char>,
    d: Seq<char>,
    h: Seq<char>,
    v: Seq<char>,
    p: Seq<char>,
    e: Seq<char>,
    b: Seq<char>,
)
    ensures
        (a + w) + d + (b + h + b + v + b + p) + d + (b + e + b) == a + (w + d) + b + h + b + v + b
            + (p + d) + b + e + b,
{
    assert((a + w) + d + (b + h + b + v + b + p) + d + (b + e + b) =~= a + (w + d) + b + h + b + v
        + b + (p + d) + b + e + b);
}

proof fn lemma_head(n: nat)
    ensures
        pcd_head(n) == ended(head_lines(n)),
{
    let l = head_lines(n);
    let b = seq!['\n'];
    reveal_with_fuel(ended, 12);
    lemma_first_lines();
    lemma_more_lines();
    assert(l.drop_last() =~= l.take(10));
    assert(l.take(10).drop_last() =~= l.take(9));
    assert(l.take(9).drop_last() =~= l.take(8));
    assert(l.take(8).drop_last() =~= l.take(7));
    assert(l.take(7).drop_last() =~= l.take(6));
    assert(l.take(6).drop_last() =~= l.take(5));
    assert(l.take(5).drop_last() =~= l.take(4));
    assert(l.take(4).drop_last() =~= l.take(3));
    assert(l.take(3).drop_last() =~= l.take(2));
    assert(l.take(2).drop_last() =~= l.take(1));
    assert(l.take(1).drop_last() =~= l.take(0));
    assert(ended(l.take(1)) =~= l[0] + b);
    assert(ended(l.take(2)) == ended(l.take(1)) + l[1] + b);
    assert(ended(l.take(3)) == ended(l.take(2)) + l[2] + b);
    assert(ended(l.take(4)) == ended(l.take(3)) + l[3] + b);
    assert(ended(l.take(5)) == ended(l.take(4)) + l[4] + b);
    assert(ended(l.take(6)) == ended(l.take(5)) + l[5] + b);
    assert(ended(l.take(6)) == first_lines());
    assert(ended(l.take(7)) == ended(l.take(6)) + l[6] + b);
    assert(ended(l.take(8)) == ended(l.take(7)) + l[7] + b);
    assert(ended(l.take(9)) == ended(l.take(8)) + l[8] + b);
    assert(ended(l.take(10)) == ended(l.take(9)) + l[9] + b);
    assert(ended(l) == ended(l.take(10)) + l[10] + b);
    lemma_regrouped(
        first_lines(),
        "WIDTH "@,
        text::decimal(n),
        "HEIGHT 1"@,
        "VIEWPOINT 0 0 0 1 0 0 0"@,
        "POINTS "@,
        "DATA ascii"@,
        b,
    );
}

/// The text of a map, cut at its line breaks, is a head that counts the points, then a line for
/// each point, in order, and nothing behind the last line break. Cut at its blanks, the line of a
/// point is its place and how strongly it reflects.
pub proof fn law_map_has_a_line_for_each_point(points: Seq<MapPoint>, text: Seq<char>)
    requires
        forall|i: int| 0 <= i < points.len() ==> all_words(point_words(#[trigger] points[i])),
        text == pcd_head(points.len()) + pcd_lines(points),
    ensures
        ({
            let lines = split::split(text, '\n');
            let count = text::decimal(points.len());
            &&& lines.len() == points.len() + 12
            &&& lines[0] == "# .PCD v0.7 - Point Cloud Data file format"@
            &&& lines[1] == "VERSION 0.7"@
            &&& lines[2] == "FIELDS x y z intensity"@
            &&& lines[3] == "SIZE 4 4 4 4"@
            &&& lines[4] == "TYPE F F F F"@
            &&& lines[5] == "COUNT 1 1 1 1"@
            &&& lines[6] == "WIDTH "@ + count
            &&& lines[7] == "HEIGHT 1"@
            &&& lines[8] == "VIEWPOINT 0 0 0 1 0 0 0"@
            &&& lines[9] == "POINTS "@ + count
            &&& lines[10] == "DATA ascii"@
            &&& lines[points.len() as int + 11].len() == 0
            &&& forall|i: int|
                #![trigger points[i]]
                0 <= i < points.len() ==> split::split(lines[i + 11], ' ') == seq![
                    points[i].x@,
                    points[i].y@,
                    points[i].z@,
                    points[i].intensity@,
                ]
        }),
{
    let n = points.len();
    lemma_head(n);
    lemma_head_words(n);
    lemma_pcd_lines(points);
    lemma_ended(head_lines(n), pcd_lines(points));
    let body = split::split(pcd_lines(points), '\n');
    let lines = split::split(text, '\n');
    assert(lines == head_lines(n) + body);
    assert forall|i: int| #![trigger points[i]] 0 <= i < points.len() implies split::split(
        lines[i + 11],
        ' ',
    ) == point_words(points[i]) by {
        assert(lines[i + 11] == body[i]);
    }
}

} // verus!
