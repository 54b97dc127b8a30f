//! What the bytes of clouds of points mean: the laws of reading and of recording scans.

use crate::fastlio::conv;
use crate::fastlio::conv::{AviaPointMsg, SensorView, StdPointMsg};
use crate::json;
use crate::json::{Number, Scalar};
use crate::message::MessageView;
use crate::msgs::codec::Codec;
use crate::msgs::types::{CloudView, FieldView, Imu, ImuView, PointCloud, Time};
use crate::{le, wire};
use vstd::prelude::*;

verus! {

/// The bytes of points, one behind the other.
pub open spec fn laid_down(points: Seq<Seq<u8>>) -> Seq<u8>
    decreases points.len(),
{
    if points.len() == 0 {
        Seq::empty()
    } else {
        laid_down(points.drop_last()) + points.last()
    }
}

/// The number in the `n` bytes of a point at `off`; where `big` is set, its most significant byte
/// comes first.
pub open spec fn in_point(p: Seq<u8>, big: bool, off: int, n: int) -> nat {
    le::le_value(
        if big {
            p.subrange(off, off + n).reverse()
        } else {
            p.subrange(off, off + n)
        },
    )
}

/// Whether a cloud holds these points, of the length that it names, and perhaps more bytes behind
/// them.
pub open spec fn holds(c: CloudView, points: Seq<Seq<u8>>, rest: Seq<u8>) -> bool {
    &&& points.len() == c.width as nat * c.height as nat
    &&& forall|i: int| 0 <= i < points.len() ==> (#[trigger] points[i]).len() == c.point_step
    &&& c.data == laid_down(points) + rest
}

proof fn lemma_laid_down(points: Seq<Seq<u8>>, step: nat, i: int)
    requires
        0 <= i < points.len(),
        forall|k: int| 0 <= k < points.len() ==> (#[trigger] points[k]).len() == step,
    ensures
        laid_down(points).len() == points.len() * step,
        i * step + step <= laid_down(points).len(),
        0 <= i * step,
        laid_down(points).subrange(i * step, i * step + step) == points[i],
    decreases points.len(),
{
    let d = laid_down(points);
    let front = points.drop_last();
    let n = points.len() as int;
    assert forall|k: int| 0 <= k < front.len() implies (#[trigger] front[k]).len() == step by {
        assert(points[k].len() == step);
    }
    assert(points[n - 1].len() == step);
    assert((n - 1) * step + step == n * step && 0 <= i * step && i * step + step == (i + 1) * step
        && (i + 1) * step <= n * step && (i < n - 1 ==> (i + 1) * step <= (n - 1) * step))
        by (nonlinear_arith)
        requires
            0 <= i < n,
            step >= 0,
    ;
    if n > 1 {
        lemma_laid_down(
            front,
            step,
            if i < n - 1 {
                i
            } else {
                0
            },
        );
    } else {
        assert(laid_down(front) =~= Seq::empty());
        assert((n - 1) * step == 0) by (nonlinear_arith)
            requires
                n == 1,
        ;
    }
    if i == n - 1 {
        assert(d.subrange(i * step, i * step + step) =~= points[i]);
    } else {
        assert(d.subrange(i * step, i * step + step) =~= laid_down(front).subrange(
            i * step,
            i * step + step,
        ));
    }
}

/// A number is read from the point that it is asked for.
proof fn lemma_scalar_in_point(
    c: CloudView,
    points: Seq<Seq<u8>>,
    rest: Seq<u8>,
    i: int,
    off: u32,
    n: nat,
)
    requires
        holds(c, points, rest),
        0 <= i < points.len(),
        off + n <= c.point_step,
    ensures
        conv::scalar_at(c.data, c.is_bigendian, i * c.point_step + off, n) == Some(
            in_point(points[i], c.is_bigendian, off as int, n as int),
        ),
        in_point(points[i], c.is_bigendian, off as int, n as int) < le::le_limit(n),
{
    let step = c.point_step as nat;
    lemma_laid_down(points, step, i);
    let d = c.data;
    let at = i * step + off;
    assert(d.subrange(i * step, i * step + step) =~= points[i]);
    assert(d.subrange(at, at + n) =~= points[i].subrange(off as int, off + n));
    let s = points[i].subrange(off as int, off + n);
    le::lemma_le_value_bound(s);
    le::lemma_le_value_bound(s.reverse());
}

// ---------- fields ----------

/// A field is found under its name exactly where there is one of that name, and it is the first
/// one.
pub proof fn law_first_field_of_a_name_counts(s: Seq<FieldView>, name: Seq<char>)
    ensures
        match conv::field_named(s, name) {
            Some(f) => exists|i: int|
                0 <= i < s.len() && #[trigger] s[i] == f && f.name == name && forall|k: int|
                    0 <= k < i ==> (#[trigger] s[k]).name != name,
            None => forall|i: int| 0 <= i < s.len() ==> (#[trigger] s[i]).name != name,
        },
    decreases s.len(),
{
    if s.len() > 0 {
        if s[0].name == name {
            assert(s[0] == conv::field_named(s, name)->Some_0);
        } else {
            let t = s.drop_first();
            law_first_field_of_a_name_counts(t, name);
            match conv::field_named(t, name) {
                Some(f) => {
                    let j = choose|i: int|
                        0 <= i < t.len() && #[trigger] t[i] == f && f.name == name && forall|k: int|
                            0 <= k < i ==> (#[trigger] t[k]).name != name;
                    assert(s[j + 1] == f);
                    assert forall|k: int| 0 <= k < j + 1 implies (#[trigger] s[k]).name != name by {
                        if k > 0 {
                            assert(t[k - 1].name != name);
                        }
                    }
                },
                None => {
                    assert forall|i: int| 0 <= i < s.len() implies (#[trigger] s[i]).name
                        != name by {
                        if i > 0 {
                            assert(t[i - 1].name != name);
                        }
                    }
                },
            }
        }
    }
}

// ---------- coordinates of any cloud ----------

/// The coordinate that a point holds in the field `f`: a number of four or eight bytes in its
/// place; zero where there is no such field, or one of another type.
pub open spec fn coordinate_in(p: Seq<u8>, big: bool, f: Option<FieldView>) -> Number {
    match f {
        Some(f) => if f.datatype == 7 {
            Number::Single(in_point(p, big, f.offset as int, 4) as u32)
        } else if f.datatype == 8 {
            Number::Double(in_point(p, big, f.offset as int, 8) as u64)
        } else {
            Number::Double(0)
        },
        None => Number::Double(0),
    }
}

/// Whether the field `f` lies within a point of `step` bytes.
pub open spec fn lies_within(f: Option<FieldView>, step: u32) -> bool {
    f matches Some(f) ==> (f.datatype == 7 ==> f.offset + 4 <= step) && (f.datatype == 8
        ==> f.offset + 8 <= step)
}

proof fn lemma_coordinate(
    c: CloudView,
    points: Seq<Seq<u8>>,
    rest: Seq<u8>,
    name: Seq<char>,
    i: int,
)
    requires
        holds(c, points, rest),
        0 <= i < points.len(),
        lies_within(conv::field_named(c.fields, name), c.point_step),
    ensures
        json::coordinate(c, name, i as nat) == coordinate_in(
            points[i],
            c.is_bigendian,
            conv::field_named(c.fields, name),
        ),
{
    if let Some(f) = conv::field_named(c.fields, name) {
        if f.datatype == 7 {
            lemma_scalar_in_point(c, points, rest, i, f.offset, 4);
        } else if f.datatype == 8 {
            lemma_scalar_in_point(c, points, rest, i, f.offset, 8);
        }
    }
}

proof fn lemma_coordinates_at(c: CloudView, n: nat, i: int)
    requires
        0 <= i < n,
    ensures
        json::coordinates(c, n).len() == 3 * n,
        json::coordinates(c, n)[3 * i] == Scalar::Coordinate(json::coordinate(c, "x"@, i as nat)),
        json::coordinates(c, n)[3 * i + 1] == Scalar::Coordinate(
            json::coordinate(c, "y"@, i as nat),
        ),
        json::coordinates(c, n)[3 * i + 2] == Scalar::Coordinate(
            json::coordinate(c, "z"@, i as nat),
        ),
    decreases n,
{
    let k = (n - 1) as nat;
    json::lemma_coordinates_len(c, n);
    json::lemma_coordinates_len(c, k);
    if i < k {
        lemma_coordinates_at(c, k, i);
    }
}

/// The numbers that are listed for a cloud are the time of its message and then, point by point,
/// the x, the y and the z of that point, wherever in a point they stand, in either byte order, and
/// whatever else a point holds.
pub proof fn law_listed_numbers_are_those_of_the_points(
    m: MessageView,
    c: CloudView,
    points: Seq<Seq<u8>>,
    rest: Seq<u8>,
)
    requires
        m.schema.typename == "doracap/PointCloud"@,
        PointCloud::fits(c),
        m.payload == PointCloud::encoded(c),
        holds(c, points, rest),
        lies_within(conv::field_named(c.fields, "x"@), c.point_step),
        lies_within(conv::field_named(c.fields, "y"@), c.point_step),
        lies_within(conv::field_named(c.fields, "z"@), c.point_step),
    ensures
        ({
            let s = json::scalars_of(m);
            let big = c.is_bigendian;
            &&& s.len() == 1 + 3 * points.len()
            &&& s[0] == Scalar::Stamp(m.stamp)
            &&& forall|i: int|
                #![trigger points[i]]
                0 <= i < points.len() ==> s[1 + 3 * i] == Scalar::Coordinate(
                    coordinate_in(points[i], big, conv::field_named(c.fields, "x"@)),
                ) && s[2 + 3 * i] == Scalar::Coordinate(
                    coordinate_in(points[i], big, conv::field_named(c.fields, "y"@)),
                ) && s[3 + 3 * i] == Scalar::Coordinate(
                    coordinate_in(points[i], big, conv::field_named(c.fields, "z"@)),
                )
        }),
{
    PointCloud::law_decodes_to_itself(c);
    let n = points.len();
    let s = json::scalars_of(m);
    assert(json::point_count(c) == n);
    json::lemma_coordinates_len(c, n);
    assert(s == seq![Scalar::Stamp(m.stamp)] + json::coordinates(c, n));
    assert forall|i: int| #![trigger points[i]] 0 <= i < n implies s[1 + 3 * i]
        == Scalar::Coordinate(
        coordinate_in(points[i], c.is_bigendian, conv::field_named(c.fields, "x"@)),
    ) && s[2 + 3 * i] == Scalar::Coordinate(
        coordinate_in(points[i], c.is_bigendian, conv::field_named(c.fields, "y"@)),
    ) && s[3 + 3 * i] == Scalar::Coordinate(
        coordinate_in(points[i], c.is_bigendian, conv::field_named(c.fields, "z"@)),
    ) by {
        lemma_coordinates_at(c, n, i);
        lemma_coordinate(c, points, rest, "x"@, i);
        lemma_coordinate(c, points, rest, "y"@, i);
        lemma_coordinate(c, points, rest, "z"@, i);
    }
}

/// A coordinate whose bytes are not all there is zero, and one that is read is from bytes that are
/// there.
pub proof fn law_missing_coordinates_are_zero(c: CloudView, name: Seq<char>, i: nat, f: FieldView)
    requires
        conv::field_named(c.fields, name) == Some(f),
        i * c.point_step + f.offset + (if f.datatype == 7 {
            4int
        } else {
            8
        }) > c.data.len(),
    ensures
        json::coordinate(c, name, i) == Number::Double(0),
{
}

// ---------- scans from any cloud ----------

/// The points of a scan of a spinning lidar are read field by field, wherever in a point its
/// fields stand, in either byte order.
pub proof fn law_standard_scan_is_read_by_its_fields(
    c: CloudView,
    points: Seq<Seq<u8>>,
    rest: Seq<u8>,
    x: FieldView,
    y: FieldView,
    z: FieldView,
    intensity: FieldView,
    time: FieldView,
    ring: FieldView,
)
    requires
        holds(c, points, rest),
        conv::field_named(c.fields, "x"@) == Some(x),
        conv::field_named(c.fields, "y"@) == Some(y),
        conv::field_named(c.fields, "z"@) == Some(z),
        conv::field_named(c.fields, "intensity"@) == Some(intensity),
        conv::field_named(c.fields, "time"@) == Some(time),
        conv::field_named(c.fields, "ring"@) == Some(ring),
        x.offset + 4 <= c.point_step,
        y.offset + 4 <= c.point_step,
        z.offset + 4 <= c.point_step,
        intensity.offset + 4 <= c.point_step,
        time.offset + 4 <= c.point_step,
        ring.offset + 2 <= c.point_step,
    ensures
        ({
            let big = c.is_bigendian;
            conv::standard_points_of(c) matches Some(s) && s.len() == points.len() && forall|i: int|
                #![trigger s[i]]
                0 <= i < s.len() ==> {
                    &&& s[i].x == in_point(points[i], big, x.offset as int, 4)
                    &&& s[i].y == in_point(points[i], big, y.offset as int, 4)
                    &&& s[i].z == in_point(points[i], big, z.offset as int, 4)
                    &&& s[i].intensity == in_point(points[i], big, intensity.offset as int, 4)
                    &&& s[i].time == in_point(points[i], big, time.offset as int, 4)
                    &&& s[i].ring == in_point(points[i], big, ring.offset as int, 2)
                }
        }),
{
    lemma_standard_scan(c, points, rest, points.len());
}

proof fn lemma_standard_scan(c: CloudView, points: Seq<Seq<u8>>, rest: Seq<u8>, n: nat)
    requires
        holds(c, points, rest),
        n <= points.len(),
        conv::standard_offsets(c.fields) matches Some(o) && o.x + 4 <= c.point_step && o.y + 4
            <= c.point_step && o.z + 4 <= c.point_step && o.intensity + 4 <= c.point_step && o.time
            + 4 <= c.point_step && o.ring + 2 <= c.point_step,
    ensures
        ({
            let big = c.is_bigendian;
            let o = conv::standard_offsets(c.fields)->Some_0;
            conv::standard_points(c.data, big, c.point_step as nat, o, n) matches Some(s) && s.len()
                == n && forall|i: int|
                #![trigger s[i]]
                0 <= i < s.len() ==> {
                    &&& s[i].x == in_point(points[i], big, o.x as int, 4)
                    &&& s[i].y == in_point(points[i], big, o.y as int, 4)
                    &&& s[i].z == in_point(points[i], big, o.z as int, 4)
                    &&& s[i].intensity == in_point(points[i], big, o.intensity as int, 4)
                    &&& s[i].time == in_point(points[i], big, o.time as int, 4)
                    &&& s[i].ring == in_point(points[i], big, o.ring as int, 2)
                }
        }),
    decreases n,
{
    if n > 0 {
        let o = conv::standard_offsets(c.fields)->Some_0;
        let i = n - 1;
        lemma_standard_scan(c, points, rest, (n - 1) as nat);
        le::lemma_le_limits();
        lemma_scalar_in_point(c, points, rest, i, o.x, 4);
        lemma_scalar_in_point(c, points, rest, i, o.y, 4);
        lemma_scalar_in_point(c, points, rest, i, o.z, 4);
        lemma_scalar_in_point(c, points, rest, i, o.intensity, 4);
        lemma_scalar_in_point(c, points, rest, i, o.time, 4);
        lemma_scalar_in_point(c, points, rest, i, o.ring, 2);
    }
}

/// The points of a scan of a Livox lidar are read field by field, wherever in a point its fields
/// stand, in either byte order.
pub proof fn law_avia_scan_is_read_by_its_fields(
    c: CloudView,
    points: Seq<Seq<u8>>,
    rest: Seq<u8>,
    x: FieldView,
    y: FieldView,
    z: FieldView,
    reflectivity: FieldView,
    tag: FieldView,
    line: FieldView,
    offset_time: FieldView,
)
    requires
        holds(c, points, rest),
        conv::field_named(c.fields, "x"@) == Some(x),
        conv::field_named(c.fields, "y"@) == Some(y),
        conv::field_named(c.fields, "z"@) == Some(z),
        conv::field_named(c.fields, "reflectivity"@) == Some(reflectivity),
        conv::field_named(c.fields, "tag"@) == Some(tag),
        conv::field_named(c.fields, "line"@) == Some(line),
        conv::field_named(c.fields, "offset_time"@) == Some(offset_time),
        x.offset + 4 <= c.point_step,
        y.offset + 4 <= c.point_step,
        z.offset + 4 <= c.point_step,
        reflectivity.offset + 1 <= c.point_step,
        tag.offset + 2 <= c.point_step,
        line.offset + 1 <= c.point_step,
        offset_time.offset + 4 <= c.point_step,
    ensures
        ({
            let big = c.is_bigendian;
            conv::avia_points_of(c) matches Some(s) && s.len() == points.len() && forall|i: int|
                #![trigger s[i]]
                0 <= i < s.len() ==> {
                    &&& s[i].x == in_point(points[i], big, x.offset as int, 4)
                    &&& s[i].y == in_point(points[i], big, y.offset as int, 4)
                    &&& s[i].z == in_point(points[i], big, z.offset as int, 4)
                    &&& s[i].reflectivity == in_point(
                        points[i],
                        big,
                        reflectivity.offset as int,
                        1,
                    )
                    &&& s[i].tag == in_point(points[i], big, tag.offset as int, 2)
                    &&& s[i].line == in_point(points[i], big, line.offset as int, 1)
                    &&& s[i].offset_time == in_point(points[i], big, offset_time.offset as int, 4)
                }
        }),
{
    lemma_avia_scan(c, points, rest, points.len());
}

proof fn lemma_avia_scan(c: CloudView, points: Seq<Seq<u8>>, rest: Seq<u8>, n: nat)
    requires
        holds(c, points, rest),
        n <= points.len(),
        conv::avia_offsets(c.fields) matches Some(o) && o.x + 4 <= c.point_step && o.y + 4
            <= c.point_step && o.z + 4 <= c.point_step && o.reflectivity + 1 <= c.point_step
            && o.tag + 2 <= c.point_step && o.line + 1 <= c.point_step && o.offset_time + 4
            <= c.point_step,
    ensures
        ({
            let big = c.is_bigendian;
            let o = conv::avia_offsets(c.fields)->Some_0;
            conv::avia_points(c.data, big, c.point_step as nat, o, n) matches Some(s) && s.len()
                == n && forall|i: int|
                #![trigger s[i]]
                0 <= i < s.len() ==> {
                    &&& s[i].x == in_point(points[i], big, o.x as int, 4)
                    &&& s[i].y == in_point(points[i], big, o.y as int, 4)
                    &&& s[i].z == in_point(points[i], big, o.z as int, 4)
                    &&& s[i].reflectivity == in_point(points[i], big, o.reflectivity as int, 1)
                    &&& s[i].tag == in_point(points[i], big, o.tag as int, 2)
                    &&& s[i].line == in_point(points[i], big, o.line as int, 1)
                    &&& s[i].offset_time == in_point(points[i], big, o.offset_time as int, 4)
                }
        }),
    decreases n,
{
    if n > 0 {
        let o = conv::avia_offsets(c.fields)->Some_0;
        let i = n - 1;
        lemma_avia_scan(c, points, rest, (n - 1) as nat);
        le::lemma_le_limits();
        lemma_scalar_in_point(c, points, rest, i, o.x, 4);
        lemma_scalar_in_point(c, points, rest, i, o.y, 4);
        lemma_scalar_in_point(c, points, rest, i, o.z, 4);
        lemma_scalar_in_point(c, points, rest, i, o.reflectivity, 1);
        lemma_scalar_in_point(c, points, rest, i, o.tag, 2);
        lemma_scalar_in_point(c, points, rest, i, o.line, 1);
        lemma_scalar_in_point(c, points, rest, i, o.offset_time, 4);
    }
}

/// A cloud without one of the fields of a scan holds no such scan.
pub proof fn law_scans_need_all_their_fields(c: CloudView)
    ensures
        (conv::field_named(c.fields, "x"@) is None || conv::field_named(c.fields, "y"@) is None
            || conv::field_named(c.fields, "z"@) is None || conv::field_named(
            c.fields,
            "intensity"@,
        ) is None || conv::field_named(c.fields, "time"@) is None || conv::field_named(
            c.fields,
            "ring"@,
        ) is None) ==> conv::standard_points_of(c) is None,
        (conv::field_named(c.fields, "x"@) is None || conv::field_named(c.fields, "y"@) is None
            || conv::field_named(c.fields, "z"@) is None || conv::field_named(
            c.fields,
            "reflectivity"@,
        ) is None || conv::field_named(c.fields, "tag"@) is None || conv::field_named(
            c.fields,
            "line"@,
        ) is None || conv::field_named(c.fields, "offset_time"@) is None) ==> conv::avia_points_of(
            c,
        ) is None,
        match conv::sensor_of_cloud(c) {
            Some(SensorView::LidarAvia(stamp, s)) => stamp == c.header.stamp && conv::field_named(
                c.fields,
                "offset_time"@,
            ) is Some && conv::avia_points_of(c) == Some(s),
            Some(SensorView::LidarStandard(stamp, s)) => stamp == c.header.stamp
                && conv::field_named(c.fields, "offset_time"@) is None && conv::standard_points_of(
                c,
            ) == Some(s),
            Some(SensorView::Imu(_, _, _)) => false,
            None => if conv::field_named(c.fields, "offset_time"@) is Some {
                conv::avia_points_of(c) is None
            } else {
                conv::standard_points_of(c) is None
            },
        },
{
}

proof fn lemma_scan_len(
    data: Seq<u8>,
    big: bool,
    step: nat,
    o: conv::StdPointMsgOffsets,
    n: nat,
)
    ensures
        conv::standard_points(data, big, step, o, n) matches Some(s) ==> s.len() == n,
        n > 0 && (n - 1) * step + o.x + 4 > data.len() ==> conv::standard_points(
            data,
            big,
            step,
            o,
            n,
        ) is None,
    decreases n,
{
    if n > 0 {
        lemma_scan_len(data, big, step, o, (n - 1) as nat);
    }
}

/// A cloud whose bytes do not reach to the last point that it announces holds no scan.
pub proof fn law_scans_need_all_their_bytes(c: CloudView, x: FieldView)
    requires
        conv::field_named(c.fields, "x"@) == Some(x),
        c.width as nat * c.height as nat > 0,
        (c.width as nat * c.height as nat - 1) * c.point_step + x.offset + 4 > c.data.len(),
    ensures
        conv::standard_points_of(c) is None,
        conv::avia_points_of(c) is None,
        conv::sensor_of_cloud(c) is None,
{
    let n = c.width as nat * c.height as nat;
    if let Some(o) = conv::standard_offsets(c.fields) {
        lemma_scan_len(c.data, c.is_bigendian, c.point_step as nat, o, n);
    }
}

// ---------- recorded scans ----------

/// The fields of a recorded point: their names, where in a point they stand, and of which type
/// they are.
pub open spec fn field_is(f: FieldView, name: Seq<char>, offset: int, datatype: int) -> bool {
    f.name == name && f.offset == offset && f.datatype == datatype && f.count == 1
}

/// The cloud of a scan of a spinning lidar: one row of points of 22 bytes, in order, with x, y, z,
/// the intensity and the time in four bytes each and the ring in two, least significant byte
/// first.
pub proof fn law_standard_scan_is_recorded_point_by_point(stamp: Time, points: Seq<StdPointMsg>)
    requires
        22 * points.len() < 0x1_0000_0000,
    ensures
        ({
            let c = conv::standard_cloud(stamp, points);
            let d = c.data;
            &&& c.header.stamp == stamp
            &&& c.header.frame_id == "lidar"@
            &&& c.height == 1
            &&& c.width == points.len()
            &&& c.point_step == 22
            &&& c.row_step == 22 * points.len()
            &&& !c.is_bigendian
            &&& c.is_dense
            &&& c.fields.len() == 6
            &&& field_is(c.fields[0], "x"@, 0, 7)
            &&& field_is(c.fields[1], "y"@, 4, 7)
            &&& field_is(c.fields[2], "z"@, 8, 7)
            &&& field_is(c.fields[3], "intensity"@, 12, 7)
            &&& field_is(c.fields[4], "time"@, 16, 7)
            &&& field_is(c.fields[5], "ring"@, 20, 4)
            &&& d.len() == 22 * points.len()
            &&& forall|i: int|
                #![trigger points[i]]
                0 <= i < points.len() ==> {
                    &&& le::le_value(d.subrange(22 * i, 22 * i + 4)) == points[i].x
                    &&& le::le_value(d.subrange(22 * i + 4, 22 * i + 8)) == points[i].y
                    &&& le::le_value(d.subrange(22 * i + 8, 22 * i + 12)) == points[i].z
                    &&& le::le_value(d.subrange(22 * i + 12, 22 * i + 16)) == points[i].intensity
                    &&& le::le_value(d.subrange(22 * i + 16, 22 * i + 20)) == points[i].time
                    &&& le::le_value(d.subrange(22 * i + 20, 22 * i + 22)) == points[i].ring
                }
        }),
{
    let c = conv::standard_cloud(stamp, points);
    let d = c.data;
    if points.len() > 0 {
        conv::lemma_standard_point_stands(points, 0);
    }
    assert forall|i: int| #![trigger points[i]] 0 <= i < points.len() implies {
        &&& le::le_value(d.subrange(22 * i, 22 * i + 4)) == points[i].x
        &&& le::le_value(d.subrange(22 * i + 4, 22 * i + 8)) == points[i].y
        &&& le::le_value(d.subrange(22 * i + 8, 22 * i + 12)) == points[i].z
        &&& le::le_value(d.subrange(22 * i + 12, 22 * i + 16)) == points[i].intensity
        &&& le::le_value(d.subrange(22 * i + 16, 22 * i + 20)) == points[i].time
        &&& le::le_value(d.subrange(22 * i + 20, 22 * i + 22)) == points[i].ring
    } by {
        conv::lemma_standard_point_stands(points, i);
        lemma_standard_numbers(d, 22 * i, points[i]);
    }
}

proof fn lemma_standard_numbers(d: Seq<u8>, base: int, p: StdPointMsg)
    requires
        wire::stands_at(d, base, conv::standard_point_bytes(p)),
    ensures
        le::le_value(d.subrange(base, base + 4)) == p.x,
        le::le_value(d.subrange(base + 4, base + 8)) == p.y,
        le::le_value(d.subrange(base + 8, base + 12)) == p.z,
        le::le_value(d.subrange(base + 12, base + 16)) == p.intensity,
        le::le_value(d.subrange(base + 16, base + 20)) == p.time,
        le::le_value(d.subrange(base + 20, base + 22)) == p.ring,
{
    conv::lemma_standard_offsets();
    let o = conv::standard_offsets(conv::standard_fields())->Some_0;
    conv::lemma_standard_point_reads_back(d, base, p, o);
    conv::lemma_standard_point_len(p);
    le::lemma_le_limits();
    le::lemma_le_value_bound(d.subrange(base, base + 4));
    le::lemma_le_value_bound(d.subrange(base + 4, base + 8));
    le::lemma_le_value_bound(d.subrange(base + 8, base + 12));
    le::lemma_le_value_bound(d.subrange(base + 12, base + 16));
    le::lemma_le_value_bound(d.subrange(base + 16, base + 20));
    le::lemma_le_value_bound(d.subrange(base + 20, base + 22));
}

/// The cloud of a scan of a Livox lidar: one row of points of 20 bytes, in order, with x, y, z in
/// four bytes each, the reflectivity in one, the tag in two, the line in one and the time in four,
/// least significant byte first.
pub proof fn law_avia_scan_is_recorded_point_by_point(stamp: Time, points: Seq<AviaPointMsg>)
    requires
        20 * points.len() < 0x1_0000_0000,
    ensures
        ({
            let c = conv::avia_cloud(stamp, points);
            let d = c.data;
            &&& c.header.stamp == stamp
            &&& c.header.frame_id == "lidar"@
            &&& c.height == 1
            &&& c.width == points.len()
            &&& c.point_step == 20
            &&& c.row_step == 20 * points.len()
            &&& !c.is_bigendian
            &&& c.is_dense
            &&& c.fields.len() == 7
            &&& field_is(c.fields[0], "x"@, 0, 7)
            &&& field_is(c.fields[1], "y"@, 4, 7)
            &&& field_is(c.fields[2], "z"@, 8, 7)
            &&& field_is(c.fields[3], "reflectivity"@, 12, 2)
            &&& field_is(c.fields[4], "tag"@, 13, 4)
            &&& field_is(c.fields[5], "line"@, 15, 2)
            &&& field_is(c.fields[6], "offset_time"@, 16, 6)
            &&& d.len() == 20 * points.len()
            &&& forall|i: int|
                #![trigger points[i]]
                0 <= i < points.len() ==> {
                    &&& le::le_value(d.subrange(20 * i, 20 * i + 4)) == points[i].x
                    &&& le::le_value(d.subrange(20 * i + 4, 20 * i + 8)) == points[i].y
                    &&& le::le_value(d.subrange(20 * i + 8, 20 * i + 12)) == points[i].z
                    &&& d[20 * i + 12] == points[i].reflectivity
                    &&& le::le_value(d.subrange(20 * i + 13, 20 * i + 15)) == points[i].tag
                    &&& d[20 * i + 15] == points[i].line
                    &&& le::le_value(d.subrange(20 * i + 16, 20 * i + 20))
                        == points[i].offset_time
                }
        }),
{
    let c = conv::avia_cloud(stamp, points);
    let d = c.data;
    if points.len() > 0 {
        conv::lemma_avia_point_stands(points, 0);
    }
    assert forall|i: int| #![trigger points[i]] 0 <= i < points.len() implies {
        &&& le::le_value(d.subrange(20 * i, 20 * i + 4)) == points[i].x
        &&& le::le_value(d.subrange(20 * i + 4, 20 * i + 8)) == points[i].y
        &&& le::le_value(d.subrange(20 * i + 8, 20 * i + 12)) == points[i].z
        &&& d[20 * i + 12] == points[i].reflectivity
        &&& le::le_value(d.subrange(20 * i + 13, 20 * i + 15)) == points[i].tag
        &&& d[20 * i + 15] == points[i].line
        &&& le::le_value(d.subrange(20 * i + 16, 20 * i + 20)) == points[i].offset_time
    } by {
        conv::lemma_avia_point_stands(points, i);
        lemma_avia_numbers(d, 20 * i, points[i]);
    }
}

proof fn lemma_one_byte(d: Seq<u8>, pos: int)
    requires
        0 <= pos < d.len(),
    ensures
        le::le_value(d.subrange(pos, pos + 1)) == d[pos],
{
    let s = d.subrange(pos, pos + 1);
    assert(s.drop_first().len() == 0);
    assert(le::le_value(s.drop_first()) == 0);
}

proof fn lemma_avia_numbers(d: Seq<u8>, base: int, p: AviaPointMsg)
    requires
        wire::stands_at(d, base, conv::avia_point_bytes(p)),
    ensures
        le::le_value(d.subrange(base, base + 4)) == p.x,
        le::le_value(d.subrange(base + 4, base + 8)) == p.y,
        le::le_value(d.subrange(base + 8, base + 12)) == p.z,
        d[base + 12] == p.reflectivity,
        le::le_value(d.subrange(base + 13, base + 15)) == p.tag,
        d[base + 15] == p.line,
        le::le_value(d.subrange(base + 16, base + 20)) == p.offset_time,
{
    conv::lemma_avia_offsets();
    let o = conv::avia_offsets(conv::avia_fields())->Some_0;
    conv::lemma_avia_point_reads_back(d, base, p, o);
    conv::lemma_avia_point_len(p);
    le::lemma_le_limits();
    lemma_one_byte(d, base + 12);
    lemma_one_byte(d, base + 15);
    le::lemma_le_value_bound(d.subrange(base, base + 4));
    le::lemma_le_value_bound(d.subrange(base + 4, base + 8));
    le::lemma_le_value_bound(d.subrange(base + 8, base + 12));
    le::lemma_le_value_bound(d.subrange(base + 13, base + 15));
    le::lemma_le_value_bound(d.subrange(base + 16, base + 20));
}

/// The numbers that are listed for a recorded scan are the x, y and z of its points, in order.
#[verifier::rlimit(40)]
pub proof fn law_listed_numbers_are_those_of_the_scan(m: MessageView, v: SensorView)
    requires
        conv::sensor_fits(v),
        m.schema.typename == "doracap/PointCloud"@,
        m.payload == conv::recorded_as(v).2,
    ensures
        ({
            let s = json::scalars_of(m);
            match v {
                SensorView::Imu(_, _, _) => true,
                SensorView::LidarStandard(_, points) => s.len() == 1 + 3 * points.len()
                    && forall|i: int|
                    #![trigger points[i]]
                    0 <= i < points.len() ==> {
                        &&& s[1 + 3 * i] == Scalar::Coordinate(Number::Single(points[i].x))
                        &&& s[2 + 3 * i] == Scalar::Coordinate(Number::Single(points[i].y))
                        &&& s[3 + 3 * i] == Scalar::Coordinate(Number::Single(points[i].z))
                    },
                SensorView::LidarAvia(_, points) => s.len() == 1 + 3 * points.len() && forall|
                    i: int,
                |
                    #![trigger points[i]]
                    0 <= i < points.len() ==> {
                        &&& s[1 + 3 * i] == Scalar::Coordinate(Number::Single(points[i].x))
                        &&& s[2 + 3 * i] == Scalar::Coordinate(Number::Single(points[i].y))
                        &&& s[3 + 3 * i] == Scalar::Coordinate(Number::Single(points[i].z))
                    },
            }
        }),
{
    match v {
        SensorView::Imu(_, _, _) => {},
        SensorView::LidarStandard(stamp, points) => {
            let c = conv::standard_cloud(stamp, points);
            conv::lemma_standard_cloud_fits(stamp, points);
            law_standard_scan_is_recorded_point_by_point(stamp, points);
            conv::lemma_standard_offsets();
            conv::lemma_standard_places();
            let s = json::scalars_of(m);
            lemma_scalars_of_cloud(m, c);
            assert forall|i: int| #![trigger points[i]] 0 <= i < points.len() implies {
                &&& s[1 + 3 * i] == Scalar::Coordinate(Number::Single(points[i].x))
                &&& s[2 + 3 * i] == Scalar::Coordinate(Number::Single(points[i].y))
                &&& s[3 + 3 * i] == Scalar::Coordinate(Number::Single(points[i].z))
            } by {
                lemma_coordinates_at(c, points.len(), i);
                assert(i * 22 == 22 * i);
            }
        },
        SensorView::LidarAvia(stamp, points) => {
            let c = conv::avia_cloud(stamp, points);
            conv::lemma_avia_cloud_fits(stamp, points);
            law_avia_scan_is_recorded_point_by_point(stamp, points);
            conv::lemma_avia_offsets();
            conv::lemma_avia_places();
            let s = json::scalars_of(m);
            lemma_scalars_of_cloud(m, c);
            assert forall|i: int| #![trigger points[i]] 0 <= i < points.len() implies {
                &&& s[1 + 3 * i] == Scalar::Coordinate(Number::Single(points[i].x))
                &&& s[2 + 3 * i] == Scalar::Coordinate(Number::Single(points[i].y))
                &&& s[3 + 3 * i] == Scalar::Coordinate(Number::Single(points[i].z))
            } by {
                lemma_coordinates_at(c, points.len(), i);
                assert(i * 20 == 20 * i);
            }
        },
    }
}

proof fn lemma_scalars_of_cloud(m: MessageView, c: CloudView)
    requires
        m.schema.typename == "doracap/PointCloud"@,
        PointCloud::fits(c),
        m.payload == PointCloud::encoded(c),
        c.height == 1,
    ensures
        json::scalars_of(m) == seq![Scalar::Stamp(m.stamp)] + json::coordinates(c, c.width as nat),
        json::coordinates(c, c.width as nat).len() == 3 * c.width,
{
    PointCloud::law_decodes_to_itself(c);
    assert(c.width as nat * c.height as nat == c.width) by (nonlinear_arith)
        requires
            c.height == 1,
    ;
    json::lemma_coordinates_len(c, c.width as nat);
}

// ---------- measurements ----------

/// What is recorded of a measurement, decoded, has its time, its accelerations and its turn rates
/// in their places, the frame of the inertial sensor, and no covariances.
pub proof fn law_recorded_measurement_decodes(stamp: Time, acc: Seq<u64>, gyr: Seq<u64>)
    requires
        acc.len() == 3,
        gyr.len() == 3,
    ensures
        ({
            let (channel, at, payload) = conv::recorded_as(SensorView::Imu(stamp, acc, gyr));
            &&& channel == "imu"@
            &&& at == stamp
            &&& Imu::decoded(payload) matches Ok(m) && {
                &&& m.header.stamp == stamp
                &&& m.header.frame_id == "imu"@
                &&& m.lin_acc == acc
                &&& m.ang_vel == gyr
                &&& m.orientation == seq![0u64, 0, 0, 0x3ff0_0000_0000_0000]
                &&& m.orientation_cov == Seq::new(9, |i: int| 0u64)
                &&& m.ang_vel_cov == Seq::new(9, |i: int| 0u64)
                &&& m.lin_acc_cov == Seq::new(9, |i: int| 0u64)
            }
        }),
{
    let m = conv::imu_message(stamp, acc, gyr);
    reveal_strlit("imu");
    conv::lemma_short_text_fits("imu"@);
    Imu::law_decodes_to_itself(m);
    assert(conv::nine_zeros() =~= Seq::new(9, |i: int| 0u64));
}

/// Scans are recorded on the channel of the lidar, under their own time.
pub proof fn law_scans_go_to_the_lidar(v: SensorView)
    ensures
        match v {
            SensorView::Imu(_, _, _) => true,
            SensorView::LidarStandard(stamp, _) => conv::recorded_as(v).0 == "lidar"@
                && conv::recorded_as(v).1 == stamp,
            SensorView::LidarAvia(stamp, _) => conv::recorded_as(v).0 == "lidar"@
                && conv::recorded_as(v).1 == stamp,
        },
{
}

/// A message on the channel of the inertial sensor gives its accelerations and its turn rates, one
/// on the channel of the lidar its scan, and one on any other channel nothing.
pub proof fn law_channels_tell_sensors_apart(channel: Seq<char>, payload: Seq<u8>, i: ImuView)
    ensures
        channel != "imu"@ && channel != "lidar"@ ==> conv::sensor_of(channel, payload) is None,
        Imu::fits(i) && payload == Imu::encoded(i) ==> conv::sensor_of("imu"@, payload) == Some(
            SensorView::Imu(i.header.stamp, i.lin_acc, i.ang_vel),
        ),
        conv::sensor_of("lidar"@, payload) is Some ==> !(conv::sensor_of("lidar"@, payload)->Some_0
            is Imu) && PointCloud::decoded(payload) is Ok,
        PointCloud::decoded(payload) matches Ok(c) ==> conv::sensor_of("lidar"@, payload)
            == conv::sensor_of_cloud(c),
        Imu::decoded(payload) is Err ==> conv::sensor_of("imu"@, payload) is None,
{
    reveal_strlit("imu");
    reveal_strlit("lidar");
    assert("imu"@.len() != "lidar"@.len());
    if Imu::fits(i) && payload == Imu::encoded(i) {
        Imu::law_decodes_to_itself(i);
    }
}

// ---------- number by number ----------

/// Whether the `n` bytes of point `i` at `off` are there.
pub open spec fn number_fits(c: CloudView, i: int, off: u32, n: int) -> bool {
    i * c.point_step + off + n <= c.data.len()
}

/// The number in the `n` bytes of point `i` at `off`, in the order of bytes of the cloud.
pub open spec fn number_in(c: CloudView, i: int, off: u32, n: int) -> nat {
    let p = i * c.point_step + off;
    le::le_value(
        if c.is_bigendian {
            c.data.subrange(p, p + n).reverse()
        } else {
            c.data.subrange(p, p + n)
        },
    )
}

proof fn lemma_number_bound(c: CloudView, i: int, off: u32, n: int)
    requires
        0 <= i,
        0 <= n,
        number_fits(c, i, off, n),
    ensures
        conv::scalar_at(c.data, c.is_bigendian, i * c.point_step + off, n as nat) == Some(
            number_in(c, i, off, n),
        ),
        number_in(c, i, off, n) < le::le_limit(n as nat),
{
    let p = i * c.point_step + off;
    assert(0 <= i * c.point_step) by (nonlinear_arith)
        requires
            0 <= i,
            0 <= c.point_step,
    ;
    le::lemma_le_value_bound(c.data.subrange(p, p + n));
    le::lemma_le_value_bound(c.data.subrange(p, p + n).reverse());
}

/// Whether all numbers of point `i` of a scan of a spinning lidar are there.
pub open spec fn standard_point_fits(c: CloudView, o: conv::StdPointMsgOffsets, i: int) -> bool {
    number_fits(c, i, o.x, 4) && number_fits(c, i, o.y, 4) && number_fits(c, i, o.z, 4)
        && number_fits(c, i, o.intensity, 4) && number_fits(c, i, o.time, 4) && number_fits(
        c,
        i,
        o.ring,
        2,
    )
}

/// Whether all numbers of point `i` are there, and are those of `p`.
pub open spec fn standard_point_is(
    c: CloudView,
    o: conv::StdPointMsgOffsets,
    i: int,
    p: StdPointMsg,
) -> bool {
    &&& standard_point_fits(c, o, i)
    &&& p.x == number_in(c, i, o.x, 4)
    &&& p.y == number_in(c, i, o.y, 4)
    &&& p.z == number_in(c, i, o.z, 4)
    &&& p.intensity == number_in(c, i, o.intensity, 4)
    &&& p.time == number_in(c, i, o.time, 4)
    &&& p.ring == number_in(c, i, o.ring, 2)
}

proof fn lemma_standard_point(c: CloudView, o: conv::StdPointMsgOffsets, i: int)
    requires
        0 <= i,
    ensures
        match conv::standard_point_at(c.data, c.is_bigendian, i * c.point_step, o) {
            Some(p) => standard_point_is(c, o, i, p),
            None => !standard_point_fits(c, o, i),
        },
{
    le::lemma_le_limits();
    if standard_point_fits(c, o, i) {
        lemma_number_bound(c, i, o.x, 4);
        lemma_number_bound(c, i, o.y, 4);
        lemma_number_bound(c, i, o.z, 4);
        lemma_number_bound(c, i, o.intensity, 4);
        lemma_number_bound(c, i, o.time, 4);
        lemma_number_bound(c, i, o.ring, 2);
    }
}

proof fn lemma_standard_points(c: CloudView, o: conv::StdPointMsgOffsets, n: nat)
    ensures
        match conv::standard_points(c.data, c.is_bigendian, c.point_step as nat, o, n) {
            Some(s) => s.len() == n && forall|i: int|
                0 <= i < n ==> standard_point_is(c, o, i, #[trigger] s[i]),
            None => exists|i: int| 0 <= i < n && !(#[trigger] standard_point_fits(c, o, i)),
        },
    decreases n,
{
    if n > 0 {
        lemma_standard_points(c, o, (n - 1) as nat);
        lemma_standard_point(c, o, n - 1);
    }
}

/// A cloud holds a scan of a spinning lidar exactly where it has the six fields and, for each point
/// that it announces, all their bytes; the numbers of a point are those of its bytes, at the places
/// that the fields give, in the order of bytes that the cloud gives.
pub proof fn law_standard_scan_number_by_number(c: CloudView, o: conv::StdPointMsgOffsets)
    requires
        conv::field_named(c.fields, "x"@) matches Some(f) && f.offset == o.x,
        conv::field_named(c.fields, "y"@) matches Some(f) && f.offset == o.y,
        conv::field_named(c.fields, "z"@) matches Some(f) && f.offset == o.z,
        conv::field_named(c.fields, "intensity"@) matches Some(f) && f.offset == o.intensity,
        conv::field_named(c.fields, "time"@) matches Some(f) && f.offset == o.time,
        conv::field_named(c.fields, "ring"@) matches Some(f) && f.offset == o.ring,
    ensures
        match conv::standard_points_of(c) {
            Some(s) => s.len() == c.width as nat * c.height as nat && forall|i: int|
                0 <= i < s.len() ==> standard_point_is(c, o, i, #[trigger] s[i]),
            None => exists|i: int|
                0 <= i < c.width as nat * c.height as nat && !(#[trigger] standard_point_fits(
                    c,
                    o,
                    i,
                )),
        },
{
    assert(conv::standard_offsets(c.fields) == Some(o));
    lemma_standard_points(c, o, c.width as nat * c.height as nat);
}

/// Whether all numbers of point `i` of a scan of a Livox lidar are there.
pub open spec fn avia_point_fits(c: CloudView, o: conv::AviaPointMsgOffsets, i: int) -> bool {
    number_fits(c, i, o.x, 4) && number_fits(c, i, o.y, 4) && number_fits(c, i, o.z, 4)
        && number_fits(c, i, o.reflectivity, 1) && number_fits(c, i, o.tag, 2) && number_fits(
        c,
        i,
        o.line,
        1,
    ) && number_fits(c, i, o.offset_time, 4)
}

/// Whether all numbers of point `i` are there, and are those of `p`.
pub open spec fn avia_point_is(
    c: CloudView,
    o: conv::AviaPointMsgOffsets,
    i: int,
    p: AviaPointMsg,
) -> bool {
    &&& avia_point_fits(c, o, i)
    &&& p.x == number_in(c, i, o.x, 4)
    &&& p.y == number_in(c, i, o.y, 4)
    &&& p.z == number_in(c, i, o.z, 4)
    &&& p.reflectivity == number_in(c, i, o.reflectivity, 1)
    &&& p.tag == number_in(c, i, o.tag, 2)
    &&& p.line == number_in(c, i, o.line, 1)
    &&& p.offset_time == number_in(c, i, o.offset_time, 4)
}

proof fn lemma_avia_point(c: CloudView, o: conv::AviaPointMsgOffsets, i: int)
    requires
        0 <= i,
    ensures
        match conv::avia_point_at(c.data, c.is_bigendian, i * c.point_step, o) {
            Some(p) => avia_point_is(c, o, i, p),
            None => !avia_point_fits(c, o, i),
        },
{
    le::lemma_le_limits();
    if avia_point_fits(c, o, i) {
        lemma_number_bound(c, i, o.x, 4);
        lemma_number_bound(c, i, o.y, 4);
        lemma_number_bound(c, i, o.z, 4);
        lemma_number_bound(c, i, o.reflectivity, 1);
        lemma_number_bound(c, i, o.tag, 2);
        lemma_number_bound(c, i, o.line, 1);
        lemma_number_bound(c, i, o.offset_time, 4);
    }
}

proof fn lemma_avia_points(c: CloudView, o: conv::AviaPointMsgOffsets, n: nat)
    ensures
        match conv::avia_points(c.data, c.is_bigendian, c.point_step as nat, o, n) {
            Some(s) => s.len() == n && forall|i: int|
                0 <= i < n ==> avia_point_is(c, o, i, #[trigger] s[i]),
            None => exists|i: int| 0 <= i < n && !(#[trigger] avia_point_fits(c, o, i)),
        },
    decreases n,
{
    if n > 0 {
        lemma_avia_points(c, o, (n - 1) as nat);
        lemma_avia_point(c, o, n - 1);
    }
}

/// A cloud holds a scan of a Livox lidar exactly where it has the seven fields and, for each point
/// that it announces, all their bytes; the numbers of a point are those of its bytes, at the places
/// that the fields give, in the order of bytes that the cloud gives.
pub proof fn law_avia_scan_number_by_number(c: CloudView, o: conv::AviaPointMsgOffsets)
    requires
        conv::field_named(c.fields, "x"@) matches Some(f) && f.offset == o.x,
        conv::field_named(c.fields, "y"@) matches Some(f) && f.offset == o.y,
        conv::field_named(c.fields, "z"@) matches Some(f) && f.offset == o.z,
        conv::field_named(c.fields, "reflectivity"@) matches Some(f) && f.offset == o.reflectivity,
        conv::field_named(c.fields, "tag"@) matches Some(f) && f.offset == o.tag,
        conv::field_named(c.fields, "line"@) matches Some(f) && f.offset == o.line,
        conv::field_named(c.fields, "offset_time"@) matches Some(f) && f.offset == o.offset_time,
    ensures
        match conv::avia_points_of(c) {
            Some(s) => s.len() == c.width as nat * c.height as nat && forall|i: int|
                0 <= i < s.len() ==> avia_point_is(c, o, i, #[trigger] s[i]),
            None => exists|i: int|
                0 <= i < c.width as nat * c.height as nat && !(#[trigger] avia_point_fits(
                    c,
                    o,
                    i,
                )),
        },
{
    assert(conv::avia_offsets(c.fields) == Some(o));
    lemma_avia_points(c, o, c.width as nat * c.height as nat);
}

/// The coordinate that is listed for point `i` of any cloud: a field of 32-bit or 64-bit numbers is
/// read from the bytes of that point, if they are there; everything else counts as zero.
pub open spec fn coordinate_is(c: CloudView, name: Seq<char>, i: int, x: Number) -> bool {
    match conv::field_named(c.fields, name) {
        None => x == Number::Double(0),
        Some(f) => {
            let n: int = if f.datatype == 7 {
                4
            } else {
                8
            };
            if (f.datatype == 7 || f.datatype == 8) && number_fits(c, i, f.offset, n) {
                match x {
                    Number::Single(v) => f.datatype == 7 && v == number_in(c, i, f.offset, 4),
                    Number::Double(v) => f.datatype == 8 && v == number_in(c, i, f.offset, 8),
                }
            } else {
                x == Number::Double(0)
            }
        },
    }
}

proof fn lemma_coordinate_is(c: CloudView, name: Seq<char>, i: nat)
    ensures
        coordinate_is(c, name, i as int, json::coordinate(c, name, i)),
{
    if let Some(f) = conv::field_named(c.fields, name) {
        let n: int = if f.datatype == 7 {
            4
        } else {
            8
        };
        le::lemma_le_limits();
        if number_fits(c, i as int, f.offset, n) {
            lemma_number_bound(c, i as int, f.offset, n);
        }
    }
}

/// The numbers listed for any cloud are the time of the message, then three for each point that it
/// announces, x, y and z, each read from the bytes of that point.
pub proof fn law_listed_numbers_of_any_cloud(m: MessageView, c: CloudView, i: int)
    requires
        m.schema.typename == "doracap/PointCloud"@,
        PointCloud::decoded(m.payload) == Ok::<CloudView, Seq<char>>(c),
        0 <= i < c.width as nat * c.height as nat,
    ensures
        ({
            let s = json::scalars_of(m);
            &&& s.len() == 1 + 3 * (c.width as nat * c.height as nat)
            &&& s[0] == Scalar::Stamp(m.stamp)
            &&& s[1 + 3 * i] matches Scalar::Coordinate(x) && coordinate_is(c, "x"@, i, x)
            &&& s[2 + 3 * i] matches Scalar::Coordinate(y) && coordinate_is(c, "y"@, i, y)
            &&& s[3 + 3 * i] matches Scalar::Coordinate(z) && coordinate_is(c, "z"@, i, z)
        }),
{
    let n = c.width as nat * c.height as nat;
    let s = json::scalars_of(m);
    assert(json::point_count(c) == n);
    json::lemma_coordinates_len(c, n);
    assert(json::content_of(m) == json::Content::Cloud(c));
    assert(s == seq![Scalar::Stamp(m.stamp)] + json::coordinates(c, n));
    lemma_coordinates_at(c, n, i);
    lemma_coordinate_is(c, "x"@, i as nat);
    lemma_coordinate_is(c, "y"@, i as nat);
    lemma_coordinate_is(c, "z"@, i as nat);
}

} // verus!
