//! Conversion between sensor data and standard messages.
//!
//! Point clouds of both kinds of sensor become [`PointCloud`]s whose fields describe the points,
//! with the time of each point among them. Floating-point numbers are carried as bit patterns.

use crate::le::{get_be, get_le, push_le};
use crate::message::OwnedMessage;
use crate::msgs::codec::Codec;
use crate::msgs::types::{
    CloudView, FieldView, Header, HeaderView, Imu, ImuView, PointCloud, PointField, Time,
};
use crate::text::{same_text, text_of};
use crate::{le, message, wire};
use vstd::prelude::*;

verus! {

/// A measurement of the inertial sensor; each number as its 64-bit pattern.
#[derive(Clone, Copy, Debug, PartialEq)]
pub struct ImuRaw {
    pub stamp: Time,
    pub acc: [u64; 3],
    pub gyr: [u64; 3],
}

/// A point of a spinning lidar; each floating-point number as its 32-bit pattern.
#[derive(Clone, Copy, Debug, PartialEq)]
pub struct StdPointMsg {
    pub x: u32,
    pub y: u32,
    pub z: u32,
    pub intensity: u32,
    pub time: u32,
    pub ring: u16,
}

/// A scan of a spinning lidar.
#[derive(Debug, PartialEq)]
pub struct StandardMsg {
    pub stamp: Time,
    pub points: Vec<StdPointMsg>,
}

/// A point of a Livox lidar; each floating-point number as its 32-bit pattern.
#[derive(Clone, Copy, Debug, PartialEq)]
pub struct AviaPointMsg {
    pub x: u32,
    pub y: u32,
    pub z: u32,
    pub reflectivity: u8,
    pub tag: u16,
    pub line: u8,
    pub offset_time: u32,
}

/// A scan of a Livox lidar.
#[derive(Debug, PartialEq)]
pub struct AviaMsg {
    pub stamp: Time,
    pub points: Vec<AviaPointMsg>,
}

/// What a sensor gives.
#[derive(Debug, PartialEq)]
pub enum SensorData {
    Imu(ImuRaw),
    LidarStandard(StandardMsg),
    LidarAvia(AviaMsg),
}

/// What [`SensorData`] says.
#[verifier::ext_equal]
pub enum SensorView {
    Imu(Time, Seq<u64>, Seq<u64>),
    LidarStandard(Time, Seq<StdPointMsg>),
    LidarAvia(Time, Seq<AviaPointMsg>),
}

impl View for SensorData {
    type V = SensorView;

    open spec fn view(&self) -> SensorView {
        match self {
            SensorData::Imu(m) => SensorView::Imu(m.stamp, m.acc@, m.gyr@),
            SensorData::LidarStandard(m) => SensorView::LidarStandard(m.stamp, m.points@),
            SensorData::LidarAvia(m) => SensorView::LidarAvia(m.stamp, m.points@),
        }
    }
}

// ---------- inertial measurements ----------

/// Nine zeros.
pub open spec fn nine_zeros() -> Seq<u64> {
    seq![0, 0, 0, 0, 0, 0, 0, 0, 0]
}

/// The message of a measurement. The last of the four numbers of its orientation is one, the
/// others are zero: with the real part first, as it is stored, that is half a turn about the
/// third axis. Its covariances are zero.
pub open spec fn imu_message(stamp: Time, acc: Seq<u64>, gyr: Seq<u64>) -> ImuView {
    ImuView {
        header: HeaderView { stamp, frame_id: "imu"@ },
        orientation: seq![0, 0, 0, 0x3ff0_0000_0000_0000],
        orientation_cov: nine_zeros(),
        ang_vel: gyr,
        ang_vel_cov: nine_zeros(),
        lin_acc: acc,
        lin_acc_cov: nine_zeros(),
    }
}

pub fn zeros() -> (a: [u64; 9])
    ensures
        a@ == nine_zeros(),
{
    let a: [u64; 9] = [0, 0, 0, 0, 0, 0, 0, 0, 0];
    assert(a@ =~= nine_zeros());
    a
}

pub fn imu_to_msg(imu: &ImuRaw) -> (m: Imu)
    ensures
        m@ == imu_message(imu.stamp, imu.acc@, imu.gyr@),
{
    let orientation: [u64; 4] = [0, 0, 0, 0x3ff0_0000_0000_0000];
    assert(orientation@ =~= seq![0, 0, 0, 0x3ff0_0000_0000_0000]);
    Imu {
        header: Header { stamp: imu.stamp, frame_id: text_of("imu") },
        orientation,
        orientation_cov: zeros(),
        ang_vel: imu.gyr,
        ang_vel_cov: zeros(),
        lin_acc: imu.acc,
        lin_acc_cov: zeros(),
    }
}

pub fn imu_from_msg(m: &Imu) -> (r: ImuRaw)
    ensures
        r == (ImuRaw { stamp: m.header.stamp, acc: m.lin_acc, gyr: m.ang_vel }),
{
    ImuRaw { stamp: m.header.stamp, acc: m.lin_acc, gyr: m.ang_vel }
}

/// A measurement comes back from its message as it was.
pub proof fn law_imu_comes_back(imu: ImuRaw, m: Imu)
    requires
        m@ == imu_message(imu.stamp, imu.acc@, imu.gyr@),
    ensures
        m.header.stamp == imu.stamp,
        m.lin_acc@ == imu.acc@,
        m.ang_vel@ == imu.gyr@,
{
}

// ---------- fields of points ----------

/// The first field with the given name.
pub open spec fn field_named(s: Seq<FieldView>, name: Seq<char>) -> Option<FieldView>
    decreases s.len(),
{
    if s.len() == 0 {
        None
    } else if s[0].name == name {
        Some(s[0])
    } else {
        field_named(s.drop_first(), name)
    }
}

/// The first field with the given name.
pub fn field_of<'a>(pc: &'a PointCloud, name: &str) -> (r: Option<&'a PointField>)
    ensures
        match r {
            Some(f) => field_named(pc@.fields, name@) == Some(f@),
            None => field_named(pc@.fields, name@) is None,
        },
{
    let mut i: usize = 0;
    assert(pc@.fields.skip(0) =~= pc@.fields);
    while i < pc.fields.len()
        invariant
            i <= pc.fields.len(),
            field_named(pc@.fields, name@) == field_named(pc@.fields.skip(i as int), name@),
        decreases pc.fields.len() - i,
    {
        assert(pc@.fields.skip(i as int).drop_first() =~= pc@.fields.skip(i + 1));
        if same_text(pc.fields[i].name.as_str(), name) {
            return Some(&pc.fields[i]);
        }
        i = i + 1;
    }
    None
}

/// Where the first field with the given name stands in a point.
fn field(pc: &PointCloud, name: &str) -> (r: Option<u32>)
    ensures
        match r {
            Some(offset) => field_named(pc@.fields, name@) matches Some(f) && f.offset == offset,
            None => field_named(pc@.fields, name@) is None,
        },
{
    match field_of(pc, name) {
        Some(f) => Some(f.offset),
        None => None,
    }
}

fn has_field(pc: &PointCloud, name: &str) -> (r: bool)
    ensures
        r == (field_named(pc@.fields, name@) is Some),
{
    field(pc, name).is_some()
}

/// The number in the `n` bytes of `data` at `off`, if they are there; where `big` is set, its
/// most significant byte comes first.
pub open spec fn scalar_at(data: Seq<u8>, big: bool, off: int, n: nat) -> Option<nat> {
    if off + n > data.len() {
        None
    } else if big {
        Some(le::le_value(data.subrange(off, off + n).reverse()))
    } else {
        Some(wire::number(data, off, n))
    }
}

/// Reads the number of `n` bytes of the field at `offset` in the point at `base`.
pub fn read_scalar(data: &[u8], big: bool, base: u128, offset: u32, n: usize) -> (r: Option<u64>)
    requires
        n <= 8,
        base <= u128::MAX - 0x1_0000_0000,
    ensures
        match r {
            Some(v) => scalar_at(data@, big, base + offset, n as nat) == Some(v as nat) && v
                < le::le_limit(n as nat),
            None => scalar_at(data@, big, base + offset, n as nat) is None,
        },
{
    let off: u128 = base + offset as u128;
    if data.len() < n || off > (data.len() - n) as u128 {
        return None;
    }
    if big {
        Some(get_be(data, off as usize, n))
    } else {
        Some(get_le(data, off as usize, n))
    }
}

pub fn point_field(name: &str, offset: u32, datatype: u8) -> (f: PointField)
    ensures
        f@ == field_view(name@, offset, datatype),
{
    PointField { name: text_of(name), offset, datatype, count: 1 }
}

pub open spec fn field_view(name: Seq<char>, offset: u32, datatype: u8) -> FieldView {
    FieldView { name, offset, datatype, count: 1 }
}

/// The cloud of one row of points that `data` holds.
pub open spec fn row_of_points(
    stamp: Time,
    fields: Seq<FieldView>,
    step: nat,
    n: nat,
    data: Seq<u8>,
) -> CloudView {
    CloudView {
        header: HeaderView { stamp, frame_id: "lidar"@ },
        height: 1,
        width: (n % 0x1_0000_0000) as u32,
        fields,
        is_bigendian: false,
        point_step: step as u32,
        row_step: ((step * n) % 0x1_0000_0000) as u32,
        data,
        is_dense: true,
    }
}

fn low32(n: u128) -> (r: u32)
    ensures
        r == n % 0x1_0000_0000,
{
    (n % 0x1_0000_0000) as u32
}

fn cloud_of(stamp: Time, fields: Vec<PointField>, step: u32, n: usize, data: Vec<u8>) -> (c:
    PointCloud)
    ensures
        c@ == row_of_points(stamp, message::views(fields@), step as nat, n as nat, data@),
{
    assert(0 <= step * n <= 0x1_0000_0000 * 0x1_0000_0000_0000_0000) by (nonlinear_arith)
        requires
            0 <= step < 0x1_0000_0000,
            0 <= n <= 0x1_0000_0000_0000_0000,
    ;
    PointCloud {
        header: Header { stamp, frame_id: text_of("lidar") },
        height: 1,
        width: low32(n as u128),
        fields,
        is_bigendian: false,
        point_step: step,
        row_step: low32(step as u128 * n as u128),
        data,
        is_dense: true,
    }
}

/// The number of points that a cloud announces.
pub fn count_of(pc: &PointCloud) -> (n: u64)
    ensures
        n == pc.width as nat * pc.height as nat,
{
    let w: u64 = pc.width as u64;
    let h: u64 = pc.height as u64;
    assert(0 <= w * h <= 0xffff_ffff * 0xffff_ffff) by (nonlinear_arith)
        requires
            0 <= w <= 0xffff_ffff,
            0 <= h <= 0xffff_ffff,
    ;
    w * h
}

pub proof fn lemma_base_fits(i: u64, step: u32)
    ensures
        0 <= i * step <= 0x1_0000_0000_0000_0000 * 0x1_0000_0000,
        (i + 1) * step == i * step + step,
{
    assert(0 <= i * step <= 0x1_0000_0000_0000_0000 * 0x1_0000_0000) by (nonlinear_arith)
        requires
            0 <= i <= 0x1_0000_0000_0000_0000,
            0 <= step <= 0x1_0000_0000,
    ;
    assert((i + 1) * step == i * step + step) by (nonlinear_arith);
}

/// A field that no field before it shares its name with is found under its name.
pub proof fn lemma_field_at(s: Seq<FieldView>, i: int)
    requires
        0 <= i < s.len(),
        forall|k: int| 0 <= k < i ==> (#[trigger] s[k]).name != s[i].name,
    ensures
        field_named(s, s[i].name) == Some(s[i]),
    decreases i,
{
    if i > 0 {
        assert(s[0].name != s[i].name);
        let t = s.drop_first();
        assert forall|k: int| 0 <= k < i - 1 implies (#[trigger] t[k]).name != t[i - 1].name by {
            assert(s[k + 1].name != s[i].name);
        }
        lemma_field_at(t, i - 1);
    }
}

// ---------- scans of spinning lidars ----------

/// Length of a stored point.
pub const STANDARD_POINT_STEP: u32 = 22;

pub open spec fn standard_fields() -> Seq<FieldView> {
    seq![
        field_view("x"@, 0, 7),
        field_view("y"@, 4, 7),
        field_view("z"@, 8, 7),
        field_view("intensity"@, 12, 7),
        field_view("time"@, 16, 7),
        field_view("ring"@, 20, 4),
    ]
}

/// A stored point.
#[verifier::opaque]
pub open spec fn standard_point_bytes(p: StdPointMsg) -> Seq<u8> {
    le::le_bytes(p.x as nat, 4) + le::le_bytes(p.y as nat, 4) + le::le_bytes(p.z as nat, 4)
        + le::le_bytes(p.intensity as nat, 4) + le::le_bytes(p.time as nat, 4)
        + le::le_bytes(p.ring as nat, 2)
}

pub open spec fn standard_points_bytes(s: Seq<StdPointMsg>) -> Seq<u8>
    decreases s.len(),
{
    if s.len() == 0 {
        Seq::empty()
    } else {
        standard_points_bytes(s.drop_last()) + standard_point_bytes(s.last())
    }
}

/// The cloud of a scan.
pub open spec fn standard_cloud(stamp: Time, points: Seq<StdPointMsg>) -> CloudView {
    row_of_points(stamp, standard_fields(), 22, points.len(), standard_points_bytes(points))
}

fn push_standard_point(out: &mut Vec<u8>, p: &StdPointMsg)
    ensures
        final(out)@ == old(out)@ + standard_point_bytes(*p),
{
    let ghost before = out@;
    push_le(out, p.x as u64, 4);
    push_le(out, p.y as u64, 4);
    push_le(out, p.z as u64, 4);
    push_le(out, p.intensity as u64, 4);
    push_le(out, p.time as u64, 4);
    push_le(out, p.ring as u64, 2);
    proof {
        reveal(standard_point_bytes);
        assert(out@ =~= before + standard_point_bytes(*p));
    }
}

pub fn standard_to_pc(s: &StandardMsg) -> (c: PointCloud)
    ensures
        c@ == standard_cloud(s.stamp, s.points@),
{
    let mut fields: Vec<PointField> = Vec::new();
    fields.push(point_field("x", 0, 7));
    fields.push(point_field("y", 4, 7));
    fields.push(point_field("z", 8, 7));
    fields.push(point_field("intensity", 12, 7));
    fields.push(point_field("time", 16, 7));
    fields.push(point_field("ring", 20, 4));
    assert(message::views(fields@) =~= standard_fields());
    let mut data: Vec<u8> = Vec::new();
    let mut i: usize = 0;
    assert(data@ =~= standard_points_bytes(s.points@.take(0)));
    while i < s.points.len()
        invariant
            i <= s.points.len(),
            data@ == standard_points_bytes(s.points@.take(i as int)),
        decreases s.points.len() - i,
    {
        push_standard_point(&mut data, &s.points[i]);
        assert(s.points@.take(i + 1).drop_last() =~= s.points@.take(i as int));
        i = i + 1;
    }
    assert(s.points@.take(i as int) =~= s.points@);
    cloud_of(s.stamp, fields, STANDARD_POINT_STEP, s.points.len(), data)
}

/// Where the fields of a point stand in it.
#[derive(Clone, Copy)]
pub struct StdPointMsgOffsets {
    pub x: u32,
    pub y: u32,
    pub z: u32,
    pub intensity: u32,
    pub time: u32,
    pub ring: u32,
}

/// Where the fields stand in the points of a cloud, if it has all of them.
pub open spec fn standard_offsets(s: Seq<FieldView>) -> Option<StdPointMsgOffsets> {
    match (
        field_named(s, "x"@),
        field_named(s, "y"@),
        field_named(s, "z"@),
        field_named(s, "intensity"@),
        field_named(s, "time"@),
        field_named(s, "ring"@),
    ) {
        (Some(x), Some(y), Some(z), Some(intensity), Some(time), Some(ring)) => Some(
            StdPointMsgOffsets {
                x: x.offset,
                y: y.offset,
                z: z.offset,
                intensity: intensity.offset,
                time: time.offset,
                ring: ring.offset,
            },
        ),
        _ => None,
    }
}

fn find_standard_offsets(pc: &PointCloud) -> (r: Option<StdPointMsgOffsets>)
    ensures
        r == standard_offsets(pc@.fields),
{
    let x: Option<u32> = field(pc, "x");
    let y: Option<u32> = field(pc, "y");
    let z: Option<u32> = field(pc, "z");
    let intensity: Option<u32> = field(pc, "intensity");
    let time: Option<u32> = field(pc, "time");
    let ring: Option<u32> = field(pc, "ring");
    match (x, y, z, intensity, time, ring) {
        (Some(x), Some(y), Some(z), Some(intensity), Some(time), Some(ring)) => Some(
            StdPointMsgOffsets { x, y, z, intensity, time, ring },
        ),
        _ => None,
    }
}

/// The point of `data` at `base`, if all of it is there.
pub open spec fn standard_point_at(
    data: Seq<u8>,
    big: bool,
    base: int,
    o: StdPointMsgOffsets,
) -> Option<StdPointMsg> {
    match (
        scalar_at(data, big, base + o.x, 4),
        scalar_at(data, big, base + o.y, 4),
        scalar_at(data, big, base + o.z, 4),
        scalar_at(data, big, base + o.intensity, 4),
        scalar_at(data, big, base + o.time, 4),
        scalar_at(data, big, base + o.ring, 2),
    ) {
        (Some(x), Some(y), Some(z), Some(intensity), Some(time), Some(ring)) => Some(
            StdPointMsg {
                x: x as u32,
                y: y as u32,
                z: z as u32,
                intensity: intensity as u32,
                time: time as u32,
                ring: ring as u16,
            },
        ),
        _ => None,
    }
}

fn read_standard_point(data: &[u8], big: bool, base: u128, o: &StdPointMsgOffsets) -> (r: Option<
    StdPointMsg,
>)
    requires
        base <= u128::MAX - 0x1_0000_0000,
    ensures
        r == standard_point_at(data@, big, base as int, *o),
{
    proof {
        le::lemma_le_limits();
    }
    let x: Option<u64> = read_scalar(data, big, base, o.x, 4);
    let y: Option<u64> = read_scalar(data, big, base, o.y, 4);
    let z: Option<u64> = read_scalar(data, big, base, o.z, 4);
    let intensity: Option<u64> = read_scalar(data, big, base, o.intensity, 4);
    let time: Option<u64> = read_scalar(data, big, base, o.time, 4);
    let ring: Option<u64> = read_scalar(data, big, base, o.ring, 2);
    match (x, y, z, intensity, time, ring) {
        (Some(x), Some(y), Some(z), Some(intensity), Some(time), Some(ring)) => Some(
            StdPointMsg {
                x: x as u32,
                y: y as u32,
                z: z as u32,
                intensity: intensity as u32,
                time: time as u32,
                ring: ring as u16,
            },
        ),
        _ => None,
    }
}

/// The first `n` points of a cloud, if all of them are there.
pub open spec fn standard_points(
    data: Seq<u8>,
    big: bool,
    step: nat,
    o: StdPointMsgOffsets,
    n: nat,
) -> Option<Seq<StdPointMsg>>
    decreases n,
{
    if n == 0 {
        Some(Seq::empty())
    } else {
        match standard_points(data, big, step, o, (n - 1) as nat) {
            None => None,
            Some(s) => match standard_point_at(data, big, (n - 1) * step, o) {
                None => None,
                Some(p) => Some(s.push(p)),
            },
        }
    }
}

/// The points of a cloud as those of such a scan, if it has the fields and the bytes.
pub open spec fn standard_points_of(c: CloudView) -> Option<Seq<StdPointMsg>> {
    match standard_offsets(c.fields) {
        None => None,
        Some(o) => standard_points(
            c.data,
            c.is_bigendian,
            c.point_step as nat,
            o,
            c.width as nat * c.height as nat,
        ),
    }
}

proof fn lemma_standard_points_stop(
    data: Seq<u8>,
    big: bool,
    step: nat,
    o: StdPointMsgOffsets,
    i: nat,
    n: nat,
)
    requires
        i <= n,
        standard_points(data, big, step, o, i) is None,
    ensures
        standard_points(data, big, step, o, n) is None,
    decreases n,
{
    if i < n {
        lemma_standard_points_stop(data, big, step, o, i, (n - 1) as nat);
    }
}

pub fn pc_to_standard(pc: &PointCloud) -> (r: Option<StandardMsg>)
    ensures
        match r {
            Some(s) => standard_points_of(pc@) == Some(s.points@) && s.stamp == pc.header.stamp,
            None => standard_points_of(pc@) is None,
        },
{
    let o: StdPointMsgOffsets = match find_standard_offsets(pc) {
        None => {
            return None;
        },
        Some(o) => o,
    };
    let step: u32 = pc.point_step;
    let n: u64 = count_of(pc);
    let mut points: Vec<StdPointMsg> = Vec::new();
    let mut i: u64 = 0;
    let mut base: u128 = 0;
    while i < n
        invariant
            i <= n,
            n == pc.width as nat * pc.height as nat,
            step == pc.point_step,
            base == i * step,
            standard_offsets(pc@.fields) == Some(o),
            standard_points(pc@.data, pc.is_bigendian, step as nat, o, i as nat) == Some(points@),
        decreases n - i,
    {
        proof {
            lemma_base_fits(i, step);
        }
        match read_standard_point(pc.data.as_slice(), pc.is_bigendian, base, &o) {
            None => {
                proof {
                    lemma_standard_points_stop(
                        pc@.data,
                        pc.is_bigendian,
                        step as nat,
                        o,
                        (i + 1) as nat,
                        n as nat,
                    );
                }
                return None;
            },
            Some(p) => {
                points.push(p);
            },
        }
        i = i + 1;
        base = base + step as u128;
    }
    Some(StandardMsg { stamp: pc.header.stamp, points })
}

pub proof fn lemma_standard_point_len(p: StdPointMsg)
    ensures
        standard_point_bytes(p).len() == 22,
{
    reveal(standard_point_bytes);
    le::lemma_le_bytes_len(p.x as nat, 4);
    le::lemma_le_bytes_len(p.y as nat, 4);
    le::lemma_le_bytes_len(p.z as nat, 4);
    le::lemma_le_bytes_len(p.intensity as nat, 4);
    le::lemma_le_bytes_len(p.time as nat, 4);
    le::lemma_le_bytes_len(p.ring as nat, 2);
}

pub proof fn lemma_standard_point_reads_back(
    data: Seq<u8>,
    base: int,
    p: StdPointMsg,
    o: StdPointMsgOffsets,
)
    requires
        wire::stands_at(data, base, standard_point_bytes(p)),
        standard_offsets(standard_fields()) == Some(o),
    ensures
        standard_point_at(data, false, base, o) == Some(p),
{
    reveal(standard_point_bytes);
    lemma_standard_offsets();
    lemma_standard_point_len(p);
    le::lemma_le_limits();
    let b0 = le::le_bytes(p.x as nat, 4);
    let b1 = le::le_bytes(p.y as nat, 4);
    let b2 = le::le_bytes(p.z as nat, 4);
    let b3 = le::le_bytes(p.intensity as nat, 4);
    let b4 = le::le_bytes(p.time as nat, 4);
    let b5 = le::le_bytes(p.ring as nat, 2);
    le::lemma_le_bytes_len(p.x as nat, 4);
    le::lemma_le_bytes_len(p.y as nat, 4);
    le::lemma_le_bytes_len(p.z as nat, 4);
    le::lemma_le_bytes_len(p.intensity as nat, 4);
    le::lemma_le_bytes_len(p.time as nat, 4);
    le::lemma_le_bytes_len(p.ring as nat, 2);
    wire::lemma_two_parts(data, base, b0 + b1 + b2 + b3 + b4, b5);
    wire::lemma_two_parts(data, base, b0 + b1 + b2 + b3, b4);
    wire::lemma_two_parts(data, base, b0 + b1 + b2, b3);
    wire::lemma_two_parts(data, base, b0 + b1, b2);
    wire::lemma_two_parts(data, base, b0, b1);
    wire::lemma_number_reads_back(data, base + 0, p.x as nat, 4);
    wire::lemma_number_reads_back(data, base + 4, p.y as nat, 4);
    wire::lemma_number_reads_back(data, base + 8, p.z as nat, 4);
    wire::lemma_number_reads_back(data, base + 12, p.intensity as nat, 4);
    wire::lemma_number_reads_back(data, base + 16, p.time as nat, 4);
    wire::lemma_number_reads_back(data, base + 20, p.ring as nat, 2);
}

/// Where the fields of a stored point stand.
pub proof fn lemma_standard_offsets()
    ensures
        standard_offsets(standard_fields()) == Some(
            StdPointMsgOffsets { x: 0, y: 4, z: 8, intensity: 12, time: 16, ring: 20 },
        ),
{
    reveal_strlit("x");
    reveal_strlit("y");
    reveal_strlit("z");
    reveal_strlit("intensity");
    reveal_strlit("time");
    reveal_strlit("ring");
    let s = standard_fields();
    assert("x"@ != "y"@) by {
        assert("x"@[0] != "y"@[0]);
    }
    assert("x"@ != "z"@) by {
        assert("x"@[0] != "z"@[0]);
    }
    assert("x"@ != "intensity"@) by {
        assert("x"@.len() != "intensity"@.len());
    }
    assert("x"@ != "time"@) by {
        assert("x"@.len() != "time"@.len());
    }
    assert("x"@ != "ring"@) by {
        assert("x"@.len() != "ring"@.len());
    }
    assert("y"@ != "z"@) by {
        assert("y"@[0] != "z"@[0]);
    }
    assert("y"@ != "intensity"@) by {
        assert("y"@.len() != "intensity"@.len());
    }
    assert("y"@ != "time"@) by {
        assert("y"@.len() != "time"@.len());
    }
    assert("y"@ != "ring"@) by {
        assert("y"@.len() != "ring"@.len());
    }
    assert("z"@ != "intensity"@) by {
        assert("z"@.len() != "intensity"@.len());
    }
    assert("z"@ != "time"@) by {
        assert("z"@.len() != "time"@.len());
    }
    assert("z"@ != "ring"@) by {
        assert("z"@.len() != "ring"@.len());
    }
    assert("intensity"@ != "time"@) by {
        assert("intensity"@.len() != "time"@.len());
    }
    assert("intensity"@ != "ring"@) by {
        assert("intensity"@.len() != "ring"@.len());
    }
    assert("time"@ != "ring"@) by {
        assert("time"@[0] != "ring"@[0]);
    }
    lemma_field_at(s, 0);
    lemma_field_at(s, 1);
    lemma_field_at(s, 2);
    lemma_field_at(s, 3);
    lemma_field_at(s, 4);
    lemma_field_at(s, 5);
}

/// The coordinates of a stored point are found under their names.
pub proof fn lemma_standard_places()
    ensures
        field_named(standard_fields(), "x"@) == Some(field_view("x"@, 0, 7)),
        field_named(standard_fields(), "y"@) == Some(field_view("y"@, 4, 7)),
        field_named(standard_fields(), "z"@) == Some(field_view("z"@, 8, 7)),
{
    reveal_strlit("x");
    reveal_strlit("y");
    reveal_strlit("z");
    assert("x"@[0] != "y"@[0] && "x"@[0] != "z"@[0] && "y"@[0] != "z"@[0]);
    let s = standard_fields();
    lemma_field_at(s, 0);
    lemma_field_at(s, 1);
    lemma_field_at(s, 2);
}

/// Point `i` stands behind the bytes of those before it.
pub proof fn lemma_standard_point_stands(s: Seq<StdPointMsg>, i: int)
    requires
        0 <= i < s.len(),
    ensures
        wire::stands_at(standard_points_bytes(s), 22 * i, standard_point_bytes(s[i])),
        standard_points_bytes(s).len() == 22 * s.len(),
    decreases s.len(),
{
    let d = standard_points_bytes(s);
    let front = s.drop_last();
    let f = standard_points_bytes(front);
    lemma_standard_point_len(s.last());
    if front.len() > 0 {
        lemma_standard_point_stands(
            front,
            if i < front.len() {
                i
            } else {
                0
            },
        );
    }
    if i == s.len() - 1 {
        assert(d.subrange(22 * i, 22 * i + 22) =~= standard_point_bytes(s.last()));
    } else {
        lemma_standard_point_len(s[i]);
        assert(d.subrange(22 * i, 22 * i + 22) =~= f.subrange(22 * i, 22 * i + 22));
    }
}

proof fn lemma_standard_points_read_back(s: Seq<StdPointMsg>, o: StdPointMsgOffsets, n: nat)
    requires
        n <= s.len(),
        standard_offsets(standard_fields()) == Some(o),
    ensures
        standard_points(standard_points_bytes(s), false, 22, o, n) == Some(s.take(n as int)),
    decreases n,
{
    if n == 0 {
        assert(s.take(0) =~= Seq::empty());
    } else {
        lemma_standard_points_read_back(s, o, (n - 1) as nat);
        lemma_standard_point_stands(s, n - 1);
        lemma_standard_point_reads_back(standard_points_bytes(s), 22 * (n - 1), s[n - 1], o);
        assert(s.take(n - 1).push(s[n - 1]) =~= s.take(n as int));
    }
}

/// A scan of a spinning lidar comes back from its cloud as it was.
pub proof fn law_standard_comes_back(stamp: Time, points: Seq<StdPointMsg>)
    requires
        points.len() < 0x1_0000_0000,
    ensures
        standard_points_of(standard_cloud(stamp, points)) == Some(points),
{
    lemma_standard_offsets();
    let o = standard_offsets(standard_fields())->Some_0;
    lemma_standard_points_read_back(points, o, points.len());
    let c = standard_cloud(stamp, points);
    assert(c.width as nat * c.height as nat == points.len()) by (nonlinear_arith)
        requires
            c.width == points.len(),
            c.height == 1,
    ;
    assert(points.take(points.len() as int) =~= points);
}

// ---------- scans of Livox lidars ----------

/// Length of a stored point.
pub const AVIA_POINT_STEP: u32 = 20;

pub open spec fn avia_fields() -> Seq<FieldView> {
    seq![
        field_view("x"@, 0, 7),
        field_view("y"@, 4, 7),
        field_view("z"@, 8, 7),
        field_view("reflectivity"@, 12, 2),
        field_view("tag"@, 13, 4),
        field_view("line"@, 15, 2),
        field_view("offset_time"@, 16, 6),
    ]
}

/// A stored point.
#[verifier::opaque]
pub open spec fn avia_point_bytes(p: AviaPointMsg) -> Seq<u8> {
    le::le_bytes(p.x as nat, 4) + le::le_bytes(p.y as nat, 4) + le::le_bytes(p.z as nat, 4)
        + le::le_bytes(p.reflectivity as nat, 1) + le::le_bytes(p.tag as nat, 2)
        + le::le_bytes(p.line as nat, 1) + le::le_bytes(p.offset_time as nat, 4)
}

pub open spec fn avia_points_bytes(s: Seq<AviaPointMsg>) -> Seq<u8>
    decreases s.len(),
{
    if s.len() == 0 {
        Seq::empty()
    } else {
        avia_points_bytes(s.drop_last()) + avia_point_bytes(s.last())
    }
}

/// The cloud of a scan.
pub open spec fn avia_cloud(stamp: Time, points: Seq<AviaPointMsg>) -> CloudView {
    row_of_points(stamp, avia_fields(), 20, points.len(), avia_points_bytes(points))
}

fn push_avia_point(out: &mut Vec<u8>, p: &AviaPointMsg)
    ensures
        final(out)@ == old(out)@ + avia_point_bytes(*p),
{
    let ghost before = out@;
    push_le(out, p.x as u64, 4);
    push_le(out, p.y as u64, 4);
    push_le(out, p.z as u64, 4);
    push_le(out, p.reflectivity as u64, 1);
    push_le(out, p.tag as u64, 2);
    push_le(out, p.line as u64, 1);
    push_le(out, p.offset_time as u64, 4);
    proof {
        reveal(avia_point_bytes);
        assert(out@ =~= before + avia_point_bytes(*p));
    }
}

pub fn avia_to_pc(s: &AviaMsg) -> (c: PointCloud)
    ensures
        c@ == avia_cloud(s.stamp, s.points@),
{
    let mut fields: Vec<PointField> = Vec::new();
    fields.push(point_field("x", 0, 7));
    fields.push(point_field("y", 4, 7));
    fields.push(point_field("z", 8, 7));
    fields.push(point_field("reflectivity", 12, 2));
    fields.push(point_field("tag", 13, 4));
    fields.push(point_field("line", 15, 2));
    fields.push(point_field("offset_time", 16, 6));
    assert(message::views(fields@) =~= avia_fields());
    let mut data: Vec<u8> = Vec::new();
    let mut i: usize = 0;
    assert(data@ =~= avia_points_bytes(s.points@.take(0)));
    while i < s.points.len()
        invariant
            i <= s.points.len(),
            data@ == avia_points_bytes(s.points@.take(i as int)),
        decreases s.points.len() - i,
    {
        push_avia_point(&mut data, &s.points[i]);
        assert(s.points@.take(i + 1).drop_last() =~= s.points@.take(i as int));
        i = i + 1;
    }
    assert(s.points@.take(i as int) =~= s.points@);
    cloud_of(s.stamp, fields, AVIA_POINT_STEP, s.points.len(), data)
}

/// Where the fields of a point stand in it.
#[derive(Clone, Copy)]
pub struct AviaPointMsgOffsets {
    pub x: u32,
    pub y: u32,
    pub z: u32,
    pub reflectivity: u32,
    pub tag: u32,
    pub line: u32,
    pub offset_time: u32,
}

/// Where the fields stand in the points of a cloud, if it has all of them.
pub open spec fn avia_offsets(s: Seq<FieldView>) -> Option<AviaPointMsgOffsets> {
    match (
        field_named(s, "x"@),
        field_named(s, "y"@),
        field_named(s, "z"@),
        field_named(s, "reflectivity"@),
        field_named(s, "tag"@),
        field_named(s, "line"@),
        field_named(s, "offset_time"@),
    ) {
        (
            Some(x),
            Some(y),
            Some(z),
            Some(reflectivity),
            Some(tag),
            Some(line),
            Some(offset_time),
        ) => Some(
            AviaPointMsgOffsets {
                x: x.offset,
                y: y.offset,
                z: z.offset,
                reflectivity: reflectivity.offset,
                tag: tag.offset,
                line: line.offset,
                offset_time: offset_time.offset,
            },
        ),
        _ => None,
    }
}

fn find_avia_offsets(pc: &PointCloud) -> (r: Option<AviaPointMsgOffsets>)
    ensures
        r == avia_offsets(pc@.fields),
{
    let x: Option<u32> = field(pc, "x");
    let y: Option<u32> = field(pc, "y");
    let z: Option<u32> = field(pc, "z");
    let reflectivity: Option<u32> = field(pc, "reflectivity");
    let tag: Option<u32> = field(pc, "tag");
    let line: Option<u32> = field(pc, "line");
    let offset_time: Option<u32> = field(pc, "offset_time");
    match (x, y, z, reflectivity, tag, line, offset_time) {
        (
            Some(x),
            Some(y),
            Some(z),
            Some(reflectivity),
            Some(tag),
            Some(line),
            Some(offset_time),
        ) => Some(
            AviaPointMsgOffsets { x, y, z, reflectivity, tag, line, offset_time },
        ),
        _ => None,
    }
}

/// The point of `data` at `base`, if all of it is there.
pub open spec fn avia_point_at(
    data: Seq<u8>,
    big: bool,
    base: int,
    o: AviaPointMsgOffsets,
) -> Option<AviaPointMsg> {
    match (
        scalar_at(data, big, base + o.x, 4),
        scalar_at(data, big, base + o.y, 4),
        scalar_at(data, big, base + o.z, 4),
        scalar_at(data, big, base + o.reflectivity, 1),
        scalar_at(data, big, base + o.tag, 2),
        scalar_at(data, big, base + o.line, 1),
        scalar_at(data, big, base + o.offset_time, 4),
    ) {
        (
            Some(x),
            Some(y),
            Some(z),
            Some(reflectivity),
            Some(tag),
            Some(line),
            Some(offset_time),
        ) => Some(
            AviaPointMsg {
                x: x as u32,
                y: y as u32,
                z: z as u32,
                reflectivity: reflectivity as u8,
                tag: tag as u16,
                line: line as u8,
                offset_time: offset_time as u32,
            },
        ),
        _ => None,
    }
}

fn read_avia_point(data: &[u8], big: bool, base: u128, o: &AviaPointMsgOffsets) -> (r: Option<
    AviaPointMsg,
>)
    requires
        base <= u128::MAX - 0x1_0000_0000,
    ensures
        r == avia_point_at(data@, big, base as int, *o),
{
    proof {
        le::lemma_le_limits();
    }
    let x: Option<u64> = read_scalar(data, big, base, o.x, 4);
    let y: Option<u64> = read_scalar(data, big, base, o.y, 4);
    let z: Option<u64> = read_scalar(data, big, base, o.z, 4);
    let reflectivity: Option<u64> = read_scalar(data, big, base, o.reflectivity, 1);
    let tag: Option<u64> = read_scalar(data, big, base, o.tag, 2);
    let line: Option<u64> = read_scalar(data, big, base, o.line, 1);
    let offset_time: Option<u64> = read_scalar(data, big, base, o.offset_time, 4);
    match (x, y, z, reflectivity, tag, line, offset_time) {
        (
            Some(x),
            Some(y),
            Some(z),
            Some(reflectivity),
            Some(tag),
            Some(line),
            Some(offset_time),
        ) => Some(
            AviaPointMsg {
                x: x as u32,
                y: y as u32,
                z: z as u32,
                reflectivity: reflectivity as u8,
                tag: tag as u16,
                line: line as u8,
                offset_time: offset_time as u32,
            },
        ),
        _ => None,
    }
}

/// The first `n` points of a cloud, if all of them are there.
pub open spec fn avia_points(
    data: Seq<u8>,
    big: bool,
    step: nat,
    o: AviaPointMsgOffsets,
    n: nat,
) -> Option<Seq<AviaPointMsg>>
    decreases n,
{
    if n == 0 {
        Some(Seq::empty())
    } else {
        match avia_points(data, big, step, o, (n - 1) as nat) {
            None => None,
            Some(s) => match avia_point_at(data, big, (n - 1) * step, o) {
                None => None,
                Some(p) => Some(s.push(p)),
            },
        }
    }
}

/// The points of a cloud as those of such a scan, if it has the fields and the bytes.
pub open spec fn avia_points_of(c: CloudView) -> Option<Seq<AviaPointMsg>> {
    match avia_offsets(c.fields) {
        None => None,
        Some(o) => avia_points(
            c.data,
            c.is_bigendian,
            c.point_step as nat,
            o,
            c.width as nat * c.height as nat,
        ),
    }
}

proof fn lemma_avia_points_stop(
    data: Seq<u8>,
    big: bool,
    step: nat,
    o: AviaPointMsgOffsets,
    i: nat,
    n: nat,
)
    requires
        i <= n,
        avia_points(data, big, step, o, i) is None,
    ensures
        avia_points(data, big, step, o, n) is None,
    decreases n,
{
    if i < n {
        lemma_avia_points_stop(data, big, step, o, i, (n - 1) as nat);
    }
}

pub fn pc_to_avia(pc: &PointCloud) -> (r: Option<AviaMsg>)
    ensures
        match r {
            Some(s) => avia_points_of(pc@) == Some(s.points@) && s.stamp == pc.header.stamp,
            None => avia_points_of(pc@) is None,
        },
{
    let o: AviaPointMsgOffsets = match find_avia_offsets(pc) {
        None => {
            return None;
        },
        Some(o) => o,
    };
    let step: u32 = pc.point_step;
    let n: u64 = count_of(pc);
    let mut points: Vec<AviaPointMsg> = Vec::new();
    let mut i: u64 = 0;
    let mut base: u128 = 0;
    while i < n
        invariant
            i <= n,
            n == pc.width as nat * pc.height as nat,
            step == pc.point_step,
            base == i * step,
            avia_offsets(pc@.fields) == Some(o),
            avia_points(pc@.data, pc.is_bigendian, step as nat, o, i as nat) == Some(points@),
        decreases n - i,
    {
        proof {
            lemma_base_fits(i, step);
        }
        match read_avia_point(pc.data.as_slice(), pc.is_bigendian, base, &o) {
            None => {
                proof {
                    lemma_avia_points_stop(
                        pc@.data,
                        pc.is_bigendian,
                        step as nat,
                        o,
                        (i + 1) as nat,
                        n as nat,
                    );
                }
                return None;
            },
            Some(p) => {
                points.push(p);
            },
        }
        i = i + 1;
        base = base + step as u128;
    }
    Some(AviaMsg { stamp: pc.header.stamp, points })
}

pub proof fn lemma_avia_point_len(p: AviaPointMsg)
    ensures
        avia_point_bytes(p).len() == 20,
{
    reveal(avia_point_bytes);
    le::lemma_le_bytes_len(p.x as nat, 4);
    le::lemma_le_bytes_len(p.y as nat, 4);
    le::lemma_le_bytes_len(p.z as nat, 4);
    le::lemma_le_bytes_len(p.reflectivity as nat, 1);
    le::lemma_le_bytes_len(p.tag as nat, 2);
    le::lemma_le_bytes_len(p.line as nat, 1);
    le::lemma_le_bytes_len(p.offset_time as nat, 4);
}

pub proof fn lemma_avia_point_reads_back(
    data: Seq<u8>,
    base: int,
    p: AviaPointMsg,
    o: AviaPointMsgOffsets,
)
    requires
        wire::stands_at(data, base, avia_point_bytes(p)),
        avia_offsets(avia_fields()) == Some(o),
    ensures
        avia_point_at(data, false, base, o) == Some(p),
{
    reveal(avia_point_bytes);
    lemma_avia_offsets();
    lemma_avia_point_len(p);
    le::lemma_le_limits();
    let b0 = le::le_bytes(p.x as nat, 4);
    let b1 = le::le_bytes(p.y as nat, 4);
    let b2 = le::le_bytes(p.z as nat, 4);
    let b3 = le::le_bytes(p.reflectivity as nat, 1);
    let b4 = le::le_bytes(p.tag as nat, 2);
    let b5 = le::le_bytes(p.line as nat, 1);
    let b6 = le::le_bytes(p.offset_time as nat, 4);
    le::lemma_le_bytes_len(p.x as nat, 4);
    le::lemma_le_bytes_len(p.y as nat, 4);
    le::lemma_le_bytes_len(p.z as nat, 4);
    le::lemma_le_bytes_len(p.reflectivity as nat, 1);
    le::lemma_le_bytes_len(p.tag as nat, 2);
    le::lemma_le_bytes_len(p.line as nat, 1);
    le::lemma_le_bytes_len(p.offset_time as nat, 4);
    wire::lemma_two_parts(data, base, b0 + b1 + b2 + b3 + b4 + b5, b6);
    wire::lemma_two_parts(data, base, b0 + b1 + b2 + b3 + b4, b5);
    wire::lemma_two_parts(data, base, b0 + b1 + b2 + b3, b4);
    wire::lemma_two_parts(data, base, b0 + b1 + b2, b3);
    wire::lemma_two_parts(data, base, b0 + b1, b2);
    wire::lemma_two_parts(data, base, b0, b1);
    wire::lemma_number_reads_back(data, base + 0, p.x as nat, 4);
    wire::lemma_number_reads_back(data, base + 4, p.y as nat, 4);
    wire::lemma_number_reads_back(data, base + 8, p.z as nat, 4);
    wire::lemma_number_reads_back(data, base + 12, p.reflectivity as nat, 1);
    wire::lemma_number_reads_back(data, base + 13, p.tag as nat, 2);
    wire::lemma_number_reads_back(data, base + 15, p.line as nat, 1);
    wire::lemma_number_reads_back(data, base + 16, p.offset_time as nat, 4);
}

/// Where the fields of a stored point stand.
pub proof fn lemma_avia_offsets()
    ensures
        avia_offsets(avia_fields()) == Some(
            AviaPointMsgOffsets {
                x: 0,
                y: 4,
                z: 8,
                reflectivity: 12,
                tag: 13,
                line: 15,
                offset_time: 16,
            },
        ),
{
    reveal_strlit("x");
    reveal_strlit("y");
    reveal_strlit("z");
    reveal_strlit("reflectivity");
    reveal_strlit("tag");
    reveal_strlit("line");
    reveal_strlit("offset_time");
    let s = avia_fields();
    assert("x"@ != "y"@) by {
        assert("x"@[0] != "y"@[0]);
    }
    assert("x"@ != "z"@) by {
        assert("x"@[0] != "z"@[0]);
    }
    assert("x"@ != "reflectivity"@) by {
        assert("x"@.len() != "reflectivity"@.len());
    }
    assert("x"@ != "tag"@) by {
        assert("x"@.len() != "tag"@.len());
    }
    assert("x"@ != "line"@) by {
        assert("x"@.len() != "line"@.len());
    }
    assert("x"@ != "offset_time"@) by {
        assert("x"@.len() != "offset_time"@.len());
    }
    assert("y"@ != "z"@) by {
        assert("y"@[0] != "z"@[0]);
    }
    assert("y"@ != "reflectivity"@) by {
        assert("y"@.len() != "reflectivity"@.len());
    }
    assert("y"@ != "tag"@) by {
        assert("y"@.len() != "tag"@.len());
    }
    assert("y"@ != "line"@) by {
        assert("y"@.len() != "line"@.len());
    }
    assert("y"@ != "offset_time"@) by {
        assert("y"@.len() != "offset_time"@.len());
    }
    assert("z"@ != "reflectivity"@) by {
        assert("z"@.len() != "reflectivity"@.len());
    }
    assert("z"@ != "tag"@) by {
        assert("z"@.len() != "tag"@.len());
    }
    assert("z"@ != "line"@) by {
        assert("z"@.len() != "line"@.len());
    }
    assert("z"@ != "offset_time"@) by {
        assert("z"@.len() != "offset_time"@.len());
    }
    assert("reflectivity"@ != "tag"@) by {
        assert("reflectivity"@.len() != "tag"@.len());
    }
    assert("reflectivity"@ != "line"@) by {
        assert("reflectivity"@.len() != "line"@.len());
    }
    assert("reflectivity"@ != "offset_time"@) by {
        assert("reflectivity"@.len() != "offset_time"@.len());
    }
    assert("tag"@ != "line"@) by {
        assert("tag"@.len() != "line"@.len());
    }
    assert("tag"@ != "offset_time"@) by {
        assert("tag"@.len() != "offset_time"@.len());
    }
    assert("line"@ != "offset_time"@) by {
        assert("line"@.len() != "offset_time"@.len());
    }
    lemma_field_at(s, 0);
    lemma_field_at(s, 1);
    lemma_field_at(s, 2);
    lemma_field_at(s, 3);
    lemma_field_at(s, 4);
    lemma_field_at(s, 5);
    lemma_field_at(s, 6);
}

/// The coordinates of a stored point are found under their names.
pub proof fn lemma_avia_places()
    ensures
        field_named(avia_fields(), "x"@) == Some(field_view("x"@, 0, 7)),
        field_named(avia_fields(), "y"@) == Some(field_view("y"@, 4, 7)),
        field_named(avia_fields(), "z"@) == Some(field_view("z"@, 8, 7)),
{
    reveal_strlit("x");
    reveal_strlit("y");
    reveal_strlit("z");
    assert("x"@[0] != "y"@[0] && "x"@[0] != "z"@[0] && "y"@[0] != "z"@[0]);
    let s = avia_fields();
    lemma_field_at(s, 0);
    lemma_field_at(s, 1);
    lemma_field_at(s, 2);
}

/// Point `i` stands behind the bytes of those before it.
pub proof fn lemma_avia_point_stands(s: Seq<AviaPointMsg>, i: int)
    requires
        0 <= i < s.len(),
    ensures
        wire::stands_at(avia_points_bytes(s), 20 * i, avia_point_bytes(s[i])),
        avia_points_bytes(s).len() == 20 * s.len(),
    decreases s.len(),
{
    let d = avia_points_bytes(s);
    let front = s.drop_last();
    let f = avia_points_bytes(front);
    lemma_avia_point_len(s.last());
    if front.len() > 0 {
        lemma_avia_point_stands(
            front,
            if i < front.len() {
                i
            } else {
                0
            },
        );
    }
    if i == s.len() - 1 {
        assert(d.subrange(20 * i, 20 * i + 20) =~= avia_point_bytes(s.last()));
    } else {
        lemma_avia_point_len(s[i]);
        assert(d.subrange(20 * i, 20 * i + 20) =~= f.subrange(20 * i, 20 * i + 20));
    }
}

proof fn lemma_avia_points_read_back(s: Seq<AviaPointMsg>, o: AviaPointMsgOffsets, n: nat)
    requires
        n <= s.len(),
        avia_offsets(avia_fields()) == Some(o),
    ensures
        avia_points(avia_points_bytes(s), false, 20, o, n) == Some(s.take(n as int)),
    decreases n,
{
    if n == 0 {
        assert(s.take(0) =~= Seq::empty());
    } else {
        lemma_avia_points_read_back(s, o, (n - 1) as nat);
        lemma_avia_point_stands(s, n - 1);
        lemma_avia_point_reads_back(avia_points_bytes(s), 20 * (n - 1), s[n - 1], o);
        assert(s.take(n - 1).push(s[n - 1]) =~= s.take(n as int));
    }
}

/// A scan of a Livox lidar comes back from its cloud as it was.
pub proof fn law_avia_comes_back(stamp: Time, points: Seq<AviaPointMsg>)
    requires
        points.len() < 0x1_0000_0000,
    ensures
        avia_points_of(avia_cloud(stamp, points)) == Some(points),
{
    lemma_avia_offsets();
    let o = avia_offsets(avia_fields())->Some_0;
    lemma_avia_points_read_back(points, o, points.len());
    let c = avia_cloud(stamp, points);
    assert(c.width as nat * c.height as nat == points.len()) by (nonlinear_arith)
        requires
            c.width == points.len(),
            c.height == 1,
    ;
    assert(points.take(points.len() as int) =~= points);
}

// ---------- any sensor ----------

/// The scan that a cloud holds: of a Livox lidar if its points have a field `offset_time`, else
/// of a spinning one.
pub open spec fn sensor_of_cloud(c: CloudView) -> Option<SensorView> {
    if field_named(c.fields, "offset_time"@) is Some {
        match avia_points_of(c) {
            Some(points) => Some(SensorView::LidarAvia(c.header.stamp, points)),
            None => None,
        }
    } else {
        match standard_points_of(c) {
            Some(points) => Some(SensorView::LidarStandard(c.header.stamp, points)),
            None => None,
        }
    }
}

/// `r` is what the model says.
pub open spec fn same_sensor(r: Option<SensorData>, model: Option<SensorView>) -> bool {
    match r {
        Some(d) => model == Some(d@),
        None => model is None,
    }
}

pub fn sensor_from_pc(pc: &PointCloud) -> (r: Option<SensorData>)
    ensures
        same_sensor(r, sensor_of_cloud(pc@)),
{
    if has_field(pc, "offset_time") {
        match pc_to_avia(pc) {
            Some(m) => Some(SensorData::LidarAvia(m)),
            None => None,
        }
    } else {
        match pc_to_standard(pc) {
            Some(m) => Some(SensorData::LidarStandard(m)),
            None => None,
        }
    }
}

/// What the sensor gave that a recorded message holds: by its channel, a measurement or a scan.
/// Other channels hold nothing of the kind, and neither do bytes that are no message.
pub open spec fn sensor_of(channel: Seq<char>, payload: Seq<u8>) -> Option<SensorView> {
    if channel == "imu"@ {
        match Imu::decoded(payload) {
            Ok(m) => Some(SensorView::Imu(m.header.stamp, m.lin_acc, m.ang_vel)),
            Err(e) => None,
        }
    } else if channel == "lidar"@ {
        match PointCloud::decoded(payload) {
            Ok(c) => sensor_of_cloud(c),
            Err(e) => None,
        }
    } else {
        None
    }
}

/// What the sensor gave that a recorded message holds.
pub fn decode_message(m: &OwnedMessage) -> (r: Option<SensorData>)
    ensures
        same_sensor(r, sensor_of(m@.channel, m@.payload)),
{
    if same_text(m.channel.as_str(), "imu") {
        match Imu::decode(m.payload.as_slice()) {
            Ok(x) => Some(SensorData::Imu(imu_from_msg(&x))),
            Err(_) => None,
        }
    } else if same_text(m.channel.as_str(), "lidar") {
        match PointCloud::decode(m.payload.as_slice()) {
            Ok(pc) => sensor_from_pc(&pc),
            Err(_) => None,
        }
    } else {
        None
    }
}

/// The channel, the time and the payload under which sensor data is recorded.
pub open spec fn recorded_as(v: SensorView) -> (Seq<char>, Time, Seq<u8>) {
    match v {
        SensorView::Imu(stamp, acc, gyr) => (
            "imu"@,
            stamp,
            Imu::encoded(imu_message(stamp, acc, gyr)),
        ),
        SensorView::LidarStandard(stamp, points) => (
            "lidar"@,
            stamp,
            PointCloud::encoded(standard_cloud(stamp, points)),
        ),
        SensorView::LidarAvia(stamp, points) => (
            "lidar"@,
            stamp,
            PointCloud::encoded(avia_cloud(stamp, points)),
        ),
    }
}

/// The channel, the time and the payload under which sensor data is recorded.
pub fn encode(data: &SensorData) -> (r: (&'static str, Time, Vec<u8>))
    ensures
        (r.0@, r.1, r.2@) == recorded_as(data@),
{
    let mut buf: Vec<u8> = Vec::new();
    let ghost none = buf@;
    match data {
        SensorData::Imu(imu) => {
            let m: Imu = imu_to_msg(imu);
            m.encode(&mut buf);
            assert(buf@ =~= Imu::encoded(m@));
            ("imu", imu.stamp, buf)
        },
        SensorData::LidarStandard(s) => {
            let m: PointCloud = standard_to_pc(s);
            m.encode(&mut buf);
            assert(buf@ =~= PointCloud::encoded(m@));
            ("lidar", s.stamp, buf)
        },
        SensorData::LidarAvia(a) => {
            let m: PointCloud = avia_to_pc(a);
            m.encode(&mut buf);
            assert(buf@ =~= PointCloud::encoded(m@));
            ("lidar", a.stamp, buf)
        },
    }
}

/// Whether sensor data has the shape and the size that a message can hold.
pub open spec fn sensor_fits(v: SensorView) -> bool {
    match v {
        SensorView::Imu(stamp, acc, gyr) => acc.len() == 3 && gyr.len() == 3,
        SensorView::LidarStandard(stamp, points) => 22 * points.len() < 0x1_0000_0000,
        SensorView::LidarAvia(stamp, points) => 20 * points.len() < 0x1_0000_0000,
    }
}

pub proof fn lemma_short_text_fits(s: Seq<char>)
    requires
        s.len() <= 16,
    ensures
        wire::text_fits(s),
{
    lemma_text_len(s);
}

pub proof fn lemma_text_len(s: Seq<char>)
    ensures
        vstd::utf8::encode_utf8(s).len() <= 4 * s.len(),
    decreases s.len(),
{
    if s.len() > 0 {
        lemma_text_len(s.drop_first());
    }
}

/// Sensor data comes back from what was recorded of it as it was.
pub proof fn law_sensor_data_comes_back(v: SensorView)
    requires
        sensor_fits(v),
    ensures
        ({
            let (channel, stamp, payload) = recorded_as(v);
            sensor_of(channel, payload) == Some(v)
        }),
{
    reveal_strlit("imu");
    reveal_strlit("lidar");
    assert("imu"@.len() != "lidar"@.len());
    lemma_short_text_fits("imu"@);
    lemma_short_text_fits("lidar"@);
    match v {
        SensorView::Imu(stamp, acc, gyr) => {
            Imu::law_decodes_to_itself(imu_message(stamp, acc, gyr));
        },
        SensorView::LidarStandard(stamp, points) => {
            let c = standard_cloud(stamp, points);
            lemma_standard_cloud_fits(stamp, points);
            PointCloud::law_decodes_to_itself(c);
            law_standard_comes_back(stamp, points);
        },
        SensorView::LidarAvia(stamp, points) => {
            let c = avia_cloud(stamp, points);
            lemma_avia_cloud_fits(stamp, points);
            PointCloud::law_decodes_to_itself(c);
            law_avia_comes_back(stamp, points);
            lemma_avia_offsets();
        },
    }
}

pub proof fn lemma_standard_cloud_fits(stamp: Time, points: Seq<StdPointMsg>)
    requires
        22 * points.len() < 0x1_0000_0000,
    ensures
        PointCloud::fits(standard_cloud(stamp, points)),
        field_named(standard_fields(), "offset_time"@) is None,
{
    reveal_strlit("lidar");
    reveal_strlit("x");
    reveal_strlit("y");
    reveal_strlit("z");
    reveal_strlit("intensity");
    reveal_strlit("time");
    reveal_strlit("ring");
    reveal_strlit("offset_time");
    lemma_short_text_fits("lidar"@);
    let s = standard_fields();
    assert forall|i: int| 0 <= i < s.len() implies wire::text_fits((#[trigger] s[i]).name)
        && s[i].name != "offset_time"@ by {
        lemma_short_text_fits(s[i].name);
        assert(s[i].name.len() != "offset_time"@.len());
    }
    lemma_no_field(s, "offset_time"@);
    if points.len() > 0 {
        lemma_standard_point_stands(points, 0);
    }
}

pub proof fn lemma_avia_cloud_fits(stamp: Time, points: Seq<AviaPointMsg>)
    requires
        20 * points.len() < 0x1_0000_0000,
    ensures
        PointCloud::fits(avia_cloud(stamp, points)),
{
    reveal_strlit("lidar");
    reveal_strlit("x");
    reveal_strlit("y");
    reveal_strlit("z");
    reveal_strlit("reflectivity");
    reveal_strlit("tag");
    reveal_strlit("line");
    reveal_strlit("offset_time");
    lemma_short_text_fits("lidar"@);
    let s = avia_fields();
    assert forall|i: int| 0 <= i < s.len() implies wire::text_fits((#[trigger] s[i]).name) by {
        lemma_short_text_fits(s[i].name);
    }
    if points.len() > 0 {
        lemma_avia_point_stands(points, 0);
    }
}

pub proof fn lemma_no_field(s: Seq<FieldView>, name: Seq<char>)
    requires
        forall|i: int| 0 <= i < s.len() ==> (#[trigger] s[i]).name != name,
    ensures
        field_named(s, name) is None,
    decreases s.len(),
{
    if s.len() > 0 {
        assert(s[0].name != name);
        lemma_no_field(s.drop_first(), name);
    }
}

/// What sensor data says is what its fields hold.
pub proof fn law_sensor_data_says_what_it_holds(i: ImuRaw, s: StandardMsg, a: AviaMsg)
    ensures
        SensorData::Imu(i)@ == SensorView::Imu(i.stamp, i.acc@, i.gyr@),
        SensorData::LidarStandard(s)@ == SensorView::LidarStandard(s.stamp, s.points@),
        SensorData::LidarAvia(a)@ == SensorView::LidarAvia(a.stamp, a.points@),
{
}

} // verus!
