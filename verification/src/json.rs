//! Messages as text: a line of JSON, or a short summary.
//!
//! Which floating-point numbers a line holds is said by [`message_scalars`]; the caller writes
//! them out, and [`message_to_json`] puts the line together.

use crate::fastlio::conv;
use crate::fastlio::conv::{count_of, field_of, read_scalar};
use crate::message::{MessageView, OwnedMessage};
use crate::msgs::codec::Codec;
use crate::msgs::types::{
    ChannelRole, CloudView, Imu, ImuView, PointCloud, PointField, PoseStamped, PoseView, RoleView,
    SceneMeta, SceneView,
};
use crate::text::{digit, hex, push_decimal, push_text, same_text, text_of};
use crate::{le, message, text};
use vstd::prelude::*;

verus! {

/// A floating-point number, as its bit pattern.
#[derive(Clone, Copy, Debug, PartialEq, Eq)]
pub enum Number {
    Single(u32),
    Double(u64),
}

/// A number to be written out.
#[derive(Clone, Copy, Debug, PartialEq, Eq)]
pub enum Scalar {
    /// A time in nanoseconds, to be written in seconds with nine decimals.
    Stamp(u64),
    /// A coordinate, to be written with four decimals.
    Coordinate(Number),
    /// A number, to be written in full.
    Plain(u64),
}

// ---------- text in quotes ----------

/// How a character is written between quotation marks: a backslash or a quotation mark behind a
/// backslash, a control character as its number, any other as it is.
pub open spec fn escape_of(c: char) -> Seq<char> {
    if c == '\\' || c == '"' {
        seq!['\\', c]
    } else if (c as u32) < 0x20 {
        seq![
            '\\',
            'u',
            '0',
            '0',
            text::digit_char((c as u32 / 16) as nat),
            text::digit_char((c as u32 % 16) as nat),
        ]
    } else {
        seq![c]
    }
}

/// `s` as it is written between quotation marks.
pub open spec fn escaped(s: Seq<char>) -> Seq<char>
    decreases s.len(),
{
    if s.len() == 0 {
        Seq::empty()
    } else {
        escaped(s.drop_last()) + escape_of(s.last())
    }
}

/// `s` in quotation marks.
pub open spec fn quoted(s: Seq<char>) -> Seq<char> {
    seq!['"'] + escaped(s) + seq!['"']
}

fn push_escape(out: &mut String, c: char)
    ensures
        final(out)@ == old(out)@ + escape_of(c),
{
    let ghost before = out@;
    if c == '\\' || c == '"' {
        out.push('\\');
        out.push(c);
    } else if (c as u32) < 0x20 {
        push_text(out, "\\u00");
        out.push(digit((c as u32 / 16) as u8));
        out.push(digit((c as u32 % 16) as u8));
        proof {
            reveal_strlit("\\u00");
        }
    } else {
        out.push(c);
    }
    assert(out@ =~= before + escape_of(c));
}

fn push_escaped(out: &mut String, s: &str)
    ensures
        final(out)@ == old(out)@ + escaped(s@),
{
    let ghost before = out@;
    assert(out@ =~= before + escaped(s@.take(0)));
    for c in it: s.chars()
        invariant
            it.seq() == s@,
            out@ == before + escaped(s@.take(it.index() as int)),
    {
        let ghost i = it.index() as int;
        assert(s@.take(i + 1).drop_last() =~= s@.take(i));
        push_escape(out, c);
        assert(out@ =~= before + escaped(s@.take(i + 1)));
    }
    assert(s@.take(s@.len() as int) =~= s@);
}

fn push_quoted(out: &mut String, s: &str)
    ensures
        final(out)@ == old(out)@ + quoted(s@),
{
    let ghost before = out@;
    out.push('"');
    push_escaped(out, s);
    out.push('"');
    assert(out@ =~= before + quoted(s@));
}

// ---------- numbers of a message ----------

/// Coordinate `name` of point `i` of a cloud, in the byte order that the cloud names; zero where
/// there is no such field, its type is no floating-point one, or the bytes are missing.
pub open spec fn coordinate(c: CloudView, name: Seq<char>, i: nat) -> Number {
    match conv::field_named(c.fields, name) {
        None => Number::Double(0),
        Some(f) => {
            let off = i * c.point_step + f.offset;
            if f.datatype == 7 {
                match conv::scalar_at(c.data, c.is_bigendian, off, 4) {
                    Some(v) => Number::Single(v as u32),
                    None => Number::Double(0),
                }
            } else if f.datatype == 8 {
                match conv::scalar_at(c.data, c.is_bigendian, off, 8) {
                    Some(v) => Number::Double(v as u64),
                    None => Number::Double(0),
                }
            } else {
                Number::Double(0)
            }
        },
    }
}

/// The coordinates of the first `n` points of a cloud.
pub open spec fn coordinates(c: CloudView, n: nat) -> Seq<Scalar>
    decreases n,
{
    if n == 0 {
        Seq::empty()
    } else {
        let i = (n - 1) as nat;
        coordinates(c, i).push(Scalar::Coordinate(coordinate(c, "x"@, i))).push(
            Scalar::Coordinate(coordinate(c, "y"@, i)),
        ).push(Scalar::Coordinate(coordinate(c, "z"@, i)))
    }
}

/// The number of points that a cloud announces.
pub open spec fn point_count(c: CloudView) -> nat {
    c.width as nat * c.height as nat
}

/// What a line says of the payload of a message.
pub enum Content {
    Cloud(CloudView),
    Imu(ImuView),
    Pose(PoseView),
    Scene(SceneView),
    /// Bytes of another type, or bytes that are not of the type that they should be.
    Bytes,
}

pub open spec fn content_of(m: MessageView) -> Content {
    if m.schema.typename == "doracap/PointCloud"@ {
        match PointCloud::decoded(m.payload) {
            Ok(c) => Content::Cloud(c),
            Err(e) => Content::Bytes,
        }
    } else if m.schema.typename == "doracap/Imu"@ {
        match Imu::decoded(m.payload) {
            Ok(i) => Content::Imu(i),
            Err(e) => Content::Bytes,
        }
    } else if m.schema.typename == "doracap/PoseStamped"@ {
        match PoseStamped::decoded(m.payload) {
            Ok(p) => Content::Pose(p),
            Err(e) => Content::Bytes,
        }
    } else if m.schema.typename == "doracap/SceneMeta"@ {
        match SceneMeta::decoded(m.payload) {
            Ok(v) => Content::Scene(v),
            Err(e) => Content::Bytes,
        }
    } else {
        Content::Bytes
    }
}

/// The accelerations and the turn rates of a measurement.
pub open spec fn rates(i: ImuView) -> Seq<Scalar> {
    seq![
        Scalar::Plain(i.lin_acc[0]),
        Scalar::Plain(i.lin_acc[1]),
        Scalar::Plain(i.lin_acc[2]),
        Scalar::Plain(i.ang_vel[0]),
        Scalar::Plain(i.ang_vel[1]),
        Scalar::Plain(i.ang_vel[2]),
    ]
}

/// The position and the orientation of a pose.
pub open spec fn placement(p: PoseView) -> Seq<Scalar> {
    seq![
        Scalar::Plain(p.position[0]),
        Scalar::Plain(p.position[1]),
        Scalar::Plain(p.position[2]),
        Scalar::Plain(p.orientation[0]),
        Scalar::Plain(p.orientation[1]),
        Scalar::Plain(p.orientation[2]),
        Scalar::Plain(p.orientation[3]),
    ]
}

/// The numbers that the line of a message holds, in order.
pub open spec fn scalars_of(m: MessageView) -> Seq<Scalar> {
    seq![Scalar::Stamp(m.stamp)] + (match content_of(m) {
        Content::Cloud(c) => coordinates(c, point_count(c)),
        Content::Imu(i) => rates(i),
        Content::Pose(p) => placement(p),
        Content::Scene(_) => Seq::empty(),
        Content::Bytes => Seq::empty(),
    })
}

fn read_coordinate(pc: &PointCloud, f: Option<&PointField>, base: u128) -> (r: Number)
    requires
        base <= u128::MAX - 0x1_0000_0000,
    ensures
        forall|name: Seq<char>, i: nat|
            #![trigger coordinate(pc@, name, i)]
            base == i * pc.point_step && (match f {
                Some(g) => conv::field_named(pc@.fields, name) == Some(g@),
                None => conv::field_named(pc@.fields, name) is None,
            }) ==> r == coordinate(pc@, name, i),
{
    proof {
        le::lemma_le_limits();
    }
    match f {
        None => Number::Double(0),
        Some(f) => {
            if f.datatype == 7 {
                match read_scalar(pc.data.as_slice(), pc.is_bigendian, base, f.offset, 4) {
                    Some(v) => Number::Single(v as u32),
                    None => Number::Double(0),
                }
            } else if f.datatype == 8 {
                match read_scalar(pc.data.as_slice(), pc.is_bigendian, base, f.offset, 8) {
                    Some(v) => Number::Double(v),
                    None => Number::Double(0),
                }
            } else {
                Number::Double(0)
            }
        },
    }
}

/// Appends the coordinates of the points of a cloud.
fn decode_points(pc: &PointCloud, out: &mut Vec<Scalar>)
    ensures
        final(out)@ == old(out)@ + coordinates(pc@, point_count(pc@)),
{
    let ghost before = out@;
    let fx: Option<&PointField> = field_of(pc, "x");
    let fy: Option<&PointField> = field_of(pc, "y");
    let fz: Option<&PointField> = field_of(pc, "z");
    let n: u64 = count_of(pc);
    let mut i: u64 = 0;
    let mut base: u128 = 0;
    assert(out@ =~= before + coordinates(pc@, 0));
    while i < n
        invariant
            i <= n,
            n == point_count(pc@),
            base == i * pc.point_step,
            match fx {
                Some(g) => conv::field_named(pc@.fields, "x"@) == Some(g@),
                None => conv::field_named(pc@.fields, "x"@) is None,
            },
            match fy {
                Some(g) => conv::field_named(pc@.fields, "y"@) == Some(g@),
                None => conv::field_named(pc@.fields, "y"@) is None,
            },
            match fz {
                Some(g) => conv::field_named(pc@.fields, "z"@) == Some(g@),
                None => conv::field_named(pc@.fields, "z"@) is None,
            },
            out@ == before + coordinates(pc@, i as nat),
        decreases n - i,
    {
        proof {
            conv::lemma_base_fits(i, pc.point_step);
        }
        let ghost was = out@;
        let x: Number = read_coordinate(pc, fx, base);
        let y: Number = read_coordinate(pc, fy, base);
        let z: Number = read_coordinate(pc, fz, base);
        out.push(Scalar::Coordinate(x));
        out.push(Scalar::Coordinate(y));
        out.push(Scalar::Coordinate(z));
        proof {
            assert(x == coordinate(pc@, "x"@, i as nat));
            assert(y == coordinate(pc@, "y"@, i as nat));
            assert(z == coordinate(pc@, "z"@, i as nat));
            assert(out@ =~= before + coordinates(pc@, (i + 1) as nat));
        }
        i = i + 1;
        base = base + pc.point_step as u128;
    }
}

/// A payload, read as far as a line speaks of it.
enum Payload {
    Cloud(PointCloud),
    Imu(Imu),
    Pose(PoseStamped),
    Scene(SceneMeta),
    Bytes,
}

spec fn payload_is(p: Payload, c: Content) -> bool {
    match p {
        Payload::Cloud(x) => c == Content::Cloud(x@),
        Payload::Imu(x) => c == Content::Imu(x@),
        Payload::Pose(x) => c == Content::Pose(x@),
        Payload::Scene(x) => c == Content::Scene(x@),
        Payload::Bytes => c == Content::Bytes,
    }
}

fn read_payload(m: &OwnedMessage) -> (r: Payload)
    ensures
        payload_is(r, content_of(m@)),
{
    if same_text(m.schema.typename.as_str(), "doracap/PointCloud") {
        match PointCloud::decode(m.payload.as_slice()) {
            Ok(c) => Payload::Cloud(c),
            Err(_) => Payload::Bytes,
        }
    } else if same_text(m.schema.typename.as_str(), "doracap/Imu") {
        match Imu::decode(m.payload.as_slice()) {
            Ok(i) => Payload::Imu(i),
            Err(_) => Payload::Bytes,
        }
    } else if same_text(m.schema.typename.as_str(), "doracap/PoseStamped") {
        match PoseStamped::decode(m.payload.as_slice()) {
            Ok(p) => Payload::Pose(p),
            Err(_) => Payload::Bytes,
        }
    } else if same_text(m.schema.typename.as_str(), "doracap/SceneMeta") {
        match SceneMeta::decode(m.payload.as_slice()) {
            Ok(v) => Payload::Scene(v),
            Err(_) => Payload::Bytes,
        }
    } else {
        Payload::Bytes
    }
}

/// The numbers that the line of a message holds, in order.
#[verifier::rlimit(40)]
pub fn message_scalars(m: &OwnedMessage) -> (r: Vec<Scalar>)
    ensures
        r@ == scalars_of(m@),
{
    let mut out: Vec<Scalar> = Vec::new();
    out.push(Scalar::Stamp(m.stamp.0));
    let ghost head = out@;
    assert(head =~= seq![Scalar::Stamp(m@.stamp)]);
    match read_payload(m) {
        Payload::Cloud(pc) => {
            decode_points(&pc, &mut out);
        },
        Payload::Imu(i) => {
            out.push(Scalar::Plain(i.lin_acc[0]));
            out.push(Scalar::Plain(i.lin_acc[1]));
            out.push(Scalar::Plain(i.lin_acc[2]));
            out.push(Scalar::Plain(i.ang_vel[0]));
            out.push(Scalar::Plain(i.ang_vel[1]));
            out.push(Scalar::Plain(i.ang_vel[2]));
            assert(out@ =~= head + rates(i@));
        },
        Payload::Pose(p) => {
            out.push(Scalar::Plain(p.position[0]));
            out.push(Scalar::Plain(p.position[1]));
            out.push(Scalar::Plain(p.position[2]));
            out.push(Scalar::Plain(p.orientation[0]));
            out.push(Scalar::Plain(p.orientation[1]));
            out.push(Scalar::Plain(p.orientation[2]));
            out.push(Scalar::Plain(p.orientation[3]));
            assert(out@ =~= head + placement(p@));
        },
        Payload::Scene(_) => {
            assert(out@ =~= head + Seq::<Scalar>::empty());
        },
        Payload::Bytes => {
            assert(out@ =~= head + Seq::<Scalar>::empty());
        },
    }
    out
}

// ---------- the line ----------

/// Three texts in square brackets.
pub open spec fn triple(a: Seq<char>, b: Seq<char>, c: Seq<char>) -> Seq<char> {
    "["@ + a + ","@ + b + ","@ + c + "]"@
}

/// The first `n` points, whose coordinates are written out in `texts` from the second text on.
pub open spec fn points_text(texts: Seq<Seq<char>>, n: nat) -> Seq<char>
    decreases n,
{
    if n == 0 {
        Seq::empty()
    } else {
        let k = 3 * (n - 1);
        let p = triple(texts[k + 1], texts[k + 2], texts[k + 3]);
        if n == 1 {
            p
        } else {
            points_text(texts, (n - 1) as nat) + ","@ + p
        }
    }
}

/// The part of the line that speaks of a cloud.
pub open spec fn cloud_text(c: CloudView, texts: Seq<Seq<char>>) -> Seq<char> {
    "\"frame_id\":"@ + quoted(c.header.frame_id) + ",\"height\":"@ + text::decimal(
        c.height as nat,
    ) + ",\"width\":"@ + text::decimal(c.width as nat) + ",\"point_step\":"@ + text::decimal(
        c.point_step as nat,
    ) + ",\"row_step\":"@ + text::decimal(c.row_step as nat) + ",\"points\":["@ + points_text(
        texts,
        point_count(c),
    ) + "]"@
}

/// The part of the line that speaks of a measurement.
pub open spec fn imu_text(i: ImuView, texts: Seq<Seq<char>>) -> Seq<char> {
    "\"frame_id\":"@ + quoted(i.header.frame_id) + ",\"lin_acc\":"@ + triple(
        texts[1],
        texts[2],
        texts[3],
    ) + ",\"ang_vel\":"@ + triple(texts[4], texts[5], texts[6])
}

/// The part of the line that speaks of a pose.
pub open spec fn pose_text(p: PoseView, texts: Seq<Seq<char>>) -> Seq<char> {
    "\"frame_id\":"@ + quoted(p.header.frame_id) + ",\"position\":"@ + triple(
        texts[1],
        texts[2],
        texts[3],
    ) + ",\"orientation\":["@ + texts[4] + ","@ + texts[5] + ","@ + texts[6] + ","@ + texts[7]
        + "]"@
}

/// What a line says of a channel of a scene.
pub open spec fn role_text(r: RoleView) -> Seq<char> {
    "{\"name\":"@ + quoted(r.name) + ",\"role\":"@ + quoted(r.role) + ",\"frame_id\":"@ + quoted(
        r.frame_id,
    ) + "}"@
}

/// What a line says of the first `n` channels of a scene.
pub open spec fn roles_text(roles: Seq<RoleView>, n: nat) -> Seq<char>
    decreases n,
{
    if n == 0 {
        Seq::empty()
    } else if n == 1 {
        role_text(roles[0])
    } else {
        roles_text(roles, (n - 1) as nat) + ","@ + role_text(roles[n - 1])
    }
}

/// The part of the line that speaks of a scene.
pub open spec fn scene_text(v: SceneView) -> Seq<char> {
    "\"world_frame\":"@ + quoted(v.world_frame) + ",\"channels\":["@ + roles_text(
        v.channels,
        v.channels.len(),
    ) + "]"@
}

/// The part of the line that speaks of other bytes.
pub open spec fn hex_part(payload: Seq<u8>) -> Seq<char> {
    "\"payload_hex\":"@ + quoted(text::hex_text(payload))
}

/// The part of the line of a message that speaks of its payload.
pub open spec fn content_text(m: MessageView, texts: Seq<Seq<char>>) -> Seq<char> {
    match content_of(m) {
        Content::Cloud(c) => cloud_text(c, texts),
        Content::Imu(i) => imu_text(i, texts),
        Content::Pose(p) => pose_text(p, texts),
        Content::Scene(v) => scene_text(v),
        Content::Bytes => hex_part(m.payload),
    }
}

/// The line of a message whose numbers are written out in `texts`.
pub open spec fn json_text(m: MessageView, texts: Seq<Seq<char>>) -> Seq<char> {
    "{\"channel\":"@ + quoted(m.channel) + ",\"stamp\":"@ + texts[0] + ",\"type\":"@ + quoted(
        m.schema.typename,
    ) + ","@ + content_text(m, texts) + "}"@
}

fn push_triple(out: &mut String, a: &str, b: &str, c: &str)
    ensures
        final(out)@ == old(out)@ + triple(a@, b@, c@),
{
    let ghost before = out@;
    push_text(out, "[");
    push_text(out, a);
    push_text(out, ",");
    push_text(out, b);
    push_text(out, ",");
    push_text(out, c);
    push_text(out, "]");
    assert(out@ =~= before + triple(a@, b@, c@));
}

fn push_points(out: &mut String, texts: &[String], n: u64)
    requires
        texts@.len() == 1 + 3 * n,
    ensures
        final(out)@ == old(out)@ + points_text(message::views(texts@), n as nat),
{
    let ghost before = out@;
    let ghost words = message::views(texts@);
    assert(3 * n + 1 <= texts.len());
    let mut i: usize = 0;
    assert(out@ =~= before + points_text(words, 0));
    while (i as u64) < n
        invariant
            i <= n,
            words == message::views(texts@),
            3 * n + 1 == texts.len(),
            out@ == before + points_text(words, i as nat),
        decreases n - i,
    {
        let ghost was = out@;
        if i > 0 {
            push_text(out, ",");
        }
        let k: usize = 3 * i;
        push_triple(
            out,
            texts[k + 1].as_str(),
            texts[k + 2].as_str(),
            texts[k + 3].as_str(),
        );
        proof {
            let p = triple(words[k + 1], words[k + 2], words[k + 3]);
            if i > 0 {
                assert(out@ =~= was + ","@ + p);
                assert(out@ =~= before + (points_text(words, i as nat) + ","@ + p));
            }
            assert(out@ =~= before + points_text(words, (i + 1) as nat));
        }
        i = i + 1;
    }
}

#[verifier::rlimit(40)]
fn push_cloud(out: &mut String, c: &PointCloud, texts: &[String])
    requires
        texts@.len() == 1 + 3 * point_count(c@),
    ensures
        final(out)@ == old(out)@ + cloud_text(c@, message::views(texts@)),
{
    let ghost before = out@;
    push_text(out, "\"frame_id\":");
    push_quoted(out, c.header.frame_id.as_str());
    push_text(out, ",\"height\":");
    push_decimal(out, c.height as u64);
    let ghost one = "\"frame_id\":"@ + quoted(c@.header.frame_id) + ",\"height\":"@ + text::decimal(
        c.height as nat,
    );
    assert(out@ =~= before + one);
    push_text(out, ",\"width\":");
    push_decimal(out, c.width as u64);
    push_text(out, ",\"point_step\":");
    push_decimal(out, c.point_step as u64);
    let ghost two = one + ",\"width\":"@ + text::decimal(c.width as nat) + ",\"point_step\":"@
        + text::decimal(c.point_step as nat);
    assert(out@ =~= before + two);
    push_text(out, ",\"row_step\":");
    push_decimal(out, c.row_step as u64);
    push_text(out, ",\"points\":[");
    let ghost three = two + ",\"row_step\":"@ + text::decimal(c.row_step as nat)
        + ",\"points\":["@;
    assert(out@ =~= before + three);
    push_points(out, texts, count_of(c));
    push_text(out, "]");
    let ghost points = points_text(message::views(texts@), point_count(c@));
    assert(out@ =~= before + (three + points + "]"@));
}

fn push_imu(out: &mut String, i: &Imu, texts: &[String])
    requires
        texts@.len() == 7,
    ensures
        final(out)@ == old(out)@ + imu_text(i@, message::views(texts@)),
{
    let ghost before = out@;
    push_text(out, "\"frame_id\":");
    push_quoted(out, i.header.frame_id.as_str());
    push_text(out, ",\"lin_acc\":");
    push_triple(out, texts[1].as_str(), texts[2].as_str(), texts[3].as_str());
    push_text(out, ",\"ang_vel\":");
    push_triple(out, texts[4].as_str(), texts[5].as_str(), texts[6].as_str());
    assert(out@ =~= before + imu_text(i@, message::views(texts@)));
}

fn push_pose(out: &mut String, p: &PoseStamped, texts: &[String])
    requires
        texts@.len() == 8,
    ensures
        final(out)@ == old(out)@ + pose_text(p@, message::views(texts@)),
{
    let ghost before = out@;
    push_text(out, "\"frame_id\":");
    push_quoted(out, p.header.frame_id.as_str());
    push_text(out, ",\"position\":");
    push_triple(out, texts[1].as_str(), texts[2].as_str(), texts[3].as_str());
    push_text(out, ",\"orientation\":[");
    push_text(out, texts[4].as_str());
    push_text(out, ",");
    push_text(out, texts[5].as_str());
    push_text(out, ",");
    push_text(out, texts[6].as_str());
    push_text(out, ",");
    push_text(out, texts[7].as_str());
    push_text(out, "]");
    assert(out@ =~= before + pose_text(p@, message::views(texts@)));
}

fn push_role(out: &mut String, r: &ChannelRole)
    ensures
        final(out)@ == old(out)@ + role_text(r@),
{
    let ghost before = out@;
    push_text(out, "{\"name\":");
    push_quoted(out, r.name.as_str());
    push_text(out, ",\"role\":");
    push_quoted(out, r.role.as_str());
    push_text(out, ",\"frame_id\":");
    push_quoted(out, r.frame_id.as_str());
    push_text(out, "}");
    assert(out@ =~= before + role_text(r@));
}

fn push_scene(out: &mut String, v: &SceneMeta)
    ensures
        final(out)@ == old(out)@ + scene_text(v@),
{
    let ghost before = out@;
    push_text(out, "\"world_frame\":");
    push_quoted(out, v.world_frame.as_str());
    push_text(out, ",\"channels\":[");
    let ghost head = out@;
    let ghost roles = v@.channels;
    let mut i: usize = 0;
    assert(out@ =~= head + roles_text(roles, 0));
    while i < v.channels.len()
        invariant
            i <= v.channels.len(),
            roles == v@.channels,
            out@ == head + roles_text(roles, i as nat),
        decreases v.channels.len() - i,
    {
        let ghost was = out@;
        if i > 0 {
            push_text(out, ",");
        }
        push_role(out, &v.channels[i]);
        proof {
            let r = role_text(roles[i as int]);
            if i > 0 {
                assert(out@ =~= head + (roles_text(roles, i as nat) + ","@ + r));
            } else {
                assert(out@ =~= head + r);
            }
        }
        i = i + 1;
    }
    push_text(out, "]");
    assert(out@ =~= before + scene_text(v@));
}

pub proof fn lemma_coordinates_len(c: CloudView, n: nat)
    ensures
        coordinates(c, n).len() == 3 * n,
    decreases n,
{
    if n > 0 {
        lemma_coordinates_len(c, (n - 1) as nat);
    }
}

/// A message as a line of JSON; `texts` are its numbers as [`message_scalars`] lists them,
/// written out.
#[verifier::rlimit(40)]
pub fn message_to_json(m: &OwnedMessage, texts: &[String]) -> (r: String)
    requires
        texts@.len() == scalars_of(m@).len(),
    ensures
        r@ == json_text(m@, message::views(texts@)),
{
    let ghost words = message::views(texts@);
    let mut out: String = text_of("{\"channel\":");
    push_quoted(&mut out, m.channel.as_str());
    push_text(&mut out, ",\"stamp\":");
    push_text(&mut out, texts[0].as_str());
    push_text(&mut out, ",\"type\":");
    push_quoted(&mut out, m.schema.typename.as_str());
    push_text(&mut out, ",");
    match read_payload(m) {
        Payload::Cloud(c) => {
            proof {
                lemma_coordinates_len(c@, point_count(c@));
            }
            push_cloud(&mut out, &c, texts);
        },
        Payload::Imu(i) => {
            push_imu(&mut out, &i, texts);
        },
        Payload::Pose(p) => {
            push_pose(&mut out, &p, texts);
        },
        Payload::Scene(v) => {
            push_scene(&mut out, &v);
        },
        Payload::Bytes => {
            let ghost before = out@;
            push_text(&mut out, "\"payload_hex\":");
            push_quoted(&mut out, hex(m.payload.as_slice()).as_str());
            assert(out@ =~= before + hex_part(m@.payload));
        },
    }
    push_text(&mut out, "}");
    assert(out@ =~= json_text(m@, words));
    out
}

/// A short summary of a message; `stamp` is its time in seconds, written out.
pub fn summary(m: &OwnedMessage, stamp: &str) -> (r: String)
    ensures
        r@ == m@.channel + " stamp="@ + stamp@ + " type="@ + m@.schema.typename + " payload="@
            + text::decimal(m@.payload.len()) + "B"@,
{
    let mut out: String = text_of(m.channel.as_str());
    push_text(&mut out, " stamp=");
    push_text(&mut out, stamp);
    push_text(&mut out, " type=");
    push_text(&mut out, m.schema.typename.as_str());
    push_text(&mut out, " payload=");
    push_decimal(&mut out, m.payload.len() as u64);
    push_text(&mut out, "B");
    out
}

// ---------- one line ----------

/// Whether a text has no line break.
pub open spec fn one_line(s: Seq<char>) -> bool {
    forall|i: int| 0 <= i < s.len() ==> #[trigger] s[i] != '\n' && s[i] != '\r'
}

proof fn lemma_digits_stay_on_the_line(n: nat)
    ensures
        one_line(text::decimal(n)),
    decreases n,
{
    if n >= 10 {
        lemma_digits_stay_on_the_line(n / 10);
    }
}

proof fn lemma_quotes_stay_on_the_line(s: Seq<char>)
    ensures
        one_line(escaped(s)),
        one_line(quoted(s)),
    decreases s.len(),
{
    if s.len() > 0 {
        lemma_quotes_stay_on_the_line(s.drop_last());
    }
}

proof fn lemma_hex_stays_on_the_line(payload: Seq<u8>)
    ensures
        one_line(hex_part(payload)),
{
    reveal_strlit("\"payload_hex\":");
    lemma_quotes_stay_on_the_line(text::hex_text(payload));
}

proof fn lemma_triple_stays_on_the_line(a: Seq<char>, b: Seq<char>, c: Seq<char>)
    requires
        one_line(a),
        one_line(b),
        one_line(c),
    ensures
        one_line(triple(a, b, c)),
{
    reveal_strlit("[");
    reveal_strlit(",");
    reveal_strlit("]");
}

proof fn lemma_points_stay_on_the_line(texts: Seq<Seq<char>>, n: nat)
    requires
        3 * n < texts.len(),
        forall|i: int| 0 <= i < texts.len() ==> one_line(#[trigger] texts[i]),
    ensures
        one_line(points_text(texts, n)),
    decreases n,
{
    if n > 0 {
        let k = 3 * (n - 1);
        lemma_triple_stays_on_the_line(texts[k + 1], texts[k + 2], texts[k + 3]);
        reveal_strlit(",");
        lemma_points_stay_on_the_line(texts, (n - 1) as nat);
    }
}

proof fn lemma_cloud_stays_on_the_line(c: CloudView, texts: Seq<Seq<char>>)
    requires
        3 * point_count(c) < texts.len(),
        forall|i: int| 0 <= i < texts.len() ==> one_line(#[trigger] texts[i]),
    ensures
        one_line(cloud_text(c, texts)),
{
    reveal_strlit("\"frame_id\":");
    reveal_strlit(",\"height\":");
    reveal_strlit(",\"width\":");
    reveal_strlit(",\"point_step\":");
    reveal_strlit(",\"row_step\":");
    reveal_strlit(",\"points\":[");
    reveal_strlit("]");
    lemma_quotes_stay_on_the_line(c.header.frame_id);
    lemma_digits_stay_on_the_line(c.height as nat);
    lemma_digits_stay_on_the_line(c.width as nat);
    lemma_digits_stay_on_the_line(c.point_step as nat);
    lemma_digits_stay_on_the_line(c.row_step as nat);
    lemma_points_stay_on_the_line(texts, point_count(c));
}

proof fn lemma_imu_stays_on_the_line(v: ImuView, texts: Seq<Seq<char>>)
    requires
        texts.len() == 7,
        forall|i: int| 0 <= i < texts.len() ==> one_line(#[trigger] texts[i]),
    ensures
        one_line(imu_text(v, texts)),
{
    reveal_strlit("\"frame_id\":");
    reveal_strlit(",\"lin_acc\":");
    reveal_strlit(",\"ang_vel\":");
    lemma_quotes_stay_on_the_line(v.header.frame_id);
    lemma_triple_stays_on_the_line(texts[1], texts[2], texts[3]);
    lemma_triple_stays_on_the_line(texts[4], texts[5], texts[6]);
}

proof fn lemma_pose_stays_on_the_line(p: PoseView, texts: Seq<Seq<char>>)
    requires
        texts.len() == 8,
        forall|i: int| 0 <= i < texts.len() ==> one_line(#[trigger] texts[i]),
    ensures
        one_line(pose_text(p, texts)),
{
    reveal_strlit("\"frame_id\":");
    reveal_strlit(",\"position\":");
    reveal_strlit(",\"orientation\":[");
    reveal_strlit(",");
    reveal_strlit("]");
    lemma_quotes_stay_on_the_line(p.header.frame_id);
    lemma_triple_stays_on_the_line(texts[1], texts[2], texts[3]);
    assert(one_line(texts[4]) && one_line(texts[5]) && one_line(texts[6]) && one_line(texts[7]));
}

proof fn lemma_roles_stay_on_the_line(roles: Seq<RoleView>, n: nat)
    ensures
        one_line(roles_text(roles, n)),
    decreases n,
{
    if n > 0 {
        let r = roles[n - 1];
        reveal_strlit("{\"name\":");
        reveal_strlit(",\"role\":");
        reveal_strlit(",\"frame_id\":");
        reveal_strlit("}");
        reveal_strlit(",");
        lemma_quotes_stay_on_the_line(r.name);
        lemma_quotes_stay_on_the_line(r.role);
        lemma_quotes_stay_on_the_line(r.frame_id);
        assert(one_line(role_text(r)));
        lemma_roles_stay_on_the_line(roles, (n - 1) as nat);
    }
}

proof fn lemma_scene_stays_on_the_line(v: SceneView)
    ensures
        one_line(scene_text(v)),
{
    reveal_strlit("\"world_frame\":");
    reveal_strlit(",\"channels\":[");
    reveal_strlit("]");
    lemma_quotes_stay_on_the_line(v.world_frame);
    lemma_roles_stay_on_the_line(v.channels, v.channels.len());
}

/// A message is written on one line, whatever names it holds, if none of its numbers is written
/// out with a line break.
#[verifier::rlimit(40)]
pub proof fn law_message_is_written_on_one_line(m: MessageView, texts: Seq<Seq<char>>)
    requires
        texts.len() == scalars_of(m).len(),
        forall|i: int| 0 <= i < texts.len() ==> one_line(#[trigger] texts[i]),
    ensures
        one_line(json_text(m, texts)),
{
    reveal_strlit("{\"channel\":");
    reveal_strlit(",\"stamp\":");
    reveal_strlit(",\"type\":");
    reveal_strlit(",");
    reveal_strlit("}");
    lemma_quotes_stay_on_the_line(m.channel);
    lemma_quotes_stay_on_the_line(m.schema.typename);
    assert(one_line(texts[0]));
    match content_of(m) {
        Content::Cloud(c) => {
            lemma_coordinates_len(c, point_count(c));
            lemma_cloud_stays_on_the_line(c, texts);
        },
        Content::Imu(i) => {
            lemma_imu_stays_on_the_line(i, texts);
        },
        Content::Pose(p) => {
            lemma_pose_stays_on_the_line(p, texts);
        },
        Content::Scene(v) => {
            lemma_scene_stays_on_the_line(v);
        },
        Content::Bytes => {
            lemma_hex_stays_on_the_line(m.payload);
        },
    }
}

// ---------- reading a text in quotation marks ----------

/// The number that a hexadecimal digit stands for.
pub open spec fn digit_value(c: char) -> Option<nat> {
    if '0' <= c <= '9' {
        Some((c as u32 - '0' as u32) as nat)
    } else if 'a' <= c <= 'f' {
        Some((c as u32 - 'a' as u32 + 10) as nat)
    } else {
        None
    }
}

/// The character that is written in `d` at `pos`, between quotation marks, and where it ends.
pub open spec fn char_from(d: Seq<char>, pos: int) -> Option<(char, int)> {
    if pos < 0 || pos >= d.len() || d[pos] == '"' || (d[pos] as u32) < 0x20 {
        None
    } else if d[pos] != '\\' {
        Some((d[pos], pos + 1))
    } else if pos + 1 < d.len() && (d[pos + 1] == '\\' || d[pos + 1] == '"') {
        Some((d[pos + 1], pos + 2))
    } else if pos + 5 < d.len() && d[pos + 1] == 'u' && d[pos + 2] == '0' && d[pos + 3] == '0' {
        match (digit_value(d[pos + 4]), digit_value(d[pos + 5])) {
            (Some(a), Some(b)) => Some(((16 * a + b) as char, pos + 6)),
            _ => None,
        }
    } else {
        None
    }
}

/// The text that is written in `d` from `pos` up to the next quotation mark, and where that
/// ends.
pub open spec fn text_from(d: Seq<char>, pos: int) -> Option<(Seq<char>, int)>
    decreases d.len() - pos,
{
    if 0 <= pos < d.len() && d[pos] == '"' {
        Some((Seq::empty(), pos + 1))
    } else {
        match char_from(d, pos) {
            None => None,
            Some((c, next)) => match text_from(d, next) {
                None => None,
                Some((s, end)) => Some((seq![c] + s, end)),
            },
        }
    }
}

/// The text that `e` stands for between quotation marks.
pub open spec fn unescaped(e: Seq<char>) -> Option<Seq<char>> {
    match text_from(e.push('"'), 0) {
        Some((s, end)) => if end == e.len() + 1 {
            Some(s)
        } else {
            None
        },
        None => None,
    }
}

proof fn lemma_char_reads_back(d: Seq<char>, pos: int, c: char)
    requires
        0 <= pos,
        pos + escape_of(c).len() <= d.len(),
        d.subrange(pos, pos + escape_of(c).len()) == escape_of(c),
    ensures
        char_from(d, pos) == Some((c, pos + escape_of(c).len())),
        d[pos] != '"',
{
    let e = escape_of(c);
    assert forall|i: int| 0 <= i < e.len() implies d[pos + i] == #[trigger] e[i] by {
        assert(d.subrange(pos, pos + e.len())[i] == e[i]);
    }
    assert(d[pos + 0] == e[0]);
    if c == '\\' || c == '"' {
        assert(d[pos + 1] == e[1]);
    } else if (c as u32) < 0x20 {
        assert(d[pos + 1] == e[1]);
        assert(d[pos + 2] == e[2]);
        assert(d[pos + 3] == e[3]);
        assert(d[pos + 4] == e[4]);
        assert(d[pos + 5] == e[5]);
    }
}

proof fn lemma_escaped_front(s: Seq<char>)
    requires
        s.len() > 0,
    ensures
        escaped(s) == escape_of(s[0]) + escaped(s.drop_first()),
    decreases s.len(),
{
    let tail = s.drop_first();
    if s.len() == 1 {
        assert(escaped(s.drop_last()) =~= Seq::empty());
        assert(escaped(tail) =~= Seq::empty());
        assert(escaped(s) =~= escape_of(s[0]) + escaped(tail));
    } else {
        lemma_escaped_front(s.drop_last());
        assert(s.drop_last().drop_first() =~= tail.drop_last());
        assert(tail.last() == s.last());
        assert(escaped(s) =~= escape_of(s[0]) + escaped(tail));
    }
}

pub proof fn lemma_text_reads_back(d: Seq<char>, pos: int, s: Seq<char>)
    requires
        0 <= pos,
        pos + escaped(s).len() < d.len(),
        d.subrange(pos, pos + escaped(s).len()) == escaped(s),
        d[pos + escaped(s).len()] == '"',
    ensures
        text_from(d, pos) == Some((s, pos + escaped(s).len() + 1)),
    decreases s.len(),
{
    if s.len() == 0 {
        assert(s =~= Seq::empty());
    } else {
        let a = escape_of(s[0]);
        let b = escaped(s.drop_first());
        lemma_escaped_front(s);
        assert(d.subrange(pos, pos + a.len()) =~= escaped(s).subrange(0, a.len() as int));
        assert(escaped(s).subrange(0, a.len() as int) =~= a);
        lemma_char_reads_back(d, pos, s[0]);
        let next = pos + a.len();
        assert(d.subrange(next, next + b.len()) =~= escaped(s).subrange(
            a.len() as int,
            a.len() + b.len() as int,
        ));
        assert(escaped(s).subrange(a.len() as int, a.len() + b.len() as int) =~= b);
        lemma_text_reads_back(d, next, s.drop_first());
        assert(seq![s[0]] + s.drop_first() =~= s);
    }
}

/// What is written between quotation marks stands for the text that was written.
pub proof fn law_escaped_text_reads_back(s: Seq<char>)
    ensures
        unescaped(escaped(s)) == Some(s),
{
    let d = escaped(s).push('"');
    assert(d.subrange(0, escaped(s).len() as int) =~= escaped(s));
    lemma_text_reads_back(d, 0, s);
}

proof fn lemma_quoted_reads_back(before: Seq<char>, s: Seq<char>, after: Seq<char>)
    ensures
        text_from(before + quoted(s) + after, before.len() as int + 1) == Some(
            (s, before.len() + quoted(s).len() as int),
        ),
{
    let d = before + quoted(s) + after;
    let pos = before.len() as int + 1;
    assert(d.subrange(pos, pos + escaped(s).len()) =~= escaped(s));
    lemma_text_reads_back(d, pos, s);
}

#[verifier::rlimit(40)]
proof fn lemma_two_quoted(
    a: Seq<char>,
    s: Seq<char>,
    b: Seq<char>,
    c: Seq<char>,
    d: Seq<char>,
    t: Seq<char>,
    e: Seq<char>,
    f: Seq<char>,
    g: Seq<char>,
)
    ensures
        ({
            let line = a + quoted(s) + b + c + d + quoted(t) + e + f + g;
            let second = a + quoted(s) + b + c + d;
            &&& line.take(a.len() as int) == a
            &&& text_from(line, a.len() as int + 1) == Some((s, a.len() + quoted(s).len() as int))
            &&& line.take(second.len() as int) == second
            &&& text_from(line, second.len() as int + 1) == Some(
                (t, second.len() + quoted(t).len() as int),
            )
        }),
{
    let line = a + quoted(s) + b + c + d + quoted(t) + e + f + g;
    let second = a + quoted(s) + b + c + d;
    let p = quoted(s);
    let q = quoted(t);
    assert(line =~= a + p + (b + c + d + q + e + f + g));
    assert(line =~= second + q + (e + f + g));
    lemma_quoted_reads_back(a, s, b + c + d + q + e + f + g);
    lemma_quoted_reads_back(second, t, e + f + g);
    assert(line.take(a.len() as int) =~= a);
    assert(line.take(second.len() as int) =~= second);
}

/// The line of a message names its channel and its type: they are read back from behind the
/// names of these two members.
pub proof fn law_line_names_channel_and_type(m: MessageView, texts: Seq<Seq<char>>)
    ensures
        ({
            let line = json_text(m, texts);
            let first = "{\"channel\":"@;
            let second = first + quoted(m.channel) + ",\"stamp\":"@ + texts[0] + ",\"type\":"@;
            &&& line.take(first.len() as int) == first
            &&& text_from(line, first.len() as int + 1) == Some(
                (m.channel, first.len() + quoted(m.channel).len() as int),
            )
            &&& line.take(second.len() as int) == second
            &&& text_from(line, second.len() as int + 1) == Some(
                (m.schema.typename, second.len() + quoted(m.schema.typename).len() as int),
            )
        }),
{
    lemma_two_quoted(
        "{\"channel\":"@,
        m.channel,
        ",\"stamp\":"@,
        texts[0],
        ",\"type\":"@,
        m.schema.typename,
        ","@,
        content_text(m, texts),
        "}"@,
    );
}

/// Between quotation marks, a backslash or a quotation mark stands behind a backslash, a control
/// character is written as its number in four hexadecimal digits, and any other stands for itself;
/// characters are written one behind the other.
pub proof fn law_characters_are_escaped_one_by_one(s: Seq<char>, c: char)
    ensures
        escaped(Seq::empty()).len() == 0,
        c == '\\' ==> escaped(s.push(c)) == escaped(s) + seq!['\\', '\\'],
        c == '"' ==> escaped(s.push(c)) == escaped(s) + seq!['\\', '"'],
        (c as u32) < 0x20 ==> escaped(s.push(c)) == escaped(s) + seq![
            '\\',
            'u',
            '0',
            '0',
            "0123456789abcdef"@[c as u32 as int / 16],
            "0123456789abcdef"@[c as u32 as int % 16],
        ],
        (c as u32) >= 0x20 && c != '\\' && c != '"' ==> escaped(s.push(c)) == escaped(s).push(c),
        quoted(s) == seq!['"'] + escaped(s) + seq!['"'],
{
    assert(s.push(c).drop_last() =~= s);
    if (c as u32) < 0x20 {
        text::law_digits_are_in_order((c as u32 / 16) as nat);
        text::law_digits_are_in_order((c as u32 % 16) as nat);
    } else if c != '\\' && c != '"' {
        assert(escaped(s) + seq![c] =~= escaped(s).push(c));
    }
}

} // verus!
