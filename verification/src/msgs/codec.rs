//! The compact encoding of the standard messages: little-endian, unaligned, length-prefixed.

use crate::le::{get_le, push_bytes, push_le};
use crate::msgs::types::{
    ChannelRole, CloudView, FieldView, Header, HeaderView, Imu, ImuView, PointCloud, PointField,
    PoseStamped, PoseView, RoleView, SceneMeta, SceneView, Time,
};
use crate::text::{push_decimal, push_text, text_of, utf8_text};
use crate::wire::push_str;
use crate::{le, message, text, wire};
use vstd::prelude::*;
use vstd::slice::{slice_subrange, slice_to_vec};
use vstd::utf8;

verus! {

/// Why bytes are no message, in words.
#[derive(Debug)]
pub struct DecodeError(pub String);

impl View for DecodeError {
    type V = Seq<char>;

    open spec fn view(&self) -> Seq<char> {
        self.0@
    }
}

impl DecodeError {
    fn end() -> (e: Self)
        ensures
            e@ == end_words(),
    {
        DecodeError(text_of("unexpected end"))
    }

    /// The error in words, for a reader.
    pub fn describe(&self) -> (r: String)
        ensures
            r@ == "decode: "@ + self@,
    {
        let mut s: String = text_of("decode: ");
        push_text(&mut s, self.0.as_str());
        s
    }
}

/// What is said where the bytes run out.
pub open spec fn end_words() -> Seq<char> {
    "unexpected end"@
}

/// `v` with the two's complement pattern `u`.
pub open spec fn signed_64(u: nat) -> int {
    if u >= 0x8000_0000_0000_0000 {
        u - 0x1_0000_0000_0000_0000
    } else {
        u as int
    }
}

// ---------- what is laid down ----------

pub open spec fn time_bytes(t: Time) -> Seq<u8> {
    le::le_bytes(message::two_complement_64(t.sec as int) as nat, 8) + le::le_bytes(
        t.nsec as nat,
        4,
    )
}

pub open spec fn header_bytes(h: HeaderView) -> Seq<u8> {
    time_bytes(h.stamp) + wire::text_bytes(h.frame_id)
}

pub open spec fn field_bytes(f: FieldView) -> Seq<u8> {
    wire::text_bytes(f.name) + le::le_bytes(f.offset as nat, 4) + seq![f.datatype] + le::le_bytes(
        f.count as nat,
        4,
    )
}

pub open spec fn fields_bytes(s: Seq<FieldView>) -> Seq<u8>
    decreases s.len(),
{
    if s.len() == 0 {
        Seq::empty()
    } else {
        fields_bytes(s.drop_last()) + field_bytes(s.last())
    }
}

pub open spec fn flag_byte(b: bool) -> u8 {
    if b {
        1
    } else {
        0
    }
}

/// A cloud up to the end of its fields.
#[verifier::opaque]
pub open spec fn cloud_front_bytes(c: CloudView) -> Seq<u8> {
    header_bytes(c.header) + le::le_bytes(c.height as nat, 4) + le::le_bytes(c.width as nat, 4)
        + le::le_bytes(c.fields.len(), 4) + fields_bytes(c.fields)
}

/// What follows the fields of a cloud.
#[verifier::opaque]
pub open spec fn cloud_back_bytes(c: CloudView) -> Seq<u8> {
    seq![flag_byte(c.is_bigendian)] + le::le_bytes(c.point_step as nat, 4) + le::le_bytes(
        c.row_step as nat,
        4,
    ) + (le::le_bytes(c.data.len(), 4) + c.data) + seq![flag_byte(c.is_dense)]
}

pub open spec fn cloud_bytes(c: CloudView) -> Seq<u8> {
    cloud_front_bytes(c) + cloud_back_bytes(c)
}

/// The bit patterns of numbers, eight bytes each.
pub open spec fn bits_bytes(s: Seq<u64>) -> Seq<u8>
    decreases s.len(),
{
    if s.len() == 0 {
        Seq::empty()
    } else {
        bits_bytes(s.drop_last()) + le::le_bytes(s.last() as nat, 8)
    }
}

#[verifier::opaque]
pub open spec fn imu_bytes(m: ImuView) -> Seq<u8> {
    header_bytes(m.header) + bits_bytes(m.orientation) + bits_bytes(m.orientation_cov) + bits_bytes(
        m.ang_vel,
    ) + bits_bytes(m.ang_vel_cov) + bits_bytes(m.lin_acc) + bits_bytes(m.lin_acc_cov)
}

pub open spec fn pose_bytes(m: PoseView) -> Seq<u8> {
    header_bytes(m.header) + bits_bytes(m.position) + bits_bytes(m.orientation)
}

pub open spec fn role_bytes(r: RoleView) -> Seq<u8> {
    wire::text_bytes(r.name) + wire::text_bytes(r.role) + wire::text_bytes(r.frame_id)
}

pub open spec fn roles_bytes(s: Seq<RoleView>) -> Seq<u8>
    decreases s.len(),
{
    if s.len() == 0 {
        Seq::empty()
    } else {
        roles_bytes(s.drop_last()) + role_bytes(s.last())
    }
}

pub open spec fn scene_bytes(s: SceneView) -> Seq<u8> {
    wire::text_bytes(s.world_frame) + le::le_bytes(s.channels.len(), 4) + roles_bytes(s.channels)
}

// ---------- what is read ----------

/// The `n` bytes at `pos`, and where they end.
pub open spec fn slice_at(d: Seq<u8>, pos: int, n: nat) -> Result<(Seq<u8>, int), Seq<char>> {
    if pos + n > d.len() {
        Err(end_words())
    } else {
        Ok((d.subrange(pos, pos + n), pos + n))
    }
}

/// The number in the `n` bytes at `pos`, and where they end.
pub open spec fn uint_at(d: Seq<u8>, pos: int, n: nat) -> Result<(nat, int), Seq<char>> {
    match slice_at(d, pos, n) {
        Err(e) => Err(e),
        Ok((s, p)) => Ok((le::le_value(s), p)),
    }
}

/// The length-prefixed bytes at `pos`, and where they end.
pub open spec fn bytes_at(d: Seq<u8>, pos: int) -> Result<(Seq<u8>, int), Seq<char>> {
    match uint_at(d, pos, 4) {
        Err(e) => Err(e),
        Ok((n, p)) => slice_at(d, p, n),
    }
}

/// The text at `pos`, and where it ends.
pub open spec fn str_at(d: Seq<u8>, pos: int) -> Result<(Seq<char>, int), Seq<char>> {
    match bytes_at(d, pos) {
        Err(e) => Err(e),
        Ok((s, p)) => if utf8::valid_utf8(s) {
            Ok((utf8::decode_utf8(s), p))
        } else {
            Err("bad utf8"@)
        },
    }
}

pub open spec fn time_at(d: Seq<u8>, pos: int) -> Result<(Time, int), Seq<char>> {
    match uint_at(d, pos, 8) {
        Err(e) => Err(e),
        Ok((sec, p)) => match uint_at(d, p, 4) {
            Err(e) => Err(e),
            Ok((nsec, q)) => Ok((Time { sec: signed_64(sec) as i64, nsec: nsec as u32 }, q)),
        },
    }
}

pub open spec fn header_at(d: Seq<u8>, pos: int) -> Result<(HeaderView, int), Seq<char>> {
    match time_at(d, pos) {
        Err(e) => Err(e),
        Ok((stamp, p)) => match str_at(d, p) {
            Err(e) => Err(e),
            Ok((frame_id, q)) => Ok((HeaderView { stamp, frame_id }, q)),
        },
    }
}

pub open spec fn field_at(d: Seq<u8>, pos: int) -> Result<(FieldView, int), Seq<char>> {
    match str_at(d, pos) {
        Err(e) => Err(e),
        Ok((name, p)) => match uint_at(d, p, 4) {
            Err(e) => Err(e),
            Ok((offset, q)) => match slice_at(d, q, 1) {
                Err(e) => Err(e),
                Ok((b, r)) => match uint_at(d, r, 4) {
                    Err(e) => Err(e),
                    Ok((count, s)) => Ok(
                        (
                            FieldView {
                                name,
                                offset: offset as u32,
                                datatype: b[0],
                                count: count as u32,
                            },
                            s,
                        ),
                    ),
                },
            },
        },
    }
}

pub open spec fn fields_at(d: Seq<u8>, pos: int, count: nat) -> Result<
    (Seq<FieldView>, int),
    Seq<char>,
>
    decreases count,
{
    if count == 0 {
        Ok((Seq::empty(), pos))
    } else {
        match fields_at(d, pos, (count - 1) as nat) {
            Err(e) => Err(e),
            Ok((s, p)) => match field_at(d, p) {
                Err(e) => Err(e),
                Ok((f, q)) => Ok((s.push(f), q)),
            },
        }
    }
}

pub open spec fn bits_at(d: Seq<u8>, pos: int, count: nat) -> Result<(Seq<u64>, int), Seq<char>>
    decreases count,
{
    if count == 0 {
        Ok((Seq::empty(), pos))
    } else {
        match bits_at(d, pos, (count - 1) as nat) {
            Err(e) => Err(e),
            Ok((s, p)) => match uint_at(d, p, 8) {
                Err(e) => Err(e),
                Ok((v, q)) => Ok((s.push(v as u64), q)),
            },
        }
    }
}

pub open spec fn role_at(d: Seq<u8>, pos: int) -> Result<(RoleView, int), Seq<char>> {
    match str_at(d, pos) {
        Err(e) => Err(e),
        Ok((name, p)) => match str_at(d, p) {
            Err(e) => Err(e),
            Ok((role, q)) => match str_at(d, q) {
                Err(e) => Err(e),
                Ok((frame_id, r)) => Ok((RoleView { name, role, frame_id }, r)),
            },
        },
    }
}

pub open spec fn roles_at(d: Seq<u8>, pos: int, count: nat) -> Result<
    (Seq<RoleView>, int),
    Seq<char>,
>
    decreases count,
{
    if count == 0 {
        Ok((Seq::empty(), pos))
    } else {
        match roles_at(d, pos, (count - 1) as nat) {
            Err(e) => Err(e),
            Ok((s, p)) => match role_at(d, p) {
                Err(e) => Err(e),
                Ok((f, q)) => Ok((s.push(f), q)),
            },
        }
    }
}

/// A cloud up to the end of its fields.
#[verifier::ext_equal]
pub struct CloudFront {
    pub header: HeaderView,
    pub height: u32,
    pub width: u32,
    pub fields: Seq<FieldView>,
}

/// The cloud at the beginning of `d` up to the end of its fields, and where they end.
#[verifier::opaque]
pub open spec fn cloud_front_in(d: Seq<u8>) -> Result<(CloudFront, int), Seq<char>> {
    match header_at(d, 0) {
        Err(e) => Err(e),
        Ok((header, p0)) => match uint_at(d, p0, 4) {
            Err(e) => Err(e),
            Ok((height, p1)) => match uint_at(d, p1, 4) {
                Err(e) => Err(e),
                Ok((width, p2)) => match uint_at(d, p2, 4) {
                    Err(e) => Err(e),
                    Ok((n, p3)) => match fields_at(d, p3, n) {
                        Err(e) => Err(e),
                        Ok((fields, p4)) => Ok(
                            (
                                CloudFront {
                                    header,
                                    height: height as u32,
                                    width: width as u32,
                                    fields,
                                },
                                p4,
                            ),
                        ),
                    },
                },
            },
        },
    }
}

/// The cloud at the beginning of `d`, and where it ends.
pub open spec fn cloud_in(d: Seq<u8>) -> Result<(CloudView, int), Seq<char>> {
    match cloud_front_in(d) {
        Err(e) => Err(e),
        Ok((front, p)) => cloud_rest(d, p, front),
    }
}

/// A cloud whose fields end at `pos`, and where it ends.
#[verifier::opaque]
pub open spec fn cloud_rest(d: Seq<u8>, pos: int, front: CloudFront) -> Result<
    (CloudView, int),
    Seq<char>,
> {
    match slice_at(d, pos, 1) {
        Err(e) => Err(e),
        Ok((big, p5)) => match uint_at(d, p5, 4) {
            Err(e) => Err(e),
            Ok((point_step, p6)) => match uint_at(d, p6, 4) {
                Err(e) => Err(e),
                Ok((row_step, p7)) => match bytes_at(d, p7) {
                    Err(e) => Err(e),
                    Ok((data, p8)) => match slice_at(d, p8, 1) {
                        Err(e) => Err(e),
                        Ok((dense, p9)) => Ok(
                            (
                                CloudView {
                                    header: front.header,
                                    height: front.height,
                                    width: front.width,
                                    fields: front.fields,
                                    is_bigendian: big[0] != 0,
                                    point_step: point_step as u32,
                                    row_step: row_step as u32,
                                    data,
                                    is_dense: dense[0] != 0,
                                },
                                p9,
                            ),
                        ),
                    },
                },
            },
        },
    }
}

/// The measurement at the beginning of `d`, and where it ends.
pub open spec fn imu_in(d: Seq<u8>) -> Result<(ImuView, int), Seq<char>> {
    match header_at(d, 0) {
        Err(e) => Err(e),
        Ok((header, p0)) => match bits_at(d, p0, 4) {
            Err(e) => Err(e),
            Ok((orientation, p1)) => match bits_at(d, p1, 9) {
                Err(e) => Err(e),
                Ok((orientation_cov, p2)) => match bits_at(d, p2, 3) {
                    Err(e) => Err(e),
                    Ok((ang_vel, p3)) => match bits_at(d, p3, 9) {
                        Err(e) => Err(e),
                        Ok((ang_vel_cov, p4)) => match bits_at(d, p4, 3) {
                            Err(e) => Err(e),
                            Ok((lin_acc, p5)) => match bits_at(d, p5, 9) {
                                Err(e) => Err(e),
                                Ok((lin_acc_cov, p6)) => Ok(
                                    (
                                        ImuView {
                                            header,
                                            orientation,
                                            orientation_cov,
                                            ang_vel,
                                            ang_vel_cov,
                                            lin_acc,
                                            lin_acc_cov,
                                        },
                                        p6,
                                    ),
                                ),
                            },
                        },
                    },
                },
            },
        },
    }
}

/// The pose at the beginning of `d`, and where it ends.
pub open spec fn pose_in(d: Seq<u8>) -> Result<(PoseView, int), Seq<char>> {
    match header_at(d, 0) {
        Err(e) => Err(e),
        Ok((header, p0)) => match bits_at(d, p0, 3) {
            Err(e) => Err(e),
            Ok((position, p1)) => match bits_at(d, p1, 4) {
                Err(e) => Err(e),
                Ok((orientation, p2)) => Ok((PoseView { header, position, orientation }, p2)),
            },
        },
    }
}

/// The scene at the beginning of `d`, and where it ends.
pub open spec fn scene_in(d: Seq<u8>) -> Result<(SceneView, int), Seq<char>> {
    match str_at(d, 0) {
        Err(e) => Err(e),
        Ok((world_frame, p0)) => match uint_at(d, p0, 4) {
            Err(e) => Err(e),
            Ok((n, p1)) => match roles_at(d, p1, n) {
                Err(e) => Err(e),
                Ok((channels, p2)) => Ok((SceneView { world_frame, channels }, p2)),
            },
        },
    }
}

/// A parse that must end where the bytes end; `words` is said where it does not.
pub open spec fn whole<T>(
    d: Seq<u8>,
    parsed: Result<(T, int), Seq<char>>,
    words: spec_fn(int) -> Seq<char>,
) -> Result<T, Seq<char>> {
    match parsed {
        Err(e) => Err(e),
        Ok((v, p)) => if p != d.len() {
            Err(words(p))
        } else {
            Ok(v)
        },
    }
}

/// A message with a compact encoding.
pub trait Codec: View + Sized {
    /// The name under which the message type is known.
    const TYPE_NAME: &'static str;

    /// Whether the lengths in the message fit their fields.
    spec fn fits(v: Self::V) -> bool;

    /// The encoding of a message.
    spec fn encoded(v: Self::V) -> Seq<u8>;

    /// The message that bytes encode, or the words of the error.
    spec fn decoded(d: Seq<u8>) -> Result<Self::V, Seq<char>>;

    /// What is encoded decodes to itself.
    proof fn law_decodes_to_itself(v: Self::V)
        requires
            Self::fits(v),
        ensures
            Self::decoded(Self::encoded(v)) == Ok::<Self::V, Seq<char>>(v),
    ;

    /// The bytes of a message followed by more are no message, and neither are the bytes of a
    /// message cut short.
    proof fn law_no_message_begins_another(d: Seq<u8>, e: Seq<u8>)
        requires
            d.len() < e.len(),
            e.subrange(0, d.len() as int) == d,
        ensures
            Self::decoded(d) is Err || Self::decoded(e) is Err,
    ;

    /// Appends the encoding of the message to `out`.
    fn encode(&self, out: &mut Vec<u8>)
        ensures
            final(out)@ == old(out)@ + Self::encoded(self@),
    ;

    /// The message that `buf` encodes.
    fn decode(buf: &[u8]) -> (r: Result<Self, DecodeError>)
        ensures
            match r {
                Ok(m) => Self::decoded(buf@) == Ok::<Self::V, Seq<char>>(m@),
                Err(e) => Self::decoded(buf@) == Err::<Self::V, Seq<char>>(e@),
            },
    ;
}

// ---------- laying down ----------

fn push_time(out: &mut Vec<u8>, t: &Time)
    ensures
        final(out)@ == old(out)@ + time_bytes(*t),
{
    let ghost before = out@;
    let sec: i64 = t.sec;
    proof {
        assert(sec < 0 ==> (sec as u64) as int == sec + 0x1_0000_0000_0000_0000) by (bit_vector);
        assert(sec >= 0 ==> (sec as u64) as int == sec) by (bit_vector);
    }
    push_le(out, sec as u64, 8);
    push_le(out, t.nsec as u64, 4);
    assert(out@ =~= before + time_bytes(*t));
}

fn push_header(out: &mut Vec<u8>, h: &Header)
    ensures
        final(out)@ == old(out)@ + header_bytes(h@),
{
    let ghost before = out@;
    push_time(out, &h.stamp);
    push_str(out, h.frame_id.as_str());
    assert(out@ =~= before + header_bytes(h@));
}

fn push_pointfield(out: &mut Vec<u8>, f: &PointField)
    ensures
        final(out)@ == old(out)@ + field_bytes(f@),
{
    let ghost before = out@;
    push_str(out, f.name.as_str());
    push_le(out, f.offset as u64, 4);
    out.push(f.datatype);
    push_le(out, f.count as u64, 4);
    assert(out@ =~= before + field_bytes(f@));
}

fn push_fields(out: &mut Vec<u8>, fields: &[PointField])
    ensures
        final(out)@ == old(out)@ + fields_bytes(message::views(fields@)),
{
    let ghost before = out@;
    let ghost all = message::views(fields@);
    let mut i: usize = 0;
    assert(out@ =~= before + fields_bytes(all.take(0)));
    while i < fields.len()
        invariant
            i <= fields.len(),
            all == message::views(fields@),
            out@ == before + fields_bytes(all.take(i as int)),
        decreases fields.len() - i,
    {
        push_pointfield(out, &fields[i]);
        proof {
            assert(all.take(i + 1).drop_last() =~= all.take(i as int));
            assert(out@ =~= before + (fields_bytes(all.take(i as int)) + field_bytes(
                all[i as int],
            )));
        }
        i = i + 1;
    }
    assert(all.take(i as int) =~= all);
}

fn push_bits(out: &mut Vec<u8>, s: &[u64])
    ensures
        final(out)@ == old(out)@ + bits_bytes(s@),
{
    let ghost before = out@;
    let mut i: usize = 0;
    assert(out@ =~= before + bits_bytes(s@.take(0)));
    while i < s.len()
        invariant
            i <= s.len(),
            out@ == before + bits_bytes(s@.take(i as int)),
        decreases s.len() - i,
    {
        push_le(out, s[i], 8);
        proof {
            assert(s@.take(i + 1).drop_last() =~= s@.take(i as int));
            assert(out@ =~= before + (bits_bytes(s@.take(i as int)) + le::le_bytes(
                s@[i as int] as nat,
                8,
            )));
        }
        i = i + 1;
    }
    assert(s@.take(i as int) =~= s@);
}

fn push_roles(out: &mut Vec<u8>, roles: &[ChannelRole])
    ensures
        final(out)@ == old(out)@ + roles_bytes(message::views(roles@)),
{
    let ghost before = out@;
    let ghost all = message::views(roles@);
    let mut i: usize = 0;
    assert(out@ =~= before + roles_bytes(all.take(0)));
    while i < roles.len()
        invariant
            i <= roles.len(),
            all == message::views(roles@),
            out@ == before + roles_bytes(all.take(i as int)),
        decreases roles.len() - i,
    {
        let r: &ChannelRole = &roles[i];
        push_str(out, r.name.as_str());
        push_str(out, r.role.as_str());
        push_str(out, r.frame_id.as_str());
        proof {
            assert(all.take(i + 1).drop_last() =~= all.take(i as int));
            assert(out@ =~= before + (roles_bytes(all.take(i as int)) + role_bytes(
                all[i as int],
            )));
        }
        i = i + 1;
    }
    assert(all.take(i as int) =~= all);
}

fn push_flag(out: &mut Vec<u8>, b: bool)
    ensures
        final(out)@ == old(out)@ + seq![flag_byte(b)],
{
    let ghost before = out@;
    out.push(
        if b {
            1
        } else {
            0
        },
    );
    assert(out@ =~= before + seq![flag_byte(b)]);
}

// ---------- reading ----------

/// Bytes, and how far they were read.
struct Cursor<'a> {
    b: &'a [u8],
    pos: usize,
}

/// `r` and the cursor `c` after it are what the model says, which gives a value and a position.
spec fn took<T>(
    c: Cursor,
    r: Result<T, DecodeError>,
    model: Result<(T, int), Seq<char>>,
) -> bool {
    match r {
        Ok(v) => model == Ok::<(T, int), Seq<char>>((v, c.pos as int)) && c.pos <= c.b@.len(),
        Err(e) => model == Err::<(T, int), Seq<char>>(e@),
    }
}

/// As [`took`], for values that have a view.
spec fn took_view<T: View>(
    c: Cursor,
    r: Result<T, DecodeError>,
    model: Result<(T::V, int), Seq<char>>,
) -> bool {
    match r {
        Ok(v) => model == Ok::<(T::V, int), Seq<char>>((v@, c.pos as int)) && c.pos <= c.b@.len(),
        Err(e) => model == Err::<(T::V, int), Seq<char>>(e@),
    }
}

impl<'a> Cursor<'a> {
    fn new(b: &'a [u8]) -> (c: Self)
        ensures
            c.b == b,
            c.pos == 0,
    {
        Cursor { b, pos: 0 }
    }

    fn take(&mut self, n: usize) -> (r: Result<&'a [u8], DecodeError>)
        requires
            old(self).pos <= old(self).b@.len(),
        ensures
            final(self).b == old(self).b,
            match r {
                Ok(s) => slice_at(old(self).b@, old(self).pos as int, n as nat) == Ok::<
                    (Seq<u8>, int),
                    Seq<char>,
                >((s@, final(self).pos as int)) && final(self).pos <= final(self).b@.len() && s@.len()
                    == n,
                Err(e) => slice_at(old(self).b@, old(self).pos as int, n as nat) == Err::<
                    (Seq<u8>, int),
                    Seq<char>,
                >(e@),
            },
    {
        if n > self.b.len() - self.pos {
            return Err(DecodeError::end());
        }
        let s: &'a [u8] = slice_subrange(self.b, self.pos, self.pos + n);
        self.pos = self.pos + n;
        Ok(s)
    }

    fn take_uint(&mut self, n: usize) -> (r: Result<u64, DecodeError>)
        requires
            old(self).pos <= old(self).b@.len(),
            n <= 8,
        ensures
            final(self).b == old(self).b,
            match r {
                Ok(v) => uint_at(old(self).b@, old(self).pos as int, n as nat) == Ok::<
                    (nat, int),
                    Seq<char>,
                >((v as nat, final(self).pos as int)) && final(self).pos <= final(self).b@.len()
                    && v < le::le_limit(n as nat),
                Err(e) => uint_at(old(self).b@, old(self).pos as int, n as nat) == Err::<
                    (nat, int),
                    Seq<char>,
                >(e@),
            },
    {
        let s: &[u8] = self.take(n)?;
        assert(s@.subrange(0, n as int) =~= s@);
        Ok(get_le(s, 0, n))
    }

    fn take_u32(&mut self) -> (r: Result<u32, DecodeError>)
        requires
            old(self).pos <= old(self).b@.len(),
        ensures
            final(self).b == old(self).b,
            match r {
                Ok(v) => uint_at(old(self).b@, old(self).pos as int, 4) == Ok::<
                    (nat, int),
                    Seq<char>,
                >((v as nat, final(self).pos as int)) && final(self).pos <= final(self).b@.len(),
                Err(e) => uint_at(old(self).b@, old(self).pos as int, 4) == Err::<
                    (nat, int),
                    Seq<char>,
                >(e@),
            },
    {
        proof {
            le::lemma_le_limits();
        }
        let v: u64 = self.take_uint(4)?;
        Ok(v as u32)
    }

    fn take_time(&mut self) -> (r: Result<Time, DecodeError>)
        requires
            old(self).pos <= old(self).b@.len(),
        ensures
            final(self).b == old(self).b,
            took(*final(self), r, time_at(old(self).b@, old(self).pos as int)),
    {
        let sec: u64 = self.take_uint(8)?;
        proof {
            assert(sec >= 0x8000_0000_0000_0000 ==> (sec as i64) as int == sec
                - 0x1_0000_0000_0000_0000) by (bit_vector);
            assert(sec < 0x8000_0000_0000_0000 ==> (sec as i64) as int == sec) by (bit_vector);
        }
        let nsec: u32 = self.take_u32()?;
        Ok(Time { sec: sec as i64, nsec })
    }

    fn take_u8(&mut self) -> (r: Result<u8, DecodeError>)
        requires
            old(self).pos <= old(self).b@.len(),
        ensures
            final(self).b == old(self).b,
            match r {
                Ok(v) => slice_at(old(self).b@, old(self).pos as int, 1) == Ok::<
                    (Seq<u8>, int),
                    Seq<char>,
                >((seq![v], final(self).pos as int)) && final(self).pos <= final(self).b@.len(),
                Err(e) => slice_at(old(self).b@, old(self).pos as int, 1) == Err::<
                    (Seq<u8>, int),
                    Seq<char>,
                >(e@),
            },
    {
        let s: &[u8] = self.take(1)?;
        assert(s@ =~= seq![s@[0]]);
        Ok(s[0])
    }

    fn take_bytes(&mut self) -> (r: Result<Vec<u8>, DecodeError>)
        requires
            old(self).pos <= old(self).b@.len(),
        ensures
            final(self).b == old(self).b,
            took_view(*final(self), r, bytes_at(old(self).b@, old(self).pos as int)),
    {
        let len: u32 = self.take_u32()?;
        let s: &[u8] = self.take(len as usize)?;
        Ok(slice_to_vec(s))
    }

    fn take_str(&mut self) -> (r: Result<String, DecodeError>)
        requires
            old(self).pos <= old(self).b@.len(),
        ensures
            final(self).b == old(self).b,
            match r {
                Ok(s) => str_at(old(self).b@, old(self).pos as int) == Ok::<
                    (Seq<char>, int),
                    Seq<char>,
                >((s@, final(self).pos as int)) && final(self).pos <= final(self).b@.len(),
                Err(e) => str_at(old(self).b@, old(self).pos as int) == Err::<
                    (Seq<char>, int),
                    Seq<char>,
                >(e@),
            },
    {
        let len: u32 = self.take_u32()?;
        let s: &[u8] = self.take(len as usize)?;
        match utf8_text(s) {
            Some(t) => Ok(t),
            None => Err(DecodeError(text_of("bad utf8"))),
        }
    }

    fn take_header(&mut self) -> (r: Result<Header, DecodeError>)
        requires
            old(self).pos <= old(self).b@.len(),
        ensures
            final(self).b == old(self).b,
            took_view(*final(self), r, header_at(old(self).b@, old(self).pos as int)),
    {
        let stamp: Time = self.take_time()?;
        let frame_id: String = self.take_str()?;
        Ok(Header { stamp, frame_id })
    }

    fn take_pointfield(&mut self) -> (r: Result<PointField, DecodeError>)
        requires
            old(self).pos <= old(self).b@.len(),
        ensures
            final(self).b == old(self).b,
            took_view(*final(self), r, field_at(old(self).b@, old(self).pos as int)),
    {
        let name: String = self.take_str()?;
        let offset: u32 = self.take_u32()?;
        let datatype: u8 = self.take_u8()?;
        let count: u32 = self.take_u32()?;
        Ok(PointField { name, offset, datatype, count })
    }

    fn take_role(&mut self) -> (r: Result<ChannelRole, DecodeError>)
        requires
            old(self).pos <= old(self).b@.len(),
        ensures
            final(self).b == old(self).b,
            took_view(*final(self), r, role_at(old(self).b@, old(self).pos as int)),
    {
        let name: String = self.take_str()?;
        let role: String = self.take_str()?;
        let frame_id: String = self.take_str()?;
        Ok(ChannelRole { name, role, frame_id })
    }
}

proof fn lemma_fields_stop(d: Seq<u8>, pos: int, i: nat, n: nat)
    requires
        i <= n,
        fields_at(d, pos, i) is Err,
    ensures
        fields_at(d, pos, n) == fields_at(d, pos, i),
    decreases n,
{
    if i < n {
        lemma_fields_stop(d, pos, i, (n - 1) as nat);
    }
}

proof fn lemma_roles_stop(d: Seq<u8>, pos: int, i: nat, n: nat)
    requires
        i <= n,
        roles_at(d, pos, i) is Err,
    ensures
        roles_at(d, pos, n) == roles_at(d, pos, i),
    decreases n,
{
    if i < n {
        lemma_roles_stop(d, pos, i, (n - 1) as nat);
    }
}

proof fn lemma_bits_stop(d: Seq<u8>, pos: int, i: nat, n: nat)
    requires
        i <= n,
        bits_at(d, pos, i) is Err,
    ensures
        bits_at(d, pos, n) == bits_at(d, pos, i),
    decreases n,
{
    if i < n {
        lemma_bits_stop(d, pos, i, (n - 1) as nat);
    }
}

impl<'a> Cursor<'a> {
    fn take_fields(&mut self, count: u32) -> (r: Result<Vec<PointField>, DecodeError>)
        requires
            old(self).pos <= old(self).b@.len(),
        ensures
            final(self).b == old(self).b,
            match r {
                Ok(v) => fields_at(old(self).b@, old(self).pos as int, count as nat) == Ok::<
                    (Seq<FieldView>, int),
                    Seq<char>,
                >((message::views(v@), final(self).pos as int)) && final(self).pos <= final(self).b@.len(),
                Err(e) => fields_at(old(self).b@, old(self).pos as int, count as nat) == Err::<
                    (Seq<FieldView>, int),
                    Seq<char>,
                >(e@),
            },
    {
        let ghost d = self.b@;
        let ghost start = self.pos as int;
        let mut v: Vec<PointField> = Vec::new();
        let mut i: u32 = 0;
        assert(message::views(v@) =~= Seq::empty());
        while i < count
            invariant
                i <= count,
                self.b == old(self).b,
                d == self.b@,
                start == old(self).pos as int,
                self.pos <= d.len(),
                fields_at(d, start, i as nat) == Ok::<(Seq<FieldView>, int), Seq<char>>(
                    (message::views(v@), self.pos as int),
                ),
            decreases count - i,
        {
            let ghost was = message::views(v@);
            match self.take_pointfield() {
                Ok(x) => {
                    v.push(x);
                    assert(message::views(v@) =~= was.push(x@));
                },
                Err(e) => {
                    proof {
                        lemma_fields_stop(d, start, (i + 1) as nat, count as nat);
                    }
                    return Err(e);
                },
            }
            i = i + 1;
        }
        Ok(v)
    }

    fn take_roles(&mut self, count: u32) -> (r: Result<Vec<ChannelRole>, DecodeError>)
        requires
            old(self).pos <= old(self).b@.len(),
        ensures
            final(self).b == old(self).b,
            match r {
                Ok(v) => roles_at(old(self).b@, old(self).pos as int, count as nat) == Ok::<
                    (Seq<RoleView>, int),
                    Seq<char>,
                >((message::views(v@), final(self).pos as int)) && final(self).pos <= final(self).b@.len(),
                Err(e) => roles_at(old(self).b@, old(self).pos as int, count as nat) == Err::<
                    (Seq<RoleView>, int),
                    Seq<char>,
                >(e@),
            },
    {
        let ghost d = self.b@;
        let ghost start = self.pos as int;
        let mut v: Vec<ChannelRole> = Vec::new();
        let mut i: u32 = 0;
        assert(message::views(v@) =~= Seq::empty());
        while i < count
            invariant
                i <= count,
                self.b == old(self).b,
                d == self.b@,
                start == old(self).pos as int,
                self.pos <= d.len(),
                roles_at(d, start, i as nat) == Ok::<(Seq<RoleView>, int), Seq<char>>(
                    (message::views(v@), self.pos as int),
                ),
            decreases count - i,
        {
            let ghost was = message::views(v@);
            match self.take_role() {
                Ok(x) => {
                    v.push(x);
                    assert(message::views(v@) =~= was.push(x@));
                },
                Err(e) => {
                    proof {
                        lemma_roles_stop(d, start, (i + 1) as nat, count as nat);
                    }
                    return Err(e);
                },
            }
            i = i + 1;
        }
        Ok(v)
    }

    fn take_bits(&mut self, count: usize) -> (r: Result<Vec<u64>, DecodeError>)
        requires
            old(self).pos <= old(self).b@.len(),
        ensures
            final(self).b == old(self).b,
            r matches Ok(v) ==> v@.len() == count,
            took_view(*final(self), r, bits_at(old(self).b@, old(self).pos as int, count as nat)),
    {
        let ghost d = self.b@;
        let ghost start = self.pos as int;
        let mut v: Vec<u64> = Vec::new();
        let mut i: usize = 0;
        assert(v@ =~= Seq::empty());
        while i < count
            invariant
                i <= count,
                self.b == old(self).b,
                d == self.b@,
                start == old(self).pos as int,
                self.pos <= d.len(),
                v@.len() == i,
                bits_at(d, start, i as nat) == Ok::<(Seq<u64>, int), Seq<char>>(
                    (v@, self.pos as int),
                ),
            decreases count - i,
        {
            match self.take_uint(8) {
                Ok(x) => {
                    v.push(x);
                },
                Err(e) => {
                    proof {
                        lemma_bits_stop(d, start, (i + 1) as nat, count as nat);
                    }
                    return Err(e);
                },
            }
            i = i + 1;
        }
        Ok(v)
    }

    fn take_three(&mut self) -> (r: Result<[u64; 3], DecodeError>)
        requires
            old(self).pos <= old(self).b@.len(),
        ensures
            final(self).b == old(self).b,
            took_view(*final(self), r, bits_at(old(self).b@, old(self).pos as int, 3)),
    {
        let v: Vec<u64> = self.take_bits(3)?;
        let a: [u64; 3] = [v[0], v[1], v[2]];
        assert(a@ =~= v@);
        Ok(a)
    }

    fn take_four(&mut self) -> (r: Result<[u64; 4], DecodeError>)
        requires
            old(self).pos <= old(self).b@.len(),
        ensures
            final(self).b == old(self).b,
            took_view(*final(self), r, bits_at(old(self).b@, old(self).pos as int, 4)),
    {
        let v: Vec<u64> = self.take_bits(4)?;
        let a: [u64; 4] = [v[0], v[1], v[2], v[3]];
        assert(a@ =~= v@);
        Ok(a)
    }

    fn take_nine(&mut self) -> (r: Result<[u64; 9], DecodeError>)
        requires
            old(self).pos <= old(self).b@.len(),
        ensures
            final(self).b == old(self).b,
            took_view(*final(self), r, bits_at(old(self).b@, old(self).pos as int, 9)),
    {
        let v: Vec<u64> = self.take_bits(9)?;
        let a: [u64; 9] = [v[0], v[1], v[2], v[3], v[4], v[5], v[6], v[7], v[8]];
        assert(a@ =~= v@);
        Ok(a)
    }
}

/// What is said of a cloud that is followed by more bytes.
pub open spec fn cloud_trailing(pos: int, len: int) -> Seq<char> {
    "trailing bytes: "@ + text::decimal(pos as nat) + " != "@ + text::decimal(len as nat)
}

#[verifier::rlimit(40)]
fn encode_pointcloud(pc: &PointCloud, out: &mut Vec<u8>)
    ensures
        final(out)@ == old(out)@ + cloud_bytes(pc@),
{
    let ghost before = out@;
    proof {
        reveal(cloud_front_bytes);
        reveal(cloud_back_bytes);
    }
    push_header(out, &pc.header);
    push_le(out, pc.height as u64, 4);
    push_le(out, pc.width as u64, 4);
    push_le(out, pc.fields.len() as u64, 4);
    push_fields(out, pc.fields.as_slice());
    assert(out@ =~= before + cloud_front_bytes(pc@));
    push_flag(out, pc.is_bigendian);
    push_le(out, pc.point_step as u64, 4);
    push_le(out, pc.row_step as u64, 4);
    push_le(out, pc.data.len() as u64, 4);
    push_bytes(out, pc.data.as_slice());
    push_flag(out, pc.is_dense);
    assert(out@ =~= before + cloud_bytes(pc@));
}

fn decode_pointcloud(buf: &[u8]) -> (r: Result<PointCloud, DecodeError>)
    ensures
        match r {
            Ok(m) => PointCloud::decoded(buf@) == Ok::<CloudView, Seq<char>>(m@),
            Err(e) => PointCloud::decoded(buf@) == Err::<CloudView, Seq<char>>(e@),
        },
{
    proof {
        reveal(cloud_front_in);
        reveal(cloud_rest);
    }
    let mut c: Cursor = Cursor::new(buf);
    let header: Header = c.take_header()?;
    let height: u32 = c.take_u32()?;
    let width: u32 = c.take_u32()?;
    let nfields: u32 = c.take_u32()?;
    let fields: Vec<PointField> = c.take_fields(nfields)?;
    let big: u8 = c.take_u8()?;
    let point_step: u32 = c.take_u32()?;
    let row_step: u32 = c.take_u32()?;
    let data: Vec<u8> = c.take_bytes()?;
    let dense: u8 = c.take_u8()?;
    if c.pos != c.b.len() {
        let mut words: String = text_of("trailing bytes: ");
        push_decimal(&mut words, c.pos as u64);
        push_text(&mut words, " != ");
        push_decimal(&mut words, c.b.len() as u64);
        return Err(DecodeError(words));
    }
    Ok(
        PointCloud {
            header,
            height,
            width,
            fields,
            is_bigendian: big != 0,
            point_step,
            row_step,
            data,
            is_dense: dense != 0,
        },
    )
}

fn encode_imu(imu: &Imu, out: &mut Vec<u8>)
    ensures
        final(out)@ == old(out)@ + imu_bytes(imu@),
{
    let ghost before = out@;
    push_header(out, &imu.header);
    push_bits(out, &imu.orientation);
    push_bits(out, &imu.orientation_cov);
    push_bits(out, &imu.ang_vel);
    push_bits(out, &imu.ang_vel_cov);
    push_bits(out, &imu.lin_acc);
    push_bits(out, &imu.lin_acc_cov);
    proof {
        reveal(imu_bytes);
        assert(out@ =~= before + imu_bytes(imu@));
    }
}

fn decode_imu(buf: &[u8]) -> (r: Result<Imu, DecodeError>)
    ensures
        match r {
            Ok(m) => Imu::decoded(buf@) == Ok::<ImuView, Seq<char>>(m@),
            Err(e) => Imu::decoded(buf@) == Err::<ImuView, Seq<char>>(e@),
        },
{
    let mut c: Cursor = Cursor::new(buf);
    let header: Header = c.take_header()?;
    let orientation: [u64; 4] = c.take_four()?;
    let orientation_cov: [u64; 9] = c.take_nine()?;
    let ang_vel: [u64; 3] = c.take_three()?;
    let ang_vel_cov: [u64; 9] = c.take_nine()?;
    let lin_acc: [u64; 3] = c.take_three()?;
    let lin_acc_cov: [u64; 9] = c.take_nine()?;
    if c.pos != c.b.len() {
        return Err(DecodeError(text_of("trailing bytes")));
    }
    Ok(
        Imu {
            header,
            orientation,
            orientation_cov,
            ang_vel,
            ang_vel_cov,
            lin_acc,
            lin_acc_cov,
        },
    )
}

fn decode_pose(buf: &[u8]) -> (r: Result<PoseStamped, DecodeError>)
    ensures
        match r {
            Ok(m) => PoseStamped::decoded(buf@) == Ok::<PoseView, Seq<char>>(m@),
            Err(e) => PoseStamped::decoded(buf@) == Err::<PoseView, Seq<char>>(e@),
        },
{
    let mut c: Cursor = Cursor::new(buf);
    let header: Header = c.take_header()?;
    let position: [u64; 3] = c.take_three()?;
    let orientation: [u64; 4] = c.take_four()?;
    if c.pos != c.b.len() {
        return Err(DecodeError(text_of("trailing bytes")));
    }
    Ok(PoseStamped { header, position, orientation })
}

fn decode_scene(buf: &[u8]) -> (r: Result<SceneMeta, DecodeError>)
    ensures
        match r {
            Ok(m) => SceneMeta::decoded(buf@) == Ok::<SceneView, Seq<char>>(m@),
            Err(e) => SceneMeta::decoded(buf@) == Err::<SceneView, Seq<char>>(e@),
        },
{
    let mut c: Cursor = Cursor::new(buf);
    let world_frame: String = c.take_str()?;
    let n: u32 = c.take_u32()?;
    let channels: Vec<ChannelRole> = c.take_roles(n)?;
    if c.pos != c.b.len() {
        return Err(DecodeError(text_of("trailing bytes")));
    }
    Ok(SceneMeta { world_frame, channels })
}

impl Codec for PointCloud {
    const TYPE_NAME: &'static str = "doracap/PointCloud";

    open spec fn fits(v: CloudView) -> bool {
        &&& wire::text_fits(v.header.frame_id)
        &&& v.fields.len() < 0x1_0000_0000
        &&& forall|i: int| 0 <= i < v.fields.len() ==> wire::text_fits((#[trigger] v.fields[i]).name)
        &&& v.data.len() < 0x1_0000_0000
    }

    open spec fn encoded(v: CloudView) -> Seq<u8> {
        cloud_bytes(v)
    }

    open spec fn decoded(d: Seq<u8>) -> Result<CloudView, Seq<char>> {
        whole(d, cloud_in(d), |p: int| cloud_trailing(p, d.len() as int))
    }

    proof fn law_decodes_to_itself(v: CloudView) {
        lemma_cloud_reads_back(v);
    }

    proof fn law_no_message_begins_another(d: Seq<u8>, e: Seq<u8>) {
        lemma_cloud_extends(d, e);
    }

    fn encode(&self, out: &mut Vec<u8>) {
        encode_pointcloud(self, out);
    }

    fn decode(buf: &[u8]) -> (r: Result<Self, DecodeError>) {
        decode_pointcloud(buf)
    }
}

impl Codec for Imu {
    const TYPE_NAME: &'static str = "doracap/Imu";

    open spec fn fits(v: ImuView) -> bool {
        &&& wire::text_fits(v.header.frame_id)
        &&& v.orientation.len() == 4
        &&& v.orientation_cov.len() == 9
        &&& v.ang_vel.len() == 3
        &&& v.ang_vel_cov.len() == 9
        &&& v.lin_acc.len() == 3
        &&& v.lin_acc_cov.len() == 9
    }

    open spec fn encoded(v: ImuView) -> Seq<u8> {
        imu_bytes(v)
    }

    open spec fn decoded(d: Seq<u8>) -> Result<ImuView, Seq<char>> {
        whole(d, imu_in(d), |p: int| "trailing bytes"@)
    }

    proof fn law_decodes_to_itself(v: ImuView) {
        lemma_imu_reads_back(v);
    }

    proof fn law_no_message_begins_another(d: Seq<u8>, e: Seq<u8>) {
        lemma_imu_extends(d, e);
    }

    fn encode(&self, out: &mut Vec<u8>) {
        encode_imu(self, out);
    }

    fn decode(buf: &[u8]) -> (r: Result<Self, DecodeError>) {
        decode_imu(buf)
    }
}

impl Codec for PoseStamped {
    const TYPE_NAME: &'static str = "doracap/PoseStamped";

    open spec fn fits(v: PoseView) -> bool {
        &&& wire::text_fits(v.header.frame_id)
        &&& v.position.len() == 3
        &&& v.orientation.len() == 4
    }

    open spec fn encoded(v: PoseView) -> Seq<u8> {
        pose_bytes(v)
    }

    open spec fn decoded(d: Seq<u8>) -> Result<PoseView, Seq<char>> {
        whole(d, pose_in(d), |p: int| "trailing bytes"@)
    }

    proof fn law_decodes_to_itself(v: PoseView) {
        lemma_pose_reads_back(v);
    }

    proof fn law_no_message_begins_another(d: Seq<u8>, e: Seq<u8>) {
        lemma_pose_extends(d, e);
    }

    fn encode(&self, out: &mut Vec<u8>) {
        let ghost before = out@;
        push_header(out, &self.header);
        push_bits(out, &self.position);
        push_bits(out, &self.orientation);
        assert(out@ =~= before + pose_bytes(self@));
    }

    fn decode(buf: &[u8]) -> (r: Result<Self, DecodeError>) {
        decode_pose(buf)
    }
}

impl Codec for SceneMeta {
    const TYPE_NAME: &'static str = "doracap/SceneMeta";

    open spec fn fits(v: SceneView) -> bool {
        &&& wire::text_fits(v.world_frame)
        &&& v.channels.len() < 0x1_0000_0000
        &&& forall|i: int|
            0 <= i < v.channels.len() ==> role_fits(#[trigger] v.channels[i])
    }

    open spec fn encoded(v: SceneView) -> Seq<u8> {
        scene_bytes(v)
    }

    open spec fn decoded(d: Seq<u8>) -> Result<SceneView, Seq<char>> {
        whole(d, scene_in(d), |p: int| "trailing bytes"@)
    }

    proof fn law_decodes_to_itself(v: SceneView) {
        lemma_scene_reads_back(v);
    }

    proof fn law_no_message_begins_another(d: Seq<u8>, e: Seq<u8>) {
        lemma_scene_extends(d, e);
    }

    fn encode(&self, out: &mut Vec<u8>) {
        let ghost before = out@;
        push_str(out, self.world_frame.as_str());
        push_le(out, self.channels.len() as u64, 4);
        push_roles(out, self.channels.as_slice());
        assert(out@ =~= before + scene_bytes(self@));
    }

    fn decode(buf: &[u8]) -> (r: Result<Self, DecodeError>) {
        decode_scene(buf)
    }
}

/// The names under which the message types are known.
pub proof fn lemma_names()
    ensures
        PointCloud::TYPE_NAME@ == "doracap/PointCloud"@,
        Imu::TYPE_NAME@ == "doracap/Imu"@,
        PoseStamped::TYPE_NAME@ == "doracap/PoseStamped"@,
        SceneMeta::TYPE_NAME@ == "doracap/SceneMeta"@,
{
}

/// Whether the texts of a role fit their length fields.
pub open spec fn role_fits(r: RoleView) -> bool {
    wire::text_fits(r.name) && wire::text_fits(r.role) && wire::text_fits(r.frame_id)
}

// ---------- what was laid down reads back ----------

proof fn lemma_slice_reads_back(d: Seq<u8>, pos: int, s: Seq<u8>)
    requires
        wire::stands_at(d, pos, s),
    ensures
        slice_at(d, pos, s.len()) == Ok::<(Seq<u8>, int), Seq<char>>((s, pos + s.len())),
{
}

proof fn lemma_uint_reads_back(d: Seq<u8>, pos: int, v: nat, n: nat)
    requires
        v < le::le_limit(n),
        wire::stands_at(d, pos, le::le_bytes(v, n)),
    ensures
        uint_at(d, pos, n) == Ok::<(nat, int), Seq<char>>((v, pos + n)),
        le::le_bytes(v, n).len() == n,
{
    le::lemma_le_value_of_bytes(v, n);
}

proof fn lemma_bytes_read_back(d: Seq<u8>, pos: int, s: Seq<u8>)
    requires
        s.len() < 0x1_0000_0000,
        wire::stands_at(d, pos, le::le_bytes(s.len(), 4) + s),
    ensures
        bytes_at(d, pos) == Ok::<(Seq<u8>, int), Seq<char>>((s, pos + 4 + s.len())),
        le::le_bytes(s.len(), 4).len() == 4,
{
    le::lemma_le_limits();
    wire::lemma_two_parts(d, pos, le::le_bytes(s.len(), 4), s);
    lemma_uint_reads_back(d, pos, s.len(), 4);
}

proof fn lemma_str_reads_back(d: Seq<u8>, pos: int, s: Seq<char>)
    requires
        wire::text_fits(s),
        wire::stands_at(d, pos, wire::text_bytes(s)),
    ensures
        str_at(d, pos) == Ok::<(Seq<char>, int), Seq<char>>((s, pos + wire::text_bytes(s).len())),
{
    lemma_bytes_read_back(d, pos, utf8::encode_utf8(s));
    utf8::encode_utf8_valid_utf8(s);
    utf8::encode_utf8_decode_utf8(s);
}

proof fn lemma_header_reads_back(d: Seq<u8>, pos: int, h: HeaderView)
    requires
        wire::text_fits(h.frame_id),
        wire::stands_at(d, pos, header_bytes(h)),
    ensures
        header_at(d, pos) == Ok::<(HeaderView, int), Seq<char>>((h, pos + header_bytes(h).len())),
{
    let t = time_bytes(h.stamp);
    let a = le::le_bytes(message::two_complement_64(h.stamp.sec as int) as nat, 8);
    let b = le::le_bytes(h.stamp.nsec as nat, 4);
    le::lemma_le_limits();
    wire::lemma_two_parts(d, pos, t, wire::text_bytes(h.frame_id));
    wire::lemma_two_parts(d, pos, a, b);
    lemma_uint_reads_back(d, pos, message::two_complement_64(h.stamp.sec as int) as nat, 8);
    lemma_uint_reads_back(d, pos + 8, h.stamp.nsec as nat, 4);
    lemma_str_reads_back(d, pos + 12, h.frame_id);
}

proof fn lemma_field_reads_back(d: Seq<u8>, pos: int, f: FieldView)
    requires
        wire::text_fits(f.name),
        wire::stands_at(d, pos, field_bytes(f)),
    ensures
        field_at(d, pos) == Ok::<(FieldView, int), Seq<char>>((f, pos + field_bytes(f).len())),
{
    let a = wire::text_bytes(f.name);
    let b = le::le_bytes(f.offset as nat, 4);
    let c = seq![f.datatype];
    let e = le::le_bytes(f.count as nat, 4);
    le::lemma_le_limits();
    wire::lemma_two_parts(d, pos, a + b + c, e);
    wire::lemma_two_parts(d, pos, a + b, c);
    wire::lemma_two_parts(d, pos, a, b);
    lemma_str_reads_back(d, pos, f.name);
    let p = pos + a.len();
    lemma_uint_reads_back(d, p, f.offset as nat, 4);
    lemma_slice_reads_back(d, p + 4, c);
    lemma_uint_reads_back(d, p + 5, f.count as nat, 4);
}

proof fn lemma_fields_read_back(d: Seq<u8>, pos: int, s: Seq<FieldView>)
    requires
        wire::stands_at(d, pos, fields_bytes(s)),
        forall|i: int| 0 <= i < s.len() ==> wire::text_fits((#[trigger] s[i]).name),
    ensures
        fields_at(d, pos, s.len()) == Ok::<(Seq<FieldView>, int), Seq<char>>(
            (s, pos + fields_bytes(s).len()),
        ),
    decreases s.len(),
{
    if s.len() == 0 {
        assert(s =~= Seq::empty());
    } else {
        let front = s.drop_last();
        wire::lemma_two_parts(d, pos, fields_bytes(front), field_bytes(s.last()));
        assert forall|i: int| 0 <= i < front.len() implies wire::text_fits(
            (#[trigger] front[i]).name,
        ) by {
            assert(front[i] == s[i]);
        }
        lemma_fields_read_back(d, pos, front);
        lemma_field_reads_back(d, pos + fields_bytes(front).len(), s.last());
        assert(front.push(s.last()) =~= s);
    }
}

proof fn lemma_bits_read_back(d: Seq<u8>, pos: int, s: Seq<u64>)
    requires
        wire::stands_at(d, pos, bits_bytes(s)),
    ensures
        bits_at(d, pos, s.len()) == Ok::<(Seq<u64>, int), Seq<char>>(
            (s, pos + bits_bytes(s).len()),
        ),
    decreases s.len(),
{
    if s.len() == 0 {
        assert(s =~= Seq::empty());
    } else {
        let front = s.drop_last();
        le::lemma_le_limits();
        wire::lemma_two_parts(d, pos, bits_bytes(front), le::le_bytes(s.last() as nat, 8));
        lemma_bits_read_back(d, pos, front);
        lemma_uint_reads_back(d, pos + bits_bytes(front).len(), s.last() as nat, 8);
        assert(front.push(s.last()) =~= s);
    }
}

proof fn lemma_role_reads_back(d: Seq<u8>, pos: int, r: RoleView)
    requires
        role_fits(r),
        wire::stands_at(d, pos, role_bytes(r)),
    ensures
        role_at(d, pos) == Ok::<(RoleView, int), Seq<char>>((r, pos + role_bytes(r).len())),
{
    let a = wire::text_bytes(r.name);
    let b = wire::text_bytes(r.role);
    let c = wire::text_bytes(r.frame_id);
    wire::lemma_two_parts(d, pos, a + b, c);
    wire::lemma_two_parts(d, pos, a, b);
    lemma_str_reads_back(d, pos, r.name);
    lemma_str_reads_back(d, pos + a.len(), r.role);
    lemma_str_reads_back(d, pos + a.len() + b.len(), r.frame_id);
}

proof fn lemma_roles_read_back(d: Seq<u8>, pos: int, s: Seq<RoleView>)
    requires
        wire::stands_at(d, pos, roles_bytes(s)),
        forall|i: int| 0 <= i < s.len() ==> role_fits(#[trigger] s[i]),
    ensures
        roles_at(d, pos, s.len()) == Ok::<(Seq<RoleView>, int), Seq<char>>(
            (s, pos + roles_bytes(s).len()),
        ),
    decreases s.len(),
{
    if s.len() == 0 {
        assert(s =~= Seq::empty());
    } else {
        let front = s.drop_last();
        wire::lemma_two_parts(d, pos, roles_bytes(front), role_bytes(s.last()));
        assert forall|i: int| 0 <= i < front.len() implies role_fits(#[trigger] front[i]) by {
            assert(front[i] == s[i]);
        }
        lemma_roles_read_back(d, pos, front);
        assert(role_fits(s[s.len() - 1]));
        lemma_role_reads_back(d, pos + roles_bytes(front).len(), s.last());
        assert(front.push(s.last()) =~= s);
    }
}

proof fn lemma_all_stands(d: Seq<u8>)
    ensures
        wire::stands_at(d, 0, d),
{
    assert(d.subrange(0, d.len() as int) =~= d);
}

proof fn lemma_cloud_reads_back(v: CloudView)
    requires
        PointCloud::fits(v),
    ensures
        cloud_in(cloud_bytes(v)) == Ok::<(CloudView, int), Seq<char>>(
            (v, cloud_bytes(v).len() as int),
        ),
{
    let d = cloud_bytes(v);
    lemma_all_stands(d);
    wire::lemma_two_parts(d, 0, cloud_front_bytes(v), cloud_back_bytes(v));
    lemma_cloud_front(d, v);
    lemma_cloud_back(d, cloud_front_bytes(v).len() as int, v);
}

proof fn lemma_cloud_front(d: Seq<u8>, v: CloudView)
    requires
        PointCloud::fits(v),
        wire::stands_at(d, 0, cloud_front_bytes(v)),
    ensures
        cloud_front_in(d) == Ok::<(CloudFront, int), Seq<char>>(
            (front_of(v), cloud_front_bytes(v).len() as int),
        ),
{
    reveal(cloud_front_bytes);
    reveal(cloud_front_in);
    let h = header_bytes(v.header);
    let n1 = le::le_bytes(v.height as nat, 4);
    let n2 = le::le_bytes(v.width as nat, 4);
    let n3 = le::le_bytes(v.fields.len(), 4);
    let f = fields_bytes(v.fields);
    let p = h.len() as int;
    le::lemma_le_limits();
    wire::lemma_two_parts(d, 0, h + n1 + n2 + n3, f);
    wire::lemma_two_parts(d, 0, h + n1 + n2, n3);
    wire::lemma_two_parts(d, 0, h + n1, n2);
    wire::lemma_two_parts(d, 0, h, n1);
    lemma_header_reads_back(d, 0, v.header);
    lemma_uint_reads_back(d, p, v.height as nat, 4);
    lemma_uint_reads_back(d, p + 4, v.width as nat, 4);
    lemma_uint_reads_back(d, p + 8, v.fields.len(), 4);
    lemma_fields_read_back(d, p + 12, v.fields);
}

spec fn front_of(v: CloudView) -> CloudFront {
    CloudFront { header: v.header, height: v.height, width: v.width, fields: v.fields }
}

proof fn lemma_cloud_back(d: Seq<u8>, pos: int, v: CloudView)
    requires
        PointCloud::fits(v),
        wire::stands_at(d, pos, cloud_back_bytes(v)),
    ensures
        cloud_rest(d, pos, front_of(v)) == Ok::<
            (CloudView, int),
            Seq<char>,
        >((v, pos + cloud_back_bytes(v).len())),
{
    reveal(cloud_back_bytes);
    reveal(cloud_rest);
    let b1 = seq![flag_byte(v.is_bigendian)];
    let n4 = le::le_bytes(v.point_step as nat, 4);
    let n5 = le::le_bytes(v.row_step as nat, 4);
    let n6 = le::le_bytes(v.data.len(), 4) + v.data;
    let b2 = seq![flag_byte(v.is_dense)];
    le::lemma_le_limits();
    wire::lemma_two_parts(d, pos, b1 + n4 + n5 + n6, b2);
    wire::lemma_two_parts(d, pos, b1 + n4 + n5, n6);
    wire::lemma_two_parts(d, pos, b1 + n4, n5);
    wire::lemma_two_parts(d, pos, b1, n4);
    lemma_slice_reads_back(d, pos, b1);
    lemma_uint_reads_back(d, pos + 1, v.point_step as nat, 4);
    lemma_uint_reads_back(d, pos + 5, v.row_step as nat, 4);
    lemma_bytes_read_back(d, pos + 9, v.data);
    lemma_slice_reads_back(d, pos + 13 + v.data.len(), b2);
}

proof fn lemma_seven_parts(
    d: Seq<u8>,
    h: Seq<u8>,
    a: Seq<u8>,
    b: Seq<u8>,
    c: Seq<u8>,
    e: Seq<u8>,
    f: Seq<u8>,
    g: Seq<u8>,
)
    requires
        wire::stands_at(d, 0, h + a + b + c + e + f + g),
    ensures
        wire::stands_at(d, 0, h),
        wire::stands_at(d, h.len() as int, a),
        wire::stands_at(d, h.len() + a.len() as int, b),
        wire::stands_at(d, h.len() + a.len() + b.len() as int, c),
        wire::stands_at(d, h.len() + a.len() + b.len() + c.len() as int, e),
        wire::stands_at(d, h.len() + a.len() + b.len() + c.len() + e.len() as int, f),
        wire::stands_at(d, h.len() + a.len() + b.len() + c.len() + e.len() + f.len() as int, g),
{
    wire::lemma_two_parts(d, 0, h + a + b + c + e + f, g);
    wire::lemma_two_parts(d, 0, h + a + b + c + e, f);
    wire::lemma_two_parts(d, 0, h + a + b + c, e);
    wire::lemma_two_parts(d, 0, h + a + b, c);
    wire::lemma_two_parts(d, 0, h + a, b);
    wire::lemma_two_parts(d, 0, h, a);
}

pub proof fn lemma_imu_parts(v: ImuView)
    ensures
        ({
            let d = imu_bytes(v);
            let p0 = header_bytes(v.header).len() as int;
            let p1 = p0 + bits_bytes(v.orientation).len();
            let p2 = p1 + bits_bytes(v.orientation_cov).len();
            let p3 = p2 + bits_bytes(v.ang_vel).len();
            let p4 = p3 + bits_bytes(v.ang_vel_cov).len();
            let p5 = p4 + bits_bytes(v.lin_acc).len();
            &&& wire::stands_at(d, 0, header_bytes(v.header))
            &&& wire::stands_at(d, p0, bits_bytes(v.orientation))
            &&& wire::stands_at(d, p1, bits_bytes(v.orientation_cov))
            &&& wire::stands_at(d, p2, bits_bytes(v.ang_vel))
            &&& wire::stands_at(d, p3, bits_bytes(v.ang_vel_cov))
            &&& wire::stands_at(d, p4, bits_bytes(v.lin_acc))
            &&& wire::stands_at(d, p5, bits_bytes(v.lin_acc_cov))
            &&& d.len() == p5 + bits_bytes(v.lin_acc_cov).len()
        }),
{
    reveal(imu_bytes);
    let d = imu_bytes(v);
    lemma_all_stands(d);
    lemma_seven_parts(
        d,
        header_bytes(v.header),
        bits_bytes(v.orientation),
        bits_bytes(v.orientation_cov),
        bits_bytes(v.ang_vel),
        bits_bytes(v.ang_vel_cov),
        bits_bytes(v.lin_acc),
        bits_bytes(v.lin_acc_cov),
    );
}

proof fn lemma_imu_reads_back(v: ImuView)
    requires
        Imu::fits(v),
    ensures
        imu_in(imu_bytes(v)) == Ok::<(ImuView, int), Seq<char>>((v, imu_bytes(v).len() as int)),
{
    let d = imu_bytes(v);
    let p0 = header_bytes(v.header).len() as int;
    let p1 = p0 + bits_bytes(v.orientation).len();
    let p2 = p1 + bits_bytes(v.orientation_cov).len();
    let p3 = p2 + bits_bytes(v.ang_vel).len();
    let p4 = p3 + bits_bytes(v.ang_vel_cov).len();
    let p5 = p4 + bits_bytes(v.lin_acc).len();
    lemma_imu_parts(v);
    lemma_header_reads_back(d, 0, v.header);
    lemma_bits_read_back(d, p0, v.orientation);
    lemma_bits_read_back(d, p1, v.orientation_cov);
    lemma_bits_read_back(d, p2, v.ang_vel);
    lemma_bits_read_back(d, p3, v.ang_vel_cov);
    lemma_bits_read_back(d, p4, v.lin_acc);
    lemma_bits_read_back(d, p5, v.lin_acc_cov);
}

proof fn lemma_pose_reads_back(v: PoseView)
    requires
        PoseStamped::fits(v),
    ensures
        pose_in(pose_bytes(v)) == Ok::<(PoseView, int), Seq<char>>((v, pose_bytes(v).len() as int)),
{
    let d = pose_bytes(v);
    let h = header_bytes(v.header);
    let a = bits_bytes(v.position);
    let b = bits_bytes(v.orientation);
    lemma_all_stands(d);
    wire::lemma_two_parts(d, 0, h + a, b);
    wire::lemma_two_parts(d, 0, h, a);
    lemma_header_reads_back(d, 0, v.header);
    lemma_bits_read_back(d, h.len() as int, v.position);
    lemma_bits_read_back(d, h.len() + a.len() as int, v.orientation);
}

proof fn lemma_scene_reads_back(v: SceneView)
    requires
        SceneMeta::fits(v),
    ensures
        scene_in(scene_bytes(v)) == Ok::<(SceneView, int), Seq<char>>(
            (v, scene_bytes(v).len() as int),
        ),
{
    let d = scene_bytes(v);
    let a = wire::text_bytes(v.world_frame);
    let b = le::le_bytes(v.channels.len(), 4);
    let c = roles_bytes(v.channels);
    lemma_all_stands(d);
    le::lemma_le_limits();
    wire::lemma_two_parts(d, 0, a + b, c);
    wire::lemma_two_parts(d, 0, a, b);
    lemma_str_reads_back(d, 0, v.world_frame);
    lemma_uint_reads_back(d, a.len() as int, v.channels.len(), 4);
    lemma_roles_read_back(d, a.len() + 4 as int, v.channels);
}

// ---------- what was read is laid down again ----------

proof fn lemma_uint_lays_down(d: Seq<u8>, pos: int, n: nat)
    requires
        0 <= pos,
        uint_at(d, pos, n) is Ok,
    ensures
        uint_at(d, pos, n)->Ok_0.0 < le::le_limit(n),
        le::le_bytes(uint_at(d, pos, n)->Ok_0.0, n) == d.subrange(pos, pos + n),
{
    let s = d.subrange(pos, pos + n);
    le::lemma_le_value_bound(s);
    le::lemma_le_bytes_of_value(s);
}

proof fn lemma_time_lays_down(d: Seq<u8>, pos: int)
    requires
        0 <= pos,
        pos + 12 <= d.len(),
    ensures
        time_at(d, pos) matches Ok((t, q)) && q == pos + 12 && time_bytes(t) == d.subrange(pos, q),
{
    lemma_uint_lays_down(d, pos, 8);
    lemma_uint_lays_down(d, pos + 8, 4);
    le::lemma_le_limits();
    let sec = uint_at(d, pos, 8)->Ok_0.0;
    let t = time_at(d, pos)->Ok_0.0;
    assert(message::two_complement_64(t.sec as int) == sec);
    assert(d.subrange(pos, pos + 8) + d.subrange(pos + 8, pos + 12) =~= d.subrange(pos, pos + 12));
}

proof fn lemma_header_lays_down(d: Seq<u8>, pos: int)
    requires
        0 <= pos,
        header_at(d, pos) is Ok,
    ensures
        header_at(d, pos) matches Ok((h, q)) && wire::text_fits(h.frame_id) && header_bytes(h)
            == d.subrange(pos, q),
{
    let n = uint_at(d, pos + 12, 4)->Ok_0.0;
    let q = pos + 16 + n;
    let s = d.subrange(pos + 16, q);
    lemma_time_lays_down(d, pos);
    lemma_uint_lays_down(d, pos + 12, 4);
    le::lemma_le_limits();
    utf8::decode_utf8_encode_utf8(s);
    assert(d.subrange(pos, pos + 12) + (d.subrange(pos + 12, pos + 16) + s) =~= d.subrange(pos, q));
}

proof fn lemma_bits_lay_down(d: Seq<u8>, pos: int, n: nat)
    requires
        0 <= pos,
    ensures
        bits_at(d, pos, n) is Ok <==> pos + 8 * n <= d.len() || n == 0,
        bits_at(d, pos, n) matches Ok((s, q)) ==> s.len() == n && q == pos + 8 * n && (n == 0 || q
            <= d.len()) && (pos <= d.len() ==> bits_bytes(s) == d.subrange(pos, q)),
    decreases n,
{
    if n > 0 {
        let k = (n - 1) as nat;
        let p = pos + 8 * k;
        lemma_bits_lay_down(d, pos, k);
        if p + 8 <= d.len() {
            lemma_uint_lays_down(d, p, 8);
            le::lemma_le_limits();
            let s = bits_at(d, pos, k)->Ok_0.0;
            let v = uint_at(d, p, 8)->Ok_0.0;
            assert(s.push(v as u64).drop_last() =~= s);
            assert(d.subrange(pos, p) + d.subrange(p, p + 8) =~= d.subrange(pos, p + 8));
        }
    } else if pos <= d.len() {
        assert(d.subrange(pos, pos) =~= Seq::empty());
    }
}

/// The length that the name of a frame has in the header at the beginning of `d`.
pub open spec fn frame_len(d: Seq<u8>) -> nat {
    le::le_value(d.subrange(12, 16))
}

/// Whether `d` is a header with a readable name of a frame, and `rest` bytes behind it.
pub open spec fn header_and(d: Seq<u8>, rest: nat) -> bool {
    &&& d.len() >= 16
    &&& d.len() == 16 + frame_len(d) + rest
    &&& utf8::valid_utf8(d.subrange(16, 16 + frame_len(d) as int))
}

/// Bytes are a measurement exactly where they are a header and thirty-seven numbers, and a
/// measurement that was decoded is encoded to the bytes that it was decoded from.
pub proof fn law_decoded_imu_is_encoded_again(d: Seq<u8>)
    ensures
        Imu::decoded(d) is Ok <==> header_and(d, 296),
        Imu::decoded(d) matches Ok(m) ==> Imu::fits(m) && Imu::encoded(m) == d,
{
    if header_at(d, 0) is Ok {
        let p0 = header_at(d, 0)->Ok_0.1;
        lemma_header_lays_down(d, 0);
        lemma_bits_lay_down(d, p0, 4);
        lemma_bits_lay_down(d, p0 + 32, 9);
        lemma_bits_lay_down(d, p0 + 104, 3);
        lemma_bits_lay_down(d, p0 + 128, 9);
        lemma_bits_lay_down(d, p0 + 200, 3);
        lemma_bits_lay_down(d, p0 + 224, 9);
        if imu_in(d) is Ok && d.len() == p0 + 296 {
            reveal(imu_bytes);
            assert(d.subrange(0, p0) + d.subrange(p0, p0 + 32) =~= d.subrange(0, p0 + 32));
            assert(d.subrange(0, p0 + 32) + d.subrange(p0 + 32, p0 + 104) =~= d.subrange(
                0,
                p0 + 104,
            ));
            assert(d.subrange(0, p0 + 104) + d.subrange(p0 + 104, p0 + 128) =~= d.subrange(
                0,
                p0 + 128,
            ));
            assert(d.subrange(0, p0 + 128) + d.subrange(p0 + 128, p0 + 200) =~= d.subrange(
                0,
                p0 + 200,
            ));
            assert(d.subrange(0, p0 + 200) + d.subrange(p0 + 200, p0 + 224) =~= d.subrange(
                0,
                p0 + 224,
            ));
            assert(d.subrange(0, p0 + 224) + d.subrange(p0 + 224, p0 + 296) =~= d);
        }
    }
}

/// Bytes are a pose exactly where they are a header and seven numbers, and a pose that was
/// decoded is encoded to the bytes that it was decoded from.
pub proof fn law_decoded_pose_is_encoded_again(d: Seq<u8>)
    ensures
        PoseStamped::decoded(d) is Ok <==> header_and(d, 56),
        PoseStamped::decoded(d) matches Ok(m) ==> PoseStamped::fits(m) && PoseStamped::encoded(m)
            == d,
{
    if header_at(d, 0) is Ok {
        let p0 = header_at(d, 0)->Ok_0.1;
        lemma_header_lays_down(d, 0);
        lemma_bits_lay_down(d, p0, 3);
        lemma_bits_lay_down(d, p0 + 24, 4);
        if pose_in(d) is Ok && d.len() == p0 + 56 {
            assert(d.subrange(0, p0) + d.subrange(p0, p0 + 24) =~= d.subrange(0, p0 + 24));
            assert(d.subrange(0, p0 + 24) + d.subrange(p0 + 24, p0 + 56) =~= d);
        }
    }
}

proof fn lemma_str_lays_down(d: Seq<u8>, pos: int)
    requires
        0 <= pos,
        str_at(d, pos) is Ok,
    ensures
        str_at(d, pos) matches Ok((s, q)) && pos <= q <= d.len() && wire::text_fits(s)
            && wire::text_bytes(s) == d.subrange(pos, q),
{
    let n = uint_at(d, pos, 4)->Ok_0.0;
    let q = pos + 4 + n;
    let b = d.subrange(pos + 4, q);
    lemma_uint_lays_down(d, pos, 4);
    le::lemma_le_limits();
    utf8::decode_utf8_encode_utf8(b);
    assert(d.subrange(pos, pos + 4) + b =~= d.subrange(pos, q));
}

/// Two parts of `d` that follow each other are one.
proof fn lemma_joined(d: Seq<u8>, a: int, b: int, c: int)
    requires
        0 <= a <= b <= c <= d.len(),
    ensures
        d.subrange(a, b) + d.subrange(b, c) == d.subrange(a, c),
{
    assert(d.subrange(a, b) + d.subrange(b, c) =~= d.subrange(a, c));
}

proof fn lemma_role_lays_down(d: Seq<u8>, pos: int)
    requires
        0 <= pos,
        role_at(d, pos) is Ok,
    ensures
        role_at(d, pos) matches Ok((r, q)) && pos <= q <= d.len() && role_fits(r) && role_bytes(r)
            == d.subrange(pos, q),
{
    lemma_str_lays_down(d, pos);
    let p = str_at(d, pos)->Ok_0.1;
    lemma_str_lays_down(d, p);
    let q = str_at(d, p)->Ok_0.1;
    lemma_str_lays_down(d, q);
    let e = str_at(d, q)->Ok_0.1;
    lemma_joined(d, pos, p, q);
    lemma_joined(d, pos, q, e);
}

proof fn lemma_roles_lay_down(d: Seq<u8>, pos: int, n: nat)
    requires
        0 <= pos <= d.len(),
        roles_at(d, pos, n) is Ok,
    ensures
        roles_at(d, pos, n) matches Ok((s, q)) && s.len() == n && pos <= q <= d.len()
            && roles_bytes(s) == d.subrange(pos, q) && forall|i: int| 0 <= i < s.len() ==> role_fits(#[trigger] s[i]),
    decreases n,
{
    if n == 0 {
        assert(d.subrange(pos, pos) =~= Seq::empty());
    } else {
        let k = (n - 1) as nat;
        lemma_roles_lay_down(d, pos, k);
        let (s, p) = roles_at(d, pos, k)->Ok_0;
        lemma_role_lays_down(d, p);
        let (r, q) = role_at(d, p)->Ok_0;
        assert(s.push(r).drop_last() =~= s);
        lemma_joined(d, pos, p, q);
    }
}

/// A scene that was decoded is encoded to the bytes that it was decoded from.
pub proof fn law_decoded_scene_is_encoded_again(d: Seq<u8>)
    ensures
        SceneMeta::decoded(d) matches Ok(m) ==> SceneMeta::fits(m) && SceneMeta::encoded(m) == d,
{
    if SceneMeta::decoded(d) is Ok {
        lemma_str_lays_down(d, 0);
        let p = str_at(d, 0)->Ok_0.1;
        lemma_uint_lays_down(d, p, 4);
        le::lemma_le_limits();
        let n = uint_at(d, p, 4)->Ok_0.0;
        lemma_roles_lay_down(d, p + 4, n);
        lemma_joined(d, 0, p, p + 4);
        lemma_joined(d, 0, p + 4, d.len() as int);
        assert(d.subrange(0, d.len() as int) =~= d);
    }
}

proof fn lemma_field_lays_down(d: Seq<u8>, pos: int)
    requires
        0 <= pos,
        field_at(d, pos) is Ok,
    ensures
        field_at(d, pos) matches Ok((f, q)) && pos <= q <= d.len() && wire::text_fits(f.name)
            && field_bytes(f) == d.subrange(pos, q),
{
    lemma_str_lays_down(d, pos);
    let p = str_at(d, pos)->Ok_0.1;
    lemma_uint_lays_down(d, p, 4);
    lemma_uint_lays_down(d, p + 5, 4);
    le::lemma_le_limits();
    assert(d.subrange(p + 4, p + 5) =~= seq![d[p + 4]]);
    lemma_joined(d, pos, p, p + 4);
    lemma_joined(d, pos, p + 4, p + 5);
    lemma_joined(d, pos, p + 5, p + 9);
}

proof fn lemma_fields_lay_down(d: Seq<u8>, pos: int, n: nat)
    requires
        0 <= pos <= d.len(),
        fields_at(d, pos, n) is Ok,
    ensures
        fields_at(d, pos, n) matches Ok((s, q)) && s.len() == n && pos <= q <= d.len()
            && fields_bytes(s) == d.subrange(pos, q) && forall|i: int|
            0 <= i < s.len() ==> wire::text_fits((#[trigger] s[i]).name),
    decreases n,
{
    if n == 0 {
        assert(d.subrange(pos, pos) =~= Seq::empty());
    } else {
        let k = (n - 1) as nat;
        lemma_fields_lay_down(d, pos, k);
        let (s, p) = fields_at(d, pos, k)->Ok_0;
        lemma_field_lays_down(d, p);
        let (f, q) = field_at(d, p)->Ok_0;
        assert(s.push(f).drop_last() =~= s);
        lemma_joined(d, pos, p, q);
    }
}

/// The front of a cloud that was read is laid down as the bytes that it was read from.
proof fn lemma_front_lays_down(d: Seq<u8>, c: CloudView)
    requires
        cloud_front_in(d) matches Ok((f, q)) && f == front_of(c),
    ensures
        cloud_front_in(d) matches Ok((f, q)) && 0 <= q <= d.len() && cloud_front_bytes(c)
            == d.subrange(0, q),
        wire::text_fits(c.header.frame_id),
        c.fields.len() < 0x1_0000_0000,
        forall|i: int| 0 <= i < c.fields.len() ==> wire::text_fits((#[trigger] c.fields[i]).name),
{
    reveal(cloud_front_in);
    reveal(cloud_front_bytes);
    lemma_header_lays_down(d, 0);
    let p = header_at(d, 0)->Ok_0.1;
    assert(0 <= p <= d.len());
    lemma_uint_lays_down(d, p, 4);
    lemma_uint_lays_down(d, p + 4, 4);
    lemma_uint_lays_down(d, p + 8, 4);
    le::lemma_le_limits();
    let n = uint_at(d, p + 8, 4)->Ok_0.0;
    lemma_fields_lay_down(d, p + 12, n);
    let q = fields_at(d, p + 12, n)->Ok_0.1;
    lemma_joined(d, 0, p, p + 4);
    lemma_joined(d, 0, p + 4, p + 8);
    lemma_joined(d, 0, p + 8, p + 12);
    lemma_joined(d, 0, p + 12, q);
}

/// What follows the fields of a cloud that was read is laid down as the bytes that it was read
/// from, but for the flags, of which any byte but zero is read as set.
proof fn lemma_back_lays_down(d: Seq<u8>, pos: int, front: CloudFront)
    requires
        0 <= pos,
        cloud_rest(d, pos, front) matches Ok((c, q)) && q == d.len(),
    ensures
        ({
            let c = cloud_rest(d, pos, front)->Ok_0.0;
            let e = d.len() - 1;
            &&& pos < e
            &&& c.data.len() < 0x1_0000_0000
            &&& c.is_bigendian == (d[pos] != 0)
            &&& c.is_dense == (d[e] != 0)
            &&& cloud_back_bytes(c) == seq![flag_byte(d[pos] != 0)] + d.subrange(pos + 1, e)
                + seq![flag_byte(d[e] != 0)]
        }),
{
    reveal(cloud_rest);
    reveal(cloud_back_bytes);
    let c = cloud_rest(d, pos, front)->Ok_0.0;
    let e = d.len() - 1;
    lemma_uint_lays_down(d, pos + 1, 4);
    lemma_uint_lays_down(d, pos + 5, 4);
    lemma_uint_lays_down(d, pos + 9, 4);
    le::lemma_le_limits();
    assert(c.data == d.subrange(pos + 13, e));
    lemma_joined(d, pos + 1, pos + 5, pos + 9);
    lemma_joined(d, pos + 9, pos + 13, e);
    lemma_joined(d, pos + 1, pos + 9, e);
    assert(cloud_back_bytes(c) =~= seq![flag_byte(c.is_bigendian)] + (d.subrange(pos + 1, pos + 5)
        + d.subrange(pos + 5, pos + 9) + d.subrange(pos + 9, e)) + seq![flag_byte(c.is_dense)]);
}

/// A cloud that was decoded is encoded to the bytes that it was decoded from, but for its two
/// flags: any byte but zero is read as a flag that is set, and one is what is written for it.
pub proof fn law_decoded_cloud_is_encoded_again(d: Seq<u8>)
    ensures
        PointCloud::decoded(d) matches Ok(c) ==> PointCloud::fits(c) && exists|p: int|
            {
                &&& 0 <= p < d.len() - 1
                &&& c.is_bigendian == (#[trigger] d[p] != 0)
                &&& c.is_dense == (d.last() != 0)
                &&& PointCloud::encoded(c) == d.update(
                    p,
                    if d[p] != 0 {
                        1
                    } else {
                        0
                    },
                ).update(
                    d.len() - 1,
                    if d.last() != 0 {
                        1
                    } else {
                        0
                    },
                )
            },
{
    if PointCloud::decoded(d) is Ok {
        let (front, p) = cloud_front_in(d)->Ok_0;
        let c = cloud_rest(d, p, front)->Ok_0.0;
        assert(front == front_of(c)) by {
            reveal(cloud_rest);
        }
        lemma_front_lays_down(d, c);
        lemma_back_lays_down(d, p, front);
        let e = d.len() - 1;
        let again = d.update(p, flag_byte(d[p] != 0)).update(e, flag_byte(d[e] != 0));
        assert(again =~= d.subrange(0, p) + (seq![flag_byte(d[p] != 0)] + d.subrange(p + 1, e)
            + seq![flag_byte(d[e] != 0)]));
    }
}

// ---------- what was read does not depend on what follows ----------

/// Whether `d` is the beginning of `e`.
spec fn begins(d: Seq<u8>, e: Seq<u8>) -> bool {
    d.len() <= e.len() && e.subrange(0, d.len() as int) == d
}

proof fn lemma_slice_extends(d: Seq<u8>, e: Seq<u8>)
    requires
        begins(d, e),
    ensures
        forall|pos: int, n: nat|
            0 <= pos && (#[trigger] slice_at(d, pos, n)) is Ok ==> slice_at(e, pos, n) == slice_at(
                d,
                pos,
                n,
            ),
{
    assert forall|pos: int, n: nat|
        0 <= pos && (#[trigger] slice_at(d, pos, n)) is Ok implies slice_at(e, pos, n) == slice_at(
        d,
        pos,
        n,
    ) by {
        assert(e.subrange(pos, pos + n) =~= e.subrange(0, d.len() as int).subrange(pos, pos + n));
    }
}

proof fn lemma_header_extends(d: Seq<u8>, e: Seq<u8>, pos: int)
    requires
        begins(d, e),
        0 <= pos,
        header_at(d, pos) is Ok,
    ensures
        header_at(e, pos) == header_at(d, pos),
        header_at(d, pos)->Ok_0.1 >= 0,
{
    lemma_slice_extends(d, e);
}

proof fn lemma_field_extends(d: Seq<u8>, e: Seq<u8>, pos: int)
    requires
        begins(d, e),
        0 <= pos,
        field_at(d, pos) is Ok,
    ensures
        field_at(e, pos) == field_at(d, pos),
        field_at(d, pos)->Ok_0.1 >= 0,
{
    lemma_slice_extends(d, e);
}

proof fn lemma_fields_extend(d: Seq<u8>, e: Seq<u8>, pos: int, n: nat)
    requires
        begins(d, e),
        0 <= pos,
        fields_at(d, pos, n) is Ok,
    ensures
        fields_at(e, pos, n) == fields_at(d, pos, n),
        fields_at(d, pos, n)->Ok_0.1 >= 0,
    decreases n,
{
    if n > 0 {
        lemma_fields_extend(d, e, pos, (n - 1) as nat);
        lemma_field_extends(d, e, fields_at(d, pos, (n - 1) as nat)->Ok_0.1);
    }
}

proof fn lemma_bits_extend(d: Seq<u8>, e: Seq<u8>, pos: int, n: nat)
    requires
        begins(d, e),
        0 <= pos,
        bits_at(d, pos, n) is Ok,
    ensures
        bits_at(e, pos, n) == bits_at(d, pos, n),
        bits_at(d, pos, n)->Ok_0.1 >= 0,
    decreases n,
{
    if n > 0 {
        lemma_bits_extend(d, e, pos, (n - 1) as nat);
        lemma_slice_extends(d, e);
    }
}

proof fn lemma_role_extends(d: Seq<u8>, e: Seq<u8>, pos: int)
    requires
        begins(d, e),
        0 <= pos,
        role_at(d, pos) is Ok,
    ensures
        role_at(e, pos) == role_at(d, pos),
        role_at(d, pos)->Ok_0.1 >= 0,
{
    lemma_slice_extends(d, e);
}

proof fn lemma_roles_extend(d: Seq<u8>, e: Seq<u8>, pos: int, n: nat)
    requires
        begins(d, e),
        0 <= pos,
        roles_at(d, pos, n) is Ok,
    ensures
        roles_at(e, pos, n) == roles_at(d, pos, n),
        roles_at(d, pos, n)->Ok_0.1 >= 0,
    decreases n,
{
    if n > 0 {
        lemma_roles_extend(d, e, pos, (n - 1) as nat);
        lemma_role_extends(d, e, roles_at(d, pos, (n - 1) as nat)->Ok_0.1);
    }
}

proof fn lemma_cloud_front_extends(d: Seq<u8>, e: Seq<u8>)
    requires
        begins(d, e),
        cloud_front_in(d) is Ok,
    ensures
        cloud_front_in(e) == cloud_front_in(d),
        cloud_front_in(d)->Ok_0.1 >= 0,
{
    reveal(cloud_front_in);
    lemma_slice_extends(d, e);
    lemma_header_extends(d, e, 0);
    let p0 = header_at(d, 0)->Ok_0.1;
    let n = uint_at(d, p0 + 8, 4)->Ok_0.0;
    lemma_fields_extend(d, e, p0 + 12, n);
}

proof fn lemma_cloud_rest_extends(d: Seq<u8>, e: Seq<u8>, pos: int, front: CloudFront)
    requires
        begins(d, e),
        0 <= pos,
        cloud_rest(d, pos, front) is Ok,
    ensures
        cloud_rest(e, pos, front) == cloud_rest(d, pos, front),
{
    reveal(cloud_rest);
    lemma_slice_extends(d, e);
}

proof fn lemma_cloud_extends(d: Seq<u8>, e: Seq<u8>)
    requires
        begins(d, e),
    ensures
        cloud_in(d) is Ok ==> cloud_in(e) == cloud_in(d),
{
    if cloud_in(d) is Ok {
        lemma_cloud_front_extends(d, e);
        let (front, p) = cloud_front_in(d)->Ok_0;
        lemma_cloud_rest_extends(d, e, p, front);
    }
}

proof fn lemma_imu_extends(d: Seq<u8>, e: Seq<u8>)
    requires
        begins(d, e),
    ensures
        imu_in(d) is Ok ==> imu_in(e) == imu_in(d),
{
    if imu_in(d) is Ok {
        lemma_header_extends(d, e, 0);
        let p0 = header_at(d, 0)->Ok_0.1;
        lemma_bits_extend(d, e, p0, 4);
        let p1 = bits_at(d, p0, 4)->Ok_0.1;
        lemma_bits_extend(d, e, p1, 9);
        let p2 = bits_at(d, p1, 9)->Ok_0.1;
        lemma_bits_extend(d, e, p2, 3);
        let p3 = bits_at(d, p2, 3)->Ok_0.1;
        lemma_bits_extend(d, e, p3, 9);
        let p4 = bits_at(d, p3, 9)->Ok_0.1;
        lemma_bits_extend(d, e, p4, 3);
        let p5 = bits_at(d, p4, 3)->Ok_0.1;
        lemma_bits_extend(d, e, p5, 9);
    }
}

proof fn lemma_pose_extends(d: Seq<u8>, e: Seq<u8>)
    requires
        begins(d, e),
    ensures
        pose_in(d) is Ok ==> pose_in(e) == pose_in(d),
{
    if pose_in(d) is Ok {
        lemma_header_extends(d, e, 0);
        let p0 = header_at(d, 0)->Ok_0.1;
        lemma_bits_extend(d, e, p0, 3);
        let p1 = bits_at(d, p0, 3)->Ok_0.1;
        lemma_bits_extend(d, e, p1, 4);
    }
}

proof fn lemma_scene_extends(d: Seq<u8>, e: Seq<u8>)
    requires
        begins(d, e),
    ensures
        scene_in(d) is Ok ==> scene_in(e) == scene_in(d),
{
    if scene_in(d) is Ok {
        lemma_slice_extends(d, e);
        let p0 = str_at(d, 0)->Ok_0.1;
        let n = uint_at(d, p0, 4)->Ok_0.0;
        lemma_roles_extend(d, e, p0 + 4, n);
    }
}

// ---------- what is said where bytes are no message ----------

/// A message that is followed by more bytes is refused, and that is told; of a cloud, where it ends
/// and where the bytes do.
pub proof fn law_more_bytes_are_told(
    c: CloudView,
    m: ImuView,
    p: PoseView,
    s: SceneView,
    more: Seq<u8>,
)
    requires
        more.len() > 0,
    ensures
        Imu::fits(m) ==> Imu::decoded(Imu::encoded(m) + more) == Err::<ImuView, Seq<char>>(
            "trailing bytes"@,
        ),
        PoseStamped::fits(p) ==> PoseStamped::decoded(PoseStamped::encoded(p) + more) == Err::<
            PoseView,
            Seq<char>,
        >("trailing bytes"@),
        SceneMeta::fits(s) ==> SceneMeta::decoded(SceneMeta::encoded(s) + more) == Err::<
            SceneView,
            Seq<char>,
        >("trailing bytes"@),
        PointCloud::fits(c) ==> PointCloud::decoded(PointCloud::encoded(c) + more) == Err::<
            CloudView,
            Seq<char>,
        >(
            "trailing bytes: "@ + text::decimal(PointCloud::encoded(c).len()) + " != "@
                + text::decimal(PointCloud::encoded(c).len() + more.len()),
        ),
{
    let a = Imu::encoded(m);
    assert((a + more).subrange(0, a.len() as int) =~= a);
    if Imu::fits(m) {
        lemma_imu_reads_back(m);
        lemma_imu_extends(a, a + more);
    }
    let b = PoseStamped::encoded(p);
    assert((b + more).subrange(0, b.len() as int) =~= b);
    if PoseStamped::fits(p) {
        lemma_pose_reads_back(p);
        lemma_pose_extends(b, b + more);
    }
    let e = SceneMeta::encoded(s);
    assert((e + more).subrange(0, e.len() as int) =~= e);
    if SceneMeta::fits(s) {
        lemma_scene_reads_back(s);
        lemma_scene_extends(e, e + more);
    }
    let f = PointCloud::encoded(c);
    assert((f + more).subrange(0, f.len() as int) =~= f);
    if PointCloud::fits(c) {
        lemma_cloud_reads_back(c);
        lemma_cloud_extends(f, f + more);
    }
}

proof fn lemma_bits_run_out(d: Seq<u8>, pos: int, n: nat)
    ensures
        bits_at(d, pos, n) matches Err(e) ==> e == "unexpected end"@,
    decreases n,
{
    if n > 0 {
        lemma_bits_run_out(d, pos, (n - 1) as nat);
    }
}

/// A header that is cut short runs out.
proof fn lemma_header_runs_out(d: Seq<u8>, e: Seq<u8>)
    requires
        begins(d, e),
        header_at(e, 0) is Ok,
    ensures
        header_at(d, 0) matches Err(w) ==> w == "unexpected end"@,
{
    if d.len() >= 16 {
        let n = uint_at(d, 12, 4)->Ok_0.0;
        lemma_slice_extends(d, e);
        assert(slice_at(d, 12, 4) is Ok);
        assert(slice_at(d, 0, 8) is Ok);
        assert(slice_at(d, 8, 4) is Ok);
        if 16 + n <= d.len() {
            assert(slice_at(d, 16, n) is Ok);
        }
    }
}

/// A measurement or a pose that is cut short is refused, because the bytes run out.
pub proof fn law_missing_bytes_are_told(m: ImuView, p: PoseView, k: int)
    requires
        0 <= k,
    ensures
        Imu::fits(m) && k < Imu::encoded(m).len() ==> Imu::decoded(Imu::encoded(m).take(k))
            == Err::<ImuView, Seq<char>>("unexpected end"@),
        PoseStamped::fits(p) && k < PoseStamped::encoded(p).len() ==> PoseStamped::decoded(
            PoseStamped::encoded(p).take(k),
        ) == Err::<PoseView, Seq<char>>("unexpected end"@),
{
    let a = Imu::encoded(m);
    if Imu::fits(m) && k < a.len() {
        let d = a.take(k);
        lemma_imu_reads_back(m);
        assert(a.subrange(0, k) =~= d);
        lemma_imu_extends(d, a);
        lemma_header_runs_out(d, a);
        if header_at(d, 0) is Ok {
            let p0 = header_at(d, 0)->Ok_0.1;
            lemma_header_extends(d, a, 0);
            lemma_bits_lay_down(d, p0, 4);
            lemma_bits_lay_down(d, p0 + 32, 9);
            lemma_bits_lay_down(d, p0 + 104, 3);
            lemma_bits_lay_down(d, p0 + 128, 9);
            lemma_bits_lay_down(d, p0 + 200, 3);
            lemma_bits_lay_down(d, p0 + 224, 9);
            lemma_bits_run_out(d, p0, 4);
            lemma_bits_run_out(d, p0 + 32, 9);
            lemma_bits_run_out(d, p0 + 104, 3);
            lemma_bits_run_out(d, p0 + 128, 9);
            lemma_bits_run_out(d, p0 + 200, 3);
            lemma_bits_run_out(d, p0 + 224, 9);
        }
    }
    let b = PoseStamped::encoded(p);
    if PoseStamped::fits(p) && k < b.len() {
        let d = b.take(k);
        lemma_pose_reads_back(p);
        assert(b.subrange(0, k) =~= d);
        lemma_pose_extends(d, b);
        lemma_header_runs_out(d, b);
        if header_at(d, 0) is Ok {
            let p0 = header_at(d, 0)->Ok_0.1;
            lemma_header_extends(d, b, 0);
            lemma_bits_lay_down(d, p0, 3);
            lemma_bits_lay_down(d, p0 + 24, 4);
            lemma_bits_run_out(d, p0, 3);
            lemma_bits_run_out(d, p0 + 24, 4);
        }
    }
}

} // verus!
