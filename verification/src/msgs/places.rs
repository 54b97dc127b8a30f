//! Where the parts of a message stand in its encoding, byte by byte.

use crate::msgs::codec;
use crate::msgs::codec::Codec;
use crate::msgs::types::{
    CloudView, FieldView, HeaderView, Imu, ImuView, PointCloud, PoseStamped, PoseView, RoleView,
    SceneMeta, SceneView,
};
use crate::{le, message, wire};
use vstd::prelude::*;
use vstd::utf8;

verus! {

/// The number in the `n` bytes of `d` at `pos`, least significant byte first.
pub open spec fn number_at(d: Seq<u8>, pos: int, n: int) -> nat {
    le::le_value(d.subrange(pos, pos + n))
}

/// Whether the text `s` stands in `d` at `pos`: its length in bytes, in four bytes, then its UTF-8
/// form.
pub open spec fn text_stands(d: Seq<u8>, pos: int, s: Seq<char>) -> bool {
    let b = utf8::encode_utf8(s);
    &&& 0 <= pos
    &&& pos + 4 + b.len() <= d.len()
    &&& number_at(d, pos, 4) == b.len()
    &&& d.subrange(pos + 4, pos + 4 + b.len()) == b
}

/// Whether a header stands at the beginning of `d`: the seconds in eight bytes, negative ones as
/// their two's complement, the nanoseconds in four bytes, and the name of the frame.
pub open spec fn header_stands(d: Seq<u8>, h: HeaderView) -> bool {
    &&& number_at(d, 0, 8) == (if h.stamp.sec < 0 {
        h.stamp.sec + 0x1_0000_0000_0000_0000
    } else {
        h.stamp.sec as int
    })
    &&& number_at(d, 8, 4) == h.stamp.nsec
    &&& text_stands(d, 12, h.frame_id)
}

/// Whether the numbers `s` stand in `d` at `pos`, one behind the other, eight bytes each.
pub open spec fn numbers_stand(d: Seq<u8>, pos: int, s: Seq<u64>) -> bool {
    &&& 0 <= pos
    &&& pos + 8 * s.len() <= d.len()
    &&& forall|i: int| 0 <= i < s.len() ==> number_at(d, pos + 8 * i, 8) == #[trigger] s[i]
}

pub proof fn lemma_number_stands(d: Seq<u8>, pos: int, v: nat, n: nat)
    requires
        v < le::le_limit(n),
        wire::stands_at(d, pos, le::le_bytes(v, n)),
    ensures
        number_at(d, pos, n as int) == v,
        le::le_bytes(v, n).len() == n,
{
    le::lemma_le_value_of_bytes(v, n);
}

pub proof fn lemma_text_stands(d: Seq<u8>, pos: int, s: Seq<char>)
    requires
        wire::text_fits(s),
        wire::stands_at(d, pos, wire::text_bytes(s)),
    ensures
        text_stands(d, pos, s),
        wire::text_bytes(s).len() == 4 + utf8::encode_utf8(s).len(),
{
    let b = utf8::encode_utf8(s);
    le::lemma_le_limits();
    wire::lemma_two_parts(d, pos, le::le_bytes(b.len(), 4), b);
    lemma_number_stands(d, pos, b.len(), 4);
}

proof fn lemma_header_stands(d: Seq<u8>, h: HeaderView)
    requires
        wire::text_fits(h.frame_id),
        wire::stands_at(d, 0, codec::header_bytes(h)),
    ensures
        header_stands(d, h),
        codec::header_bytes(h).len() == 16 + utf8::encode_utf8(h.frame_id).len(),
{
    let t = codec::time_bytes(h.stamp);
    let sec = message::two_complement_64(h.stamp.sec as int) as nat;
    let a = le::le_bytes(sec, 8);
    let b = le::le_bytes(h.stamp.nsec as nat, 4);
    le::lemma_le_limits();
    wire::lemma_two_parts(d, 0, t, wire::text_bytes(h.frame_id));
    wire::lemma_two_parts(d, 0, a, b);
    lemma_number_stands(d, 0, sec, 8);
    lemma_number_stands(d, 8, h.stamp.nsec as nat, 4);
    lemma_text_stands(d, 12, h.frame_id);
}

proof fn lemma_numbers_stand(d: Seq<u8>, pos: int, s: Seq<u64>)
    requires
        wire::stands_at(d, pos, codec::bits_bytes(s)),
    ensures
        numbers_stand(d, pos, s),
        codec::bits_bytes(s).len() == 8 * s.len(),
    decreases s.len(),
{
    if s.len() > 0 {
        let front = s.drop_last();
        le::lemma_le_limits();
        wire::lemma_two_parts(d, pos, codec::bits_bytes(front), le::le_bytes(s.last() as nat, 8));
        lemma_numbers_stand(d, pos, front);
        lemma_number_stands(d, pos + 8 * front.len(), s.last() as nat, 8);
        assert forall|i: int| 0 <= i < s.len() implies number_at(d, pos + 8 * i, 8)
            == #[trigger] s[i] by {
            if i < front.len() {
                assert(front[i] == s[i]);
            }
        }
    }
}

/// The encoding of a measurement: the header, then the orientation, the turn rates and the
/// accelerations, each with its covariances behind it.
pub proof fn law_imu_parts_stand_in_their_places(v: ImuView)
    requires
        Imu::fits(v),
    ensures
        ({
            let d = Imu::encoded(v);
            let p = 16 + utf8::encode_utf8(v.header.frame_id).len() as int;
            &&& d.len() == p + 296
            &&& header_stands(d, v.header)
            &&& numbers_stand(d, p, v.orientation)
            &&& numbers_stand(d, p + 32, v.orientation_cov)
            &&& numbers_stand(d, p + 104, v.ang_vel)
            &&& numbers_stand(d, p + 128, v.ang_vel_cov)
            &&& numbers_stand(d, p + 200, v.lin_acc)
            &&& numbers_stand(d, p + 224, v.lin_acc_cov)
        }),
{
    let d = codec::imu_bytes(v);
    let p = 16 + utf8::encode_utf8(v.header.frame_id).len() as int;
    codec::lemma_imu_parts(v);
    lemma_header_stands(d, v.header);
    lemma_numbers_stand(d, p, v.orientation);
    lemma_numbers_stand(d, p + 32, v.orientation_cov);
    lemma_numbers_stand(d, p + 104, v.ang_vel);
    lemma_numbers_stand(d, p + 128, v.ang_vel_cov);
    lemma_numbers_stand(d, p + 200, v.lin_acc);
    lemma_numbers_stand(d, p + 224, v.lin_acc_cov);
}

/// The encoding of a pose: the header, then the position, then the orientation.
pub proof fn law_pose_parts_stand_in_their_places(v: PoseView)
    requires
        PoseStamped::fits(v),
    ensures
        ({
            let d = PoseStamped::encoded(v);
            let p = 16 + utf8::encode_utf8(v.header.frame_id).len() as int;
            &&& d.len() == p + 56
            &&& header_stands(d, v.header)
            &&& numbers_stand(d, p, v.position)
            &&& numbers_stand(d, p + 24, v.orientation)
        }),
{
    let d = codec::pose_bytes(v);
    let p = 16 + utf8::encode_utf8(v.header.frame_id).len() as int;
    let h = codec::header_bytes(v.header);
    let a = codec::bits_bytes(v.position);
    let b = codec::bits_bytes(v.orientation);
    assert(d.subrange(0, d.len() as int) =~= d);
    wire::lemma_two_parts(d, 0, h + a, b);
    wire::lemma_two_parts(d, 0, h, a);
    lemma_header_stands(d, v.header);
    lemma_numbers_stand(d, p, v.position);
    lemma_numbers_stand(d, p + 24, v.orientation);
}

/// How many bytes the first `n` of `fields` take.
pub open spec fn fields_len(fields: Seq<FieldView>, n: int) -> int
    decreases n,
{
    if n <= 0 {
        0
    } else {
        fields_len(fields, n - 1) + 13 + utf8::encode_utf8(fields[n - 1].name).len()
    }
}

/// Whether a field stands in `d` at `pos`: its name, its offset, its type and its count.
pub open spec fn field_stands(d: Seq<u8>, pos: int, f: FieldView) -> bool {
    let p = pos + 4 + utf8::encode_utf8(f.name).len();
    &&& text_stands(d, pos, f.name)
    &&& p + 9 <= d.len()
    &&& number_at(d, p, 4) == f.offset
    &&& d[p + 4] == f.datatype
    &&& number_at(d, p + 5, 4) == f.count
}

proof fn lemma_field_stands(d: Seq<u8>, pos: int, f: FieldView)
    requires
        wire::text_fits(f.name),
        wire::stands_at(d, pos, codec::field_bytes(f)),
    ensures
        field_stands(d, pos, f),
        codec::field_bytes(f).len() == 13 + utf8::encode_utf8(f.name).len(),
{
    let a = wire::text_bytes(f.name);
    let b = le::le_bytes(f.offset as nat, 4);
    let c = seq![f.datatype];
    let e = le::le_bytes(f.count as nat, 4);
    le::lemma_le_limits();
    wire::lemma_two_parts(d, pos, a + b + c, e);
    wire::lemma_two_parts(d, pos, a + b, c);
    wire::lemma_two_parts(d, pos, a, b);
    lemma_text_stands(d, pos, f.name);
    let p = pos + a.len();
    lemma_number_stands(d, p, f.offset as nat, 4);
    assert(d.subrange(p + 4, p + 5)[0] == c[0]);
    lemma_number_stands(d, p + 5, f.count as nat, 4);
}

proof fn lemma_fields_len(a: Seq<FieldView>, b: Seq<FieldView>, n: int)
    requires
        n <= a.len(),
        n <= b.len(),
        forall|i: int| 0 <= i < n ==> a[i] == b[i],
    ensures
        fields_len(a, n) == fields_len(b, n),
    decreases n,
{
    if n > 0 {
        lemma_fields_len(a, b, n - 1);
    }
}

proof fn lemma_fields_stand(d: Seq<u8>, pos: int, s: Seq<FieldView>)
    requires
        wire::stands_at(d, pos, codec::fields_bytes(s)),
        forall|i: int| 0 <= i < s.len() ==> wire::text_fits((#[trigger] s[i]).name),
    ensures
        codec::fields_bytes(s).len() == fields_len(s, s.len() as int),
        forall|i: int|
            0 <= i < s.len() ==> field_stands(d, pos + fields_len(s, i), #[trigger] s[i]),
    decreases s.len(),
{
    if s.len() > 0 {
        let front = s.drop_last();
        let n = front.len() as int;
        wire::lemma_two_parts(d, pos, codec::fields_bytes(front), codec::field_bytes(s.last()));
        assert forall|i: int| 0 <= i < front.len() implies wire::text_fits(
            (#[trigger] front[i]).name,
        ) by {
            assert(front[i] == s[i]);
        }
        assert(wire::text_fits(s[n].name));
        lemma_fields_stand(d, pos, front);
        lemma_fields_len(front, s, n);
        lemma_field_stands(d, pos + fields_len(s, n), s.last());
        assert forall|i: int| 0 <= i < s.len() implies field_stands(
            d,
            pos + fields_len(s, i),
            #[trigger] s[i],
        ) by {
            if i < n {
                lemma_fields_len(front, s, i);
                assert(front[i] == s[i]);
            }
        }
    }
}

/// The encoding of a cloud: the header, the height, the width, the number of fields, the fields
/// one behind the other; then a byte that is one where the most significant byte comes first, the
/// bytes of a point, the bytes of a row, the number of bytes, the bytes, and a byte that is one
/// where no point is missing.
pub proof fn law_cloud_parts_stand_in_their_places(v: CloudView)
    requires
        PointCloud::fits(v),
    ensures
        ({
            let d = PointCloud::encoded(v);
            let p = 16 + utf8::encode_utf8(v.header.frame_id).len() as int;
            let q = p + 12 + fields_len(v.fields, v.fields.len() as int);
            &&& d.len() == q + 14 + v.data.len()
            &&& header_stands(d, v.header)
            &&& number_at(d, p, 4) == v.height
            &&& number_at(d, p + 4, 4) == v.width
            &&& number_at(d, p + 8, 4) == v.fields.len()
            &&& forall|i: int|
                0 <= i < v.fields.len() ==> field_stands(
                    d,
                    p + 12 + fields_len(v.fields, i),
                    #[trigger] v.fields[i],
                )
            &&& d[q] == (if v.is_bigendian {
                1u8
            } else {
                0
            })
            &&& number_at(d, q + 1, 4) == v.point_step
            &&& number_at(d, q + 5, 4) == v.row_step
            &&& number_at(d, q + 9, 4) == v.data.len()
            &&& d.subrange(q + 13, q + 13 + v.data.len()) == v.data
            &&& d[q + 13 + v.data.len()] == (if v.is_dense {
                1u8
            } else {
                0
            })
        }),
{
    reveal(codec::cloud_front_bytes);
    reveal(codec::cloud_back_bytes);
    let d = codec::cloud_bytes(v);
    let front = codec::cloud_front_bytes(v);
    let back = codec::cloud_back_bytes(v);
    assert(d.subrange(0, d.len() as int) =~= d);
    wire::lemma_two_parts(d, 0, front, back);
    lemma_cloud_front(d, v);
    lemma_cloud_back(d, front.len() as int, v);
}

proof fn lemma_cloud_front(d: Seq<u8>, v: CloudView)
    requires
        PointCloud::fits(v),
        wire::stands_at(d, 0, codec::cloud_front_bytes(v)),
    ensures
        ({
            let p = 16 + utf8::encode_utf8(v.header.frame_id).len() as int;
            &&& codec::cloud_front_bytes(v).len() == p + 12 + fields_len(
                v.fields,
                v.fields.len() as int,
            )
            &&& header_stands(d, v.header)
            &&& number_at(d, p, 4) == v.height
            &&& number_at(d, p + 4, 4) == v.width
            &&& number_at(d, p + 8, 4) == v.fields.len()
            &&& forall|i: int|
                0 <= i < v.fields.len() ==> field_stands(
                    d,
                    p + 12 + fields_len(v.fields, i),
                    #[trigger] v.fields[i],
                )
        }),
{
    reveal(codec::cloud_front_bytes);
    let h = codec::header_bytes(v.header);
    let n1 = le::le_bytes(v.height as nat, 4);
    let n2 = le::le_bytes(v.width as nat, 4);
    let n3 = le::le_bytes(v.fields.len(), 4);
    let f = codec::fields_bytes(v.fields);
    le::lemma_le_limits();
    wire::lemma_two_parts(d, 0, h + n1 + n2 + n3, f);
    wire::lemma_two_parts(d, 0, h + n1 + n2, n3);
    wire::lemma_two_parts(d, 0, h + n1, n2);
    wire::lemma_two_parts(d, 0, h, n1);
    lemma_header_stands(d, v.header);
    let p = h.len() as int;
    lemma_number_stands(d, p, v.height as nat, 4);
    lemma_number_stands(d, p + 4, v.width as nat, 4);
    lemma_number_stands(d, p + 8, v.fields.len(), 4);
    lemma_fields_stand(d, p + 12, v.fields);
}

proof fn lemma_cloud_back(d: Seq<u8>, q: int, v: CloudView)
    requires
        PointCloud::fits(v),
        wire::stands_at(d, q, codec::cloud_back_bytes(v)),
    ensures
        codec::cloud_back_bytes(v).len() == 14 + v.data.len(),
        d[q] == (if v.is_bigendian {
            1u8
        } else {
            0
        }),
        number_at(d, q + 1, 4) == v.point_step,
        number_at(d, q + 5, 4) == v.row_step,
        number_at(d, q + 9, 4) == v.data.len(),
        d.subrange(q + 13, q + 13 + v.data.len()) == v.data,
        d[q + 13 + v.data.len()] == (if v.is_dense {
            1u8
        } else {
            0
        }),
{
    reveal(codec::cloud_back_bytes);
    let b1 = seq![codec::flag_byte(v.is_bigendian)];
    let n4 = le::le_bytes(v.point_step as nat, 4);
    let n5 = le::le_bytes(v.row_step as nat, 4);
    let n6 = le::le_bytes(v.data.len(), 4);
    let b2 = seq![codec::flag_byte(v.is_dense)];
    le::lemma_le_limits();
    wire::lemma_two_parts(d, q, b1 + n4 + n5 + (n6 + v.data), b2);
    wire::lemma_two_parts(d, q, b1 + n4 + n5, n6 + v.data);
    wire::lemma_two_parts(d, q, b1 + n4, n5);
    wire::lemma_two_parts(d, q, b1, n4);
    lemma_number_stands(d, q + 1, v.point_step as nat, 4);
    lemma_number_stands(d, q + 5, v.row_step as nat, 4);
    wire::lemma_two_parts(d, q + 9, n6, v.data);
    lemma_number_stands(d, q + 9, v.data.len(), 4);
    assert(d.subrange(q, q + 1)[0] == b1[0]);
    let e = q + 13 + v.data.len();
    assert(d.subrange(e, e + 1)[0] == b2[0]);
}

/// How many bytes the first `n` of `roles` take.
pub open spec fn roles_len(roles: Seq<RoleView>, n: int) -> int
    decreases n,
{
    if n <= 0 {
        0
    } else {
        roles_len(roles, n - 1) + 12 + utf8::encode_utf8(roles[n - 1].name).len()
            + utf8::encode_utf8(roles[n - 1].role).len() + utf8::encode_utf8(
            roles[n - 1].frame_id,
        ).len()
    }
}

/// Whether what a channel is for stands in `d` at `pos`: its name, its role and its frame.
pub open spec fn role_stands(d: Seq<u8>, pos: int, r: RoleView) -> bool {
    let p = pos + 4 + utf8::encode_utf8(r.name).len();
    let q = p + 4 + utf8::encode_utf8(r.role).len();
    text_stands(d, pos, r.name) && text_stands(d, p, r.role) && text_stands(d, q, r.frame_id)
}

proof fn lemma_role_stands(d: Seq<u8>, pos: int, r: RoleView)
    requires
        codec::role_fits(r),
        wire::stands_at(d, pos, codec::role_bytes(r)),
    ensures
        role_stands(d, pos, r),
        codec::role_bytes(r).len() == 12 + utf8::encode_utf8(r.name).len() + utf8::encode_utf8(
            r.role,
        ).len() + utf8::encode_utf8(r.frame_id).len(),
{
    let a = wire::text_bytes(r.name);
    let b = wire::text_bytes(r.role);
    let c = wire::text_bytes(r.frame_id);
    wire::lemma_two_parts(d, pos, a + b, c);
    wire::lemma_two_parts(d, pos, a, b);
    lemma_text_stands(d, pos, r.name);
    lemma_text_stands(d, pos + a.len(), r.role);
    lemma_text_stands(d, pos + a.len() + b.len(), r.frame_id);
}

proof fn lemma_roles_len(a: Seq<RoleView>, b: Seq<RoleView>, n: int)
    requires
        n <= a.len(),
        n <= b.len(),
        forall|i: int| 0 <= i < n ==> a[i] == b[i],
    ensures
        roles_len(a, n) == roles_len(b, n),
    decreases n,
{
    if n > 0 {
        lemma_roles_len(a, b, n - 1);
    }
}

proof fn lemma_roles_stand(d: Seq<u8>, pos: int, s: Seq<RoleView>)
    requires
        wire::stands_at(d, pos, codec::roles_bytes(s)),
        forall|i: int| 0 <= i < s.len() ==> codec::role_fits(#[trigger] s[i]),
    ensures
        codec::roles_bytes(s).len() == roles_len(s, s.len() as int),
        forall|i: int|
            0 <= i < s.len() ==> role_stands(d, pos + roles_len(s, i), #[trigger] s[i]),
    decreases s.len(),
{
    if s.len() > 0 {
        let front = s.drop_last();
        let n = front.len() as int;
        wire::lemma_two_parts(d, pos, codec::roles_bytes(front), codec::role_bytes(s.last()));
        assert forall|i: int| 0 <= i < front.len() implies codec::role_fits(
            #[trigger] front[i],
        ) by {
            assert(front[i] == s[i]);
        }
        assert(codec::role_fits(s[n]));
        lemma_roles_stand(d, pos, front);
        lemma_roles_len(front, s, n);
        lemma_role_stands(d, pos + roles_len(s, n), s.last());
        assert forall|i: int| 0 <= i < s.len() implies role_stands(
            d,
            pos + roles_len(s, i),
            #[trigger] s[i],
        ) by {
            if i < n {
                lemma_roles_len(front, s, i);
                assert(front[i] == s[i]);
            }
        }
    }
}

/// The encoding of a scene: the world frame, the number of channels, and of each channel its name,
/// its role and its frame.
pub proof fn law_scene_parts_stand_in_their_places(v: SceneView)
    requires
        SceneMeta::fits(v),
    ensures
        ({
            let d = SceneMeta::encoded(v);
            let p = 4 + utf8::encode_utf8(v.world_frame).len() as int;
            &&& d.len() == p + 4 + roles_len(v.channels, v.channels.len() as int)
            &&& text_stands(d, 0, v.world_frame)
            &&& number_at(d, p, 4) == v.channels.len()
            &&& forall|i: int|
                0 <= i < v.channels.len() ==> role_stands(
                    d,
                    p + 4 + roles_len(v.channels, i),
                    #[trigger] v.channels[i],
                )
        }),
{
    let d = codec::scene_bytes(v);
    let a = wire::text_bytes(v.world_frame);
    let b = le::le_bytes(v.channels.len(), 4);
    let c = codec::roles_bytes(v.channels);
    assert(d.subrange(0, d.len() as int) =~= d);
    le::lemma_le_limits();
    wire::lemma_two_parts(d, 0, a + b, c);
    wire::lemma_two_parts(d, 0, a, b);
    lemma_text_stands(d, 0, v.world_frame);
    lemma_number_stands(d, a.len() as int, v.channels.len(), 4);
    lemma_roles_stand(d, a.len() as int + 4, v.channels);
}

} // verus!
