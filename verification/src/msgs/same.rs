//! When two messages are the same.
//!
//! Numbers are compared as IEEE 754 numbers: the two zeros are equal, and what is not a number
//! is equal to nothing.

use crate::message;
use crate::msgs::types::{Header, Imu, ImuView, PointCloud, PointField};
use crate::text::same_text;
use vstd::prelude::*;

verus! {

/// Whether the bit pattern is that of something that is not a number.
pub open spec fn not_a_number(b: u64) -> bool {
    b % 0x8000_0000_0000_0000 > 0x7ff0_0000_0000_0000
}

/// Whether the bit pattern is that of a zero of either sign.
pub open spec fn is_zero(b: u64) -> bool {
    b == 0 || b == 0x8000_0000_0000_0000
}

/// Whether two bit patterns are those of equal numbers.
pub open spec fn equal_numbers(a: u64, b: u64) -> bool {
    !not_a_number(a) && !not_a_number(b) && (a == b || (is_zero(a) && is_zero(b)))
}

/// Whether the numbers at each place are equal.
pub open spec fn all_equal(a: Seq<u64>, b: Seq<u64>) -> bool {
    a.len() == b.len() && forall|i: int|
        0 <= i < a.len() ==> equal_numbers(#[trigger] a[i], b[i])
}

impl ImuView {
    /// Whether two measurements are the same.
    pub open spec fn same_as(self, other: ImuView) -> bool {
        &&& self.header == other.header
        &&& all_equal(self.orientation, other.orientation)
        &&& all_equal(self.orientation_cov, other.orientation_cov)
        &&& all_equal(self.ang_vel, other.ang_vel)
        &&& all_equal(self.ang_vel_cov, other.ang_vel_cov)
        &&& all_equal(self.lin_acc, other.lin_acc)
        &&& all_equal(self.lin_acc_cov, other.lin_acc_cov)
    }
}

/// Whether the numbers at each place are equal.
pub fn numbers_agree(a: &[u64], b: &[u64]) -> (r: bool)
    ensures
        r == all_equal(a@, b@),
{
    if a.len() != b.len() {
        return false;
    }
    let mut i: usize = 0;
    while i < a.len()
        invariant
            i <= a@.len(),
            a@.len() == b@.len(),
            forall|k: int| 0 <= k < i ==> equal_numbers(#[trigger] a@[k], b@[k]),
        decreases a@.len() - i,
    {
        let x: u64 = a[i];
        let y: u64 = b[i];
        let nan: bool = x % 0x8000_0000_0000_0000 > 0x7ff0_0000_0000_0000 || y
            % 0x8000_0000_0000_0000 > 0x7ff0_0000_0000_0000;
        let zeros: bool = (x == 0 || x == 0x8000_0000_0000_0000) && (y == 0 || y
            == 0x8000_0000_0000_0000);
        if nan || (x != y && !zeros) {
            assert(!equal_numbers(a@[i as int], b@[i as int]));
            return false;
        }
        i = i + 1;
    }
    true
}

fn bytes_agree(a: &[u8], b: &[u8]) -> (r: bool)
    ensures
        r == (a@ == b@),
{
    if a.len() != b.len() {
        return false;
    }
    let mut i: usize = 0;
    while i < a.len()
        invariant
            i <= a@.len(),
            a@.len() == b@.len(),
            forall|k: int| 0 <= k < i ==> a@[k] == b@[k],
        decreases a@.len() - i,
    {
        if a[i] != b[i] {
            return false;
        }
        i = i + 1;
    }
    assert(a@ =~= b@);
    true
}

impl Header {
    /// Whether two headers are the same.
    pub fn same_as(&self, other: &Header) -> (r: bool)
        ensures
            r == (self@ == other@),
    {
        self.stamp.sec == other.stamp.sec && self.stamp.nsec == other.stamp.nsec && same_text(
            self.frame_id.as_str(),
            other.frame_id.as_str(),
        )
    }
}

impl PointField {
    /// Whether two fields are the same.
    pub fn same_as(&self, other: &PointField) -> (r: bool)
        ensures
            r == (self@ == other@),
    {
        self.offset == other.offset && self.datatype == other.datatype && self.count == other.count
            && same_text(self.name.as_str(), other.name.as_str())
    }
}

fn fields_agree(a: &[PointField], b: &[PointField]) -> (r: bool)
    ensures
        r == (message::views(a@) == message::views(b@)),
{
    if a.len() != b.len() {
        assert(message::views(a@).len() != message::views(b@).len());
        return false;
    }
    let mut i: usize = 0;
    while i < a.len()
        invariant
            i <= a@.len(),
            a@.len() == b@.len(),
            forall|k: int| 0 <= k < i ==> (#[trigger] a@[k])@ == b@[k]@,
        decreases a@.len() - i,
    {
        if !a[i].same_as(&b[i]) {
            assert(message::views(a@)[i as int] != message::views(b@)[i as int]);
            return false;
        }
        i = i + 1;
    }
    assert(message::views(a@) =~= message::views(b@));
    true
}

impl PointCloud {
    /// Whether two clouds are the same.
    pub fn same_as(&self, other: &PointCloud) -> (r: bool)
        ensures
            r == (self@ == other@),
    {
        self.header.same_as(&other.header) && self.height == other.height && self.width
            == other.width && fields_agree(self.fields.as_slice(), other.fields.as_slice())
            && self.is_bigendian == other.is_bigendian && self.point_step == other.point_step
            && self.row_step == other.row_step && bytes_agree(
            self.data.as_slice(),
            other.data.as_slice(),
        ) && self.is_dense == other.is_dense
    }
}

impl Imu {
    /// Whether two measurements are the same.
    pub fn same_as(&self, other: &Imu) -> (r: bool)
        ensures
            r == self@.same_as(other@),
    {
        self.header.same_as(&other.header) && numbers_agree(&self.orientation, &other.orientation)
            && numbers_agree(&self.orientation_cov, &other.orientation_cov) && numbers_agree(
            &self.ang_vel,
            &other.ang_vel,
        ) && numbers_agree(&self.ang_vel_cov, &other.ang_vel_cov) && numbers_agree(
            &self.lin_acc,
            &other.lin_acc,
        ) && numbers_agree(&self.lin_acc_cov, &other.lin_acc_cov)
    }
}

/// Numbers are equal as IEEE 754 numbers are: what is not a number (all bits of the exponent set,
/// and some bit of the fraction) is not even equal to itself, the zeros, which have no bit but that
/// of the sign, are equal to each other, and all others are equal to themselves alone.
pub proof fn law_numbers_are_equal_by_value(a: u64, b: u64)
    ensures
        equal_numbers(a, a) == ((a >> 52) & 0x7ff != 0x7ff || a & 0xf_ffff_ffff_ffff == 0),
        equal_numbers(a, b) == equal_numbers(b, a),
        (a & 0x7fff_ffff_ffff_ffff == 0 && b & 0x7fff_ffff_ffff_ffff == 0) ==> equal_numbers(a, b),
        a != b && equal_numbers(a, b) ==> (a & 0x7fff_ffff_ffff_ffff == 0 && b
            & 0x7fff_ffff_ffff_ffff == 0),
        a == b && ((a >> 52) & 0x7ff != 0x7ff || a & 0xf_ffff_ffff_ffff == 0) ==> equal_numbers(
            a,
            b,
        ),
{
    assert((a % 0x8000_0000_0000_0000 > 0x7ff0_0000_0000_0000) == ((a >> 52) & 0x7ff == 0x7ff && a
        & 0xf_ffff_ffff_ffff != 0)) by (bit_vector);
    assert((a == 0 || a == 0x8000_0000_0000_0000) == (a & 0x7fff_ffff_ffff_ffff == 0))
        by (bit_vector);
    assert((b == 0 || b == 0x8000_0000_0000_0000) == (b & 0x7fff_ffff_ffff_ffff == 0))
        by (bit_vector);
}

/// Lists with a different number at some place, or of different lengths, are not equal; lists with
/// equal numbers at every place are.
pub proof fn law_lists_are_equal_place_by_place(a: Seq<u64>, b: Seq<u64>, k: int)
    ensures
        all_equal(a, b) ==> a.len() == b.len(),
        all_equal(a, b) && 0 <= k < a.len() ==> equal_numbers(a[k], b[k]),
        a.len() == b.len() && (forall|i: int| 0 <= i < a.len() ==> equal_numbers(a[i], b[i]))
            ==> all_equal(a, b),
{
}

/// Measurements are the same only if each of their parts is.
pub proof fn law_same_measurements_agree_in_each_part(a: ImuView, b: ImuView)
    ensures
        a.same_as(b) == (a.header.stamp == b.header.stamp && a.header.frame_id == b.header.frame_id
            && all_equal(a.orientation, b.orientation) && all_equal(
            a.orientation_cov,
            b.orientation_cov,
        ) && all_equal(a.ang_vel, b.ang_vel) && all_equal(a.ang_vel_cov, b.ang_vel_cov)
            && all_equal(a.lin_acc, b.lin_acc) && all_equal(a.lin_acc_cov, b.lin_acc_cov)),
{
    assert((a.header.stamp == b.header.stamp && a.header.frame_id == b.header.frame_id) == (a.header
        == b.header));
}

} // verus!
