//! The standard messages.
//!
//! Floating-point numbers are held as the bit patterns of 64-bit IEEE 754 numbers: the library
//! carries them, and leaves computing with them to its callers.

use crate::text;
use crate::text::{push_padded, push_signed, push_text};
use vstd::prelude::*;

verus! {

/// A moment, in seconds and nanoseconds.
#[derive(Clone, Copy, Debug, PartialEq, Eq)]
pub struct Time {
    pub sec: i64,
    pub nsec: u32,
}

impl Time {
    /// The moment in seconds, with nine decimals.
    pub fn describe(&self) -> (r: String)
        ensures
            r@ == text::signed_decimal(self.sec as int) + "."@ + text::padded(self.nsec as nat, 9),
    {
        let mut s: String = String::new();
        push_signed(&mut s, self.sec);
        push_text(&mut s, ".");
        push_padded(&mut s, self.nsec as u64, 9);
        s
    }
}

/// When a message was made, and the frame that it speaks of.
#[derive(Debug, PartialEq, Eq)]
pub struct Header {
    pub stamp: Time,
    pub frame_id: String,
}

#[verifier::ext_equal]
pub struct HeaderView {
    pub stamp: Time,
    pub frame_id: Seq<char>,
}

impl View for Header {
    type V = HeaderView;

    open spec fn view(&self) -> HeaderView {
        HeaderView { stamp: self.stamp, frame_id: self.frame_id@ }
    }
}

impl Clone for Header {
    fn clone(&self) -> (r: Self)
        ensures
            r@ == self@,
    {
        Header { stamp: self.stamp, frame_id: self.frame_id.clone() }
    }
}

/// A field of the points of a cloud: where it stands in a point, and of what type it is.
#[derive(Debug, PartialEq, Eq)]
pub struct PointField {
    pub name: String,
    pub offset: u32,
    pub datatype: u8,
    pub count: u32,
}

#[verifier::ext_equal]
pub struct FieldView {
    pub name: Seq<char>,
    pub offset: u32,
    pub datatype: u8,
    pub count: u32,
}

impl View for PointField {
    type V = FieldView;

    open spec fn view(&self) -> FieldView {
        FieldView {
            name: self.name@,
            offset: self.offset,
            datatype: self.datatype,
            count: self.count,
        }
    }
}

/// A cloud of points, as raw bytes that `fields` describes.
#[derive(Debug, PartialEq)]
pub struct PointCloud {
    pub header: Header,
    pub height: u32,
    pub width: u32,
    pub fields: Vec<PointField>,
    pub is_bigendian: bool,
    pub point_step: u32,
    pub row_step: u32,
    pub data: Vec<u8>,
    pub is_dense: bool,
}

#[verifier::ext_equal]
pub struct CloudView {
    pub header: HeaderView,
    pub height: u32,
    pub width: u32,
    pub fields: Seq<FieldView>,
    pub is_bigendian: bool,
    pub point_step: u32,
    pub row_step: u32,
    pub data: Seq<u8>,
    pub is_dense: bool,
}

impl View for PointCloud {
    type V = CloudView;

    open spec fn view(&self) -> CloudView {
        CloudView {
            header: self.header@,
            height: self.height,
            width: self.width,
            fields: crate::message::views(self.fields@),
            is_bigendian: self.is_bigendian,
            point_step: self.point_step,
            row_step: self.row_step,
            data: self.data@,
            is_dense: self.is_dense,
        }
    }
}

/// What an inertial sensor measured; each number as its bit pattern.
#[derive(Debug, PartialEq)]
pub struct Imu {
    pub header: Header,
    pub orientation: [u64; 4],
    pub orientation_cov: [u64; 9],
    pub ang_vel: [u64; 3],
    pub ang_vel_cov: [u64; 9],
    pub lin_acc: [u64; 3],
    pub lin_acc_cov: [u64; 9],
}

#[verifier::ext_equal]
pub struct ImuView {
    pub header: HeaderView,
    pub orientation: Seq<u64>,
    pub orientation_cov: Seq<u64>,
    pub ang_vel: Seq<u64>,
    pub ang_vel_cov: Seq<u64>,
    pub lin_acc: Seq<u64>,
    pub lin_acc_cov: Seq<u64>,
}

impl View for Imu {
    type V = ImuView;

    open spec fn view(&self) -> ImuView {
        ImuView {
            header: self.header@,
            orientation: self.orientation@,
            orientation_cov: self.orientation_cov@,
            ang_vel: self.ang_vel@,
            ang_vel_cov: self.ang_vel_cov@,
            lin_acc: self.lin_acc@,
            lin_acc_cov: self.lin_acc_cov@,
        }
    }
}

/// A position and an orientation (w, x, y, z); each number as its bit pattern.
#[derive(Debug, PartialEq)]
pub struct PoseStamped {
    pub header: Header,
    pub position: [u64; 3],
    pub orientation: [u64; 4],
}

#[verifier::ext_equal]
pub struct PoseView {
    pub header: HeaderView,
    pub position: Seq<u64>,
    pub orientation: Seq<u64>,
}

impl View for PoseStamped {
    type V = PoseView;

    open spec fn view(&self) -> PoseView {
        PoseView {
            header: self.header@,
            position: self.position@,
            orientation: self.orientation@,
        }
    }
}

/// What a channel is for.
#[derive(Debug, PartialEq, Eq)]
pub struct ChannelRole {
    pub name: String,
    pub role: String,
    pub frame_id: String,
}

#[verifier::ext_equal]
pub struct RoleView {
    pub name: Seq<char>,
    pub role: Seq<char>,
    pub frame_id: Seq<char>,
}

impl View for ChannelRole {
    type V = RoleView;

    open spec fn view(&self) -> RoleView {
        RoleView { name: self.name@, role: self.role@, frame_id: self.frame_id@ }
    }
}

/// What a recording is of: its world frame, and the roles of its channels.
#[derive(Debug, PartialEq, Eq)]
pub struct SceneMeta {
    pub world_frame: String,
    pub channels: Vec<ChannelRole>,
}

#[verifier::ext_equal]
pub struct SceneView {
    pub world_frame: Seq<char>,
    pub channels: Seq<RoleView>,
}

impl View for SceneMeta {
    type V = SceneView;

    open spec fn view(&self) -> SceneView {
        SceneView {
            world_frame: self.world_frame@,
            channels: crate::message::views(self.channels@),
        }
    }
}

/// A message that says when it was made.
pub trait Stamped {
    spec fn moment(&self) -> Time;

    /// The time in the message's header.
    fn time(&self) -> (t: Time)
        ensures
            t == self.moment(),
    ;
}

impl Stamped for PointCloud {
    open spec fn moment(&self) -> Time {
        self.header.stamp
    }

    fn time(&self) -> (t: Time) {
        self.header.stamp
    }
}

impl Stamped for Imu {
    open spec fn moment(&self) -> Time {
        self.header.stamp
    }

    fn time(&self) -> (t: Time) {
        self.header.stamp
    }
}

/// What a message says of itself is what its fields hold.
pub proof fn law_messages_say_what_they_hold(
    c: PointCloud,
    m: Imu,
    p: PoseStamped,
    s: SceneMeta,
    i: int,
    j: int,
)
    requires
        0 <= i < c.fields@.len(),
        0 <= j < s.channels@.len(),
    ensures
        c.moment() == c.header.stamp,
        m.moment() == m.header.stamp,
        c@.header.stamp == c.header.stamp && c@.header.frame_id == c.header.frame_id@,
        c@.height == c.height && c@.width == c.width,
        c@.fields.len() == c.fields@.len(),
        c@.fields[i].name == c.fields@[i].name@ && c@.fields[i].offset == c.fields@[i].offset,
        c@.fields[i].datatype == c.fields@[i].datatype && c@.fields[i].count == c.fields@[i].count,
        c@.is_bigendian == c.is_bigendian && c@.is_dense == c.is_dense,
        c@.point_step == c.point_step && c@.row_step == c.row_step && c@.data == c.data@,
        m@.header.stamp == m.header.stamp && m@.header.frame_id == m.header.frame_id@,
        m@.orientation == m.orientation@ && m@.orientation_cov == m.orientation_cov@,
        m@.ang_vel == m.ang_vel@ && m@.ang_vel_cov == m.ang_vel_cov@,
        m@.lin_acc == m.lin_acc@ && m@.lin_acc_cov == m.lin_acc_cov@,
        p@.header.stamp == p.header.stamp && p@.header.frame_id == p.header.frame_id@,
        p@.position == p.position@ && p@.orientation == p.orientation@,
        s@.world_frame == s.world_frame@ && s@.channels.len() == s.channels@.len(),
        s@.channels[j].name == s.channels@[j].name@ && s@.channels[j].role == s.channels@[j].role@,
        s@.channels[j].frame_id == s.channels@[j].frame_id@,
{
}

} // verus!
