//! Core value types: time stamps, schemas, channels, messages and errors.

use crate::text::text_of;
use vstd::prelude::*;

verus! {

/// The views of the elements.
pub open spec fn views<T: View>(s: Seq<T>) -> Seq<T::V> {
    Seq::new(s.len(), |i: int| s[i]@)
}

/// Scheduling time in whole nanoseconds.
#[derive(Clone, Copy, Debug, PartialEq, Eq, PartialOrd, Ord, Hash)]
pub struct Timestamp(pub u64);

/// `sec` seconds and `nsec` nanoseconds, as a number of nanoseconds.
pub open spec fn nanos(sec: int, nsec: int) -> int {
    sec * 1_000_000_000 + nsec
}

/// A signed number as an unsigned 64-bit pattern: negative numbers count down from the top.
pub open spec fn two_complement_64(v: int) -> int {
    if v < 0 {
        v + 0x1_0000_0000_0000_0000
    } else {
        v
    }
}

impl Timestamp {
    pub fn from_nanos(ns: u64) -> (t: Self)
        ensures
            t.0 == ns,
    {
        Timestamp(ns)
    }

    /// The time stamp of `sec` seconds and `nsec` nanoseconds. A time before the origin has no
    /// unsigned form of its own; its two's complement pattern is kept.
    pub fn from_sec_nsec(sec: i64, nsec: u32) -> (t: Self)
        requires
            i64::MIN <= sec * 1_000_000_000,
            nanos(sec as int, nsec as int) <= i64::MAX,
        ensures
            t.0 == two_complement_64(nanos(sec as int, nsec as int)),
    {
        let v: i64 = sec * 1_000_000_000 + nsec as i64;
        proof {
            assert(v < 0 ==> (v as u64) as int == v + 0x1_0000_0000_0000_0000) by (bit_vector);
        }
        Timestamp(v as u64)
    }

    pub fn as_nanos(self) -> (ns: u64)
        ensures
            ns == self.0,
    {
        self.0
    }
}

/// The type and encoding of the messages of a channel.
#[derive(Debug, PartialEq, Eq)]
pub struct Schema {
    pub id: u16,
    pub typename: String,
    pub encoding: String,
}

/// What a [`Schema`] says.
#[verifier::ext_equal]
pub struct SchemaView {
    pub id: u16,
    pub typename: Seq<char>,
    pub encoding: Seq<char>,
}

impl View for Schema {
    type V = SchemaView;

    open spec fn view(&self) -> SchemaView {
        SchemaView { id: self.id, typename: self.typename@, encoding: self.encoding@ }
    }
}

impl Clone for Schema {
    fn clone(&self) -> (r: Self)
        ensures
            r@ == self@,
    {
        Schema { id: self.id, typename: self.typename.clone(), encoding: self.encoding.clone() }
    }
}

/// A channel: its id, its name and the schema of its messages.
#[derive(Debug, PartialEq, Eq)]
pub struct ChannelMeta {
    pub id: u16,
    pub name: String,
    pub schema_id: u16,
}

/// What a [`ChannelMeta`] says.
#[verifier::ext_equal]
pub struct ChannelView {
    pub id: u16,
    pub name: Seq<char>,
    pub schema_id: u16,
}

impl View for ChannelMeta {
    type V = ChannelView;

    open spec fn view(&self) -> ChannelView {
        ChannelView { id: self.id, name: self.name@, schema_id: self.schema_id }
    }
}

impl Clone for ChannelMeta {
    fn clone(&self) -> (r: Self)
        ensures
            r@ == self@,
    {
        ChannelMeta { id: self.id, name: self.name.clone(), schema_id: self.schema_id }
    }
}

/// Where a chunk stands in the file, and what it covers.
#[derive(Clone, Copy, Debug, PartialEq, Eq)]
pub struct ChunkIndex {
    /// Byte offset of the chunk's header.
    pub offset: u64,
    /// Time of the chunk's first message, in nanoseconds.
    pub start_stamp: u64,
    /// Time of the chunk's last message, in nanoseconds.
    pub end_stamp: u64,
    /// Number of messages in the chunk.
    pub msg_count: u32,
}

/// A borrowed message.
#[derive(Debug)]
pub struct Message<'a> {
    pub channel: &'a str,
    pub stamp: Timestamp,
    pub schema: &'a Schema,
    pub payload: &'a [u8],
}

/// A message that owns its parts.
#[derive(Debug)]
pub struct OwnedMessage {
    pub channel: String,
    pub stamp: Timestamp,
    pub schema: Schema,
    pub payload: Vec<u8>,
}

/// What a message says.
#[verifier::ext_equal]
pub struct MessageView {
    pub channel: Seq<char>,
    pub stamp: u64,
    pub schema: SchemaView,
    pub payload: Seq<u8>,
}

impl View for OwnedMessage {
    type V = MessageView;

    open spec fn view(&self) -> MessageView {
        MessageView {
            channel: self.channel@,
            stamp: self.stamp.0,
            schema: self.schema@,
            payload: self.payload@,
        }
    }
}

impl<'a> View for Message<'a> {
    type V = MessageView;

    open spec fn view(&self) -> MessageView {
        MessageView {
            channel: self.channel@,
            stamp: self.stamp.0,
            schema: self.schema@,
            payload: self.payload@,
        }
    }
}

impl<'a> Clone for Message<'a> {
    fn clone(&self) -> (r: Self)
        ensures
            r@ == self@,
    {
        Message {
            channel: self.channel,
            stamp: self.stamp,
            schema: self.schema,
            payload: self.payload,
        }
    }
}

impl Clone for OwnedMessage {
    fn clone(&self) -> (r: Self)
        ensures
            r@ == self@,
    {
        OwnedMessage {
            channel: self.channel.clone(),
            stamp: self.stamp,
            schema: self.schema.clone(),
            payload: vstd::slice::slice_to_vec(self.payload.as_slice()),
        }
    }
}

/// Why an operation failed, in words.
#[derive(Debug)]
pub struct Error(pub String);

impl View for Error {
    type V = Seq<char>;

    open spec fn view(&self) -> Seq<char> {
        self.0@
    }
}

impl Error {
    pub fn msg(s: &str) -> (e: Self)
        ensures
            e@ == s@,
    {
        Error(text_of(s))
    }
}

/// A time stamp keeps its moment: the pattern is the number of nanoseconds since the origin, modulo
/// 2^64, a second being 1 000 000 000 of them.
pub proof fn law_time_stamps_keep_their_moment(sec: i64, nsec: u32)
    requires
        i64::MIN <= nanos(sec as int, nsec as int) <= i64::MAX,
    ensures
        ({
            let t = two_complement_64(nanos(sec as int, nsec as int));
            &&& 0 <= t < 0x1_0000_0000_0000_0000
            &&& (t - sec * 1_000_000_000 - nsec) % 0x1_0000_0000_0000_0000 == 0
            &&& (t < 0x8000_0000_0000_0000) == (sec * 1_000_000_000 + nsec >= 0)
        }),
{
}

/// What messages, schemas and channels say is what their fields hold.
pub proof fn law_values_say_what_they_hold(m: OwnedMessage, s: Schema, c: ChannelMeta)
    ensures
        m@.channel == m.channel@ && m@.stamp == m.stamp.0 && m@.payload == m.payload@,
        m@.schema.id == m.schema.id && m@.schema.typename == m.schema.typename@,
        m@.schema.encoding == m.schema.encoding@,
        s@.id == s.id && s@.typename == s.typename@ && s@.encoding == s.encoding@,
        c@.id == c.id && c@.name == c.name@ && c@.schema_id == c.schema_id,
{
}

} // verus!
