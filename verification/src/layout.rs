//! The layout of a container file.
//!
//! A file is a head (magic, version, flags, compressor, schemas, channels), a run of chunks, an
//! index entry for each chunk, and a trailer. All numbers are little-endian.

use crate::message::{ChannelView, ChunkIndex, MessageView, SchemaView};
use crate::order::Timed;
use crate::{compress, crc, le, text, wire};
use vstd::prelude::*;

verus! {

/// Length of a chunk's header.
pub const CHUNK_HEADER_LEN: usize = 50;

/// Length of the trailer.
pub const FOOTER_TRAILER_LEN: usize = 32;

/// Length of an index entry.
pub const INDEX_ENTRY_LEN: usize = 28;

/// The version that is written.
pub const VERSION: u32 = 2;

/// The flags that are written.
pub const FLAGS: u32 = 0;

/// `#DCAP`
pub open spec fn file_magic() -> Seq<u8> {
    seq![0x23, 0x44, 0x43, 0x41, 0x50]
}

/// `DCAP_CHUNK`
pub open spec fn chunk_magic() -> Seq<u8> {
    seq![0x44, 0x43, 0x41, 0x50, 0x5f, 0x43, 0x48, 0x55, 0x4e, 0x4b]
}

/// `DCAP_END`
pub open spec fn end_magic() -> Seq<u8> {
    seq![0x44, 0x43, 0x41, 0x50, 0x5f, 0x45, 0x4e, 0x44]
}

pub fn magic_bytes() -> (r: [u8; 5])
    ensures
        r@ == file_magic(),
{
    let r: [u8; 5] = [0x23, 0x44, 0x43, 0x41, 0x50];
    assert(r@ =~= file_magic());
    r
}

pub fn chunk_magic_bytes() -> (r: [u8; 10])
    ensures
        r@ == chunk_magic(),
{
    let r: [u8; 10] = [0x44, 0x43, 0x41, 0x50, 0x5f, 0x43, 0x48, 0x55, 0x4e, 0x4b];
    assert(r@ =~= chunk_magic());
    r
}

pub fn end_magic_bytes() -> (r: [u8; 8])
    ensures
        r@ == end_magic(),
{
    let r: [u8; 8] = [0x44, 0x43, 0x41, 0x50, 0x5f, 0x45, 0x4e, 0x44];
    assert(r@ =~= end_magic());
    r
}

// ---------- what is written ----------

pub open spec fn schema_bytes(s: SchemaView) -> Seq<u8> {
    le::le_bytes(s.id as nat, 2) + wire::text_bytes(s.typename) + wire::text_bytes(s.encoding)
}

pub open spec fn schemas_bytes(s: Seq<SchemaView>) -> Seq<u8>
    decreases s.len(),
{
    if s.len() == 0 {
        Seq::empty()
    } else {
        schemas_bytes(s.drop_last()) + schema_bytes(s.last())
    }
}

pub open spec fn channel_bytes(c: ChannelView) -> Seq<u8> {
    le::le_bytes(c.id as nat, 2) + wire::text_bytes(c.name) + le::le_bytes(c.schema_id as nat, 2)
}

pub open spec fn channels_bytes(s: Seq<ChannelView>) -> Seq<u8>
    decreases s.len(),
{
    if s.len() == 0 {
        Seq::empty()
    } else {
        channels_bytes(s.drop_last()) + channel_bytes(s.last())
    }
}

/// The head of a file.
#[verifier::opaque]
pub open spec fn head_bytes(
    compressor: u32,
    schemas: Seq<SchemaView>,
    channels: Seq<ChannelView>,
) -> Seq<u8> {
    file_magic() + le::le_bytes(VERSION as nat, 4) + le::le_bytes(FLAGS as nat, 4) + le::le_bytes(
        compressor as nat,
        4,
    ) + le::le_bytes(schemas.len(), 4) + schemas_bytes(schemas) + le::le_bytes(channels.len(), 4)
        + channels_bytes(channels)
}

/// A message as a chunk holds it.
#[verifier::ext_equal]
pub struct RecordView {
    pub channel: u16,
    pub stamp: u64,
    pub payload: Seq<u8>,
}

impl Timed for RecordView {
    open spec fn time_key(self) -> u64 {
        self.stamp
    }
}

pub open spec fn record_bytes(r: RecordView) -> Seq<u8> {
    le::le_bytes(r.channel as nat, 2) + le::le_bytes(r.stamp as nat, 8) + le::le_bytes(
        r.payload.len(),
        4,
    ) + r.payload
}

pub open spec fn records_bytes(s: Seq<RecordView>) -> Seq<u8>
    decreases s.len(),
{
    if s.len() == 0 {
        Seq::empty()
    } else {
        records_bytes(s.drop_last()) + record_bytes(s.last())
    }
}

/// What a record weighs before compression.
pub open spec fn record_size(r: RecordView) -> nat {
    14 + r.payload.len()
}

pub open spec fn records_size(s: Seq<RecordView>) -> nat
    decreases s.len(),
{
    if s.len() == 0 {
        0
    } else {
        records_size(s.drop_last()) + record_size(s.last())
    }
}

/// The header of the chunk that holds `rs`, stored as `block`.
#[verifier::opaque]
pub open spec fn chunk_header_bytes(ordinal: u64, rs: Seq<RecordView>, block: Seq<u8>) -> Seq<u8> {
    chunk_magic() + le::le_bytes(ordinal as nat, 8) + le::le_bytes(rs.len(), 4) + le::le_bytes(
        rs.first().stamp as nat,
        8,
    ) + le::le_bytes(rs.last().stamp as nat, 8) + le::le_bytes(records_bytes(rs).len(), 4)
        + le::le_bytes(block.len(), 4) + le::le_bytes(crc::crc32_of(records_bytes(rs)) as nat, 4)
}

pub open spec fn entry_bytes(c: ChunkIndex) -> Seq<u8> {
    le::le_bytes(c.offset as nat, 8) + le::le_bytes(c.start_stamp as nat, 8) + le::le_bytes(
        c.end_stamp as nat,
        8,
    ) + le::le_bytes(c.msg_count as nat, 4)
}

pub open spec fn entries_bytes(s: Seq<ChunkIndex>) -> Seq<u8>
    decreases s.len(),
{
    if s.len() == 0 {
        Seq::empty()
    } else {
        entries_bytes(s.drop_last()) + entry_bytes(s.last())
    }
}

/// The end of a file: the index and the trailer.
#[verifier::opaque]
pub open spec fn footer_bytes(
    index: Seq<ChunkIndex>,
    data_offset: u64,
    message_count: u64,
) -> Seq<u8> {
    entries_bytes(index) + end_magic() + le::le_bytes(data_offset as nat, 8) + le::le_bytes(
        index.len(),
        8,
    ) + le::le_bytes(message_count as nat, 8)
}

// ---------- what is read ----------

/// The schema at `pos`, and where it ends.
pub open spec fn schema_at(d: Seq<u8>, pos: int) -> Result<(SchemaView, int), Seq<char>> {
    match wire::uint_at(d, pos, 2) {
        Err(e) => Err(e),
        Ok(id) => match wire::text_at(d, pos + 2) {
            Err(e) => Err(e),
            Ok((typename, p)) => match wire::text_at(d, p) {
                Err(e) => Err(e),
                Ok((encoding, q)) => Ok((SchemaView { id: id as u16, typename, encoding }, q)),
            },
        },
    }
}

/// The `count` schemas from `pos` on, and where they end.
pub open spec fn schemas_at(d: Seq<u8>, pos: int, count: nat) -> Result<
    (Seq<SchemaView>, int),
    Seq<char>,
>
    decreases count,
{
    if count == 0 {
        Ok((Seq::empty(), pos))
    } else {
        match schemas_at(d, pos, (count - 1) as nat) {
            Err(e) => Err(e),
            Ok((s, p)) => match schema_at(d, p) {
                Err(e) => Err(e),
                Ok((x, q)) => Ok((s.push(x), q)),
            },
        }
    }
}

/// The channel at `pos`, and where it ends.
pub open spec fn channel_at(d: Seq<u8>, pos: int) -> Result<(ChannelView, int), Seq<char>> {
    match wire::uint_at(d, pos, 2) {
        Err(e) => Err(e),
        Ok(id) => match wire::text_at(d, pos + 2) {
            Err(e) => Err(e),
            Ok((name, p)) => match wire::uint_at(d, p, 2) {
                Err(e) => Err(e),
                Ok(schema_id) => Ok(
                    (ChannelView { id: id as u16, name, schema_id: schema_id as u16 }, p + 2),
                ),
            },
        },
    }
}

/// The `count` channels from `pos` on, and where they end.
pub open spec fn channels_at(d: Seq<u8>, pos: int, count: nat) -> Result<
    (Seq<ChannelView>, int),
    Seq<char>,
>
    decreases count,
{
    if count == 0 {
        Ok((Seq::empty(), pos))
    } else {
        match channels_at(d, pos, (count - 1) as nat) {
            Err(e) => Err(e),
            Ok((s, p)) => match channel_at(d, p) {
                Err(e) => Err(e),
                Ok((x, q)) => Ok((s.push(x), q)),
            },
        }
    }
}

/// What the head of a file declares.
#[verifier::ext_equal]
pub struct Head {
    pub version: u32,
    pub compressor: u32,
    pub schemas: Seq<SchemaView>,
    pub channels: Seq<ChannelView>,
    /// Where the head ends.
    pub data_offset: int,
}

/// The two tables of the head, from `pos` on.
pub open spec fn tables_at(d: Seq<u8>, pos: int, version: u32, compressor: u32) -> Result<
    Head,
    Seq<char>,
> {
    match wire::uint_at(d, pos, 4) {
        Err(e) => Err(e),
        Ok(n) => match schemas_at(d, pos + 4, n) {
            Err(e) => Err(e),
            Ok((schemas, p)) => match wire::uint_at(d, p, 4) {
                Err(e) => Err(e),
                Ok(m) => match channels_at(d, p + 4, m) {
                    Err(e) => Err(e),
                    Ok((channels, q)) => Ok(
                        Head { version, compressor, schemas, channels, data_offset: q },
                    ),
                },
            },
        },
    }
}

/// The head of the file `d`. The older version 1 names no compressor.
pub open spec fn head_of(d: Seq<u8>) -> Result<Head, Seq<char>> {
    if !wire::stands_at(d, 0, file_magic()) {
        Err("not a doracap (.dcap) file"@)
    } else {
        match wire::uint_at(d, 5, 4) {
            Err(e) => Err(e),
            Ok(version) => if version != 1 && version != 2 {
                Err("unsupported version "@ + text::decimal(version))
            } else {
                match wire::uint_at(d, 9, 4) {
                    Err(e) => Err(e),
                    Ok(flags) => if version == 2 {
                        match wire::uint_at(d, 13, 4) {
                            Err(e) => Err(e),
                            Ok(compressor) => tables_at(d, 17, 2, compressor as u32),
                        }
                    } else {
                        tables_at(d, 13, 1, compress::COMPRESS_NONE)
                    },
                }
            },
        }
    }
}

/// Whether the file ends in a trailer.
pub open spec fn has_trailer(d: Seq<u8>) -> bool {
    wire::stands_at(d, d.len() - 32, end_magic())
}

/// The number of chunks that the trailer gives.
pub open spec fn trailer_chunks(d: Seq<u8>) -> nat {
    wire::number(d, d.len() - 16, 8)
}

/// The number of messages that the trailer gives.
pub open spec fn trailer_messages(d: Seq<u8>) -> nat {
    wire::number(d, d.len() - 8, 8)
}

/// Whether the index that the trailer announces has room before it.
pub open spec fn index_fits(d: Seq<u8>) -> bool {
    head_of(d) matches Ok(h) && h.version == 2 && has_trailer(d) ==> 28 * trailer_chunks(d) + 32
        <= d.len()
}

/// The index entry at `pos`.
pub open spec fn entry_at(d: Seq<u8>, pos: int) -> ChunkIndex {
    ChunkIndex {
        offset: wire::number(d, pos, 8) as u64,
        start_stamp: wire::number(d, pos + 8, 8) as u64,
        end_stamp: wire::number(d, pos + 16, 8) as u64,
        msg_count: wire::number(d, pos + 24, 4) as u32,
    }
}

/// The `count` index entries from `pos` on.
pub open spec fn entries_at(d: Seq<u8>, pos: int, count: nat) -> Seq<ChunkIndex> {
    Seq::new(count, |i: int| entry_at(d, pos + 28 * i))
}

/// The index of the file `d`; empty where there is no trailer.
pub open spec fn index_of(d: Seq<u8>, version: u32) -> Seq<ChunkIndex> {
    if version == 2 && has_trailer(d) {
        entries_at(d, d.len() - 32 - 28 * trailer_chunks(d), trailer_chunks(d))
    } else {
        Seq::empty()
    }
}

/// The number of messages that the end of the file `d` gives, if it has such an end.
pub open spec fn count_of(d: Seq<u8>, version: u32) -> Option<u64> {
    if version == 2 {
        if has_trailer(d) {
            Some(trailer_messages(d) as u64)
        } else {
            None
        }
    } else if wire::stands_at(d, d.len() - 24, end_magic()) {
        Some(trailer_messages(d) as u64)
    } else {
        None
    }
}

/// The first channel with the id `id`.
pub open spec fn channel_with(s: Seq<ChannelView>, id: u16) -> Option<ChannelView>
    decreases s.len(),
{
    if s.len() == 0 {
        None
    } else {
        match channel_with(s.drop_last(), id) {
            Some(c) => Some(c),
            None => if s.last().id == id {
                Some(s.last())
            } else {
                None
            },
        }
    }
}

/// The first schema with the id `id`.
pub open spec fn schema_with(s: Seq<SchemaView>, id: u16) -> Option<SchemaView>
    decreases s.len(),
{
    if s.len() == 0 {
        None
    } else {
        match schema_with(s.drop_last(), id) {
            Some(c) => Some(c),
            None => if s.last().id == id {
                Some(s.last())
            } else {
                None
            },
        }
    }
}

/// What stands for a schema that is not declared.
pub open spec fn no_schema(id: u16) -> SchemaView {
    SchemaView { id, typename: Seq::empty(), encoding: Seq::empty() }
}

/// The message of a record: its channel and schema looked up. A message on a channel that is not
/// declared is on a channel without a name; one whose schema is not declared is of a type without
/// a name.
pub open spec fn resolved(
    schemas: Seq<SchemaView>,
    channels: Seq<ChannelView>,
    r: RecordView,
) -> MessageView {
    match channel_with(channels, r.channel) {
        None => MessageView {
            channel: Seq::empty(),
            stamp: r.stamp,
            schema: no_schema(0),
            payload: r.payload,
        },
        Some(c) => MessageView {
            channel: c.name,
            stamp: r.stamp,
            schema: match schema_with(schemas, c.schema_id) {
                Some(s) => s,
                None => no_schema(c.schema_id),
            },
            payload: r.payload,
        },
    }
}

/// The messages of records.
pub open spec fn resolved_all(
    schemas: Seq<SchemaView>,
    channels: Seq<ChannelView>,
    rs: Seq<RecordView>,
) -> Seq<MessageView> {
    Seq::new(rs.len(), |i: int| resolved(schemas, channels, rs[i]))
}

/// Whether a whole record stands in `d` at `pos`.
pub open spec fn record_fits(d: Seq<u8>, pos: int) -> bool {
    pos + 14 <= d.len() && pos + 14 + wire::number(d, pos + 10, 4) <= d.len()
}

/// The record in `d` at `pos`.
pub open spec fn record_at(d: Seq<u8>, pos: int) -> RecordView {
    RecordView {
        channel: wire::number(d, pos, 2) as u16,
        stamp: wire::number(d, pos + 2, 8) as u64,
        payload: d.subrange(pos + 14, record_end(d, pos)),
    }
}

/// Where the record in `d` at `pos` ends.
pub open spec fn record_end(d: Seq<u8>, pos: int) -> int {
    pos + 14 + wire::number(d, pos + 10, 4)
}

/// The messages of the first `count` records of `d`, and where they end.
pub open spec fn messages_in(
    schemas: Seq<SchemaView>,
    channels: Seq<ChannelView>,
    d: Seq<u8>,
    count: nat,
) -> Result<(Seq<MessageView>, int), Seq<char>>
    decreases count,
{
    if count == 0 {
        Ok((Seq::empty(), 0))
    } else {
        match messages_in(schemas, channels, d, (count - 1) as nat) {
            Err(e) => Err(e),
            Ok((s, p)) => if !record_fits(d, p) {
                Err("chunk records truncated"@)
            } else {
                Ok((s.push(resolved(schemas, channels, record_at(d, p))), record_end(d, p)))
            },
        }
    }
}

/// The length of the stored block of the chunk at `pos`.
pub open spec fn block_len(d: Seq<u8>, pos: int) -> nat {
    wire::number(d, pos + 42, 4)
}

/// The messages of the chunk at `pos`.
#[verifier::opaque]
pub open spec fn chunk_at(
    schemas: Seq<SchemaView>,
    channels: Seq<ChannelView>,
    compressor: u32,
    d: Seq<u8>,
    pos: int,
) -> Result<Seq<MessageView>, Seq<char>> {
    if pos + 50 > d.len() {
        Err("chunk header out of bounds"@)
    } else if !wire::stands_at(d, pos, chunk_magic()) {
        Err("bad chunk magic"@)
    } else if pos + 50 + block_len(d, pos) > d.len() {
        Err("chunk data out of bounds"@)
    } else {
        match compress::unpacked(
            compressor,
            d.subrange(pos + 50, pos + 50 + block_len(d, pos)),
            wire::number(d, pos + 38, 4),
        ) {
            Err(e) => Err(e),
            Ok(records) => if crc::crc32_of(records) != wire::number(d, pos + 46, 4) {
                Err("chunk crc mismatch"@)
            } else {
                match messages_in(schemas, channels, records, wire::number(d, pos + 18, 4)) {
                    Err(e) => Err(e),
                    Ok((ms, end)) => Ok(ms),
                }
            },
        }
    }
}

/// Whether a whole chunk stands at `pos`: its header, its magic and its block.
pub open spec fn chunk_stands(d: Seq<u8>, pos: int) -> bool {
    pos + 50 <= d.len() && wire::stands_at(d, pos, chunk_magic()) && pos + 50 + block_len(d, pos)
        <= d.len()
}

/// What a walk from chunk to chunk finds.
#[verifier::ext_equal]
pub struct Scan {
    pub messages: Seq<MessageView>,
    pub index: Seq<ChunkIndex>,
    /// The words of the error that ended the walk, if one did.
    pub error: Option<Seq<char>>,
}

/// The index entry of a chunk at `pos` that holds `ms`.
pub open spec fn entry_for(pos: int, ms: Seq<MessageView>) -> ChunkIndex {
    ChunkIndex {
        offset: pos as u64,
        start_stamp: if ms.len() > 0 {
            ms.first().stamp
        } else {
            0
        },
        end_stamp: if ms.len() > 0 {
            ms.last().stamp
        } else {
            0
        },
        msg_count: ms.len() as u32,
    }
}

/// The walk from chunk to chunk from `pos` on. It stops without error where no whole chunk
/// stands, and with one where a chunk cannot be read.
pub open spec fn scan_from(
    schemas: Seq<SchemaView>,
    channels: Seq<ChannelView>,
    compressor: u32,
    d: Seq<u8>,
    pos: int,
) -> Scan
    decreases d.len() - pos,
{
    if !chunk_stands(d, pos) {
        Scan { messages: Seq::empty(), index: Seq::empty(), error: None }
    } else {
        match chunk_at(schemas, channels, compressor, d, pos) {
            Err(e) => Scan { messages: Seq::empty(), index: Seq::empty(), error: Some(e) },
            Ok(ms) => {
                let rest = scan_from(
                    schemas,
                    channels,
                    compressor,
                    d,
                    pos + 50 + block_len(d, pos),
                );
                Scan {
                    messages: ms + rest.messages,
                    index: seq![entry_for(pos, ms)] + rest.index,
                    error: rest.error,
                }
            },
        }
    }
}

/// The messages of a version 1 file from `pos` on: record after record, until as many as `left`
/// were read, or the end mark or an incomplete record stands there.
pub open spec fn plain_from(
    schemas: Seq<SchemaView>,
    channels: Seq<ChannelView>,
    d: Seq<u8>,
    pos: int,
    left: Option<int>,
) -> Seq<MessageView>
    decreases d.len() - pos,
{
    if left == Some(0int) || wire::stands_at(d, pos, end_magic()) || !record_fits(d, pos) {
        Seq::empty()
    } else {
        seq![resolved(schemas, channels, record_at(d, pos))] + plain_from(
            schemas,
            channels,
            d,
            record_end(d, pos),
            match left {
                Some(n) => Some(n - 1),
                None => None,
            },
        )
    }
}

/// The messages of the chunks that `index` names, or the words of the first error.
pub open spec fn indexed(
    schemas: Seq<SchemaView>,
    channels: Seq<ChannelView>,
    compressor: u32,
    d: Seq<u8>,
    index: Seq<ChunkIndex>,
) -> Result<Seq<MessageView>, Seq<char>>
    decreases index.len(),
{
    if index.len() == 0 {
        Ok(Seq::empty())
    } else {
        match indexed(schemas, channels, compressor, d, index.drop_last()) {
            Err(e) => Err(e),
            Ok(s) => match chunk_at(schemas, channels, compressor, d, index.last().offset as int) {
                Err(e) => Err(e),
                Ok(ms) => Ok(s + ms),
            },
        }
    }
}

} // verus!
