//! The writing end of the single-file container.

use crate::compress::{compress_block, COMPRESS_DEFLATE};
use crate::crc::crc32;
use crate::layout::{
    chunk_magic_bytes, end_magic_bytes, magic_bytes, RecordView, FLAGS, VERSION,
};
use crate::le::{push_bytes, push_le};
use crate::message::{
    ChannelMeta, ChannelView, ChunkIndex, Error, Schema, SchemaView, Timestamp,
};
use crate::order::{sort_by_stamp, HasStamp};
use crate::storage::{ChannelId, SchemaId, StorageWriter};
use crate::text::{same_text, text_of};
use crate::wire::push_str;
use crate::{compress, crc, layout, message, order};
use vstd::prelude::*;
use vstd::slice::slice_to_vec;

verus! {

/// Size at which a chunk is closed, in bytes before compression, unless set otherwise.
pub const DEFAULT_CHUNK_TARGET: usize = 4194304;

/// A message that waits for its chunk to be closed.
struct Record {
    channel: u16,
    stamp: u64,
    payload: Vec<u8>,
}

impl View for Record {
    type V = RecordView;

    closed spec fn view(&self) -> RecordView {
        RecordView { channel: self.channel, stamp: self.stamp, payload: self.payload@ }
    }
}

impl HasStamp for Record {
    fn stamp_nanos(&self) -> (ns: u64) {
        self.stamp
    }
}

/// A chunk that was closed: its records, and the block that stores them.
#[verifier::ext_equal]
pub struct ClosedChunk {
    pub records: Seq<RecordView>,
    pub block: Seq<u8>,
}

/// The writing end of a container file. The bytes of the file are handed out by
/// [`SingleFileWriter::take_output`], in order, as they become ready.
pub struct SingleFileWriter {
    schemas: Vec<Schema>,
    channels: Vec<ChannelMeta>,
    pos: u64,
    data_offset: u64,
    header_written: bool,
    finished: bool,
    compressor: u32,
    chunk_target: usize,
    pending: Vec<Record>,
    pending_bytes: usize,
    chunk_index: Vec<ChunkIndex>,
    message_count: u64,
    out: Vec<u8>,
    taken: Ghost<Seq<u8>>,
    head_schemas: Ghost<Seq<SchemaView>>,
    head_channels: Ghost<Seq<ChannelView>>,
    log: Ghost<Seq<ClosedChunk>>,
}

/// The state of a [`SingleFileWriter`].
#[verifier::ext_equal]
pub struct WriterView {
    pub schemas: Seq<SchemaView>,
    pub channels: Seq<ChannelView>,
    /// Length of the file so far, modulo 2^64.
    pub pos: u64,
    /// Where the head ends.
    pub data_offset: u64,
    pub header_written: bool,
    pub finished: bool,
    pub compressor: u32,
    pub chunk_target: usize,
    /// The messages of the chunk that is open.
    pub pending: Seq<RecordView>,
    pub pending_bytes: usize,
    pub index: Seq<ChunkIndex>,
    /// Number of messages in closed chunks, modulo 2^64.
    pub message_count: u64,
    /// The bytes that were handed out.
    pub taken: Seq<u8>,
    /// The bytes that wait to be handed out.
    pub out: Seq<u8>,
    /// The schemas that the head declares.
    pub head_schemas: Seq<SchemaView>,
    /// The channels that the head declares.
    pub head_channels: Seq<ChannelView>,
    /// The closed chunks.
    pub log: Seq<ClosedChunk>,
}

impl View for SingleFileWriter {
    type V = WriterView;

    closed spec fn view(&self) -> WriterView {
        WriterView {
            schemas: message::views(self.schemas@),
            channels: message::views(self.channels@),
            pos: self.pos,
            data_offset: self.data_offset,
            header_written: self.header_written,
            finished: self.finished,
            compressor: self.compressor,
            chunk_target: self.chunk_target,
            pending: message::views(self.pending@),
            pending_bytes: self.pending_bytes,
            index: self.chunk_index@,
            message_count: self.message_count,
            taken: self.taken@,
            out: self.out@,
            head_schemas: self.head_schemas@,
            head_channels: self.head_channels@,
            log: self.log@,
        }
    }
}

/// `n` modulo 2^64.
pub open spec fn mod64(n: nat) -> u64 {
    (n % 0x1_0000_0000_0000_0000) as u64
}

/// `n` modulo 2^32.
pub open spec fn mod32(n: nat) -> u32 {
    (n % 0x1_0000_0000) as u32
}

/// The id of the entry that follows `n` others.
pub open spec fn next_id(n: nat) -> u16 {
    ((n + 1) % 0x1_0000) as u16
}

/// The first schema with the given type and encoding.
pub open spec fn schema_like(
    s: Seq<SchemaView>,
    typename: Seq<char>,
    encoding: Seq<char>,
) -> Option<SchemaView>
    decreases s.len(),
{
    if s.len() == 0 {
        None
    } else {
        match schema_like(s.drop_last(), typename, encoding) {
            Some(x) => Some(x),
            None => if s.last().typename == typename && s.last().encoding == encoding {
                Some(s.last())
            } else {
                None
            },
        }
    }
}

/// The first channel with the given name.
pub open spec fn channel_named(s: Seq<ChannelView>, name: Seq<char>) -> Option<ChannelView>
    decreases s.len(),
{
    if s.len() == 0 {
        None
    } else {
        match channel_named(s.drop_last(), name) {
            Some(x) => Some(x),
            None => if s.last().name == name {
                Some(s.last())
            } else {
                None
            },
        }
    }
}

/// The number of messages of closed chunks, as it is counted.
pub open spec fn tally(log: Seq<ClosedChunk>) -> u64
    decreases log.len(),
{
    if log.len() == 0 {
        0
    } else {
        mod64(tally(log.drop_last()) as nat + mod32(log.last().records.len()) as nat)
    }
}

/// The bytes of a closed chunk before which the chunks `before` were closed.
pub open spec fn chunk_bytes(before: Seq<ClosedChunk>, c: ClosedChunk) -> Seq<u8> {
    layout::chunk_header_bytes(tally(before), c.records, c.block) + c.block
}

/// The bytes of closed chunks.
pub open spec fn log_bytes(log: Seq<ClosedChunk>) -> Seq<u8>
    decreases log.len(),
{
    if log.len() == 0 {
        Seq::empty()
    } else {
        log_bytes(log.drop_last()) + chunk_bytes(log.drop_last(), log.last())
    }
}

/// The records of closed chunks.
pub open spec fn log_records(log: Seq<ClosedChunk>) -> Seq<RecordView>
    decreases log.len(),
{
    if log.len() == 0 {
        Seq::empty()
    } else {
        log_records(log.drop_last()) + log.last().records
    }
}

/// The index entry of a chunk that stands at `pos`.
pub open spec fn log_entry(pos: nat, c: ClosedChunk) -> ChunkIndex {
    ChunkIndex {
        offset: mod64(pos),
        start_stamp: c.records.first().stamp,
        end_stamp: c.records.last().stamp,
        msg_count: mod32(c.records.len()),
    }
}

/// The index of the chunks `log` that follow a head of `start` bytes.
pub open spec fn log_index(start: nat, log: Seq<ClosedChunk>) -> Seq<ChunkIndex>
    decreases log.len(),
{
    if log.len() == 0 {
        Seq::empty()
    } else {
        log_index(start, log.drop_last()).push(
            log_entry(start + log_bytes(log.drop_last()).len(), log.last()),
        )
    }
}

impl WriterView {
    /// The file so far.
    pub open spec fn file(self) -> Seq<u8> {
        self.taken + self.out
    }

    /// The messages so far, in the order in which the file holds or will hold them, up to the
    /// sorting of the open chunk.
    pub open spec fn recorded(self) -> Seq<RecordView> {
        log_records(self.log) + self.pending
    }

    pub open spec fn head(self) -> Seq<u8> {
        layout::head_bytes(self.compressor, self.head_schemas, self.head_channels)
    }

    /// A writer that has done nothing yet.
    pub open spec fn fresh() -> WriterView {
        WriterView {
            schemas: Seq::empty(),
            channels: Seq::empty(),
            pos: 0,
            data_offset: 0,
            header_written: false,
            finished: false,
            compressor: COMPRESS_DEFLATE,
            chunk_target: DEFAULT_CHUNK_TARGET,
            pending: Seq::empty(),
            pending_bytes: 0,
            index: Seq::empty(),
            message_count: 0,
            taken: Seq::empty(),
            out: Seq::empty(),
            head_schemas: Seq::empty(),
            head_channels: Seq::empty(),
            log: Seq::empty(),
        }
    }

    /// `bytes` appended to the file.
    pub open spec fn emitted(self, bytes: Seq<u8>) -> WriterView {
        WriterView { out: self.out + bytes, pos: mod64(self.pos as nat + bytes.len()), ..self }
    }

    /// A schema declared: one of the same type and encoding is not declared twice.
    pub open spec fn after_add_schema(self, schema: SchemaView) -> (WriterView, u16) {
        match schema_like(self.schemas, schema.typename, schema.encoding) {
            Some(s) => (self, s.id),
            None => {
                let id = next_id(self.schemas.len());
                let s = SchemaView { id, ..schema };
                (WriterView { schemas: self.schemas.push(s), ..self }, id)
            },
        }
    }

    /// A channel declared: one of the same name is not declared twice.
    pub open spec fn after_add_channel(self, name: Seq<char>, schema_id: u16) -> (WriterView, u16) {
        match channel_named(self.channels, name) {
            Some(c) => (self, c.id),
            None => {
                let id = next_id(self.channels.len());
                let c = ChannelView { id, name, schema_id };
                (WriterView { channels: self.channels.push(c), ..self }, id)
            },
        }
    }

    /// The head written, if it was not.
    pub open spec fn with_head(self) -> WriterView {
        if self.header_written {
            self
        } else {
            let w = self.emitted(
                layout::head_bytes(self.compressor, self.schemas, self.channels),
            );
            WriterView {
                data_offset: w.pos,
                header_written: true,
                head_schemas: self.schemas,
                head_channels: self.channels,
                ..w
            }
        }
    }

    /// The open chunk, holding `records`, closed as `block`.
    pub open spec fn closed_as(self, records: Seq<RecordView>, block: Seq<u8>) -> WriterView {
        let c = ClosedChunk { records, block };
        let w = self.emitted(
            layout::chunk_header_bytes(self.message_count, records, block) + block,
        );
        WriterView {
            pending: Seq::empty(),
            pending_bytes: 0,
            index: self.index.push(log_entry(self.pos as nat, c)),
            message_count: mod64(self.message_count as nat + mod32(records.len()) as nat),
            log: self.log.push(c),
            ..w
        }
    }

    /// The open chunk closed, if it holds anything, and the words of an error. The messages of
    /// a chunk are in order of time. Where compression fails, they stay.
    pub open spec fn flushed(self) -> (WriterView, Option<Seq<char>>) {
        if self.pending.len() == 0 {
            (self, None)
        } else {
            let rs = order::time_sorted(self.pending);
            match compress::packed(self.compressor, layout::records_bytes(rs)) {
                Ok(block) => (self.closed_as(rs, block), None),
                Err(e) => (WriterView { pending: rs, ..self }, Some(e)),
            }
        }
    }

    /// A message put into the open chunk.
    pub open spec fn with_pending(self, r: RecordView) -> WriterView {
        let size = self.pending_bytes + layout::record_size(r);
        WriterView {
            pending: self.pending.push(r),
            pending_bytes: if size > usize::MAX {
                usize::MAX
            } else {
                size as usize
            },
            ..self
        }
    }

    /// A message written: the chunk is closed once it has reached its size.
    pub open spec fn after_write(self, r: RecordView) -> (WriterView, Option<Seq<char>>) {
        let w = self.with_head().with_pending(r);
        if w.pending_bytes >= w.chunk_target {
            w.flushed()
        } else {
            (w, None)
        }
    }

    /// The index and the trailer appended.
    pub open spec fn ended(self) -> WriterView {
        let bytes = layout::footer_bytes(self.index, self.data_offset, self.message_count);
        WriterView { finished: true, out: self.out + bytes, ..self }
    }

    /// The file brought to its end: index and trailer. A second time changes nothing.
    pub open spec fn after_finish(self) -> (WriterView, Option<Seq<char>>) {
        if self.finished {
            (self, None)
        } else {
            let (w, e) = self.with_head().flushed();
            if e is Some {
                (w, e)
            } else {
                (w.ended(), None)
            }
        }
    }
}

/// Whether each closed chunk has messages, in order of time, and its block gives back their
/// bytes.
pub open spec fn chunks_hold(compressor: u32, log: Seq<ClosedChunk>) -> bool {
    forall|i: int| 0 <= i < log.len() ==> #[trigger] chunk_holds(compressor, log[i])
}

pub open spec fn chunk_holds(compressor: u32, c: ClosedChunk) -> bool {
    &&& c.records.len() > 0
    &&& order::in_time_order(c.records)
    &&& compress::unpacked(compressor, c.block, layout::records_bytes(c.records).len()) == Ok::<
        Seq<u8>,
        Seq<char>,
    >(layout::records_bytes(c.records))
}

impl WriterView {
    /// The parts of the state that every call keeps in step with each other.
    pub open spec fn sound(self) -> bool {
        &&& forall|i: int|
            0 <= i < self.schemas.len() ==> (#[trigger] self.schemas[i]).id == next_id(i as nat)
        &&& forall|i: int|
            0 <= i < self.channels.len() ==> (#[trigger] self.channels[i]).id == next_id(i as nat)
        &&& self.pending_bytes == (if layout::records_size(self.pending) > usize::MAX {
            usize::MAX as nat
        } else {
            layout::records_size(self.pending)
        })
        &&& !self.finished ==> self.in_step()
    }

    /// The file that is not finished yet: nothing, or a head and the closed chunks.
    pub open spec fn in_step(self) -> bool {
        if self.header_written {
            &&& self.file() == self.head() + log_bytes(self.log)
            &&& self.pos == mod64(self.file().len())
            &&& self.tables_agree()
        } else {
            &&& self.taken.len() == 0
            &&& self.out.len() == 0
            &&& self.pos == 0
            &&& self.pending.len() == 0
            &&& self.index.len() == 0
            &&& self.log.len() == 0
            &&& self.message_count == 0
        }
    }

    /// What the end of the file will say agrees with the closed chunks.
    pub open spec fn tables_agree(self) -> bool {
        &&& self.data_offset == mod64(self.head().len())
        &&& self.index == log_index(self.head().len(), self.log)
        &&& self.message_count == tally(self.log)
        &&& chunks_hold(self.compressor, self.log)
    }

    /// The file is finished: a head, the closed chunks, the index and the trailer.
    pub open spec fn complete(self) -> bool {
        &&& self.finished
        &&& self.pending.len() == 0
        &&& self.file() == self.head() + log_bytes(self.log) + layout::footer_bytes(
            self.index,
            self.data_offset,
            self.message_count,
        )
        &&& self.tables_agree()
    }
}

proof fn lemma_size_of_inserted(s: Seq<RecordView>, x: RecordView)
    ensures
        layout::records_size(order::inserted(s, x)) == layout::records_size(s)
            + layout::record_size(x),
    decreases s.len(),
{
    if s.len() == 0 || s.last().stamp <= x.stamp {
        assert(s.push(x).drop_last() =~= s);
    } else {
        let r = order::inserted(s.drop_last(), x);
        lemma_size_of_inserted(s.drop_last(), x);
        assert(r.push(s.last()).drop_last() =~= r);
    }
}

proof fn lemma_size_of_sorted(s: Seq<RecordView>)
    ensures
        layout::records_size(order::time_sorted(s)) == layout::records_size(s),
    decreases s.len(),
{
    if s.len() > 0 {
        lemma_size_of_sorted(s.drop_last());
        lemma_size_of_inserted(order::time_sorted(s.drop_last()), s.last());
    }
}

pub proof fn lemma_head_keeps_sound(w: WriterView)
    requires
        w.sound(),
    ensures
        w.with_head().sound(),
        !w.finished ==> w.with_head().in_step(),
{
    if !w.header_written && !w.finished {
        let after = w.with_head();
        assert(after.file() =~= after.head() + log_bytes(after.log));
        assert(after.index =~= log_index(after.head().len(), after.log));
    }
}

proof fn lemma_pending_keeps_sound(w: WriterView, r: RecordView)
    requires
        w.sound(),
        w.header_written,
    ensures
        w.with_pending(r).sound(),
{
    assert(w.pending.push(r).drop_last() =~= w.pending);
}

proof fn lemma_mod64_steps(a: nat, n: nat)
    ensures
        mod64(mod64(a) as nat + n) == mod64(a + n),
{
}

proof fn lemma_emitted(w: WriterView, bytes: Seq<u8>)
    requires
        w.pos == mod64(w.file().len()),
    ensures
        w.emitted(bytes).file() == w.file() + bytes,
        w.emitted(bytes).pos == mod64(w.emitted(bytes).file().len()),
{
    lemma_mod64_steps(w.file().len(), bytes.len());
    assert(w.emitted(bytes).file() =~= w.file() + bytes);
}

proof fn lemma_chunks_hold_with(compressor: u32, log: Seq<ClosedChunk>, c: ClosedChunk)
    requires
        chunks_hold(compressor, log),
        chunk_holds(compressor, c),
    ensures
        chunks_hold(compressor, log.push(c)),
{
    assert forall|i: int| 0 <= i < log.push(c).len() implies #[trigger] chunk_holds(
        compressor,
        log.push(c)[i],
    ) by {
        if i < log.len() {
            assert(chunk_holds(compressor, log[i]));
        }
    }
}

pub proof fn lemma_closing_keeps_sound(w: WriterView, block: Seq<u8>)
    requires
        w.sound(),
        w.header_written,
        w.pending.len() > 0,
        ({
            let records = layout::records_bytes(order::time_sorted(w.pending));
            compress::unpacked(w.compressor, block, records.len()) == Ok::<Seq<u8>, Seq<char>>(
                records,
            )
        }),
    ensures
        w.closed_as(order::time_sorted(w.pending), block).sound(),
{
    let rs = order::time_sorted(w.pending);
    order::lemma_sorted_len(w.pending);
    order::law_sorted_is_in_order(w.pending);
    if !w.finished {
        lemma_closing_keeps_step(w, rs, block);
    }
}

proof fn lemma_closing_keeps_step(w: WriterView, rs: Seq<RecordView>, block: Seq<u8>)
    requires
        w.in_step(),
        w.header_written,
        chunk_holds(w.compressor, ClosedChunk { records: rs, block }),
    ensures
        w.closed_as(rs, block).in_step(),
{
    let c = ClosedChunk { records: rs, block };
    let after = w.closed_as(rs, block);
    let bytes = chunk_bytes(w.log, c);
    lemma_emitted(w, bytes);
    lemma_chunks_hold_with(w.compressor, w.log, c);
    assert(after.log.drop_last() =~= w.log);
    assert(after.file() =~= after.head() + log_bytes(after.log)) by {
        assert(after.file() =~= w.file() + bytes);
        assert(log_bytes(after.log) =~= log_bytes(w.log) + bytes);
    }
    assert(w.file().len() == w.head().len() + log_bytes(w.log).len());
    assert(mod64(w.pos as nat) == mod64(w.file().len()));
    assert(log_entry(w.pos as nat, c) == log_entry(w.file().len(), c));
    assert(after.index =~= log_index(after.head().len(), after.log));
}

proof fn lemma_failing_keeps_sound(w: WriterView)
    requires
        w.sound(),
        w.header_written,
    ensures
        (WriterView { pending: order::time_sorted(w.pending), ..w }).sound(),
{
    lemma_size_of_sorted(w.pending);
}

pub proof fn lemma_ending_completes(w: WriterView)
    requires
        w.sound(),
        !w.finished,
        w.header_written,
        w.pending.len() == 0,
    ensures
        w.ended().complete(),
        w.ended().sound(),
{
    let footer = layout::footer_bytes(w.index, w.data_offset, w.message_count);
    assert(w.ended().file() =~= w.file() + footer);
}

fn push_schemas(out: &mut Vec<u8>, schemas: &[Schema])
    ensures
        final(out)@ == old(out)@ + layout::schemas_bytes(message::views(schemas@)),
{
    let ghost before = out@;
    let ghost all = message::views(schemas@);
    let mut i: usize = 0;
    assert(out@ =~= before + layout::schemas_bytes(all.take(0)));
    while i < schemas.len()
        invariant
            i <= schemas.len(),
            all == message::views(schemas@),
            out@ == before + layout::schemas_bytes(all.take(i as int)),
        decreases schemas.len() - i,
    {
        let s: &Schema = &schemas[i];
        push_le(out, s.id as u64, 2);
        push_str(out, s.typename.as_str());
        push_str(out, s.encoding.as_str());
        proof {
            assert(all.take(i + 1).drop_last() =~= all.take(i as int));
            assert(all.take(i + 1).last() == s@);
            assert(out@ =~= before + (layout::schemas_bytes(all.take(i as int))
                + layout::schema_bytes(s@)));
        }
        i = i + 1;
    }
    assert(all.take(i as int) =~= all);
}

fn push_channels(out: &mut Vec<u8>, channels: &[ChannelMeta])
    ensures
        final(out)@ == old(out)@ + layout::channels_bytes(message::views(channels@)),
{
    let ghost before = out@;
    let ghost all = message::views(channels@);
    let mut i: usize = 0;
    assert(out@ =~= before + layout::channels_bytes(all.take(0)));
    while i < channels.len()
        invariant
            i <= channels.len(),
            all == message::views(channels@),
            out@ == before + layout::channels_bytes(all.take(i as int)),
        decreases channels.len() - i,
    {
        let c: &ChannelMeta = &channels[i];
        push_le(out, c.id as u64, 2);
        push_str(out, c.name.as_str());
        push_le(out, c.schema_id as u64, 2);
        proof {
            assert(all.take(i + 1).drop_last() =~= all.take(i as int));
            assert(all.take(i + 1).last() == c@);
            assert(out@ =~= before + (layout::channels_bytes(all.take(i as int))
                + layout::channel_bytes(c@)));
        }
        i = i + 1;
    }
    assert(all.take(i as int) =~= all);
}

fn push_records(out: &mut Vec<u8>, records: &[Record])
    ensures
        final(out)@ == old(out)@ + layout::records_bytes(message::views(records@)),
{
    let ghost before = out@;
    let ghost all = message::views(records@);
    let mut i: usize = 0;
    assert(out@ =~= before + layout::records_bytes(all.take(0)));
    while i < records.len()
        invariant
            i <= records.len(),
            all == message::views(records@),
            out@ == before + layout::records_bytes(all.take(i as int)),
        decreases records.len() - i,
    {
        let r: &Record = &records[i];
        push_le(out, r.channel as u64, 2);
        push_le(out, r.stamp, 8);
        push_le(out, r.payload.len() as u64, 4);
        push_bytes(out, r.payload.as_slice());
        proof {
            assert(all.take(i + 1).drop_last() =~= all.take(i as int));
            assert(all.take(i + 1).last() == r@);
            assert(out@ =~= before + (layout::records_bytes(all.take(i as int))
                + layout::record_bytes(r@)));
        }
        i = i + 1;
    }
    assert(all.take(i as int) =~= all);
}

fn push_entries(out: &mut Vec<u8>, index: &[ChunkIndex])
    ensures
        final(out)@ == old(out)@ + layout::entries_bytes(index@),
{
    let ghost before = out@;
    let mut i: usize = 0;
    assert(out@ =~= before + layout::entries_bytes(index@.take(0)));
    while i < index.len()
        invariant
            i <= index.len(),
            out@ == before + layout::entries_bytes(index@.take(i as int)),
        decreases index.len() - i,
    {
        let c: ChunkIndex = index[i];
        push_le(out, c.offset, 8);
        push_le(out, c.start_stamp, 8);
        push_le(out, c.end_stamp, 8);
        push_le(out, c.msg_count as u64, 4);
        proof {
            assert(index@.take(i + 1).drop_last() =~= index@.take(i as int));
            assert(out@ =~= before + (layout::entries_bytes(index@.take(i as int))
                + layout::entry_bytes(c)));
        }
        i = i + 1;
    }
    assert(index@.take(i as int) =~= index@);
}

/// A whole chunk: its header and its block.
fn chunk_image(ordinal: u64, sorted: &[Record], records: &[u8], block: &[u8]) -> (r: Vec<u8>)
    requires
        sorted@.len() > 0,
        records@ == layout::records_bytes(message::views(sorted@)),
    ensures
        r@ == layout::chunk_header_bytes(ordinal, message::views(sorted@), block@) + block@,
{
    let crc: u32 = crc32(records);
    let mut hdr: Vec<u8> = Vec::new();
    push_bytes(&mut hdr, &chunk_magic_bytes());
    push_le(&mut hdr, ordinal, 8);
    push_le(&mut hdr, sorted.len() as u64, 4);
    push_le(&mut hdr, sorted[0].stamp, 8);
    push_le(&mut hdr, sorted[sorted.len() - 1].stamp, 8);
    push_le(&mut hdr, records.len() as u64, 4);
    push_le(&mut hdr, block.len() as u64, 4);
    push_le(&mut hdr, crc as u64, 4);
    proof {
        reveal(layout::chunk_header_bytes);
        assert(hdr@ =~= layout::chunk_header_bytes(ordinal, message::views(sorted@), block@));
    }
    push_bytes(&mut hdr, block);
    hdr
}

/// The end of a file: the index and the trailer.
fn footer_image(index: &[ChunkIndex], data_offset: u64, message_count: u64) -> (r: Vec<u8>)
    ensures
        r@ == layout::footer_bytes(index@, data_offset, message_count),
{
    let mut buf: Vec<u8> = Vec::new();
    push_entries(&mut buf, index);
    push_bytes(&mut buf, &end_magic_bytes());
    push_le(&mut buf, data_offset, 8);
    push_le(&mut buf, index.len() as u64, 8);
    push_le(&mut buf, message_count, 8);
    proof {
        reveal(layout::footer_bytes);
        assert(buf@ =~= layout::footer_bytes(index@, data_offset, message_count));
    }
    buf
}

/// The id of the entry that follows `n` others.
fn following_id(n: usize) -> (id: u16)
    ensures
        id == next_id(n as nat),
{
    let low: u32 = (n % 65536) as u32;
    ((low + 1) % 65536) as u16
}

/// The low 32 bits of `n`.
fn low32(n: usize) -> (r: u32)
    ensures
        r == mod32(n as nat),
{
    let low: u64 = n as u64 % 0x1_0000_0000;
    low as u32
}

impl SingleFileWriter {
    /// A new file, compressed with deflate, with chunks of the default size.
    pub fn open() -> (w: Self)
        ensures
            w@ == WriterView::fresh(),
            w@.sound(),
    {
        let w = SingleFileWriter {
            schemas: Vec::new(),
            channels: Vec::new(),
            pos: 0,
            data_offset: 0,
            header_written: false,
            finished: false,
            compressor: COMPRESS_DEFLATE,
            chunk_target: DEFAULT_CHUNK_TARGET,
            pending: Vec::new(),
            pending_bytes: 0,
            chunk_index: Vec::new(),
            message_count: 0,
            out: Vec::new(),
            taken: Ghost(Seq::empty()),
            head_schemas: Ghost(Seq::empty()),
            head_channels: Ghost(Seq::empty()),
            log: Ghost(Seq::empty()),
        };
        assert(w@ =~= WriterView::fresh());
        w
    }

    /// Sets the compressor; to be called before anything is written.
    pub fn compressor(self, code: u32) -> (w: Self)
        requires
            !self@.header_written,
        ensures
            w@ == (WriterView { compressor: code, ..self@ }),
            self@.sound() ==> w@.sound(),
    {
        SingleFileWriter { compressor: code, ..self }
    }

    /// Sets the size of a chunk in bytes before compression, at least one; to be called before
    /// anything is written.
    pub fn chunk_target(self, bytes: usize) -> (w: Self)
        requires
            !self@.header_written,
        ensures
            w@ == (WriterView {
                chunk_target: if bytes == 0 {
                    1
                } else {
                    bytes
                },
                ..self@
            }),
            self@.sound() ==> w@.sound(),
    {
        SingleFileWriter {
            chunk_target: if bytes == 0 {
                1
            } else {
                bytes
            },
            ..self
        }
    }

    /// Hands out the bytes that are ready. Those handed out, in order, are the file.
    pub fn take_output(&mut self) -> (r: Vec<u8>)
        ensures
            r@ == old(self)@.out,
            final(self)@ == (WriterView {
                taken: old(self)@.taken + old(self)@.out,
                out: Seq::empty(),
                ..old(self)@
            }),
            final(self)@.file() == old(self)@.file(),
            old(self)@.sound() ==> final(self)@.sound(),
    {
        let ghost was = self@;
        let mut r: Vec<u8> = Vec::new();
        std::mem::swap(&mut r, &mut self.out);
        self.taken = Ghost(was.taken + was.out);
        assert(self@.file() =~= was.file());
        r
    }

    /// Whether the file was brought to its end.
    pub fn is_finished(&self) -> (r: bool)
        ensures
            r == self@.finished,
    {
        self.finished
    }

    /// Whether the head was written; the compressor and the chunk size are then settled.
    pub fn is_started(&self) -> (r: bool)
        ensures
            r == self@.header_written,
    {
        self.header_written
    }

    fn emit(&mut self, bytes: &[u8])
        ensures
            final(self)@ == old(self)@.emitted(bytes@),
    {
        push_bytes(&mut self.out, bytes);
        self.pos = self.pos.wrapping_add(bytes.len() as u64);
    }

    /// Writes the head, once.
    fn ensure_header(&mut self)
        ensures
            final(self)@ == old(self)@.with_head(),
            old(self)@.sound() ==> final(self)@.sound(),
    {
        proof {
            if self@.sound() {
                lemma_head_keeps_sound(self@);
            }
        }
        if self.header_written {
            return;
        }
        let ghost was = self@;
        let mut buf: Vec<u8> = Vec::new();
        push_bytes(&mut buf, &magic_bytes());
        push_le(&mut buf, VERSION as u64, 4);
        push_le(&mut buf, FLAGS as u64, 4);
        push_le(&mut buf, self.compressor as u64, 4);
        push_le(&mut buf, self.schemas.len() as u64, 4);
        push_schemas(&mut buf, self.schemas.as_slice());
        push_le(&mut buf, self.channels.len() as u64, 4);
        push_channels(&mut buf, self.channels.as_slice());
        proof {
            reveal(layout::head_bytes);
            assert(buf@ =~= layout::head_bytes(was.compressor, was.schemas, was.channels));
        }
        self.emit(buf.as_slice());
        self.data_offset = self.pos;
        self.header_written = true;
        self.head_schemas = Ghost(was.schemas);
        self.head_channels = Ghost(was.channels);
    }

    /// Appends a chunk to the file and its entry to the index.
    fn keep_chunk(&mut self, chunk: &[u8], entry: ChunkIndex, c: Ghost<ClosedChunk>)
        requires
            chunk@ == layout::chunk_header_bytes(old(self)@.message_count, c@.records, c@.block)
                + c@.block,
            entry == log_entry(old(self)@.pos as nat, c@),
            old(self)@.pending.len() == 0,
        ensures
            final(self)@ == old(self)@.closed_as(c@.records, c@.block),
    {
        let ghost was = self@;
        self.emit(chunk);
        self.chunk_index.push(entry);
        self.message_count = self.message_count.wrapping_add(entry.msg_count as u64);
        self.pending_bytes = 0;
        self.log = Ghost(was.log.push(c@));
        assert(self@.pending =~= Seq::empty());
    }

    /// Closes the open chunk: sorts its messages by time, compresses them and notes where the
    /// chunk stands.
    fn flush_chunk(&mut self) -> (r: Result<(), Error>)
        requires
            old(self)@.header_written,
        ensures
            final(self)@ == old(self)@.flushed().0,
            told(r, old(self)@.flushed().1),
            old(self)@.sound() ==> final(self)@.sound(),
    {
        if self.pending.len() == 0 {
            return Ok(());
        }
        let ghost was = self@;
        let mut pending: Vec<Record> = Vec::new();
        std::mem::swap(&mut pending, &mut self.pending);
        let sorted: Vec<Record> = sort_by_stamp(pending);
        let ghost rs = order::time_sorted(was.pending);
        proof {
            order::lemma_sorted_len(was.pending);
        }
        let start: u64 = sorted[0].stamp;
        let end: u64 = sorted[sorted.len() - 1].stamp;
        let msg_count: u32 = low32(sorted.len());
        let mut records: Vec<u8> = Vec::new();
        push_records(&mut records, sorted.as_slice());
        assert(records@ =~= layout::records_bytes(rs));
        match compress_block(self.compressor, records.as_slice()) {
            Err(e) => {
                self.pending = sorted;
                proof {
                    if was.sound() {
                        lemma_failing_keeps_sound(was);
                    }
                }
                Err(e)
            },
            Ok(block) => {
                let offset: u64 = self.pos;
                let chunk: Vec<u8> = chunk_image(
                    self.message_count,
                    sorted.as_slice(),
                    records.as_slice(),
                    block.as_slice(),
                );
                let ghost c = ClosedChunk { records: rs, block: block@ };
                self.keep_chunk(
                    chunk.as_slice(),
                    ChunkIndex { offset, start_stamp: start, end_stamp: end, msg_count },
                    Ghost(c),
                );
                proof {
                    assert(WriterView { pending: Seq::empty(), ..was }.closed_as(rs, block@)
                        =~= was.closed_as(rs, block@));
                    if was.sound() {
                        lemma_closing_keeps_sound(was, block@);
                    }
                }
                Ok(())
            },
        }
    }
}

/// `r` is success, or fails with the words `e`.
pub open spec fn told(r: Result<(), Error>, e: Option<Seq<char>>) -> bool {
    match r {
        Ok(_) => e is None,
        Err(x) => e == Some(x@),
    }
}

proof fn lemma_like_stays(s: Seq<SchemaView>, i: int, t: Seq<char>, e: Seq<char>)
    requires
        0 <= i <= s.len(),
        schema_like(s.take(i), t, e) is Some,
    ensures
        schema_like(s, t, e) == schema_like(s.take(i), t, e),
    decreases s.len(),
{
    if i == s.len() {
        assert(s.take(i) =~= s);
    } else {
        assert(s.drop_last().take(i) =~= s.take(i));
        lemma_like_stays(s.drop_last(), i, t, e);
    }
}

proof fn lemma_named_stays(s: Seq<ChannelView>, i: int, name: Seq<char>)
    requires
        0 <= i <= s.len(),
        channel_named(s.take(i), name) is Some,
    ensures
        channel_named(s, name) == channel_named(s.take(i), name),
    decreases s.len(),
{
    if i == s.len() {
        assert(s.take(i) =~= s);
    } else {
        assert(s.drop_last().take(i) =~= s.take(i));
        lemma_named_stays(s.drop_last(), i, name);
    }
}

fn find_schema(s: &[Schema], typename: &str, encoding: &str) -> (r: Option<u16>)
    ensures
        match r {
            Some(id) => schema_like(message::views(s@), typename@, encoding@) matches Some(x)
                && x.id == id,
            None => schema_like(message::views(s@), typename@, encoding@) is None,
        },
{
    let ghost all = message::views(s@);
    let mut i: usize = 0;
    while i < s.len()
        invariant
            i <= s.len(),
            all == message::views(s@),
            schema_like(all.take(i as int), typename@, encoding@) is None,
        decreases s.len() - i,
    {
        assert(all.take(i + 1).drop_last() =~= all.take(i as int));
        if same_text(s[i].typename.as_str(), typename) && same_text(
            s[i].encoding.as_str(),
            encoding,
        ) {
            proof {
                lemma_like_stays(all, i + 1, typename@, encoding@);
            }
            return Some(s[i].id);
        }
        i = i + 1;
    }
    assert(all.take(i as int) =~= all);
    None
}

fn find_channel(s: &[ChannelMeta], name: &str) -> (r: Option<u16>)
    ensures
        match r {
            Some(id) => channel_named(message::views(s@), name@) matches Some(x) && x.id == id,
            None => channel_named(message::views(s@), name@) is None,
        },
{
    let ghost all = message::views(s@);
    let mut i: usize = 0;
    while i < s.len()
        invariant
            i <= s.len(),
            all == message::views(s@),
            channel_named(all.take(i as int), name@) is None,
        decreases s.len() - i,
    {
        assert(all.take(i + 1).drop_last() =~= all.take(i as int));
        if same_text(s[i].name.as_str(), name) {
            proof {
                lemma_named_stays(all, i + 1, name@);
            }
            return Some(s[i].id);
        }
        i = i + 1;
    }
    assert(all.take(i as int) =~= all);
    None
}

impl StorageWriter for SingleFileWriter {
    open spec fn schema_added(
        before: Self,
        schema: SchemaView,
        after: Self,
        r: Result<SchemaId, Error>,
    ) -> bool {
        &&& after@ == before@.after_add_schema(schema).0
        &&& r matches Ok(id) && id.0 == before@.after_add_schema(schema).1
        &&& before@.sound() ==> after@.sound()
    }

    open spec fn channel_added(
        before: Self,
        name: Seq<char>,
        schema_id: SchemaId,
        after: Self,
        r: Result<ChannelId, Error>,
    ) -> bool {
        &&& after@ == before@.after_add_channel(name, schema_id.0).0
        &&& r matches Ok(id) && id.0 == before@.after_add_channel(name, schema_id.0).1
        &&& before@.sound() ==> after@.sound()
    }

    open spec fn written(
        before: Self,
        channel: ChannelId,
        stamp: Timestamp,
        payload: Seq<u8>,
        after: Self,
        r: Result<(), Error>,
    ) -> bool {
        let record = RecordView { channel: channel.0, stamp: stamp.0, payload };
        &&& after@ == before@.after_write(record).0
        &&& told(r, before@.after_write(record).1)
        &&& before@.sound() ==> after@.sound()
    }

    open spec fn closed(before: Self, after: Self, r: Result<(), Error>) -> bool {
        &&& after@ == before@.after_finish().0
        &&& told(r, before@.after_finish().1)
        &&& before@.sound() ==> after@.sound()
        &&& before@.sound() && !before@.finished && r is Ok ==> after@.complete()
    }

    fn add_schema(&mut self, schema: &Schema) -> (r: Result<SchemaId, Error>) {
        if let Some(id) = find_schema(
            self.schemas.as_slice(),
            schema.typename.as_str(),
            schema.encoding.as_str(),
        ) {
            return Ok(SchemaId(id));
        }
        let ghost was = self@;
        let id: u16 = following_id(self.schemas.len());
        let mut s: Schema = schema.clone();
        s.id = id;
        self.schemas.push(s);
        assert(self@.schemas =~= was.schemas.push(s@));
        Ok(SchemaId(id))
    }

    fn add_channel(&mut self, name: &str, schema_id: SchemaId) -> (r: Result<ChannelId, Error>) {
        if let Some(id) = find_channel(self.channels.as_slice(), name) {
            return Ok(ChannelId(id));
        }
        let ghost was = self@;
        let id: u16 = following_id(self.channels.len());
        let c: ChannelMeta = ChannelMeta { id, name: text_of(name), schema_id: schema_id.0 };
        self.channels.push(c);
        assert(self@.channels =~= was.channels.push(c@));
        Ok(ChannelId(id))
    }

    fn write(&mut self, channel: ChannelId, stamp: Timestamp, payload: &[u8]) -> (r: Result<
        (),
        Error,
    >) {
        self.ensure_header();
        let ghost was = self@;
        let ghost record = RecordView { channel: channel.0, stamp: stamp.0, payload: payload@ };
        self.pending.push(
            Record { channel: channel.0, stamp: stamp.0, payload: slice_to_vec(payload) },
        );
        self.pending_bytes = self.pending_bytes.saturating_add(14).saturating_add(payload.len());
        proof {
            assert(self@.pending =~= was.pending.push(record));
            if was.sound() {
                lemma_pending_keeps_sound(was, record);
            }
        }
        if self.pending_bytes >= self.chunk_target {
            self.flush_chunk()?;
        }
        Ok(())
    }

    fn finish(&mut self) -> (r: Result<(), Error>) {
        if self.finished {
            return Ok(());
        }
        self.ensure_header();
        self.flush_chunk()?;
        let ghost was = self@;
        let buf: Vec<u8> = footer_image(
            self.chunk_index.as_slice(),
            self.data_offset,
            self.message_count,
        );
        push_bytes(&mut self.out, buf.as_slice());
        self.finished = true;
        proof {
            if was.sound() && !was.finished {
                lemma_ending_completes(was);
            }
        }
        Ok(())
    }
}

} // verus!
