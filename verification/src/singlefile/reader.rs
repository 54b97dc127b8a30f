//! The reading end of the single-file container.

use crate::compress::{decompress_block, COMPRESS_NONE};
use crate::crc::crc32;
use crate::layout::{
    chunk_magic_bytes, end_magic_bytes, magic_bytes, Head, RecordView, CHUNK_HEADER_LEN,
    FOOTER_TRAILER_LEN, INDEX_ENTRY_LEN,
};
use crate::le::get_le;
use crate::message::{
    ChannelMeta, ChannelView, ChunkIndex, Error, MessageView, OwnedMessage, Schema, SchemaView,
    Timestamp,
};
use crate::storage::StorageReader;
use crate::text::{push_text, with_number};
use crate::wire::{is_at, read_str, read_u16, read_u32};
use crate::{compress, crc, layout, le, message, text};
use vstd::prelude::*;
use vstd::slice::{slice_subrange, slice_to_vec};

verus! {

/// The reading end of a container file, of the chunked version 2 or the plain version 1.
pub struct SingleFileReader {
    schemas: Vec<Schema>,
    channels: Vec<ChannelMeta>,
    data: Vec<u8>,
    data_offset: usize,
    version: u32,
    compressor: u32,
    chunk_index: Vec<ChunkIndex>,
    msg_count: Option<u64>,
}

/// What a [`SingleFileReader`] knows of its file.
#[verifier::ext_equal]
pub struct ReaderView {
    pub head: Head,
    pub data: Seq<u8>,
    pub index: Seq<ChunkIndex>,
    /// The number of messages that the end of the file gives.
    pub count: Option<u64>,
}

impl View for SingleFileReader {
    type V = ReaderView;

    closed spec fn view(&self) -> ReaderView {
        ReaderView {
            head: Head {
                version: self.version,
                compressor: self.compressor,
                schemas: message::views(self.schemas@),
                channels: message::views(self.channels@),
                data_offset: self.data_offset as int,
            },
            data: self.data@,
            index: self.chunk_index@,
            count: self.msg_count,
        }
    }
}

impl ReaderView {
    /// What is known of the file `d` once it is opened, or the words of the error.
    pub open spec fn of_file(d: Seq<u8>) -> Result<ReaderView, Seq<char>> {
        match layout::head_of(d) {
            Err(e) => Err(e),
            Ok(head) => Ok(
                ReaderView {
                    head,
                    data: d,
                    index: layout::index_of(d, head.version),
                    count: layout::count_of(d, head.version),
                },
            ),
        }
    }

    /// The number of messages that the trailer of a version 2 file gives.
    pub open spec fn trailer_count(self) -> Option<u64> {
        if self.head.version == 2 && layout::has_trailer(self.data) {
            Some(layout::trailer_messages(self.data) as u64)
        } else {
            None
        }
    }

    /// The messages of the chunk at `pos`.
    pub open spec fn chunk_at(self, pos: int) -> Result<Seq<MessageView>, Seq<char>> {
        layout::chunk_at(
            self.head.schemas,
            self.head.channels,
            self.head.compressor,
            self.data,
            pos,
        )
    }

    /// The messages of the chunk that entry `i` of the index names.
    pub open spec fn chunk_content(self, i: int) -> Result<Seq<MessageView>, Seq<char>> {
        if 0 <= i < self.index.len() {
            self.chunk_at(self.index[i].offset as int)
        } else {
            Err("chunk index "@ + text::decimal(i as nat) + " out of range"@)
        }
    }

    /// The walk over the chunks that needs no index.
    pub open spec fn scan(self) -> layout::Scan {
        layout::scan_from(
            self.head.schemas,
            self.head.channels,
            self.head.compressor,
            self.data,
            self.head.data_offset,
        )
    }

    /// All messages of the file.
    pub open spec fn whole_content(self) -> Result<Seq<MessageView>, Seq<char>> {
        if self.head.version == 1 {
            Ok(
                layout::plain_from(
                    self.head.schemas,
                    self.head.channels,
                    self.data,
                    self.head.data_offset,
                    match self.count {
                        Some(n) => Some(n as int),
                        None => None,
                    },
                ),
            )
        } else if self.index.len() > 0 {
            layout::indexed(
                self.head.schemas,
                self.head.channels,
                self.head.compressor,
                self.data,
                self.index,
            )
        } else {
            match self.scan().error {
                Some(e) => Err(e),
                None => Ok(self.scan().messages),
            }
        }
    }

    /// What is known once all messages were read: a walk without index leaves an index.
    pub open spec fn after_read_all(self) -> ReaderView {
        if self.head.version != 1 && self.index.len() == 0 {
            ReaderView { index: self.scan().index, ..self }
        } else {
            self
        }
    }
}

proof fn lemma_schemas_stop(d: Seq<u8>, pos: int, i: nat, n: nat)
    requires
        i <= n,
        layout::schemas_at(d, pos, i) is Err,
    ensures
        layout::schemas_at(d, pos, n) == layout::schemas_at(d, pos, i),
    decreases n,
{
    if i < n {
        lemma_schemas_stop(d, pos, i, (n - 1) as nat);
    }
}

proof fn lemma_channels_stop(d: Seq<u8>, pos: int, i: nat, n: nat)
    requires
        i <= n,
        layout::channels_at(d, pos, i) is Err,
    ensures
        layout::channels_at(d, pos, n) == layout::channels_at(d, pos, i),
    decreases n,
{
    if i < n {
        lemma_channels_stop(d, pos, i, (n - 1) as nat);
    }
}

proof fn lemma_messages_stop(
    schemas: Seq<SchemaView>,
    channels: Seq<ChannelView>,
    d: Seq<u8>,
    i: nat,
    n: nat,
)
    requires
        i <= n,
        layout::messages_in(schemas, channels, d, i) is Err,
    ensures
        layout::messages_in(schemas, channels, d, n) == layout::messages_in(
            schemas,
            channels,
            d,
            i,
        ),
    decreases n,
{
    if i < n {
        lemma_messages_stop(schemas, channels, d, i, (n - 1) as nat);
    }
}

fn read_schema(d: &[u8], pos: &mut usize) -> (r: Result<Schema, Error>)
    ensures
        match r {
            Ok(s) => layout::schema_at(d@, *old(pos) as int) == Ok::<
                (SchemaView, int),
                Seq<char>,
            >((s@, *final(pos) as int)) && *final(pos) <= d@.len(),
            Err(e) => layout::schema_at(d@, *old(pos) as int) == Err::<
                (SchemaView, int),
                Seq<char>,
            >(e@),
        },
{
    let id: u16 = read_u16(d, pos)?;
    let typename: String = read_str(d, pos)?;
    let encoding: String = read_str(d, pos)?;
    Ok(Schema { id, typename, encoding })
}

fn read_channel(d: &[u8], pos: &mut usize) -> (r: Result<ChannelMeta, Error>)
    ensures
        match r {
            Ok(s) => layout::channel_at(d@, *old(pos) as int) == Ok::<
                (ChannelView, int),
                Seq<char>,
            >((s@, *final(pos) as int)) && *final(pos) <= d@.len(),
            Err(e) => layout::channel_at(d@, *old(pos) as int) == Err::<
                (ChannelView, int),
                Seq<char>,
            >(e@),
        },
{
    let id: u16 = read_u16(d, pos)?;
    let name: String = read_str(d, pos)?;
    let schema_id: u16 = read_u16(d, pos)?;
    Ok(ChannelMeta { id, name, schema_id })
}

fn read_schemas(d: &[u8], pos: &mut usize, count: u32) -> (r: Result<Vec<Schema>, Error>)
    requires
        *old(pos) <= d@.len(),
    ensures
        match r {
            Ok(v) => layout::schemas_at(d@, *old(pos) as int, count as nat) == Ok::<
                (Seq<SchemaView>, int),
                Seq<char>,
            >((message::views(v@), *final(pos) as int)) && *final(pos) <= d@.len(),
            Err(e) => layout::schemas_at(d@, *old(pos) as int, count as nat) == Err::<
                (Seq<SchemaView>, int),
                Seq<char>,
            >(e@),
        },
{
    let ghost start = *pos as int;
    let mut v: Vec<Schema> = Vec::new();
    let mut i: u32 = 0;
    assert(message::views(v@) =~= Seq::empty());
    while i < count
        invariant
            i <= count,
            start == *old(pos) as int,
            *pos <= d@.len(),
            layout::schemas_at(d@, start, i as nat) == Ok::<(Seq<SchemaView>, int), Seq<char>>(
                (message::views(v@), *pos as int),
            ),
        decreases count - i,
    {
        let ghost was = message::views(v@);
        match read_schema(d, pos) {
            Ok(s) => {
                v.push(s);
                assert(message::views(v@) =~= was.push(s@));
            },
            Err(e) => {
                proof {
                    lemma_schemas_stop(d@, start, (i + 1) as nat, count as nat);
                }
                return Err(e);
            },
        }
        i = i + 1;
    }
    Ok(v)
}

fn read_channels(d: &[u8], pos: &mut usize, count: u32) -> (r: Result<Vec<ChannelMeta>, Error>)
    requires
        *old(pos) <= d@.len(),
    ensures
        match r {
            Ok(v) => layout::channels_at(d@, *old(pos) as int, count as nat) == Ok::<
                (Seq<ChannelView>, int),
                Seq<char>,
            >((message::views(v@), *final(pos) as int)) && *final(pos) <= d@.len(),
            Err(e) => layout::channels_at(d@, *old(pos) as int, count as nat) == Err::<
                (Seq<ChannelView>, int),
                Seq<char>,
            >(e@),
        },
{
    let ghost start = *pos as int;
    let mut v: Vec<ChannelMeta> = Vec::new();
    let mut i: u32 = 0;
    assert(message::views(v@) =~= Seq::empty());
    while i < count
        invariant
            i <= count,
            start == *old(pos) as int,
            *pos <= d@.len(),
            layout::channels_at(d@, start, i as nat) == Ok::<(Seq<ChannelView>, int), Seq<char>>(
                (message::views(v@), *pos as int),
            ),
        decreases count - i,
    {
        let ghost was = message::views(v@);
        match read_channel(d, pos) {
            Ok(s) => {
                v.push(s);
                assert(message::views(v@) =~= was.push(s@));
            },
            Err(e) => {
                proof {
                    lemma_channels_stop(d@, start, (i + 1) as nat, count as nat);
                }
                return Err(e);
            },
        }
        i = i + 1;
    }
    Ok(v)
}

/// The head of a file, read.
struct HeadParts {
    version: u32,
    compressor: u32,
    schemas: Vec<Schema>,
    channels: Vec<ChannelMeta>,
    data_offset: usize,
}

impl View for HeadParts {
    type V = Head;

    closed spec fn view(&self) -> Head {
        Head {
            version: self.version,
            compressor: self.compressor,
            schemas: message::views(self.schemas@),
            channels: message::views(self.channels@),
            data_offset: self.data_offset as int,
        }
    }
}

fn read_head(d: &[u8]) -> (r: Result<HeadParts, Error>)
    ensures
        match r {
            Ok(h) => layout::head_of(d@) == Ok::<Head, Seq<char>>(h@) && h.data_offset <= d@.len()
                && (h.version == 1 || h.version == 2),
            Err(e) => layout::head_of(d@) == Err::<Head, Seq<char>>(e@),
        },
{
    if !is_at(d, 0, &magic_bytes()) {
        return Err(Error::msg("not a doracap (.dcap) file"));
    }
    let mut pos: usize = 5;
    let version: u32 = read_u32(d, &mut pos)?;
    if version != 1 && version != 2 {
        return Err(Error(with_number("unsupported version ", version as u64)));
    }
    let _flags: u32 = read_u32(d, &mut pos)?;
    // Version 1 has no compressor field.
    let compressor: u32 = if version >= 2 {
        read_u32(d, &mut pos)?
    } else {
        COMPRESS_NONE
    };
    let schema_count: u32 = read_u32(d, &mut pos)?;
    let schemas: Vec<Schema> = read_schemas(d, &mut pos, schema_count)?;
    let channel_count: u32 = read_u32(d, &mut pos)?;
    let channels: Vec<ChannelMeta> = read_channels(d, &mut pos, channel_count)?;
    Ok(HeadParts { version, compressor, schemas, channels, data_offset: pos })
}

/// The index entry at `pos`.
fn read_entry(d: &[u8], pos: usize) -> (r: ChunkIndex)
    requires
        pos + INDEX_ENTRY_LEN <= d.len(),
    ensures
        r == layout::entry_at(d@, pos as int),
{
    proof {
        le::lemma_le_limits();
    }
    ChunkIndex {
        offset: get_le(d, pos, 8),
        start_stamp: get_le(d, pos + 8, 8),
        end_stamp: get_le(d, pos + 16, 8),
        msg_count: get_le(d, pos + 24, 4) as u32,
    }
}

/// The index of a version 2 file that ends in a trailer.
fn read_index(d: &[u8]) -> (r: Vec<ChunkIndex>)
    requires
        layout::has_trailer(d@),
        28 * layout::trailer_chunks(d@) + 32 <= d@.len(),
    ensures
        r@ == layout::index_of(d@, 2),
{
    let n: usize = d.len();
    let count: u64 = get_le(d, n - 16, 8);
    let start: usize = n - FOOTER_TRAILER_LEN - count as usize * INDEX_ENTRY_LEN;
    let mut index: Vec<ChunkIndex> = Vec::new();
    let mut i: usize = 0;
    while i < count as usize
        invariant
            i <= count,
            n == d.len(),
            count == layout::trailer_chunks(d@),
            start + 28 * count + 32 == n,
            index@ == layout::entries_at(d@, start as int, i as nat),
        decreases count - i,
    {
        let ghost was = index@;
        index.push(read_entry(d, start + i * INDEX_ENTRY_LEN));
        i = i + 1;
        assert(index@ =~= layout::entries_at(d@, start as int, i as nat));
    }
    index
}

/// Whether the index that the end of the file announces, if it announces one, has room before
/// it. A file that fails this is damaged at its end.
pub fn footer_fits(d: &[u8]) -> (r: bool)
    ensures
        r == layout::index_fits(d@),
{
    match read_head(d) {
        Err(_) => true,
        Ok(head) => {
            if head.version != 2 || d.len() < FOOTER_TRAILER_LEN {
                return true;
            }
            if !is_at(d, d.len() - FOOTER_TRAILER_LEN, &end_magic_bytes()) {
                return true;
            }
            let count: u64 = get_le(d, d.len() - 16, 8);
            count <= (d.len() - FOOTER_TRAILER_LEN) as u64 / 28
        },
    }
}

impl SingleFileReader {
    /// Opens the file whose bytes are `data`.
    pub fn open(data: Vec<u8>) -> (r: Result<Self, Error>)
        requires
            layout::index_fits(data@),
        ensures
            match r {
                Ok(reader) => ReaderView::of_file(data@) == Ok::<ReaderView, Seq<char>>(reader@),
                Err(e) => ReaderView::of_file(data@) == Err::<ReaderView, Seq<char>>(e@),
            },
    {
        let d: &[u8] = data.as_slice();
        let head: HeadParts = read_head(d)?;
        let n: usize = d.len();
        let mut chunk_index: Vec<ChunkIndex> = Vec::new();
        let mut msg_count: Option<u64> = None;
        if head.version == 2 {
            if n >= FOOTER_TRAILER_LEN && is_at(d, n - FOOTER_TRAILER_LEN, &end_magic_bytes()) {
                chunk_index = read_index(d);
                msg_count = Some(get_le(d, n - 8, 8));
            }
        } else {
            // The end of a version 1 file has no chunk count.
            if n >= 24 && is_at(d, n - 24, &end_magic_bytes()) {
                msg_count = Some(get_le(d, n - 8, 8));
            }
        }
        Ok(
            SingleFileReader {
                schemas: head.schemas,
                channels: head.channels,
                data,
                data_offset: head.data_offset,
                version: head.version,
                compressor: head.compressor,
                chunk_index,
                msg_count,
            },
        )
    }

    /// The chunk to start reading at for the time `target`: the last one that does not begin
    /// later. Where all begin later it is the first one.
    pub fn seek_chunk(&self, target: u64) -> (r: Option<usize>)
        ensures
            match r {
                None => self@.index.len() == 0,
                Some(i) => sought(self@.index, target, i as int),
            },
    {
        let mut i: usize = self.chunk_index.len();
        if i == 0 {
            return None;
        }
        i = i - 1;
        while i > 0 && self.chunk_index[i].start_stamp > target
            invariant
                i < self.chunk_index.len(),
                forall|j: int|
                    i < j < self.chunk_index.len() ==> (#[trigger] self.chunk_index@[j]).start_stamp
                        > target,
            decreases i,
        {
            i = i - 1;
        }
        Some(i)
    }

    /// Where chunk `index` stands and what it covers.
    pub fn chunk(&self, index: usize) -> (r: Option<&ChunkIndex>)
        ensures
            match r {
                None => index >= self@.index.len(),
                Some(c) => index < self@.index.len() && *c == self@.index[index as int],
            },
    {
        if index < self.chunk_index.len() {
            Some(&self.chunk_index[index])
        } else {
            None
        }
    }

    /// The number of messages that the trailer of a version 2 file gives.
    pub fn message_count(&self) -> (r: Option<u64>)
        ensures
            r == self@.trailer_count(),
    {
        let n: usize = self.data.len();
        let d: &[u8] = self.data.as_slice();
        if self.version == 2 && n >= FOOTER_TRAILER_LEN && is_at(
            d,
            n - FOOTER_TRAILER_LEN,
            &end_magic_bytes(),
        ) {
            Some(get_le(d, n - 8, 8))
        } else {
            None
        }
    }

    /// The earliest and the latest time, in nanoseconds; `None` without chunks.
    pub fn time_range(&self) -> (r: Option<(u64, u64)>)
        ensures
            match r {
                None => self@.index.len() == 0,
                Some((a, b)) => spans(self@.index, a, b),
            },
    {
        if self.chunk_index.len() == 0 {
            return None;
        }
        let mut first: u64 = self.chunk_index[0].start_stamp;
        let mut last: u64 = self.chunk_index[0].end_stamp;
        let mut i: usize = 1;
        assert(self.chunk_index@.take(1)[0] == self.chunk_index@[0]);
        while i < self.chunk_index.len()
            invariant
                1 <= i <= self.chunk_index.len(),
                spans(self.chunk_index@.take(i as int), first, last),
            decreases self.chunk_index.len() - i,
        {
            let c: ChunkIndex = self.chunk_index[i];
            let ghost before = self.chunk_index@.take(i as int);
            let ghost after = self.chunk_index@.take(i + 1);
            assert(after =~= before.push(c));
            proof {
                let a = choose|k: int|
                    0 <= k < before.len() && (#[trigger] before[k]).start_stamp == first;
                let b = choose|k: int|
                    0 <= k < before.len() && (#[trigger] before[k]).end_stamp == last;
                assert(after[a] == before[a]);
                assert(after[b] == before[b]);
                assert(after[i as int] == c);
            }
            if c.start_stamp < first {
                first = c.start_stamp;
            }
            if c.end_stamp > last {
                last = c.end_stamp;
            }
            i = i + 1;
        }
        assert(self.chunk_index@.take(i as int) =~= self.chunk_index@);
        Some((first, last))
    }
}

/// Whether `first` is the earliest time at which a chunk begins, and `last` the latest at which
/// one ends.
pub open spec fn spans(index: Seq<ChunkIndex>, first: u64, last: u64) -> bool {
    &&& forall|i: int|
        0 <= i < index.len() ==> first <= (#[trigger] index[i]).start_stamp && index[i].end_stamp
            <= last
    &&& exists|i: int| 0 <= i < index.len() && (#[trigger] index[i]).start_stamp == first
    &&& exists|i: int| 0 <= i < index.len() && (#[trigger] index[i]).end_stamp == last
}

/// Whether `i` is the chunk to start reading at for the time `target`.
pub open spec fn sought(index: Seq<ChunkIndex>, target: u64, i: int) -> bool {
    &&& 0 <= i < index.len()
    &&& i == 0 || index[i].start_stamp <= target
    &&& forall|j: int| i < j < index.len() ==> (#[trigger] index[j]).start_stamp > target
}

/// Where the chunks follow each other in time and one of them covers the time `target`, seeking
/// finds a chunk that covers it.
pub proof fn law_sought_chunk_covers_the_target(
    index: Seq<ChunkIndex>,
    target: u64,
    i: int,
    j: int,
)
    requires
        sought(index, target, i),
        forall|a: int|
            0 <= a < index.len() ==> (#[trigger] index[a]).start_stamp <= index[a].end_stamp,
        forall|a: int, b: int|
            0 <= a < b < index.len() ==> (#[trigger] index[a]).end_stamp <= (
            #[trigger] index[b]).start_stamp,
        0 <= j < index.len(),
        index[j].start_stamp <= target <= index[j].end_stamp,
    ensures
        index[i].start_stamp <= target <= index[i].end_stamp,
{
    assert(index[i].start_stamp <= index[i].end_stamp);
    if i < j {
        assert(index[j].start_stamp > target);
    } else if j < i {
        assert(index[j].end_stamp <= index[i].start_stamp);
    }
}

impl SingleFileReader {
    fn schema_by_id(&self, id: u16) -> (r: Option<Schema>)
        ensures
            match r {
                Some(s) => layout::schema_with(self@.head.schemas, id) == Some(s@),
                None => layout::schema_with(self@.head.schemas, id) is None,
            },
    {
        let mut i: usize = 0;
        while i < self.schemas.len()
            invariant
                i <= self.schemas.len(),
                layout::schema_with(self@.head.schemas.take(i as int), id) is None,
            decreases self.schemas.len() - i,
        {
            proof {
                lemma_first_schema(self@.head.schemas, i as int, id);
            }
            if self.schemas[i].id == id {
                return Some(self.schemas[i].clone());
            }
            i = i + 1;
        }
        assert(self@.head.schemas.take(i as int) =~= self@.head.schemas);
        None
    }

    fn channel_by_id(&self, id: u16) -> (r: Option<&ChannelMeta>)
        ensures
            match r {
                Some(s) => layout::channel_with(self@.head.channels, id) == Some(s@),
                None => layout::channel_with(self@.head.channels, id) is None,
            },
    {
        let mut i: usize = 0;
        while i < self.channels.len()
            invariant
                i <= self.channels.len(),
                layout::channel_with(self@.head.channels.take(i as int), id) is None,
            decreases self.channels.len() - i,
        {
            proof {
                lemma_first_channel(self@.head.channels, i as int, id);
            }
            if self.channels[i].id == id {
                return Some(&self.channels[i]);
            }
            i = i + 1;
        }
        assert(self@.head.channels.take(i as int) =~= self@.head.channels);
        None
    }

    /// The message of a record: its channel and its schema looked up.
    fn parse_record(&self, payload: &[u8], channel_id: u16, stamp: u64) -> (m: OwnedMessage)
        ensures
            m@ == layout::resolved(
                self@.head.schemas,
                self@.head.channels,
                RecordView { channel: channel_id, stamp, payload: payload@ },
            ),
    {
        let mut channel: String = String::new();
        let mut schema: Schema = Schema { id: 0, typename: String::new(), encoding: String::new() };
        if let Some(meta) = self.channel_by_id(channel_id) {
            channel = meta.name.clone();
            schema =
            match self.schema_by_id(meta.schema_id) {
                Some(schema) => schema,
                None => Schema {
                    id: meta.schema_id,
                    typename: String::new(),
                    encoding: String::new(),
                },
            };
        }
        OwnedMessage { channel, stamp: Timestamp(stamp), schema, payload: slice_to_vec(payload) }
    }

    /// The message of the record in `d` at `pos`.
    fn parse_record_at(&self, d: &[u8], pos: usize) -> (m: OwnedMessage)
        requires
            layout::record_fits(d@, pos as int),
        ensures
            m@ == layout::resolved(
                self@.head.schemas,
                self@.head.channels,
                layout::record_at(d@, pos as int),
            ),
    {
        proof {
            le::lemma_le_limits();
            assert(pos + 14 <= d.len());
        }
        let channel_id: u16 = get_le(d, pos, 2) as u16;
        let stamp: u64 = get_le(d, pos + 2, 8);
        let len: usize = get_le(d, pos + 10, 4) as usize;
        self.parse_record(slice_subrange(d, pos + 14, pos + 14 + len), channel_id, stamp)
    }

    /// The messages of the first `expected_count` records of `records`.
    pub fn parse_records(&self, records: &[u8], expected_count: u32) -> (r: Result<
        Vec<OwnedMessage>,
        Error,
    >)
        ensures
            match r {
                Ok(v) => layout::messages_in(
                    self@.head.schemas,
                    self@.head.channels,
                    records@,
                    expected_count as nat,
                ) matches Ok((ms, end)) && ms == message::views(v@) && v@.len() == expected_count,
                Err(e) => layout::messages_in(
                    self@.head.schemas,
                    self@.head.channels,
                    records@,
                    expected_count as nat,
                ) == Err::<(Seq<MessageView>, int), Seq<char>>(e@),
            },
    {
        let ghost schemas = self@.head.schemas;
        let ghost channels = self@.head.channels;
        let mut pos: usize = 0;
        let mut out: Vec<OwnedMessage> = Vec::new();
        let mut i: u32 = 0;
        assert(message::views(out@) =~= Seq::empty());
        while i < expected_count
            invariant
                i <= expected_count,
                pos <= records@.len(),
                schemas == self@.head.schemas,
                channels == self@.head.channels,
                out@.len() == i,
                layout::messages_in(schemas, channels, records@, i as nat) == Ok::<
                    (Seq<MessageView>, int),
                    Seq<char>,
                >((message::views(out@), pos as int)),
            decreases expected_count - i,
        {
            let ghost was = message::views(out@);
            match record_end(records, pos) {
                None => {
                    proof {
                        lemma_messages_stop(
                            schemas,
                            channels,
                            records@,
                            (i + 1) as nat,
                            expected_count as nat,
                        );
                    }
                    return Err(Error::msg("chunk records truncated"));
                },
                Some(end) => {
                    let m: OwnedMessage = self.parse_record_at(records, pos);
                    out.push(m);
                    assert(message::views(out@) =~= was.push(m@));
                    pos = end;
                },
            }
            i = i + 1;
        }
        Ok(out)
    }

    /// The messages of the chunk at `offset`: header checked, block decompressed, checksum
    /// checked, records parsed.
    fn read_chunk_at_offset(&self, offset: u64) -> (r: Result<Vec<OwnedMessage>, Error>)
        ensures
            same_messages(r, self@.chunk_at(offset as int)),
            r matches Ok(v) ==> v@.len() <= u32::MAX,
    {
        proof {
            reveal(layout::chunk_at);
        }
        let d: &[u8] = self.data.as_slice();
        if d.len() < CHUNK_HEADER_LEN || offset > (d.len() - CHUNK_HEADER_LEN) as u64 {
            return Err(Error::msg("chunk header out of bounds"));
        }
        let start: usize = offset as usize;
        if !is_at(d, start, &chunk_magic_bytes()) {
            return Err(Error::msg("bad chunk magic"));
        }
        proof {
            le::lemma_le_limits();
        }
        let msg_count: u32 = get_le(d, start + 18, 4) as u32;
        let uncompressed_size: usize = get_le(d, start + 38, 4) as usize;
        let compressed_size: usize = get_le(d, start + 42, 4) as usize;
        let crc: u32 = get_le(d, start + 46, 4) as u32;
        let pos: usize = start + CHUNK_HEADER_LEN;
        if compressed_size > d.len() - pos {
            return Err(Error::msg("chunk data out of bounds"));
        }
        let block: &[u8] = slice_subrange(d, pos, pos + compressed_size);
        let records: Vec<u8> = decompress_block(self.compressor, block, uncompressed_size)?;
        if crc32(records.as_slice()) != crc {
            return Err(Error::msg("chunk crc mismatch"));
        }
        self.parse_records(records.as_slice(), msg_count)
    }
}

/// `r` is the messages `model`, or fails with its words.
pub open spec fn same_messages(
    r: Result<Vec<OwnedMessage>, Error>,
    model: Result<Seq<MessageView>, Seq<char>>,
) -> bool {
    match r {
        Ok(v) => model == Ok::<Seq<MessageView>, Seq<char>>(message::views(v@)),
        Err(e) => model == Err::<Seq<MessageView>, Seq<char>>(e@),
    }
}

/// Where the record in `d` at `pos` ends, if a whole one stands there.
fn record_end(d: &[u8], pos: usize) -> (r: Option<usize>)
    ensures
        match r {
            Some(end) => layout::record_fits(d@, pos as int) && end == layout::record_end(
                d@,
                pos as int,
            ) && pos + 14 <= end <= d@.len(),
            None => !layout::record_fits(d@, pos as int),
        },
{
    proof {
        le::lemma_le_limits();
    }
    if d.len() < 14 || pos > d.len() - 14 {
        return None;
    }
    let len: u64 = get_le(d, pos + 10, 4);
    if len > (d.len() - pos - 14) as u64 {
        None
    } else {
        Some(pos + 14 + len as usize)
    }
}

pub proof fn lemma_first_schema(s: Seq<SchemaView>, i: int, id: u16)
    requires
        0 <= i < s.len(),
        layout::schema_with(s.take(i), id) is None,
    ensures
        s[i].id == id ==> layout::schema_with(s, id) == Some(s[i]),
        s[i].id != id ==> layout::schema_with(s.take(i + 1), id) is None,
{
    let t = s.take(i + 1);
    assert(t.drop_last() =~= s.take(i));
    if s[i].id == id {
        lemma_schema_stays(s, i + 1, id);
    }
}

proof fn lemma_schema_stays(s: Seq<SchemaView>, i: int, id: u16)
    requires
        0 <= i <= s.len(),
        layout::schema_with(s.take(i), id) is Some,
    ensures
        layout::schema_with(s, id) == layout::schema_with(s.take(i), id),
    decreases s.len(),
{
    if i == s.len() {
        assert(s.take(i) =~= s);
    } else {
        assert(s.drop_last().take(i) =~= s.take(i));
        lemma_schema_stays(s.drop_last(), i, id);
    }
}

proof fn lemma_first_channel(s: Seq<ChannelView>, i: int, id: u16)
    requires
        0 <= i < s.len(),
        layout::channel_with(s.take(i), id) is None,
    ensures
        s[i].id == id ==> layout::channel_with(s, id) == Some(s[i]),
        s[i].id != id ==> layout::channel_with(s.take(i + 1), id) is None,
{
    let t = s.take(i + 1);
    assert(t.drop_last() =~= s.take(i));
    if s[i].id == id {
        lemma_channel_stays(s, i + 1, id);
    }
}

proof fn lemma_channel_stays(s: Seq<ChannelView>, i: int, id: u16)
    requires
        0 <= i <= s.len(),
        layout::channel_with(s.take(i), id) is Some,
    ensures
        layout::channel_with(s, id) == layout::channel_with(s.take(i), id),
    decreases s.len(),
{
    if i == s.len() {
        assert(s.take(i) =~= s);
    } else {
        assert(s.drop_last().take(i) =~= s.take(i));
        lemma_channel_stays(s.drop_last(), i, id);
    }
}

/// Where the whole chunk in `d` at `pos` ends, if one stands there.
fn chunk_end(d: &[u8], pos: usize) -> (r: Option<usize>)
    ensures
        match r {
            Some(end) => layout::chunk_stands(d@, pos as int) && end == pos + 50
                + layout::block_len(d@, pos as int) && pos < end <= d@.len(),
            None => !layout::chunk_stands(d@, pos as int),
        },
{
    if d.len() < CHUNK_HEADER_LEN || pos > d.len() - CHUNK_HEADER_LEN {
        return None;
    }
    if !is_at(d, pos, &chunk_magic_bytes()) {
        return None;
    }
    proof {
        le::lemma_le_limits();
    }
    let len: u64 = get_le(d, pos + 42, 4);
    if len > (d.len() - pos - CHUNK_HEADER_LEN) as u64 {
        None
    } else {
        Some(pos + CHUNK_HEADER_LEN + len as usize)
    }
}

impl SingleFileReader {
    /// Walks from chunk to chunk, for a file without index, until no whole chunk stands there,
    /// and keeps the index that this gives.
    fn scan_v2_chunks(&mut self) -> (r: Result<Vec<OwnedMessage>, Error>)
        requires
            old(self)@.index.len() == 0,
        ensures
            final(self)@ == (ReaderView { index: old(self)@.scan().index, ..old(self)@ }),
            match r {
                Ok(v) => old(self)@.scan().error is None && old(self)@.scan().messages
                    == message::views(v@),
                Err(e) => old(self)@.scan().error == Some(e@),
            },
    {
        let ghost was = self@;
        let ghost whole = self@.scan();
        let mut out: Vec<OwnedMessage> = Vec::new();
        let mut pos: usize = self.data_offset;
        assert(whole.messages =~= message::views(out@) + whole.messages);
        assert(whole.index =~= self@.index + whole.index);
        loop
            invariant
                was == old(self)@,
                whole == was.scan(),
                self@ == (ReaderView { index: self@.index, ..was }),
                ({
                    let rest = layout::scan_from(
                        was.head.schemas,
                        was.head.channels,
                        was.head.compressor,
                        was.data,
                        pos as int,
                    );
                    &&& whole.messages == message::views(out@) + rest.messages
                    &&& whole.index == self@.index + rest.index
                    &&& whole.error == rest.error
                }),
            ensures
                self@ == (ReaderView { index: whole.index, ..was }),
                whole.messages == message::views(out@),
                whole.error is None,
            decreases was.data.len() - pos,
        {
            let ghost rest = layout::scan_from(
                was.head.schemas,
                was.head.channels,
                was.head.compressor,
                was.data,
                pos as int,
            );
            match chunk_end(self.data.as_slice(), pos) {
                None => {
                    assert(message::views(out@) + rest.messages =~= message::views(out@));
                    assert(self@.index + rest.index =~= self@.index);
                    break ;
                },
                Some(end) => {
                    match self.read_chunk_at_offset(pos as u64) {
                        Err(e) => {
                            assert(self@.index + rest.index =~= self@.index);
                            return Err(e);
                        },
                        Ok(chunk_msgs) => {
                            let mut chunk_msgs: Vec<OwnedMessage> = chunk_msgs;
                            let n: usize = chunk_msgs.len();
                            let entry: ChunkIndex = ChunkIndex {
                                offset: pos as u64,
                                start_stamp: if n > 0 {
                                    chunk_msgs[0].stamp.0
                                } else {
                                    0
                                },
                                end_stamp: if n > 0 {
                                    chunk_msgs[n - 1].stamp.0
                                } else {
                                    0
                                },
                                msg_count: n as u32,
                            };
                            let ghost ms = message::views(chunk_msgs@);
                            let ghost was_out = message::views(out@);
                            let ghost was_index = self@.index;
                            assert(entry == layout::entry_for(pos as int, ms));
                            self.chunk_index.push(entry);
                            out.append(&mut chunk_msgs);
                            assert(message::views(out@) =~= was_out + ms);
                            pos = end;
                            proof {
                                let after = layout::scan_from(
                                    was.head.schemas,
                                    was.head.channels,
                                    was.head.compressor,
                                    was.data,
                                    pos as int,
                                );
                                assert(was_out + rest.messages =~= message::views(out@)
                                    + after.messages);
                                assert(was_index + rest.index =~= self@.index + after.index);
                            }
                        },
                    }
                },
            }
        }
        Ok(out)
    }

    /// All messages of a version 1 file: record after record.
    fn read_v1_all(&self) -> (r: Vec<OwnedMessage>)
        requires
            self@.head.version == 1,
        ensures
            self@.whole_content() == Ok::<Seq<MessageView>, Seq<char>>(message::views(r@)),
    {
        let d: &[u8] = self.data.as_slice();
        let ghost schemas = self@.head.schemas;
        let ghost channels = self@.head.channels;
        let mut out: Vec<OwnedMessage> = Vec::new();
        let mut pos: usize = self.data_offset;
        let mut left: Option<u64> = self.msg_count;
        proof {
            let whole = self@.whole_content()->Ok_0;
            assert(whole =~= message::views(out@) + whole);
        }
        loop
            invariant
                d@ == self@.data,
                schemas == self@.head.schemas,
                channels == self@.head.channels,
                self@.whole_content() == Ok::<Seq<MessageView>, Seq<char>>(
                    message::views(out@) + layout::plain_from(
                        schemas,
                        channels,
                        d@,
                        pos as int,
                        left_over(left),
                    ),
                ),
            decreases d@.len() - pos,
        {
            let ghost rest = layout::plain_from(
                schemas,
                channels,
                d@,
                pos as int,
                left_over(left),
            );
            let done: bool = match left {
                Some(n) => n == 0,
                None => false,
            };
            if done || is_at(d, pos, &end_magic_bytes()) {
                assert(message::views(out@) + Seq::<MessageView>::empty() =~= message::views(out@));
                return out;
            }
            match record_end(d, pos) {
                None => {
                    assert(message::views(out@) + Seq::<MessageView>::empty() =~= message::views(
                        out@,
                    ));
                    return out;
                },
                Some(end) => {
                    let m: OwnedMessage = self.parse_record_at(d, pos);
                    let ghost was = message::views(out@);
                    out.push(m);
                    assert(message::views(out@) =~= was.push(m@));
                    pos = end;
                    left =
                    match left {
                        Some(n) => Some(n - 1),
                        None => None,
                    };
                    proof {
                        let after = layout::plain_from(
                            schemas,
                            channels,
                            d@,
                            pos as int,
                            left_over(left),
                        );
                        assert(was + rest =~= message::views(out@) + after);
                    }
                },
            }
        }
    }

    /// The messages of all chunks of the index, one chunk after the other.
    fn read_indexed(&self) -> (r: Result<Vec<OwnedMessage>, Error>)
        ensures
            same_messages(
                r,
                layout::indexed(
                    self@.head.schemas,
                    self@.head.channels,
                    self@.head.compressor,
                    self@.data,
                    self@.index,
                ),
            ),
    {
        let mut out: Vec<OwnedMessage> = Vec::new();
        let mut i: usize = 0;
        assert(self@.index.take(0).len() == 0);
        assert(message::views(out@) =~= Seq::empty());
        while i < self.chunk_index.len()
            invariant
                i <= self.chunk_index.len(),
                layout::indexed(
                    self@.head.schemas,
                    self@.head.channels,
                    self@.head.compressor,
                    self@.data,
                    self@.index.take(i as int),
                ) == Ok::<Seq<MessageView>, Seq<char>>(message::views(out@)),
            decreases self.chunk_index.len() - i,
        {
            proof {
                assert(self@.index.take(i + 1).drop_last() =~= self@.index.take(i as int));
                lemma_indexed_stops(self@, i + 1);
            }
            let mut ms: Vec<OwnedMessage> = self.read_chunk_at_offset(self.chunk_index[i].offset)?;
            let ghost was = message::views(out@);
            let ghost more = message::views(ms@);
            out.append(&mut ms);
            assert(message::views(out@) =~= was + more);
            i = i + 1;
        }
        assert(self@.index.take(i as int) =~= self@.index);
        Ok(out)
    }
}

spec fn left_over(left: Option<u64>) -> Option<int> {
    match left {
        Some(n) => Some(n as int),
        None => None,
    }
}

proof fn lemma_indexed_stops(r: ReaderView, i: int)
    requires
        0 <= i <= r.index.len(),
    ensures
        layout::indexed(
            r.head.schemas,
            r.head.channels,
            r.head.compressor,
            r.data,
            r.index.take(i),
        ) matches Err(e) ==> layout::indexed(
            r.head.schemas,
            r.head.channels,
            r.head.compressor,
            r.data,
            r.index,
        ) == Err::<Seq<MessageView>, Seq<char>>(e),
    decreases r.index.len(),
{
    if i == r.index.len() {
        assert(r.index.take(i) =~= r.index);
    } else {
        let shorter = ReaderView { index: r.index.drop_last(), ..r };
        assert(shorter.index.take(i) =~= r.index.take(i));
        lemma_indexed_stops(shorter, i);
    }
}

impl StorageReader for SingleFileReader {
    open spec fn schema_list(&self) -> Seq<SchemaView> {
        self@.head.schemas
    }

    open spec fn channel_list(&self) -> Seq<ChannelView> {
        self@.head.channels
    }

    open spec fn chunk_list(&self) -> Seq<ChunkIndex> {
        self@.index
    }

    open spec fn chunk_content(&self, index: int) -> Result<Seq<MessageView>, Seq<char>> {
        self@.chunk_content(index)
    }

    open spec fn whole_content(&self) -> Result<Seq<MessageView>, Seq<char>> {
        self@.whole_content()
    }

    fn schemas(&self) -> (r: &[Schema]) {
        self.schemas.as_slice()
    }

    fn channels(&self) -> (r: &[ChannelMeta]) {
        self.channels.as_slice()
    }

    fn chunk_index(&self) -> (r: &[ChunkIndex]) {
        self.chunk_index.as_slice()
    }

    fn read_chunk_at(&mut self, index: usize) -> (r: Result<Vec<OwnedMessage>, Error>)
        ensures
            final(self)@ == old(self)@,
    {
        if index >= self.chunk_index.len() {
            let mut words: String = with_number("chunk index ", index as u64);
            push_text(&mut words, " out of range");
            return Err(Error(words));
        }
        self.read_chunk_at_offset(self.chunk_index[index].offset)
    }

    fn read_all(&mut self) -> (r: Result<Vec<OwnedMessage>, Error>)
        ensures
            final(self)@ == old(self)@.after_read_all(),
    {
        if self.version == 1 {
            Ok(self.read_v1_all())
        } else if self.chunk_index.len() > 0 {
            self.read_indexed()
        } else {
            self.scan_v2_chunks()
        }
    }
}

/// A file that opens begins with the mark and one of the versions 1 and 2, and says so; one that
/// does not begin with the mark is refused as no recording.
pub proof fn law_files_that_open_have_a_head(d: Seq<u8>)
    ensures
        match ReaderView::of_file(d) {
            Ok(r) => {
                &&& d.len() >= 13
                // "#DCAP"
                &&& d.take(5) == seq![0x23u8, 0x44, 0x43, 0x41, 0x50]
                &&& r.head.version == 1 || r.head.version == 2
                &&& le::le_value(d.subrange(5, 9)) == r.head.version
                &&& r.head.version == 2 ==> le::le_value(d.subrange(13, 17)) == r.head.compressor
                &&& r.head.version == 1 ==> r.head.compressor == 0
                &&& r.data == d
            },
            Err(e) => d.len() < 5 || d.take(5) != seq![0x23u8, 0x44, 0x43, 0x41, 0x50] ==> e
                == "not a doracap (.dcap) file"@,
        },
{
    assert(layout::file_magic() =~= seq![0x23u8, 0x44, 0x43, 0x41, 0x50]);
    if d.len() >= 5 {
        assert(d.subrange(0, 5) =~= d.take(5));
    }
    if d.len() >= 17 {
        le::lemma_le_limits();
        le::lemma_le_value_bound(d.subrange(13, 17));
    }
}

/// A chunk that is read has its mark and its whole block, its records have the sum that its header
/// gives, and it holds as many messages as that says.
pub proof fn law_chunks_that_are_read_agree_with_their_headers(r: ReaderView, pos: int)
    requires
        0 <= pos,
        r.chunk_at(pos) is Ok,
    ensures
        ({
            let d = r.data;
            let n = le::le_value(d.subrange(pos + 42, pos + 46)) as int;
            &&& pos + 50 + n <= d.len()
            // "DCAP_CHUNK"
            &&& d.subrange(pos, pos + 10) == seq![
                0x44u8, 0x43, 0x41, 0x50, 0x5f, 0x43, 0x48, 0x55, 0x4e, 0x4b,
            ]
            &&& r.chunk_at(pos)->Ok_0.len() == le::le_value(d.subrange(pos + 18, pos + 22))
            &&& compress::unpacked(
                r.head.compressor,
                d.subrange(pos + 50, pos + 50 + n),
                le::le_value(d.subrange(pos + 38, pos + 42)),
            ) matches Ok(raw) && crc::crc32_of(raw) == le::le_value(d.subrange(pos + 46, pos + 50))
        }),
{
    reveal(layout::chunk_at);
    let d = r.data;
    let n = le::le_value(d.subrange(pos + 42, pos + 46)) as int;
    let raw = compress::unpacked(
        r.head.compressor,
        d.subrange(pos + 50, pos + 50 + n),
        le::le_value(d.subrange(pos + 38, pos + 42)),
    )->Ok_0;
    lemma_messages_count(
        r.head.schemas,
        r.head.channels,
        raw,
        le::le_value(d.subrange(pos + 18, pos + 22)),
    );
}

proof fn lemma_messages_count(
    schemas: Seq<SchemaView>,
    channels: Seq<ChannelView>,
    d: Seq<u8>,
    count: nat,
)
    ensures
        layout::messages_in(schemas, channels, d, count) matches Ok((ms, end)) ==> ms.len()
            == count,
    decreases count,
{
    if count > 0 {
        lemma_messages_count(schemas, channels, d, (count - 1) as nat);
    }
}

/// A file of version 2 with an index is read by it: the messages of its chunks, one behind the
/// other; where a chunk cannot be read, its words are told, of the first one that cannot.
pub proof fn law_indexed_files_are_read_chunk_by_chunk(r: ReaderView, k: int)
    requires
        r.head.version == 2,
        0 <= k < r.index.len(),
        forall|i: int| 0 <= i < k ==> #[trigger] r.chunk_content(i) is Ok,
    ensures
        r.chunk_content(k) is Err ==> r.whole_content() == r.chunk_content(k),
        k == r.index.len() - 1 && r.chunk_content(k) is Ok ==> r.whole_content() == Ok::<
            Seq<MessageView>,
            Seq<char>,
        >(joined_chunks(r, r.index.len() as int)),
{
    lemma_read_so_far(r, k);
    assert(r.index.take(k + 1).drop_last() =~= r.index.take(k));
    assert(r.index.take(r.index.len() as int) =~= r.index);
    if r.chunk_content(k) is Err {
        lemma_indexed_fails(r, k + 1, r.index.len() as int);
    }
}

/// The messages of the first `n` chunks, one chunk behind the other.
pub open spec fn joined_chunks(r: ReaderView, n: int) -> Seq<MessageView>
    decreases n,
{
    if n <= 0 {
        Seq::empty()
    } else {
        joined_chunks(r, n - 1) + r.chunk_content(n - 1)->Ok_0
    }
}

proof fn lemma_read_so_far(r: ReaderView, k: int)
    requires
        0 <= k <= r.index.len(),
        forall|i: int| 0 <= i < k ==> #[trigger] r.chunk_content(i) is Ok,
    ensures
        layout::indexed(
            r.head.schemas,
            r.head.channels,
            r.head.compressor,
            r.data,
            r.index.take(k),
        ) == Ok::<Seq<MessageView>, Seq<char>>(joined_chunks(r, k)),
    decreases k,
{
    if k > 0 {
        lemma_read_so_far(r, k - 1);
        assert(r.index.take(k).drop_last() =~= r.index.take(k - 1));
        assert(r.chunk_content(k - 1) is Ok);
    }
}

proof fn lemma_indexed_fails(r: ReaderView, k: int, n: int)
    requires
        0 <= k <= n <= r.index.len(),
        layout::indexed(
            r.head.schemas,
            r.head.channels,
            r.head.compressor,
            r.data,
            r.index.take(k),
        ) is Err,
    ensures
        layout::indexed(
            r.head.schemas,
            r.head.channels,
            r.head.compressor,
            r.data,
            r.index.take(n),
        ) == layout::indexed(
            r.head.schemas,
            r.head.channels,
            r.head.compressor,
            r.data,
            r.index.take(k),
        ),
    decreases n - k,
{
    if k < n {
        lemma_indexed_fails(r, k, n - 1);
        assert(r.index.take(n).drop_last() =~= r.index.take(n - 1));
    }
}

/// A file of another version is refused, and the version is told.
pub proof fn law_other_versions_are_refused(d: Seq<u8>)
    requires
        d.len() >= 9,
        d.take(5) == seq![0x23u8, 0x44, 0x43, 0x41, 0x50],
        le::le_value(d.subrange(5, 9)) != 1,
        le::le_value(d.subrange(5, 9)) != 2,
    ensures
        ReaderView::of_file(d) == Err::<ReaderView, Seq<char>>(
            "unsupported version "@ + text::decimal(le::le_value(d.subrange(5, 9))),
        ),
{
    assert(layout::file_magic() =~= seq![0x23u8, 0x44, 0x43, 0x41, 0x50]);
    assert(d.subrange(0, 5) =~= d.take(5));
}

/// A chunk that cannot be read says why: its header is not whole, its mark is missing, its block is
/// not whole, or its sum is another one.
pub proof fn law_unreadable_chunks_say_why(r: ReaderView, pos: int)
    requires
        0 <= pos,
    ensures
        ({
            let d = r.data;
            let n = le::le_value(d.subrange(pos + 42, pos + 46)) as int;
            // "DCAP_CHUNK"
            let marked = d.subrange(pos, pos + 10) == seq![
                0x44u8, 0x43, 0x41, 0x50, 0x5f, 0x43, 0x48, 0x55, 0x4e, 0x4b,
            ];
            let told = |words: Seq<char>|
                r.chunk_at(pos) == Err::<Seq<MessageView>, Seq<char>>(words);
            &&& pos + 50 > d.len() ==> told("chunk header out of bounds"@)
            &&& pos + 50 <= d.len() && !marked ==> told("bad chunk magic"@)
            &&& pos + 50 <= d.len() && marked && pos + 50 + n > d.len() ==> told(
                "chunk data out of bounds"@,
            )
            &&& pos + 50 <= d.len() && marked && pos + 50 + n <= d.len() ==> (
            match compress::unpacked(
                r.head.compressor,
                d.subrange(pos + 50, pos + 50 + n),
                le::le_value(d.subrange(pos + 38, pos + 42)),
            ) {
                Err(e) => told(e),
                Ok(raw) => crc::crc32_of(raw) != le::le_value(d.subrange(pos + 46, pos + 50))
                    ==> told("chunk crc mismatch"@),
            })
        }),
{
    reveal(layout::chunk_at);
    assert(layout::chunk_magic() =~= seq![
        0x44u8, 0x43, 0x41, 0x50, 0x5f, 0x43, 0x48, 0x55, 0x4e, 0x4b,
    ]);
}

/// A chunk that the index does not name cannot be read, and its number is told; one that it names
/// is read from the place that it gives.
pub proof fn law_chunks_are_read_from_their_places(r: ReaderView, i: int)
    requires
        0 <= i,
    ensures
        i < r.index.len() ==> r.chunk_content(i) == r.chunk_at(r.index[i].offset as int),
        i >= r.index.len() ==> r.chunk_content(i) == Err::<Seq<MessageView>, Seq<char>>(
            "chunk index "@ + text::decimal(i as nat) + " out of range"@,
        ),
{
}

} // verus!
