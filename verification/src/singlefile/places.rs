//! Where the parts of a finished file stand, byte by byte.

use crate::layout::RecordView;
use crate::message::{ChannelView, ChunkIndex, SchemaView};
use crate::msgs::places;
use crate::msgs::places::{number_at, text_stands};
use crate::singlefile::writer::{ClosedChunk, WriterView};
use crate::singlefile::{laws, writer};
use crate::{crc, layout, le, wire};
use vstd::prelude::*;
use vstd::utf8;

verus! {

/// The number of bytes that a text takes: its length in four bytes, then its UTF-8 form.
pub open spec fn text_len(s: Seq<char>) -> nat {
    4 + utf8::encode_utf8(s).len()
}

/// The number of bytes that a table of schemas takes.
pub open spec fn schemas_len(s: Seq<SchemaView>) -> nat
    decreases s.len(),
{
    if s.len() == 0 {
        0
    } else {
        schemas_len(s.drop_last()) + 2 + text_len(s.last().typename) + text_len(s.last().encoding)
    }
}

/// The number of bytes that a table of channels takes.
pub open spec fn channels_len(s: Seq<ChannelView>) -> nat
    decreases s.len(),
{
    if s.len() == 0 {
        0
    } else {
        channels_len(s.drop_last()) + 2 + text_len(s.last().name) + 2
    }
}

/// Whether a schema stands in `d` at `pos`: its id, its type and its encoding.
pub open spec fn schema_stands(d: Seq<u8>, pos: int, s: SchemaView) -> bool {
    &&& number_at(d, pos, 2) == s.id
    &&& text_stands(d, pos + 2, s.typename)
    &&& text_stands(d, pos + 2 + text_len(s.typename), s.encoding)
}

/// Whether a channel stands in `d` at `pos`: its id, its name and the id of its schema.
pub open spec fn channel_stands(d: Seq<u8>, pos: int, c: ChannelView) -> bool {
    &&& number_at(d, pos, 2) == c.id
    &&& text_stands(d, pos + 2, c.name)
    &&& number_at(d, pos + 2 + text_len(c.name), 2) == c.schema_id
}

/// The number of messages in chunks.
pub open spec fn messages_of(log: Seq<ClosedChunk>) -> nat
    decreases log.len(),
{
    if log.len() == 0 {
        0
    } else {
        messages_of(log.drop_last()) + log.last().records.len()
    }
}

/// The number of bytes that chunks take: fifty for the header of each, and its block.
pub open spec fn chunks_len(log: Seq<ClosedChunk>) -> nat
    decreases log.len(),
{
    if log.len() == 0 {
        0
    } else {
        chunks_len(log.drop_last()) + 50 + log.last().block.len()
    }
}

/// The number of bytes that records take: fourteen for each, and its payload.
pub open spec fn records_len(rs: Seq<RecordView>) -> nat
    decreases rs.len(),
{
    if rs.len() == 0 {
        0
    } else {
        records_len(rs.drop_last()) + 14 + rs.last().payload.len()
    }
}

/// Whether a chunk stands in `d` at `pos`: its header, with the number of the messages before it,
/// and its block.
pub open spec fn chunk_in_place(d: Seq<u8>, pos: int, before: nat, c: ClosedChunk) -> bool {
    let raw = layout::records_bytes(c.records);
    &&& 0 <= pos && pos + 50 + c.block.len() <= d.len()
    // "DCAP_CHUNK"
    &&& d.subrange(pos, pos + 10) == seq![
        0x44u8, 0x43, 0x41, 0x50, 0x5f, 0x43, 0x48, 0x55, 0x4e, 0x4b,
    ]
    &&& number_at(d, pos + 10, 8) == before % 0x1_0000_0000_0000_0000
    &&& number_at(d, pos + 18, 4) == c.records.len()
    &&& number_at(d, pos + 22, 8) == c.records.first().stamp
    &&& number_at(d, pos + 30, 8) == c.records.last().stamp
    &&& number_at(d, pos + 38, 4) == raw.len()
    &&& number_at(d, pos + 42, 4) == c.block.len()
    &&& number_at(d, pos + 46, 4) == crc::crc32_of(raw)
    &&& d.subrange(pos + 50, pos + 50 + c.block.len()) == c.block
}

/// Whether the entry of a chunk that stands at `offset` stands in `d` at `pos`.
pub open spec fn entry_stands(d: Seq<u8>, pos: int, offset: int, c: ClosedChunk) -> bool {
    &&& number_at(d, pos, 8) == offset
    &&& number_at(d, pos + 8, 8) == c.records.first().stamp
    &&& number_at(d, pos + 16, 8) == c.records.last().stamp
    &&& number_at(d, pos + 24, 4) == c.records.len()
}

proof fn lemma_schemas_stand(d: Seq<u8>, pos: int, s: Seq<SchemaView>)
    requires
        wire::stands_at(d, pos, layout::schemas_bytes(s)),
        forall|i: int|
            0 <= i < s.len() ==> wire::text_fits((#[trigger] s[i]).typename) && wire::text_fits(
                s[i].encoding,
            ),
    ensures
        layout::schemas_bytes(s).len() == schemas_len(s),
        forall|i: int|
            0 <= i < s.len() ==> schema_stands(d, pos + schemas_len(s.take(i)), #[trigger] s[i]),
    decreases s.len(),
{
    if s.len() > 0 {
        let front = s.drop_last();
        let x = s.last();
        let a = le::le_bytes(x.id as nat, 2);
        let b = wire::text_bytes(x.typename);
        let c = wire::text_bytes(x.encoding);
        assert(s[s.len() - 1] == x);
        assert forall|i: int| 0 <= i < front.len() implies wire::text_fits(
            (#[trigger] front[i]).typename,
        ) && wire::text_fits(front[i].encoding) by {
            assert(front[i] == s[i]);
        }
        wire::lemma_two_parts(d, pos, layout::schemas_bytes(front), layout::schema_bytes(x));
        lemma_schemas_stand(d, pos, front);
        let p = pos + schemas_len(front);
        le::lemma_le_limits();
        wire::lemma_two_parts(d, p, a + b, c);
        wire::lemma_two_parts(d, p, a, b);
        places::lemma_number_stands(d, p, x.id as nat, 2);
        places::lemma_text_stands(d, p + 2, x.typename);
        places::lemma_text_stands(d, p + 2 + b.len(), x.encoding);
        assert forall|i: int| 0 <= i < s.len() implies schema_stands(
            d,
            pos + schemas_len(s.take(i)),
            #[trigger] s[i],
        ) by {
            if i < front.len() {
                assert(front[i] == s[i]);
                assert(front.take(i) =~= s.take(i));
            } else {
                assert(s.take(i) =~= front);
            }
        }
    }
}

proof fn lemma_channels_stand(d: Seq<u8>, pos: int, s: Seq<ChannelView>)
    requires
        wire::stands_at(d, pos, layout::channels_bytes(s)),
        forall|i: int| 0 <= i < s.len() ==> wire::text_fits((#[trigger] s[i]).name),
    ensures
        layout::channels_bytes(s).len() == channels_len(s),
        forall|i: int|
            0 <= i < s.len() ==> channel_stands(d, pos + channels_len(s.take(i)), #[trigger] s[i]),
    decreases s.len(),
{
    if s.len() > 0 {
        let front = s.drop_last();
        let x = s.last();
        let a = le::le_bytes(x.id as nat, 2);
        let b = wire::text_bytes(x.name);
        let c = le::le_bytes(x.schema_id as nat, 2);
        assert(s[s.len() - 1] == x);
        assert forall|i: int| 0 <= i < front.len() implies wire::text_fits(
            (#[trigger] front[i]).name,
        ) by {
            assert(front[i] == s[i]);
        }
        wire::lemma_two_parts(d, pos, layout::channels_bytes(front), layout::channel_bytes(x));
        lemma_channels_stand(d, pos, front);
        let p = pos + channels_len(front);
        le::lemma_le_limits();
        wire::lemma_two_parts(d, p, a + b, c);
        wire::lemma_two_parts(d, p, a, b);
        places::lemma_number_stands(d, p, x.id as nat, 2);
        places::lemma_text_stands(d, p + 2, x.name);
        places::lemma_number_stands(d, p + 2 + b.len(), x.schema_id as nat, 2);
        assert forall|i: int| 0 <= i < s.len() implies channel_stands(
            d,
            pos + channels_len(s.take(i)),
            #[trigger] s[i],
        ) by {
            if i < front.len() {
                assert(front[i] == s[i]);
                assert(front.take(i) =~= s.take(i));
            } else {
                assert(s.take(i) =~= front);
            }
        }
    }
}

/// Whether a head stands at the beginning of `d`: the mark, the version 2, no flags, the
/// compressor, and the two tables.
pub open spec fn head_stands(
    d: Seq<u8>,
    compressor: u32,
    schemas: Seq<SchemaView>,
    channels: Seq<ChannelView>,
) -> bool {
    let p = 21 + schemas_len(schemas) as int;
    &&& p + 4 + channels_len(channels) <= d.len()
    // "#DCAP"
    &&& d.subrange(0, 5) == seq![0x23u8, 0x44, 0x43, 0x41, 0x50]
    &&& number_at(d, 5, 4) == 2
    &&& number_at(d, 9, 4) == 0
    &&& number_at(d, 13, 4) == compressor
    &&& number_at(d, 17, 4) == schemas.len()
    &&& forall|i: int|
        0 <= i < schemas.len() ==> schema_stands(
            d,
            21 + schemas_len(schemas.take(i)) as int,
            #[trigger] schemas[i],
        )
    &&& number_at(d, p, 4) == channels.len()
    &&& forall|i: int|
        0 <= i < channels.len() ==> channel_stands(
            d,
            p + 4 + channels_len(channels.take(i)),
            #[trigger] channels[i],
        )
}

proof fn lemma_head_stands(
    d: Seq<u8>,
    compressor: u32,
    schemas: Seq<SchemaView>,
    channels: Seq<ChannelView>,
)
    requires
        laws::tables_fit(schemas, channels),
        wire::stands_at(d, 0, layout::head_bytes(compressor, schemas, channels)),
    ensures
        head_stands(d, compressor, schemas, channels),
        layout::head_bytes(compressor, schemas, channels).len() == 25 + schemas_len(schemas)
            + channels_len(channels),
{
    reveal(layout::head_bytes);
    let m = layout::file_magic();
    let v = le::le_bytes(layout::VERSION as nat, 4);
    let f = le::le_bytes(layout::FLAGS as nat, 4);
    let z = le::le_bytes(compressor as nat, 4);
    let n = le::le_bytes(schemas.len(), 4);
    let s = layout::schemas_bytes(schemas);
    let k = le::le_bytes(channels.len(), 4);
    let c = layout::channels_bytes(channels);
    le::lemma_le_limits();
    le::lemma_le_bytes_len(layout::VERSION as nat, 4);
    le::lemma_le_bytes_len(layout::FLAGS as nat, 4);
    le::lemma_le_bytes_len(compressor as nat, 4);
    le::lemma_le_bytes_len(schemas.len(), 4);
    le::lemma_le_bytes_len(channels.len(), 4);
    wire::lemma_two_parts(d, 0, m + v + f + z + n + s + k, c);
    wire::lemma_two_parts(d, 0, m + v + f + z + n + s, k);
    wire::lemma_two_parts(d, 0, m + v + f + z + n, s);
    wire::lemma_two_parts(d, 0, m + v + f + z, n);
    wire::lemma_two_parts(d, 0, m + v + f, z);
    wire::lemma_two_parts(d, 0, m + v, f);
    wire::lemma_two_parts(d, 0, m, v);
    places::lemma_number_stands(d, 5, layout::VERSION as nat, 4);
    places::lemma_number_stands(d, 9, layout::FLAGS as nat, 4);
    places::lemma_number_stands(d, 13, compressor as nat, 4);
    places::lemma_number_stands(d, 17, schemas.len(), 4);
    lemma_schemas_stand(d, 21, schemas);
    places::lemma_number_stands(d, 21 + s.len() as int, channels.len(), 4);
    lemma_channels_stand(d, 25 + s.len() as int, channels);
}

proof fn lemma_chunk_in_place(d: Seq<u8>, pos: int, before: Seq<ClosedChunk>, c: ClosedChunk)
    requires
        wire::stands_at(d, pos, writer::chunk_bytes(before, c)),
        laws::log_fits(before),
        laws::chunk_fits(c),
    ensures
        chunk_in_place(d, pos, messages_of(before), c),
        writer::chunk_bytes(before, c).len() == 50 + c.block.len(),
{
    reveal(layout::chunk_header_bytes);
    let rs = c.records;
    let ordinal = writer::tally(before);
    let header = layout::chunk_header_bytes(ordinal, rs, c.block);
    let raw = layout::records_bytes(rs);
    laws::lemma_records_len(rs);
    laws::lemma_tally(before);
    lemma_messages_of(before);
    laws::lemma_header_len(ordinal, rs, c.block);
    wire::lemma_two_parts(d, pos, header, c.block);
    let m = layout::chunk_magic();
    let o = le::le_bytes(ordinal as nat, 8);
    let n = le::le_bytes(rs.len(), 4);
    let a = le::le_bytes(rs.first().stamp as nat, 8);
    let b = le::le_bytes(rs.last().stamp as nat, 8);
    let u = le::le_bytes(raw.len(), 4);
    let z = le::le_bytes(c.block.len(), 4);
    let k = le::le_bytes(crc::crc32_of(raw) as nat, 4);
    le::lemma_le_limits();
    le::lemma_le_bytes_len(ordinal as nat, 8);
    le::lemma_le_bytes_len(rs.len(), 4);
    le::lemma_le_bytes_len(rs.first().stamp as nat, 8);
    le::lemma_le_bytes_len(rs.last().stamp as nat, 8);
    le::lemma_le_bytes_len(raw.len(), 4);
    le::lemma_le_bytes_len(c.block.len(), 4);
    wire::lemma_two_parts(d, pos, m + o + n + a + b + u + z, k);
    wire::lemma_two_parts(d, pos, m + o + n + a + b + u, z);
    wire::lemma_two_parts(d, pos, m + o + n + a + b, u);
    wire::lemma_two_parts(d, pos, m + o + n + a, b);
    wire::lemma_two_parts(d, pos, m + o + n, a);
    wire::lemma_two_parts(d, pos, m + o, n);
    wire::lemma_two_parts(d, pos, m, o);
    places::lemma_number_stands(d, pos + 10, ordinal as nat, 8);
    places::lemma_number_stands(d, pos + 18, rs.len(), 4);
    places::lemma_number_stands(d, pos + 22, rs.first().stamp as nat, 8);
    places::lemma_number_stands(d, pos + 30, rs.last().stamp as nat, 8);
    places::lemma_number_stands(d, pos + 38, raw.len(), 4);
    places::lemma_number_stands(d, pos + 42, c.block.len(), 4);
    places::lemma_number_stands(d, pos + 46, crc::crc32_of(raw) as nat, 4);
}

proof fn lemma_messages_of(log: Seq<ClosedChunk>)
    ensures
        messages_of(log) == writer::log_records(log).len(),
    decreases log.len(),
{
    if log.len() > 0 {
        lemma_messages_of(log.drop_last());
    }
}

proof fn lemma_chunks_len(log: Seq<ClosedChunk>)
    ensures
        chunks_len(log) == writer::log_bytes(log).len(),
    decreases log.len(),
{
    if log.len() > 0 {
        let front = log.drop_last();
        lemma_chunks_len(front);
        laws::lemma_header_len(writer::tally(front), log.last().records, log.last().block);
    }
}

/// A finished file begins with its head: the mark, the version 2, no flags, the compressor, the
/// schemas and the channels.
pub proof fn law_finished_file_begins_with_its_head(w: WriterView)
    requires
        w.complete(),
        laws::file_fits(w),
    ensures
        head_stands(w.file(), w.compressor, w.head_schemas, w.head_channels),
{
    lemma_file_parts(w);
    lemma_head_stands(w.file(), w.compressor, w.head_schemas, w.head_channels);
}

/// The head, the chunks and the end of a finished file follow each other.
proof fn lemma_file_parts(w: WriterView)
    requires
        w.complete(),
        laws::file_fits(w),
    ensures
        ({
            let d = w.file();
            let p = 25 + schemas_len(w.head_schemas) + channels_len(w.head_channels) as int;
            let e = p + chunks_len(w.log);
            let end = layout::footer_bytes(w.index, w.data_offset, w.message_count);
            &&& wire::stands_at(d, 0, w.head())
            &&& w.head().len() == p
            &&& wire::stands_at(d, p, writer::log_bytes(w.log))
            &&& wire::stands_at(d, e, end)
            &&& d.len() == e + end.len()
        }),
{
    let d = w.file();
    let head = w.head();
    let body = writer::log_bytes(w.log);
    let end = layout::footer_bytes(w.index, w.data_offset, w.message_count);
    assert(d =~= head + (body + end));
    assert(d.subrange(0, d.len() as int) =~= head + (body + end));
    wire::lemma_two_parts(d, 0, head, body + end);
    wire::lemma_two_parts(d, head.len() as int, body, end);
    lemma_head_stands(d, w.compressor, w.head_schemas, w.head_channels);
    lemma_chunks_len(w.log);
}

/// Behind the head of a finished file its chunks stand, one behind the other.
pub proof fn law_chunks_stand_behind_the_head(w: WriterView, i: int)
    requires
        w.complete(),
        laws::file_fits(w),
        0 <= i < w.log.len(),
    ensures
        chunk_in_place(
            w.file(),
            25 + schemas_len(w.head_schemas) + channels_len(w.head_channels) + chunks_len(
                w.log.take(i),
            ) as int,
            messages_of(w.log.take(i)),
            w.log[i],
        ),
{
    let d = w.file();
    let front = w.log.take(i);
    lemma_file_parts(w);
    lemma_chunks_len(front);
    laws::lemma_chunk_stands(w.log, i);
    laws::lemma_inside(
        d,
        w.head().len() as int,
        writer::log_bytes(w.log),
        laws::chunk_start(w.log, i),
        writer::chunk_bytes(front, w.log[i]),
    );
    assert forall|k: int| 0 <= k < front.len() implies laws::chunk_fits(#[trigger] front[k]) by {
        assert(laws::chunk_fits(w.log[k]));
    }
    assert(laws::chunk_fits(w.log[i]));
    lemma_chunk_in_place(
        d,
        w.head().len() + laws::chunk_start(w.log, i),
        front,
        w.log[i],
    );
}

/// In the bytes of a chunk its records stand, one behind the other: the channel, the time, the
/// length of the payload and the payload.
pub proof fn law_records_stand_in_their_chunk(rs: Seq<RecordView>, i: int)
    requires
        0 <= i < rs.len(),
        records_len(rs) < 0x1_0000_0000,
    ensures
        ({
            let d = layout::records_bytes(rs);
            let p = records_len(rs.take(i)) as int;
            let n = rs[i].payload.len();
            &&& d.len() == records_len(rs)
            &&& p + 14 + n <= d.len()
            &&& number_at(d, p, 2) == rs[i].channel
            &&& number_at(d, p + 2, 8) == rs[i].stamp
            &&& number_at(d, p + 10, 4) == n
            &&& d.subrange(p + 14, p + 14 + n) == rs[i].payload
        }),
{
    let d = layout::records_bytes(rs);
    lemma_sizes_agree(rs);
    lemma_sizes_agree(rs.take(i));
    laws::lemma_records_len(rs);
    laws::lemma_record_stands(rs, i);
    laws::lemma_payload_in_size(rs, i);
    let p = records_len(rs.take(i)) as int;
    let r = rs[i];
    let c = le::le_bytes(r.channel as nat, 2);
    let t = le::le_bytes(r.stamp as nat, 8);
    let n = le::le_bytes(r.payload.len(), 4);
    le::lemma_le_limits();
    le::lemma_le_bytes_len(r.channel as nat, 2);
    le::lemma_le_bytes_len(r.stamp as nat, 8);
    le::lemma_le_bytes_len(r.payload.len(), 4);
    wire::lemma_two_parts(d, p, c + t + n, r.payload);
    wire::lemma_two_parts(d, p, c + t, n);
    wire::lemma_two_parts(d, p, c, t);
    places::lemma_number_stands(d, p, r.channel as nat, 2);
    places::lemma_number_stands(d, p + 2, r.stamp as nat, 8);
    places::lemma_number_stands(d, p + 10, r.payload.len(), 4);
}

proof fn lemma_sizes_agree(rs: Seq<RecordView>)
    ensures
        records_len(rs) == layout::records_size(rs),
    decreases rs.len(),
{
    if rs.len() > 0 {
        lemma_sizes_agree(rs.drop_last());
    }
}

proof fn lemma_entry_stands(d: Seq<u8>, pos: int, s: Seq<ChunkIndex>, i: int)
    requires
        wire::stands_at(d, pos, layout::entries_bytes(s)),
        0 <= i < s.len(),
    ensures
        ({
            let p = pos + 28 * i;
            &&& number_at(d, p, 8) == s[i].offset
            &&& number_at(d, p + 8, 8) == s[i].start_stamp
            &&& number_at(d, p + 16, 8) == s[i].end_stamp
            &&& number_at(d, p + 24, 4) == s[i].msg_count
        }),
    decreases s.len(),
{
    let front = s.drop_last();
    wire::lemma_two_parts(d, pos, layout::entries_bytes(front), layout::entry_bytes(s.last()));
    if i < front.len() {
        lemma_entry_stands(d, pos, front, i);
    } else {
        lemma_entries_len(front);
        let c = s.last();
        let p = pos + 28 * i;
        let o = le::le_bytes(c.offset as nat, 8);
        let a = le::le_bytes(c.start_stamp as nat, 8);
        let b = le::le_bytes(c.end_stamp as nat, 8);
        let n = le::le_bytes(c.msg_count as nat, 4);
        le::lemma_le_limits();
        le::lemma_le_bytes_len(c.offset as nat, 8);
        le::lemma_le_bytes_len(c.start_stamp as nat, 8);
        le::lemma_le_bytes_len(c.end_stamp as nat, 8);
        wire::lemma_two_parts(d, p, o + a + b, n);
        wire::lemma_two_parts(d, p, o + a, b);
        wire::lemma_two_parts(d, p, o, a);
        places::lemma_number_stands(d, p, c.offset as nat, 8);
        places::lemma_number_stands(d, p + 8, c.start_stamp as nat, 8);
        places::lemma_number_stands(d, p + 16, c.end_stamp as nat, 8);
        places::lemma_number_stands(d, p + 24, c.msg_count as nat, 4);
    }
}

proof fn lemma_entries_len(s: Seq<ChunkIndex>)
    ensures
        layout::entries_bytes(s).len() == 28 * s.len(),
    decreases s.len(),
{
    if s.len() > 0 {
        lemma_entries_len(s.drop_last());
        laws::lemma_entry_len(s.last());
    }
}

/// The parts of the end of a file.
proof fn lemma_end_stands(d: Seq<u8>, pos: int, index: Seq<ChunkIndex>, start: u64, count: u64)
    requires
        wire::stands_at(d, pos, layout::footer_bytes(index, start, count)),
        d.len() == pos + layout::footer_bytes(index, start, count).len(),
        d.len() < 0x1_0000_0000_0000_0000,
    ensures
        wire::stands_at(d, pos, layout::entries_bytes(index)),
        ({
            let e = d.len() - 32;
            &&& e == pos + 28 * index.len()
            &&& wire::stands_at(d, e, layout::end_magic())
            &&& number_at(d, e + 8, 8) == start
            &&& number_at(d, e + 16, 8) == index.len()
            &&& number_at(d, e + 24, 8) == count
        }),
{
    reveal(layout::footer_bytes);
    lemma_entries_len(index);
    laws::lemma_footer_len(index, start, count);
    let entries = layout::entries_bytes(index);
    let m = layout::end_magic();
    let o = le::le_bytes(start as nat, 8);
    let n = le::le_bytes(index.len(), 8);
    let k = le::le_bytes(count as nat, 8);
    le::lemma_le_limits();
    le::lemma_le_bytes_len(start as nat, 8);
    le::lemma_le_bytes_len(index.len(), 8);
    wire::lemma_two_parts(d, pos, entries + m + o + n, k);
    wire::lemma_two_parts(d, pos, entries + m + o, n);
    wire::lemma_two_parts(d, pos, entries + m, o);
    wire::lemma_two_parts(d, pos, entries, m);
    let e = d.len() - 32;
    places::lemma_number_stands(d, e + 8, start as nat, 8);
    places::lemma_number_stands(d, e + 16, index.len(), 8);
    places::lemma_number_stands(d, e + 24, count as nat, 8);
}

/// Behind the chunks of a finished file stands an entry of 28 bytes for each of them, with the
/// place, the first and the last time and the number of messages of the chunk.
pub proof fn law_index_stands_behind_the_chunks(w: WriterView, i: int)
    requires
        w.complete(),
        laws::file_fits(w),
        0 <= i < w.log.len(),
    ensures
        ({
            let p = 25 + schemas_len(w.head_schemas) + channels_len(w.head_channels) as int;
            entry_stands(
                w.file(),
                p + chunks_len(w.log) + 28 * i,
                p + chunks_len(w.log.take(i)),
                w.log[i],
            )
        }),
{
    let d = w.file();
    let e = w.head().len() + chunks_len(w.log) as int;
    lemma_file_parts(w);
    lemma_end_stands(d, e, w.index, w.data_offset, w.message_count);
    assert(laws::chunk_fits(w.log[i]));
    lemma_entry_of(w, i);
    lemma_entry_stands(d, e, w.index, i);
}

proof fn lemma_entry_of(w: WriterView, i: int)
    requires
        w.index == writer::log_index(w.head().len(), w.log),
        w.head().len() + chunks_len(w.log) < 0x1_0000_0000_0000_0000,
        laws::chunk_fits(w.log[i]),
        0 <= i < w.log.len(),
    ensures
        w.index.len() == w.log.len(),
        w.index[i].offset == w.head().len() + chunks_len(w.log.take(i)),
        w.index[i].start_stamp == w.log[i].records.first().stamp,
        w.index[i].end_stamp == w.log[i].records.last().stamp,
        w.index[i].msg_count == w.log[i].records.len(),
{
    lemma_chunks_len(w.log);
    lemma_chunks_len(w.log.take(i));
    assert(laws::chunk_start(w.log, i) <= writer::log_bytes(w.log).len()) by {
        laws::lemma_chunk_stands(w.log, i);
    }
    laws::lemma_index_entry_of(w, i);
}

/// A finished file ends in 32 bytes: the mark, where the head ends, the number of chunks and the
/// number of messages. Before them and behind the chunks there is nothing but the entries.
pub proof fn law_finished_file_ends_with_its_counts(w: WriterView)
    requires
        w.complete(),
        laws::file_fits(w),
    ensures
        ({
            let d = w.file();
            let p = 25 + schemas_len(w.head_schemas) + channels_len(w.head_channels);
            let e = d.len() - 32;
            &&& e == p + chunks_len(w.log) + 28 * w.log.len()
            // "DCAP_END"
            &&& d.subrange(e, e + 8) == seq![
                0x44u8, 0x43, 0x41, 0x50, 0x5f, 0x45, 0x4e, 0x44,
            ]
            &&& number_at(d, e + 8, 8) == p
            &&& number_at(d, e + 16, 8) == w.log.len()
            &&& number_at(d, e + 24, 8) == messages_of(w.log) % 0x1_0000_0000_0000_0000
        }),
{
    lemma_file_parts(w);
    lemma_end_stands(
        w.file(),
        w.head().len() + chunks_len(w.log) as int,
        w.index,
        w.data_offset,
        w.message_count,
    );
    laws::lemma_log_index_len(w.head().len(), w.log);
    laws::lemma_tally(w.log);
    lemma_messages_of(w.log);
}

} // verus!
