//! What is written reads back.

use crate::layout::{Head, RecordView};
use crate::message::{ChannelView, ChunkIndex, MessageView, SchemaView};
use crate::play::{PlayOptions, PlayerView};
use crate::singlefile::reader::{ReaderView, SingleFileReader};
use crate::singlefile::writer::{ClosedChunk, WriterView};
use crate::singlefile::writer;
use crate::{compress, crc, layout, le, order, play, wire};
use vstd::prelude::*;

verus! {

/// Whether the tables of a head fit their length fields.
pub open spec fn tables_fit(schemas: Seq<SchemaView>, channels: Seq<ChannelView>) -> bool {
    &&& schemas.len() < 0x1_0000_0000
    &&& channels.len() < 0x1_0000_0000
    &&& forall|i: int|
        0 <= i < schemas.len() ==> wire::text_fits((#[trigger] schemas[i]).typename)
            && wire::text_fits(schemas[i].encoding)
    &&& forall|i: int| 0 <= i < channels.len() ==> wire::text_fits((#[trigger] channels[i]).name)
}

/// Whether the sizes of a chunk fit their fields.
pub open spec fn chunk_fits(c: ClosedChunk) -> bool {
    layout::records_size(c.records) < 0x1_0000_0000 && c.block.len() < 0x1_0000_0000
}

/// Whether the sizes of the closed chunks fit their fields.
pub open spec fn log_fits(log: Seq<ClosedChunk>) -> bool {
    forall|i: int| 0 <= i < log.len() ==> chunk_fits(#[trigger] log[i])
}

/// Whether everything in the file fits the field that it has there.
pub open spec fn file_fits(w: WriterView) -> bool {
    &&& tables_fit(w.head_schemas, w.head_channels)
    &&& log_fits(w.log)
    &&& w.file().len() < 0x1_0000_0000_0000_0000
}

proof fn lemma_schema_reads_back(d: Seq<u8>, pos: int, s: SchemaView)
    requires
        wire::stands_at(d, pos, layout::schema_bytes(s)),
        wire::text_fits(s.typename),
        wire::text_fits(s.encoding),
    ensures
        layout::schema_at(d, pos) == Ok::<(SchemaView, int), Seq<char>>(
            (s, pos + layout::schema_bytes(s).len()),
        ),
{
    let a = le::le_bytes(s.id as nat, 2);
    let b = wire::text_bytes(s.typename);
    let c = wire::text_bytes(s.encoding);
    le::lemma_le_limits();
    wire::lemma_two_parts(d, pos, a + b, c);
    wire::lemma_two_parts(d, pos, a, b);
    wire::lemma_number_reads_back(d, pos, s.id as nat, 2);
    wire::lemma_text_reads_back(d, pos + 2, s.typename);
    wire::lemma_text_reads_back(d, pos + 2 + b.len(), s.encoding);
}

pub proof fn lemma_schemas_read_back(d: Seq<u8>, pos: int, s: Seq<SchemaView>)
    requires
        wire::stands_at(d, pos, layout::schemas_bytes(s)),
        forall|i: int|
            0 <= i < s.len() ==> wire::text_fits((#[trigger] s[i]).typename) && wire::text_fits(
                s[i].encoding,
            ),
    ensures
        layout::schemas_at(d, pos, s.len()) == Ok::<(Seq<SchemaView>, int), Seq<char>>(
            (s, pos + layout::schemas_bytes(s).len()),
        ),
    decreases s.len(),
{
    if s.len() == 0 {
        assert(s =~= Seq::empty());
    } else {
        let front = s.drop_last();
        wire::lemma_two_parts(
            d,
            pos,
            layout::schemas_bytes(front),
            layout::schema_bytes(s.last()),
        );
        assert forall|i: int| 0 <= i < front.len() implies wire::text_fits(
            (#[trigger] front[i]).typename,
        ) && wire::text_fits(front[i].encoding) by {
            assert(front[i] == s[i]);
        }
        lemma_schemas_read_back(d, pos, front);
        lemma_schema_reads_back(d, pos + layout::schemas_bytes(front).len(), s.last());
        assert(front.push(s.last()) =~= s);
    }
}

proof fn lemma_channel_reads_back(d: Seq<u8>, pos: int, s: ChannelView)
    requires
        wire::stands_at(d, pos, layout::channel_bytes(s)),
        wire::text_fits(s.name),
    ensures
        layout::channel_at(d, pos) == Ok::<(ChannelView, int), Seq<char>>(
            (s, pos + layout::channel_bytes(s).len()),
        ),
{
    let a = le::le_bytes(s.id as nat, 2);
    let b = wire::text_bytes(s.name);
    let c = le::le_bytes(s.schema_id as nat, 2);
    le::lemma_le_limits();
    wire::lemma_two_parts(d, pos, a + b, c);
    wire::lemma_two_parts(d, pos, a, b);
    wire::lemma_number_reads_back(d, pos, s.id as nat, 2);
    wire::lemma_text_reads_back(d, pos + 2, s.name);
    wire::lemma_number_reads_back(d, pos + 2 + b.len(), s.schema_id as nat, 2);
}

pub proof fn lemma_channels_read_back(d: Seq<u8>, pos: int, s: Seq<ChannelView>)
    requires
        wire::stands_at(d, pos, layout::channels_bytes(s)),
        forall|i: int| 0 <= i < s.len() ==> wire::text_fits((#[trigger] s[i]).name),
    ensures
        layout::channels_at(d, pos, s.len()) == Ok::<(Seq<ChannelView>, int), Seq<char>>(
            (s, pos + layout::channels_bytes(s).len()),
        ),
    decreases s.len(),
{
    if s.len() == 0 {
        assert(s =~= Seq::empty());
    } else {
        let front = s.drop_last();
        wire::lemma_two_parts(
            d,
            pos,
            layout::channels_bytes(front),
            layout::channel_bytes(s.last()),
        );
        assert forall|i: int| 0 <= i < front.len() implies wire::text_fits(
            (#[trigger] front[i]).name,
        ) by {
            assert(front[i] == s[i]);
        }
        lemma_channels_read_back(d, pos, front);
        lemma_channel_reads_back(d, pos + layout::channels_bytes(front).len(), s.last());
        assert(front.push(s.last()) =~= s);
    }
}

/// A file that begins with a head declares what the head was made of.
#[verifier::rlimit(40)]
pub proof fn law_head_reads_back(
    d: Seq<u8>,
    compressor: u32,
    schemas: Seq<SchemaView>,
    channels: Seq<ChannelView>,
)
    requires
        wire::stands_at(d, 0, layout::head_bytes(compressor, schemas, channels)),
        tables_fit(schemas, channels),
    ensures
        layout::head_of(d) == Ok::<Head, Seq<char>>(
            (Head {
                version: 2,
                compressor,
                schemas,
                channels,
                data_offset: layout::head_bytes(compressor, schemas, channels).len() as int,
            }),
        ),
{
    reveal(layout::head_bytes);
    let m = layout::file_magic();
    let v = le::le_bytes(layout::VERSION as nat, 4);
    let f = le::le_bytes(layout::FLAGS as nat, 4);
    let c = le::le_bytes(compressor as nat, 4);
    let ns = le::le_bytes(schemas.len(), 4);
    let s = layout::schemas_bytes(schemas);
    let nc = le::le_bytes(channels.len(), 4);
    let t = layout::channels_bytes(channels);
    le::lemma_le_limits();
    wire::lemma_two_parts(d, 0, m + v + f + c + ns + s + nc, t);
    wire::lemma_two_parts(d, 0, m + v + f + c + ns + s, nc);
    wire::lemma_two_parts(d, 0, m + v + f + c + ns, s);
    wire::lemma_two_parts(d, 0, m + v + f + c, ns);
    wire::lemma_two_parts(d, 0, m + v + f, c);
    wire::lemma_two_parts(d, 0, m + v, f);
    wire::lemma_two_parts(d, 0, m, v);
    wire::lemma_number_reads_back(d, 5, layout::VERSION as nat, 4);
    wire::lemma_number_reads_back(d, 9, layout::FLAGS as nat, 4);
    wire::lemma_number_reads_back(d, 13, compressor as nat, 4);
    wire::lemma_number_reads_back(d, 17, schemas.len(), 4);
    lemma_schemas_read_back(d, 21, schemas);
    wire::lemma_number_reads_back(d, 21 + s.len() as int, channels.len(), 4);
    lemma_channels_read_back(d, 25 + s.len() as int, channels);
}

proof fn lemma_record_len(r: RecordView)
    ensures
        layout::record_bytes(r).len() == layout::record_size(r),
{
    le::lemma_le_bytes_len(r.channel as nat, 2);
    le::lemma_le_bytes_len(r.stamp as nat, 8);
    le::lemma_le_bytes_len(r.payload.len(), 4);
}

pub proof fn lemma_records_len(rs: Seq<RecordView>)
    ensures
        layout::records_bytes(rs).len() == layout::records_size(rs),
        14 * rs.len() <= layout::records_size(rs),
    decreases rs.len(),
{
    if rs.len() > 0 {
        lemma_records_len(rs.drop_last());
        lemma_record_len(rs.last());
    }
}

/// The record `i` of `rs` stands behind the bytes of those before it.
pub proof fn lemma_record_stands(rs: Seq<RecordView>, i: int)
    requires
        0 <= i < rs.len(),
    ensures
        wire::stands_at(
            layout::records_bytes(rs),
            layout::records_size(rs.take(i)) as int,
            layout::record_bytes(rs[i]),
        ),
        layout::records_size(rs.take(i + 1)) == layout::records_size(rs.take(i))
            + layout::record_size(rs[i]),
    decreases rs.len(),
{
    let d = layout::records_bytes(rs);
    let front = rs.drop_last();
    let f = layout::records_bytes(front);
    lemma_records_len(front);
    lemma_record_len(rs.last());
    if i == rs.len() - 1 {
        assert(rs.take(i) =~= front);
        assert(rs.take(i + 1) =~= rs);
        assert(d.subrange(f.len() as int, d.len() as int) =~= layout::record_bytes(rs.last()));
    } else {
        lemma_record_stands(front, i);
        assert(front.take(i) =~= rs.take(i));
        assert(front.take(i + 1) =~= rs.take(i + 1));
        let p = layout::records_size(rs.take(i)) as int;
        let b = layout::record_bytes(rs[i]);
        assert(d.subrange(p, p + b.len()) =~= f.subrange(p, p + b.len()));
    }
}

pub proof fn lemma_record_reads_back(d: Seq<u8>, pos: int, r: RecordView)
    requires
        wire::stands_at(d, pos, layout::record_bytes(r)),
        r.payload.len() < 0x1_0000_0000,
    ensures
        layout::record_fits(d, pos),
        layout::record_at(d, pos) == r,
        layout::record_end(d, pos) == pos + layout::record_size(r),
{
    let a = le::le_bytes(r.channel as nat, 2);
    let b = le::le_bytes(r.stamp as nat, 8);
    let c = le::le_bytes(r.payload.len(), 4);
    le::lemma_le_limits();
    lemma_record_len(r);
    wire::lemma_two_parts(d, pos, a + b + c, r.payload);
    wire::lemma_two_parts(d, pos, a + b, c);
    wire::lemma_two_parts(d, pos, a, b);
    wire::lemma_number_reads_back(d, pos, r.channel as nat, 2);
    wire::lemma_number_reads_back(d, pos + 2, r.stamp as nat, 8);
    wire::lemma_number_reads_back(d, pos + 10, r.payload.len(), 4);
    assert(layout::record_at(d, pos) =~= r);
}

pub proof fn lemma_payload_in_size(rs: Seq<RecordView>, i: int)
    requires
        0 <= i < rs.len(),
    ensures
        rs[i].payload.len() <= layout::records_size(rs),
    decreases rs.len(),
{
    if i < rs.len() - 1 {
        lemma_payload_in_size(rs.drop_last(), i);
    }
}

/// Whether the lengths of payloads fit their length fields.
pub open spec fn payloads_fit(rs: Seq<RecordView>) -> bool {
    forall|i: int| 0 <= i < rs.len() ==> (#[trigger] rs[i]).payload.len() < 0x1_0000_0000
}

/// The first `k` records of `rs`, parsed from the bytes of `rs`.
proof fn lemma_records_read_back(
    schemas: Seq<SchemaView>,
    channels: Seq<ChannelView>,
    rs: Seq<RecordView>,
    k: nat,
)
    requires
        k <= rs.len(),
        payloads_fit(rs),
    ensures
        layout::messages_in(schemas, channels, layout::records_bytes(rs), k) == Ok::<
            (Seq<MessageView>, int),
            Seq<char>,
        >(
            (
                layout::resolved_all(schemas, channels, rs.take(k as int)),
                layout::records_size(rs.take(k as int)) as int,
            ),
        ),
    decreases k,
{
    let ms = layout::resolved_all(schemas, channels, rs.take(k as int));
    if k == 0 {
        assert(ms =~= Seq::empty());
        assert(rs.take(0).len() == 0);
    } else {
        let j = (k - 1) as nat;
        lemma_records_read_back(schemas, channels, rs, j);
        lemma_record_stands(rs, j as int);
        lemma_record_reads_back(
            layout::records_bytes(rs),
            layout::records_size(rs.take(j as int)) as int,
            rs[j as int],
        );
        assert(rs.take(k as int).drop_last() =~= rs.take(j as int));
        assert(rs.take(k as int).last() == rs[j as int]);
        assert(ms =~= layout::resolved_all(schemas, channels, rs.take(j as int)).push(
            layout::resolved(schemas, channels, rs[j as int]),
        ));
    }
}

/// Records that were laid down one after the other are read back as their messages, in order.
pub proof fn law_records_read_back(
    schemas: Seq<SchemaView>,
    channels: Seq<ChannelView>,
    rs: Seq<RecordView>,
)
    requires
        payloads_fit(rs),
    ensures
        layout::messages_in(schemas, channels, layout::records_bytes(rs), rs.len()) == Ok::<
            (Seq<MessageView>, int),
            Seq<char>,
        >(
            (
                layout::resolved_all(schemas, channels, rs),
                layout::records_bytes(rs).len() as int,
            ),
        ),
{
    lemma_records_read_back(schemas, channels, rs, rs.len());
    lemma_records_len(rs);
    assert(rs.take(rs.len() as int) =~= rs);
}

/// What is read of the beginning `d.take(k)` is read of `d`, and ends in that beginning.
proof fn lemma_messages_extend(
    schemas: Seq<SchemaView>,
    channels: Seq<ChannelView>,
    d: Seq<u8>,
    k: int,
    n: nat,
)
    requires
        0 <= k <= d.len(),
    ensures
        match layout::messages_in(schemas, channels, d.take(k), n) {
            Ok((ms, p)) => 0 <= p <= k && layout::messages_in(schemas, channels, d, n) == Ok::<
                (Seq<MessageView>, int),
                Seq<char>,
            >((ms, p)),
            Err(e) => e == "chunk records truncated"@,
        },
    decreases n,
{
    if n > 0 {
        lemma_messages_extend(schemas, channels, d, k, (n - 1) as nat);
        if let Ok((ms, p)) = layout::messages_in(schemas, channels, d.take(k), (n - 1) as nat) {
            if layout::record_fits(d.take(k), p) {
                let end = layout::record_end(d.take(k), p);
                assert(d.take(k).subrange(p, p + 2) =~= d.subrange(p, p + 2));
                assert(d.take(k).subrange(p + 2, p + 10) =~= d.subrange(p + 2, p + 10));
                assert(d.take(k).subrange(p + 10, p + 14) =~= d.subrange(p + 10, p + 14));
                assert(d.take(k).subrange(p + 14, end) =~= d.subrange(p + 14, end));
            }
        }
    }
}

/// Records that were cut off, wherever that is, do not read as as many records as there were.
pub proof fn law_records_cut_off_do_not_read(
    schemas: Seq<SchemaView>,
    channels: Seq<ChannelView>,
    rs: Seq<RecordView>,
    k: int,
)
    requires
        payloads_fit(rs),
        0 <= k < layout::records_bytes(rs).len(),
    ensures
        layout::messages_in(schemas, channels, layout::records_bytes(rs).take(k), rs.len())
            == Err::<(Seq<MessageView>, int), Seq<char>>("chunk records truncated"@),
{
    law_records_read_back(schemas, channels, rs);
    lemma_messages_extend(schemas, channels, layout::records_bytes(rs), k, rs.len());
}

pub proof fn lemma_header_len(ordinal: u64, rs: Seq<RecordView>, block: Seq<u8>)
    ensures
        layout::chunk_header_bytes(ordinal, rs, block).len() == 50,
{
    reveal(layout::chunk_header_bytes);
    le::lemma_le_bytes_len(ordinal as nat, 8);
    le::lemma_le_bytes_len(rs.len(), 4);
    le::lemma_le_bytes_len(rs.first().stamp as nat, 8);
    le::lemma_le_bytes_len(rs.last().stamp as nat, 8);
    le::lemma_le_bytes_len(layout::records_bytes(rs).len(), 4);
    le::lemma_le_bytes_len(block.len(), 4);
    le::lemma_le_bytes_len(crc::crc32_of(layout::records_bytes(rs)) as nat, 4);
}

/// The fields of a chunk's header, where its bytes begin at `pos`.
proof fn lemma_header_reads_back(
    d: Seq<u8>,
    pos: int,
    ordinal: u64,
    rs: Seq<RecordView>,
    block: Seq<u8>,
)
    requires
        wire::stands_at(d, pos, layout::chunk_header_bytes(ordinal, rs, block)),
        rs.len() < 0x1_0000_0000,
        layout::records_bytes(rs).len() < 0x1_0000_0000,
        block.len() < 0x1_0000_0000,
    ensures
        pos + 50 <= d.len(),
        wire::stands_at(d, pos, layout::chunk_magic()),
        wire::number(d, pos + 18, 4) == rs.len(),
        wire::number(d, pos + 38, 4) == layout::records_bytes(rs).len(),
        layout::block_len(d, pos) == block.len(),
        wire::number(d, pos + 46, 4) == crc::crc32_of(layout::records_bytes(rs)),
{
    reveal(layout::chunk_header_bytes);
    let m = layout::chunk_magic();
    let o = le::le_bytes(ordinal as nat, 8);
    let n = le::le_bytes(rs.len(), 4);
    let a = le::le_bytes(rs.first().stamp as nat, 8);
    let b = le::le_bytes(rs.last().stamp as nat, 8);
    let u = le::le_bytes(layout::records_bytes(rs).len(), 4);
    let z = le::le_bytes(block.len(), 4);
    let k = le::le_bytes(crc::crc32_of(layout::records_bytes(rs)) as nat, 4);
    le::lemma_le_limits();
    lemma_header_len(ordinal, rs, block);
    le::lemma_le_bytes_len(ordinal as nat, 8);
    le::lemma_le_bytes_len(rs.first().stamp as nat, 8);
    le::lemma_le_bytes_len(rs.last().stamp as nat, 8);
    wire::lemma_two_parts(d, pos, m + o + n + a + b + u + z, k);
    wire::lemma_two_parts(d, pos, m + o + n + a + b + u, z);
    wire::lemma_two_parts(d, pos, m + o + n + a + b, u);
    wire::lemma_two_parts(d, pos, m + o + n + a, b);
    wire::lemma_two_parts(d, pos, m + o + n, a);
    wire::lemma_two_parts(d, pos, m + o, n);
    wire::lemma_two_parts(d, pos, m, o);
    wire::lemma_number_reads_back(d, pos + 18, rs.len(), 4);
    wire::lemma_number_reads_back(d, pos + 38, layout::records_bytes(rs).len(), 4);
    wire::lemma_number_reads_back(d, pos + 42, block.len(), 4);
    wire::lemma_number_reads_back(
        d,
        pos + 46,
        crc::crc32_of(layout::records_bytes(rs)) as nat,
        4,
    );
}

/// A chunk that was closed reads back as its records, wherever its bytes stand.
pub proof fn law_chunk_reads_back(
    schemas: Seq<SchemaView>,
    channels: Seq<ChannelView>,
    compressor: u32,
    d: Seq<u8>,
    pos: int,
    before: Seq<ClosedChunk>,
    c: ClosedChunk,
)
    requires
        wire::stands_at(d, pos, writer::chunk_bytes(before, c)),
        writer::chunk_holds(compressor, c),
        chunk_fits(c),
    ensures
        layout::chunk_at(schemas, channels, compressor, d, pos) == Ok::<Seq<MessageView>, Seq<char>>(layout::resolved_all(
            schemas,
            channels,
            c.records,
        )),
        layout::chunk_stands(d, pos),
        writer::chunk_bytes(before, c).len() == 50 + layout::block_len(d, pos),
{
    reveal(layout::chunk_at);
    let header = layout::chunk_header_bytes(writer::tally(before), c.records, c.block);
    lemma_header_len(writer::tally(before), c.records, c.block);
    lemma_records_len(c.records);
    wire::lemma_two_parts(d, pos, header, c.block);
    lemma_header_reads_back(d, pos, writer::tally(before), c.records, c.block);
    assert forall|i: int| 0 <= i < c.records.len() implies (#[trigger] c.records[i]).payload.len()
        < 0x1_0000_0000 by {
        lemma_payload_in_size(c.records, i);
    }
    law_records_read_back(schemas, channels, c.records);
}

/// Where chunk `i` begins, counted from the first one.
pub open spec fn chunk_start(log: Seq<ClosedChunk>, i: int) -> int {
    writer::log_bytes(log.take(i)).len() as int
}

/// The chunks stand one behind the other.
pub proof fn lemma_chunk_stands(log: Seq<ClosedChunk>, i: int)
    requires
        0 <= i < log.len(),
    ensures
        wire::stands_at(
            writer::log_bytes(log),
            chunk_start(log, i),
            writer::chunk_bytes(log.take(i), log[i]),
        ),
        chunk_start(log, i + 1) == chunk_start(log, i) + writer::chunk_bytes(
            log.take(i),
            log[i],
        ).len(),
        chunk_start(log, i + 1) <= writer::log_bytes(log).len(),
    decreases log.len(),
{
    let d = writer::log_bytes(log);
    let front = log.drop_last();
    let f = writer::log_bytes(front);
    if i == log.len() - 1 {
        assert(log.take(i) =~= front);
        assert(log.take(i + 1) =~= log);
        let b = writer::chunk_bytes(front, log.last());
        assert(d =~= f + b);
        assert(d.subrange(f.len() as int, d.len() as int) =~= b);
    } else {
        lemma_chunk_stands(front, i);
        assert(front.take(i) =~= log.take(i));
        assert(front.take(i + 1) =~= log.take(i + 1));
        let p = chunk_start(log, i);
        let b = writer::chunk_bytes(log.take(i), log[i]);
        assert(d.subrange(p, p + b.len()) =~= f.subrange(p, p + b.len()));
    }
}

/// What stands inside `t` stands in `d` where `t` does.
pub proof fn lemma_inside(d: Seq<u8>, start: int, t: Seq<u8>, pos: int, b: Seq<u8>)
    requires
        wire::stands_at(d, start, t),
        wire::stands_at(t, pos, b),
    ensures
        wire::stands_at(d, start + pos, b),
{
    wire::lemma_part(d, start, t, pos, pos + b.len());
}

proof fn lemma_resolved_concat(
    schemas: Seq<SchemaView>,
    channels: Seq<ChannelView>,
    a: Seq<RecordView>,
    b: Seq<RecordView>,
)
    ensures
        layout::resolved_all(schemas, channels, a + b) == layout::resolved_all(
            schemas,
            channels,
            a,
        ) + layout::resolved_all(schemas, channels, b),
{
    assert(layout::resolved_all(schemas, channels, a + b) =~= layout::resolved_all(
        schemas,
        channels,
        a,
    ) + layout::resolved_all(schemas, channels, b));
}

/// The chunks that the index names hold the records, in order.
proof fn lemma_indexed(
    schemas: Seq<SchemaView>,
    channels: Seq<ChannelView>,
    compressor: u32,
    d: Seq<u8>,
    start: nat,
    log: Seq<ClosedChunk>,
)
    requires
        wire::stands_at(d, start as int, writer::log_bytes(log)),
        d.len() < 0x1_0000_0000_0000_0000,
        writer::chunks_hold(compressor, log),
        log_fits(log),
    ensures
        layout::indexed(schemas, channels, compressor, d, writer::log_index(start, log))
            == Ok::<Seq<MessageView>, Seq<char>>(
            layout::resolved_all(schemas, channels, writer::log_records(log)),
        ),
    decreases log.len(),
{
    if log.len() > 0 {
        let front = log.drop_last();
        let c = log.last();
        let index = writer::log_index(start, log);
        let pos = start as int + writer::log_bytes(front).len();
        wire::lemma_two_parts(
            d,
            start as int,
            writer::log_bytes(front),
            writer::chunk_bytes(front, c),
        );
        lemma_log_parts(compressor, log);
        lemma_indexed(schemas, channels, compressor, d, start, front);
        assert(index.drop_last() =~= writer::log_index(start, front));
        assert(index.last().offset == pos);
        assert(layout::chunk_at(schemas, channels, compressor, d, pos) == Ok::<Seq<MessageView>, Seq<char>>(layout::resolved_all(
            schemas,
            channels,
            c.records,
        ))) by {
            law_chunk_reads_back(schemas, channels, compressor, d, pos, front, c);
        }
        lemma_resolved_concat(schemas, channels, writer::log_records(front), c.records);
    } else {
        lemma_resolved_none(schemas, channels, writer::log_records(log));
    }
}

proof fn lemma_resolved_none(
    schemas: Seq<SchemaView>,
    channels: Seq<ChannelView>,
    rs: Seq<RecordView>,
)
    requires
        rs.len() == 0,
    ensures
        layout::resolved_all(schemas, channels, rs) == Seq::<MessageView>::empty(),
{
    assert(layout::resolved_all(schemas, channels, rs) =~= Seq::<MessageView>::empty());
}

proof fn lemma_log_parts(compressor: u32, log: Seq<ClosedChunk>)
    requires
        log.len() > 0,
        writer::chunks_hold(compressor, log),
        log_fits(log),
    ensures
        writer::chunks_hold(compressor, log.drop_last()),
        log_fits(log.drop_last()),
        writer::chunk_holds(compressor, log.last()),
        chunk_fits(log.last()),
{
    let front = log.drop_last();
    assert(writer::chunk_holds(compressor, log[log.len() - 1]));
    assert(chunk_fits(log[log.len() - 1]));
    assert forall|i: int| 0 <= i < front.len() implies #[trigger] writer::chunk_holds(
        compressor,
        front[i],
    ) by {
        assert(writer::chunk_holds(compressor, log[i]));
    }
    assert forall|i: int| 0 <= i < front.len() implies chunk_fits(#[trigger] front[i]) by {
        assert(chunk_fits(log[i]));
    }
}

proof fn lemma_log_index_entry(start: nat, log: Seq<ClosedChunk>, i: int)
    requires
        0 <= i < log.len(),
    ensures
        writer::log_index(start, log).len() == log.len(),
        writer::log_index(start, log)[i] == writer::log_entry(
            start + chunk_start(log, i) as nat,
            log[i],
        ),
    decreases log.len(),
{
    let front = log.drop_last();
    lemma_log_index_len(start, front);
    if i == log.len() - 1 {
        assert(log.take(i) =~= front);
    } else {
        lemma_log_index_entry(start, front, i);
        assert(front.take(i) =~= log.take(i));
    }
}

pub proof fn lemma_log_index_len(start: nat, log: Seq<ClosedChunk>)
    ensures
        writer::log_index(start, log).len() == log.len(),
    decreases log.len(),
{
    if log.len() > 0 {
        lemma_log_index_len(start, log.drop_last());
    }
}

pub proof fn lemma_entry_len(c: ChunkIndex)
    ensures
        layout::entry_bytes(c).len() == 28,
{
    le::lemma_le_bytes_len(c.offset as nat, 8);
    le::lemma_le_bytes_len(c.start_stamp as nat, 8);
    le::lemma_le_bytes_len(c.end_stamp as nat, 8);
    le::lemma_le_bytes_len(c.msg_count as nat, 4);
}

proof fn lemma_entry_reads_back(d: Seq<u8>, pos: int, c: ChunkIndex)
    requires
        wire::stands_at(d, pos, layout::entry_bytes(c)),
    ensures
        layout::entry_at(d, pos) == c,
{
    let o = le::le_bytes(c.offset as nat, 8);
    let a = le::le_bytes(c.start_stamp as nat, 8);
    let b = le::le_bytes(c.end_stamp as nat, 8);
    let n = le::le_bytes(c.msg_count as nat, 4);
    le::lemma_le_limits();
    lemma_entry_len(c);
    wire::lemma_two_parts(d, pos, o + a + b, n);
    wire::lemma_two_parts(d, pos, o + a, b);
    wire::lemma_two_parts(d, pos, o, a);
    wire::lemma_number_reads_back(d, pos, c.offset as nat, 8);
    wire::lemma_number_reads_back(d, pos + 8, c.start_stamp as nat, 8);
    wire::lemma_number_reads_back(d, pos + 16, c.end_stamp as nat, 8);
    wire::lemma_number_reads_back(d, pos + 24, c.msg_count as nat, 4);
}

proof fn lemma_entries_read_back(d: Seq<u8>, pos: int, s: Seq<ChunkIndex>)
    requires
        wire::stands_at(d, pos, layout::entries_bytes(s)),
    ensures
        layout::entries_bytes(s).len() == 28 * s.len(),
        layout::entries_at(d, pos, s.len()) == s,
    decreases s.len(),
{
    if s.len() == 0 {
        assert(layout::entries_at(d, pos, 0) =~= s);
    } else {
        let front = s.drop_last();
        wire::lemma_two_parts(
            d,
            pos,
            layout::entries_bytes(front),
            layout::entry_bytes(s.last()),
        );
        lemma_entries_read_back(d, pos, front);
        lemma_entry_len(s.last());
        lemma_entry_reads_back(d, pos + 28 * front.len(), s.last());
        let got = layout::entries_at(d, pos, s.len());
        assert forall|i: int| 0 <= i < s.len() implies got[i] == s[i] by {
            if i < front.len() {
                assert(layout::entries_at(d, pos, front.len())[i] == front[i]);
            }
        }
        assert(got =~= s);
    }
}

pub proof fn lemma_footer_len(index: Seq<ChunkIndex>, data_offset: u64, count: u64)
    ensures
        layout::footer_bytes(index, data_offset, count).len() == layout::entries_bytes(index).len()
            + 32,
{
    reveal(layout::footer_bytes);
    le::lemma_le_bytes_len(data_offset as nat, 8);
    le::lemma_le_bytes_len(index.len(), 8);
    le::lemma_le_bytes_len(count as nat, 8);
}

/// A file that ends in an index and a trailer gives them back.
pub proof fn law_footer_reads_back(
    d: Seq<u8>,
    index: Seq<ChunkIndex>,
    data_offset: u64,
    count: u64,
)
    requires
        ({
            let footer = layout::footer_bytes(index, data_offset, count);
            wire::stands_at(d, d.len() - footer.len(), footer)
        }),
        d.len() < 0x1_0000_0000_0000_0000,
    ensures
        layout::has_trailer(d),
        layout::index_fits(d),
        layout::index_of(d, 2) == index,
        layout::count_of(d, 2) == Some(count),
{
    reveal(layout::footer_bytes);
    let e = layout::entries_bytes(index);
    let m = layout::end_magic();
    let o = le::le_bytes(data_offset as nat, 8);
    let n = le::le_bytes(index.len(), 8);
    let k = le::le_bytes(count as nat, 8);
    let start = d.len() - layout::footer_bytes(index, data_offset, count).len();
    le::lemma_le_limits();
    lemma_footer_len(index, data_offset, count);
    le::lemma_le_bytes_len(data_offset as nat, 8);
    le::lemma_le_bytes_len(index.len(), 8);
    wire::lemma_two_parts(d, start, e + m + o + n, k);
    wire::lemma_two_parts(d, start, e + m + o, n);
    wire::lemma_two_parts(d, start, e + m, o);
    wire::lemma_two_parts(d, start, e, m);
    lemma_entries_read_back(d, start, index);
    wire::lemma_number_reads_back(d, d.len() - 16, index.len(), 8);
    wire::lemma_number_reads_back(d, d.len() - 8, count as nat, 8);
}

pub proof fn lemma_tally(log: Seq<ClosedChunk>)
    requires
        log_fits(log),
    ensures
        writer::tally(log) == writer::mod64(writer::log_records(log).len()),
    decreases log.len(),
{
    if log.len() > 0 {
        let front = log.drop_last();
        assert forall|i: int| 0 <= i < front.len() implies chunk_fits(#[trigger] front[i]) by {
            assert(chunk_fits(log[i]));
        }
        lemma_tally(front);
        assert(chunk_fits(log[log.len() - 1]));
        lemma_records_len(log.last().records);
        let a = writer::log_records(front).len();
        let n = log.last().records.len();
        assert(writer::mod64(writer::mod64(a) as nat + n) == writer::mod64(a + n));
    }
}

/// What a reader finds in the finished file of a writer: the declared schemas and channels, the
/// index, the number of messages, and all messages.
pub open spec fn reads_back(w: WriterView, r: ReaderView) -> bool {
    &&& r.head.compressor == w.compressor
    &&& r.head.schemas == w.head_schemas
    &&& r.head.channels == w.head_channels
    &&& r.index == w.index
    &&& r.trailer_count() == Some(writer::mod64(w.recorded().len()))
    &&& r.whole_content() == Ok::<Seq<MessageView>, Seq<char>>(layout::resolved_all(w.head_schemas, w.head_channels, w.recorded()))
}

/// What opening the finished file of `w` gives.
pub open spec fn finished_view(w: WriterView) -> ReaderView {
    ReaderView {
        head: Head {
            version: 2,
            compressor: w.compressor,
            schemas: w.head_schemas,
            channels: w.head_channels,
            data_offset: w.head().len() as int,
        },
        data: w.file(),
        index: w.index,
        count: Some(w.message_count),
    }
}

#[verifier::rlimit(40)]
proof fn lemma_finished_file_opens(w: WriterView)
    requires
        w.complete(),
        file_fits(w),
    ensures
        layout::index_fits(w.file()),
        ReaderView::of_file(w.file()) == Ok::<ReaderView, Seq<char>>(finished_view(w)),
        wire::stands_at(w.file(), w.head().len() as int, writer::log_bytes(w.log)),
{
    let d = w.file();
    let head = w.head();
    let body = writer::log_bytes(w.log);
    let footer = layout::footer_bytes(w.index, w.data_offset, w.message_count);
    assert(d =~= head + (body + footer));
    assert(d.subrange(0, d.len() as int) =~= head + (body + footer));
    wire::lemma_two_parts(d, 0, head, body + footer);
    wire::lemma_two_parts(d, head.len() as int, body, footer);
    law_head_reads_back(d, w.compressor, w.head_schemas, w.head_channels);
    law_footer_reads_back(d, w.index, w.data_offset, w.message_count);
}

/// A finished file opens, and holds what was recorded.
pub proof fn law_finished_file_reads_back(w: WriterView)
    requires
        w.complete(),
        file_fits(w),
    ensures
        layout::index_fits(w.file()),
        ReaderView::of_file(w.file()) matches Ok(r) && reads_back(w, r),
{
    lemma_finished_file_opens(w);
    let start = w.head().len();
    lemma_log_index_len(start, w.log);
    lemma_tally(w.log);
    assert(w.recorded() =~= writer::log_records(w.log));
    if w.log.len() > 0 {
        lemma_indexed(
            w.head_schemas,
            w.head_channels,
            w.compressor,
            w.file(),
            start,
            w.log,
        );
    } else {
        lemma_footer_len(w.index, w.data_offset, w.message_count);
        assert(layout::entries_bytes(w.index).len() == 0);
        assert(!layout::chunk_stands(w.file(), start as int));
        lemma_resolved_none(w.head_schemas, w.head_channels, w.recorded());
    }
}

/// A reader that reads a single chunk of a finished file finds the records of that chunk.
pub proof fn law_finished_file_reads_by_chunk(w: WriterView, i: int)
    requires
        w.complete(),
        file_fits(w),
        0 <= i < w.log.len(),
    ensures
        ReaderView::of_file(w.file()) matches Ok(r) && r.index.len() == w.log.len()
            && r.chunk_content(i) == Ok::<Seq<MessageView>, Seq<char>>(layout::resolved_all(
            w.head_schemas,
            w.head_channels,
            w.log[i].records,
        )) && r.index[i].start_stamp == w.log[i].records.first().stamp && r.index[i].end_stamp
            == w.log[i].records.last().stamp && r.index[i].msg_count == w.log[i].records.len(),
{
    assert(chunk_fits(w.log[i]));
    lemma_finished_file_opens(w);
    lemma_chunk_content_of(w, i);
    lemma_index_entry_of(w, i);
}

pub proof fn lemma_index_entry_of(w: WriterView, i: int)
    requires
        w.index == writer::log_index(w.head().len(), w.log),
        chunk_fits(w.log[i]),
        0 <= i < w.log.len(),
        w.head().len() + chunk_start(w.log, i) < 0x1_0000_0000_0000_0000,
    ensures
        w.index.len() == w.log.len(),
        w.index[i].offset == w.head().len() + chunk_start(w.log, i),
        w.index[i].start_stamp == w.log[i].records.first().stamp,
        w.index[i].end_stamp == w.log[i].records.last().stamp,
        w.index[i].msg_count == w.log[i].records.len(),
{
    lemma_log_index_entry(w.head().len(), w.log, i);
    lemma_records_len(w.log[i].records);
}

proof fn lemma_chunk_content_of(w: WriterView, i: int)
    requires
        w.complete(),
        0 <= i < w.log.len(),
        chunk_fits(w.log[i]),
    ensures
        w.head().len() + chunk_start(w.log, i) < w.file().len(),
        finished_view(w).chunk_at(w.head().len() + chunk_start(w.log, i)) == Ok::<Seq<MessageView>, Seq<char>>(layout::resolved_all(
            w.head_schemas,
            w.head_channels,
            w.log[i].records,
        )),
{
    let pos = w.head().len() + chunk_start(w.log, i);
    lemma_chunk_stands_in_file(w, i);
    assert(writer::chunk_holds(w.compressor, w.log[i]));
    law_chunk_reads_back(
        w.head_schemas,
        w.head_channels,
        w.compressor,
        w.file(),
        pos,
        w.log.take(i),
        w.log[i],
    );
}

proof fn lemma_chunk_stands_in_file(w: WriterView, i: int)
    requires
        w.complete(),
        0 <= i < w.log.len(),
    ensures
        wire::stands_at(
            w.file(),
            w.head().len() + chunk_start(w.log, i),
            writer::chunk_bytes(w.log.take(i), w.log[i]),
        ),
{
    let d = w.file();
    let start = w.head().len() as int;
    let body = writer::log_bytes(w.log);
    assert(d.subrange(start, start + body.len()) =~= body);
    lemma_chunk_stands(w.log, i);
    lemma_inside(
        d,
        start,
        body,
        chunk_start(w.log, i),
        writer::chunk_bytes(w.log.take(i), w.log[i]),
    );
}

proof fn lemma_records_front(log: Seq<ClosedChunk>)
    requires
        log.len() > 0,
    ensures
        writer::log_records(log) == log[0].records + writer::log_records(log.drop_first()),
    decreases log.len(),
{
    let tail = log.drop_first();
    if log.len() == 1 {
        assert(writer::log_records(log.drop_last()) =~= Seq::empty());
        assert(writer::log_records(tail) =~= Seq::empty());
        assert(writer::log_records(log) =~= log[0].records + writer::log_records(tail));
    } else {
        let front = log.drop_last();
        let a = log[0].records;
        let b = writer::log_records(tail.drop_last());
        let c = log.last().records;
        lemma_records_front(front);
        assert(front.drop_first() =~= tail.drop_last());
        assert(tail.last() == log.last());
        assert(writer::log_records(front) == a + b);
        assert(writer::log_records(tail) == b + c);
        assert((a + b) + c =~= a + (b + c));
        assert(writer::log_records(log) =~= log[0].records + writer::log_records(tail));
    }
}

/// The outcome of a walk, as the messages or the words of the error.
pub open spec fn scan_result(scan: layout::Scan) -> Result<Seq<MessageView>, Seq<char>> {
    match scan.error {
        Some(e) => Err(e),
        None => Ok(scan.messages),
    }
}

/// The walk that starts at chunk `i` of the chunks that stand at `start`.
#[verifier::rlimit(40)]
proof fn lemma_scan(
    schemas: Seq<SchemaView>,
    channels: Seq<ChannelView>,
    compressor: u32,
    d: Seq<u8>,
    start: nat,
    log: Seq<ClosedChunk>,
    i: int,
)
    requires
        0 <= i <= log.len(),
        wire::stands_at(d, start as int, writer::log_bytes(log)),
        d.len() < 0x1_0000_0000_0000_0000,
        writer::chunks_hold(compressor, log),
        log_fits(log),
        !layout::chunk_stands(d, start as int + writer::log_bytes(log).len()),
    ensures
        ({
            let scan = layout::scan_from(
                schemas,
                channels,
                compressor,
                d,
                start + chunk_start(log, i),
            );
            &&& scan_result(scan) == Ok::<Seq<MessageView>, Seq<char>>(layout::resolved_all(
                schemas,
                channels,
                writer::log_records(log.skip(i)),
            ))
            &&& scan.error is None ==> scan.index == writer::log_index(start, log).skip(i)
        }),
    decreases log.len() - i,
{
    lemma_log_index_len(start, log);
    let pos = start + chunk_start(log, i);
    let scan = layout::scan_from(schemas, channels, compressor, d, pos);
    if i == log.len() {
        assert(log.take(i) =~= log);
        assert(log.skip(i).len() == 0);
        lemma_resolved_none(schemas, channels, writer::log_records(log.skip(i)));
        assert(scan.index =~= writer::log_index(start, log).skip(i));
    } else {
        let c = log[i];
        let next = start + chunk_start(log, i + 1);
        lemma_chunk_in_place(schemas, channels, compressor, d, start, log, i);
        lemma_scan(schemas, channels, compressor, d, start, log, i + 1);
        lemma_scan_step(schemas, channels, compressor, d, pos, next);
        assert(log.skip(i).drop_first() =~= log.skip(i + 1));
        lemma_records_front(log.skip(i));
        lemma_resolved_concat(
            schemas,
            channels,
            c.records,
            writer::log_records(log.skip(i + 1)),
        );
        if scan.error is None {
            let ms = layout::chunk_at(schemas, channels, compressor, d, pos)->Ok_0;
            assert(layout::entry_for(pos, ms) == writer::log_index(start, log)[i]) by {
                assert(chunk_fits(log[i]));
                assert(writer::chunk_holds(compressor, log[i]));
                lemma_records_len(c.records);
                lemma_log_index_entry(start, log, i);
            }
            assert(scan.index =~= writer::log_index(start, log).skip(i));
        }
    }
}

/// Chunk `i` of the chunks that stand at `start` stands in its place and reads back.
proof fn lemma_chunk_in_place(
    schemas: Seq<SchemaView>,
    channels: Seq<ChannelView>,
    compressor: u32,
    d: Seq<u8>,
    start: nat,
    log: Seq<ClosedChunk>,
    i: int,
)
    requires
        0 <= i < log.len(),
        wire::stands_at(d, start as int, writer::log_bytes(log)),
        writer::chunks_hold(compressor, log),
        log_fits(log),
    ensures
        ({
            let pos = start + chunk_start(log, i);
            &&& layout::chunk_stands(d, pos)
            &&& start + chunk_start(log, i + 1) == pos + 50 + layout::block_len(d, pos)
            &&& start + chunk_start(log, i + 1) <= d.len()
            &&& layout::chunk_at(schemas, channels, compressor, d, pos) == Ok::<Seq<MessageView>, Seq<char>>(layout::resolved_all(
                schemas,
                channels,
                log[i].records,
            ))
        }),
{
    let pos = start + chunk_start(log, i);
    let bytes = writer::chunk_bytes(log.take(i), log[i]);
    lemma_chunk_stands(log, i);
    lemma_inside(d, start as int, writer::log_bytes(log), chunk_start(log, i), bytes);
    assert(writer::chunk_holds(compressor, log[i]));
    assert(chunk_fits(log[i]));
    law_chunk_reads_back(schemas, channels, compressor, d, pos, log.take(i), log[i]);
}

/// One step of the walk, from the chunk at `pos` to `next`.
proof fn lemma_scan_step(
    schemas: Seq<SchemaView>,
    channels: Seq<ChannelView>,
    compressor: u32,
    d: Seq<u8>,
    pos: int,
    next: int,
)
    requires
        layout::chunk_stands(d, pos),
        next == pos + 50 + layout::block_len(d, pos),
    ensures
        ({
            let scan = layout::scan_from(schemas, channels, compressor, d, pos);
            let rest = layout::scan_from(schemas, channels, compressor, d, next);
            match layout::chunk_at(schemas, channels, compressor, d, pos) {
                Err(e) => scan_result(scan) == Err::<Seq<MessageView>, Seq<char>>(e),
                Ok(ms) => {
                    &&& scan.error == rest.error
                    &&& scan.messages == ms + rest.messages
                    &&& scan.index == seq![layout::entry_for(pos, ms)] + rest.index
                },
            }
        }),
{
}

/// A file `d` that begins with the head and the first chunks `log` of `w` and then breaks off
/// opens and holds the messages of those chunks; reading them all leaves the index that these
/// chunks have. A file breaks off where no whole chunk and no trailer follow.
pub proof fn law_cut_file_reads_back(w: WriterView, log: Seq<ClosedChunk>, d: Seq<u8>)
    requires
        tables_fit(w.head_schemas, w.head_channels),
        writer::chunks_hold(w.compressor, log),
        log_fits(log),
        d.len() < 0x1_0000_0000_0000_0000,
        wire::stands_at(d, 0, w.head() + writer::log_bytes(log)),
        !layout::chunk_stands(d, w.head().len() as int + writer::log_bytes(log).len()),
        !layout::has_trailer(d),
    ensures
        layout::index_fits(d),
        ReaderView::of_file(d) matches Ok(r) && r.whole_content() == Ok::<Seq<MessageView>, Seq<char>>(layout::resolved_all(
            w.head_schemas,
            w.head_channels,
            writer::log_records(log),
        )) && r.after_read_all().index == writer::log_index(w.head().len(), log),
{
    let head = w.head();
    let body = writer::log_bytes(log);
    wire::lemma_two_parts(d, 0, head, body);
    law_head_reads_back(d, w.compressor, w.head_schemas, w.head_channels);
    lemma_scan(w.head_schemas, w.head_channels, w.compressor, d, head.len(), log, 0);
    assert(log.skip(0) =~= log);
    assert(log.take(0).len() == 0);
    lemma_log_index_len(head.len(), log);
    assert(writer::log_index(head.len(), log).skip(0) =~= writer::log_index(head.len(), log));
}

proof fn lemma_log_bytes_prefix(log: Seq<ClosedChunk>, i: int)
    requires
        0 <= i <= log.len(),
    ensures
        chunk_start(log, i) <= writer::log_bytes(log).len(),
        writer::log_bytes(log.take(i)) == writer::log_bytes(log).take(chunk_start(log, i)),
    decreases log.len(),
{
    if i == log.len() {
        assert(log.take(i) =~= log);
        assert(writer::log_bytes(log) =~= writer::log_bytes(log).take(chunk_start(log, i)));
    } else {
        let front = log.drop_last();
        lemma_log_bytes_prefix(front, i);
        assert(front.take(i) =~= log.take(i));
        assert(writer::log_bytes(front).take(chunk_start(log, i)) =~= writer::log_bytes(log).take(
            chunk_start(log, i),
        ));
    }
}

/// A recording that was broken off keeps its complete chunks: however many of the first bytes
/// of an unfinished file are there, if they reach behind `k` chunks and not behind the next
/// one, and do not happen to end like a finished file, the messages of those `k` chunks are
/// read.
#[verifier::rlimit(40)]
pub proof fn law_broken_off_recording_keeps_its_chunks(w: WriterView, n: int, k: int)
    requires
        w.sound(),
        !w.finished,
        w.header_written,
        file_fits(w),
        0 <= k <= w.log.len(),
        w.head().len() + chunk_start(w.log, k) <= n <= w.file().len(),
        k < w.log.len() ==> n < w.head().len() + chunk_start(w.log, k + 1),
        !layout::has_trailer(w.file().take(n)),
    ensures
        layout::index_fits(w.file().take(n)),
        ReaderView::of_file(w.file().take(n)) matches Ok(r) && r.whole_content()
            == Ok::<Seq<MessageView>, Seq<char>>(layout::resolved_all(
            w.head_schemas,
            w.head_channels,
            writer::log_records(w.log.take(k)),
        )),
{
    let d = w.file().take(n);
    let start = w.head().len() as int;
    let log = w.log.take(k);
    let end = start + chunk_start(w.log, k);
    lemma_log_bytes_prefix(w.log, k);
    assert(d.subrange(0, end) =~= w.head() + writer::log_bytes(log));
    assert forall|i: int| 0 <= i < log.len() implies #[trigger] writer::chunk_holds(
        w.compressor,
        log[i],
    ) by {
        assert(writer::chunk_holds(w.compressor, w.log[i]));
    }
    assert forall|i: int| 0 <= i < log.len() implies chunk_fits(#[trigger] log[i]) by {
        assert(chunk_fits(w.log[i]));
    }
    assert(!layout::chunk_stands(d, end)) by {
        if k == w.log.len() {
            assert(w.log.take(k) =~= w.log);
        } else if end + 50 <= d.len() {
            lemma_cut_chunk(w, n, k);
        }
    }
    law_cut_file_reads_back(w, log, d);
}

proof fn lemma_cut_chunk(w: WriterView, n: int, k: int)
    requires
        w.file() == w.head() + writer::log_bytes(w.log),
        0 <= k < w.log.len(),
        chunk_fits(w.log[k]),
        w.head().len() + chunk_start(w.log, k) + 50 <= n < w.head().len() + chunk_start(
            w.log,
            k + 1,
        ),
    ensures
        !layout::chunk_stands(w.file().take(n), w.head().len() + chunk_start(w.log, k)),
{
    let d = w.file().take(n);
    let start = w.head().len() as int;
    let pos = start + chunk_start(w.log, k);
    let c = w.log[k];
    let before = w.log.take(k);
    let header = layout::chunk_header_bytes(writer::tally(before), c.records, c.block);
    let body = writer::log_bytes(w.log);
    lemma_chunk_stands(w.log, k);
    assert(w.file().subrange(start, start + body.len()) =~= body);
    lemma_inside(w.file(), start, body, chunk_start(w.log, k), writer::chunk_bytes(before, c));
    wire::lemma_two_parts(w.file(), pos, header, c.block);
    lemma_header_len(writer::tally(before), c.records, c.block);
    assert(d.subrange(pos, pos + 50) =~= w.file().subrange(pos, pos + 50));
    lemma_records_len(c.records);
    lemma_header_reads_back(d, pos, writer::tally(before), c.records, c.block);
}

proof fn lemma_log_records_push(log: Seq<ClosedChunk>, c: ClosedChunk)
    ensures
        writer::log_records(log.push(c)) == writer::log_records(log) + c.records,
{
    assert(log.push(c).drop_last() =~= log);
}

proof fn lemma_at_time_concat(a: Seq<RecordView>, b: Seq<RecordView>, t: u64)
    ensures
        order::at_time(a + b, t) == order::at_time(a, t) + order::at_time(b, t),
    decreases b.len(),
{
    if b.len() == 0 {
        assert(a + b =~= a);
        assert(order::at_time(a, t) + order::at_time(b, t) =~= order::at_time(a, t));
    } else {
        assert((a + b).drop_last() =~= a + b.drop_last());
        lemma_at_time_concat(a, b.drop_last(), t);
        assert(order::at_time(a + b, t) =~= order::at_time(a, t) + order::at_time(b, t));
    }
}

/// Closing the open chunk puts its messages in order of time and loses none: of each time, the
/// same messages stay recorded, in the same order.
proof fn lemma_flush_keeps(w: WriterView, t: u64)
    ensures
        order::at_time(w.flushed().0.recorded(), t) == order::at_time(w.recorded(), t),
        order::in_time_order(w.pending) ==> w.flushed().0.recorded() == w.recorded(),
        w.flushed().1 is None ==> w.flushed().0.pending.len() == 0,
{
    let rs = order::time_sorted(w.pending);
    let front = writer::log_records(w.log);
    order::law_sorting_is_stable(w.pending, t);
    lemma_at_time_concat(front, w.pending, t);
    lemma_at_time_concat(front, rs, t);
    if order::in_time_order(w.pending) {
        order::law_sorting_keeps_order(w.pending);
    }
    if w.pending.len() > 0 {
        if let Ok(block) = compress::packed(w.compressor, layout::records_bytes(rs)) {
            lemma_log_records_push(w.log, ClosedChunk { records: rs, block });
            assert(w.flushed().0.recorded() =~= front + rs);
        }
    }
}

/// Writing loses nothing: of each time, what was recorded and the new message stay recorded, in
/// that order, whether or not the call reports an error.
pub proof fn law_writing_loses_nothing(w: WriterView, r: RecordView, t: u64)
    ensures
        order::at_time(w.after_write(r).0.recorded(), t) == order::at_time(
            w.recorded().push(r),
            t,
        ),
{
    let next = w.with_head().with_pending(r);
    lemma_flush_keeps(next, t);
    assert(next.recorded() =~= w.recorded().push(r));
}

/// Writing in order of time appends to what is recorded.
pub proof fn law_writing_in_order_appends(w: WriterView, r: RecordView)
    requires
        order::in_time_order(w.pending.push(r)),
    ensures
        w.after_write(r).0.recorded() == w.recorded().push(r),
{
    let next = w.with_head().with_pending(r);
    lemma_flush_keeps(next, 0);
    assert(next.recorded() =~= w.recorded().push(r));
}

/// Finishing loses nothing: of each time, the same messages stay recorded, in the same order.
/// What was in order of time already stays as it is.
pub proof fn law_finishing_loses_nothing(w: WriterView, t: u64)
    ensures
        order::at_time(w.after_finish().0.recorded(), t) == order::at_time(w.recorded(), t),
        order::in_time_order(w.pending) ==> w.after_finish().0.recorded() == w.recorded(),
{
    if !w.finished {
        lemma_flush_keeps(w.with_head(), t);
    }
}

/// Finishing twice is the same as finishing once.
pub proof fn law_finishing_again_changes_nothing(w: WriterView)
    requires
        w.after_finish().1 is None,
    ensures
        w.after_finish().0.after_finish() == w.after_finish(),
{
}

/// The writer after the messages `rs` were written one by one.
pub open spec fn after_writes(w: WriterView, rs: Seq<RecordView>) -> WriterView
    decreases rs.len(),
{
    if rs.len() == 0 {
        w
    } else {
        after_writes(w, rs.drop_last()).after_write(rs.last()).0
    }
}

proof fn lemma_in_order_prefix(s: Seq<RecordView>)
    requires
        s.len() > 0,
        order::in_time_order(s),
    ensures
        order::in_time_order(s.drop_last()),
{
    let d = s.drop_last();
    assert forall|i: int, j: int| 0 <= i <= j < d.len() implies (
    #[trigger] d[i]).stamp <= (#[trigger] d[j]).stamp by {
        assert(order::Timed::time_key(s[i]) <= order::Timed::time_key(s[j]));
    }
}

proof fn lemma_writes_in_order(w: WriterView, rs: Seq<RecordView>)
    requires
        w.recorded().len() == 0,
        !w.header_written,
        order::in_time_order(rs),
    ensures
        after_writes(w, rs).recorded() == rs,
        rs.len() > 0 ==> after_writes(w, rs).header_written,
        after_writes(w, rs).with_head().head_schemas == w.schemas,
        after_writes(w, rs).with_head().head_channels == w.channels,
    decreases rs.len(),
{
    if rs.len() == 0 {
        assert(w.recorded() =~= rs);
    } else {
        let front = rs.drop_last();
        lemma_in_order_prefix(rs);
        lemma_writes_in_order(w, front);
        let v = after_writes(w, front);
        let p = v.pending.push(rs.last());
        let k = writer::log_records(v.log).len();
        assert(front.push(rs.last()) =~= rs);
        assert(rs =~= writer::log_records(v.log) + p);
        assert forall|i: int, j: int| 0 <= i <= j < p.len() implies (
        #[trigger] p[i]).stamp <= (#[trigger] p[j]).stamp by {
            assert(p[i] == rs[k + i]);
            assert(p[j] == rs[k + j]);
            assert(order::Timed::time_key(rs[k + i]) <= order::Timed::time_key(rs[k + j]));
        }
        law_writing_in_order_appends(v, rs.last());
    }
}

/// Messages that are written in order of time and finished read back as they were written, in
/// that order: for a writer `w` on which only schemas and channels were declared.
pub proof fn law_written_in_order_reads_back(w: WriterView, rs: Seq<RecordView>)
    requires
        w.recorded().len() == 0,
        !w.header_written,
        order::in_time_order(rs),
        after_writes(w, rs).after_finish().0.complete(),
        file_fits(after_writes(w, rs).after_finish().0),
        !after_writes(w, rs).finished,
    ensures
        ReaderView::of_file(after_writes(w, rs).after_finish().0.file()) matches Ok(r)
            && r.whole_content() == Ok::<Seq<MessageView>, Seq<char>>(layout::resolved_all(w.schemas, w.channels, rs)),
{
    let v = after_writes(w, rs);
    let end = v.after_finish().0;
    lemma_writes_in_order(w, rs);
    assert(order::in_time_order(v.pending)) by {
        let k = writer::log_records(v.log).len();
        assert(rs =~= writer::log_records(v.log) + v.pending);
        assert forall|i: int, j: int| 0 <= i <= j < v.pending.len() implies (
        #[trigger] v.pending[i]).stamp <= (#[trigger] v.pending[j]).stamp by {
            assert(v.pending[i] == rs[k + i]);
            assert(v.pending[j] == rs[k + j]);
            assert(order::Timed::time_key(rs[k + i]) <= order::Timed::time_key(rs[k + j]));
        }
    }
    law_finishing_loses_nothing(v, 0);
    law_finished_file_reads_back(end);
}

pub proof fn lemma_channel_found(s: Seq<ChannelView>, i: int)
    requires
        s.len() <= 0xffff,
        forall|k: int| 0 <= k < s.len() ==> (#[trigger] s[k]).id == writer::next_id(k as nat),
        0 <= i < s.len(),
    ensures
        layout::channel_with(s, s[i].id) == Some(s[i]),
    decreases s.len(),
{
    let front = s.drop_last();
    if i < front.len() {
        assert(front[i] == s[i]);
        lemma_channel_found(front, i);
    } else {
        lemma_channel_absent(front, s[i].id);
    }
}

proof fn lemma_channel_absent(s: Seq<ChannelView>, id: u16)
    requires
        forall|k: int| 0 <= k < s.len() ==> (#[trigger] s[k]).id != id,
    ensures
        layout::channel_with(s, id) is None,
    decreases s.len(),
{
    if s.len() > 0 {
        assert(s[s.len() - 1].id != id);
        lemma_channel_absent(s.drop_last(), id);
    }
}

pub proof fn lemma_schema_found(s: Seq<SchemaView>, i: int)
    requires
        s.len() <= 0xffff,
        forall|k: int| 0 <= k < s.len() ==> (#[trigger] s[k]).id == writer::next_id(k as nat),
        0 <= i < s.len(),
    ensures
        layout::schema_with(s, s[i].id) == Some(s[i]),
    decreases s.len(),
{
    let front = s.drop_last();
    if i < front.len() {
        assert(front[i] == s[i]);
        lemma_schema_found(front, i);
    } else {
        lemma_schema_absent(front, s[i].id);
    }
}

proof fn lemma_schema_absent(s: Seq<SchemaView>, id: u16)
    requires
        forall|k: int| 0 <= k < s.len() ==> (#[trigger] s[k]).id != id,
    ensures
        layout::schema_with(s, id) is None,
    decreases s.len(),
{
    if s.len() > 0 {
        assert(s[s.len() - 1].id != id);
        lemma_schema_absent(s.drop_last(), id);
    }
}

/// A message on a declared channel reads back with the name of that channel and its schema, as
/// long as there are no more channels and no more schemas than ids.
pub proof fn law_message_on_declared_channel_resolves(
    w: WriterView,
    i: int,
    j: int,
    stamp: u64,
    payload: Seq<u8>,
)
    requires
        w.sound(),
        w.schemas.len() <= 0xffff,
        w.channels.len() <= 0xffff,
        0 <= i < w.channels.len(),
        0 <= j < w.schemas.len(),
        w.channels[i].schema_id == w.schemas[j].id,
    ensures
        layout::resolved(
            w.schemas,
            w.channels,
            RecordView { channel: w.channels[i].id, stamp, payload },
        ) == (MessageView { channel: w.channels[i].name, stamp, schema: w.schemas[j], payload }),
{
    lemma_channel_found(w.channels, i);
    lemma_schema_found(w.schemas, j);
}

/// Declaring a channel again, under whatever schema, gives the same id and changes nothing.
pub proof fn law_channel_is_declared_once(
    w: WriterView,
    name: Seq<char>,
    schema_id: u16,
    other: u16,
)
    ensures
        ({
            let (after, id) = w.after_add_channel(name, schema_id);
            after.after_add_channel(name, other) == (after, id)
        }),
{
    let (after, id) = w.after_add_channel(name, schema_id);
    if writer::channel_named(w.channels, name) is None {
        assert(after.channels.drop_last() =~= w.channels);
    }
}

/// Declaring a schema again gives the same id and changes nothing.
pub proof fn law_schema_is_declared_once(w: WriterView, schema: SchemaView, id: u16)
    ensures
        ({
            let (after, first) = w.after_add_schema(schema);
            after.after_add_schema(SchemaView { id, ..schema }) == (after, first)
        }),
{
    let (after, first) = w.after_add_schema(schema);
    if writer::schema_like(w.schemas, schema.typename, schema.encoding) is None {
        assert(after.schemas.drop_last() =~= w.schemas);
    }
}

proof fn lemma_count_of_log(w: WriterView, n: int)
    requires
        w.complete(),
        file_fits(w),
        0 <= n <= w.log.len(),
    ensures
        play::count_before(w.index, n) == writer::log_records(w.log.take(n)).len(),
    decreases n,
{
    if n > 0 {
        lemma_count_of_log(w, n - 1);
        law_finished_file_reads_by_chunk(w, n - 1);
        lemma_finished_file_opens(w);
        assert(w.log.take(n).drop_last() =~= w.log.take(n - 1));
    } else {
        assert(w.log.take(n).len() == 0);
    }
}

proof fn lemma_entry_holds(w: WriterView, c: int)
    requires
        w.complete(),
        file_fits(w),
        0 <= c < w.log.len(),
    ensures
        w.index.len() == w.log.len(),
        play::entry_holds(w.index[c], finished_view(w).chunk_content(c)),
        finished_view(w).chunk_content(c) == Ok::<Seq<MessageView>, Seq<char>>(
            layout::resolved_all(w.head_schemas, w.head_channels, w.log[c].records),
        ),
{
    let rs = w.log[c].records;
    law_finished_file_reads_by_chunk(w, c);
    lemma_finished_file_opens(w);
    assert(writer::chunk_holds(w.compressor, w.log[c]));
    lemma_resolved_order(w.head_schemas, w.head_channels, rs);
}

/// Messages of records in order of time are in order of time.
proof fn lemma_resolved_order(
    schemas: Seq<SchemaView>,
    channels: Seq<ChannelView>,
    rs: Seq<RecordView>,
)
    requires
        order::in_time_order(rs),
    ensures
        order::time_sorted(layout::resolved_all(schemas, channels, rs)) == layout::resolved_all(
            schemas,
            channels,
            rs,
        ),
{
    let ms = layout::resolved_all(schemas, channels, rs);
    assert forall|i: int, j: int| 0 <= i <= j < ms.len() implies order::Timed::time_key(
        #[trigger] ms[i],
    ) <= order::Timed::time_key(#[trigger] ms[j]) by {
        assert(order::Timed::time_key(rs[i]) <= order::Timed::time_key(rs[j]));
    }
    order::law_sorting_keeps_order(ms);
}

/// What the first `n` chunks of a finished file hold, one chunk after the other.
proof fn lemma_gathered(w: WriterView, n: int)
    requires
        w.complete(),
        file_fits(w),
        0 <= n <= w.log.len(),
    ensures
        w.index.len() == w.log.len(),
        play::gathered(
            Seq::new(w.index.len(), |i: int| finished_view(w).chunk_content(i)).take(n),
        ) == layout::resolved_all(
            w.head_schemas,
            w.head_channels,
            writer::log_records(w.log.take(n)),
        ),
    decreases n,
{
    lemma_log_index_len(w.head().len(), w.log);
    let contents = Seq::new(w.index.len(), |i: int| finished_view(w).chunk_content(i));
    if n == 0 {
        assert(contents.take(0).len() == 0);
        assert(w.log.take(0).len() == 0);
        assert(play::gathered(contents.take(0)) =~= layout::resolved_all(
            w.head_schemas,
            w.head_channels,
            writer::log_records(w.log.take(0)),
        ));
    } else {
        lemma_gathered(w, n - 1);
        lemma_entry_holds(w, n - 1);
        assert(contents.take(n).drop_last() =~= contents.take(n - 1));
        assert(contents.take(n).last() == finished_view(w).chunk_content(n - 1));
        assert(w.log.take(n).drop_last() =~= w.log.take(n - 1));
        lemma_resolved_concat(
            w.head_schemas,
            w.head_channels,
            writer::log_records(w.log.take(n - 1)),
            w.log[n - 1].records,
        );
    }
}

/// A player that was just opened on a file of which a reader knows `r`.
pub open spec fn player_of(r: ReaderView, options: PlayOptions) -> PlayerView {
    play::fresh(
        options,
        r.index,
        Seq::new(r.index.len(), |i: int| r.chunk_content(i)),
        r.whole_content(),
    )
}

/// What opening a player on a reader of a file gives depends on what the reader knows alone.
pub proof fn lemma_player_of(reader: SingleFileReader, options: PlayOptions)
    ensures
        play::opened(reader, options) == player_of(reader@, options),
{
    assert(play::opened(reader, options).contents =~= player_of(reader@, options).contents);
}

/// All messages of a finished file can be played, and its chunks follow each other in time if
/// the messages do.
pub proof fn law_finished_file_is_playable(w: WriterView, options: PlayOptions)
    requires
        w.complete(),
        file_fits(w),
        w.recorded().len() <= usize::MAX,
    ensures
        ReaderView::of_file(w.file()) matches Ok(r) && player_of(r, options).playable()
            && player_of(r, options).total == w.recorded().len() && player_of(
            r,
            options,
        ).all_messages() == order::time_sorted(
            layout::resolved_all(w.head_schemas, w.head_channels, w.recorded()),
        ) && (order::in_time_order(w.recorded()) ==> play::in_order(r.index)),
{
    lemma_finished_file_opens(w);
    lemma_finished_player(w, options);
    if order::in_time_order(w.recorded()) {
        lemma_log_index_len(w.head().len(), w.log);
        assert forall|a: int, b: int| 0 <= a < b < w.index.len() implies (
        #[trigger] w.index[a]).end_stamp <= (#[trigger] w.index[b]).start_stamp by {
            lemma_chunks_follow(w, a, b);
        }
    }
}

proof fn lemma_finished_player(w: WriterView, options: PlayOptions)
    requires
        w.complete(),
        file_fits(w),
        w.recorded().len() <= usize::MAX,
    ensures
        ({
            let v = player_of(finished_view(w), options);
            &&& v.playable()
            &&& v.total == w.recorded().len()
            &&& v.all_messages() == order::time_sorted(
                layout::resolved_all(w.head_schemas, w.head_channels, w.recorded()),
            )
        }),
{
    let v = player_of(finished_view(w), options);
    let n = w.log.len() as int;
    let ms = layout::resolved_all(w.head_schemas, w.head_channels, w.recorded());
    lemma_log_index_len(w.head().len(), w.log);
    assert(w.log.take(n) =~= w.log);
    assert(w.recorded() =~= writer::log_records(w.log));
    order::law_sorted_is_in_order(ms);
    order::lemma_sorted_len(ms);
    if n == 0 {
        lemma_finished_file_opens(w);
        law_finished_file_reads_back(w);
    } else {
        lemma_count_of_log(w, n);
        lemma_gathered(w, n);
        assert(v.contents.take(n) =~= v.contents);
        assert forall|c: int| 0 <= c < v.chunks.len() implies #[trigger] play::entry_holds(
            v.chunks[c],
            v.contents[c],
        ) by {
            lemma_entry_holds(w, c);
        }
    }
}

/// The records of a chunk among those of all chunks.
proof fn lemma_chunk_records(log: Seq<ClosedChunk>, c: int)
    requires
        0 <= c < log.len(),
    ensures
        ({
            let before = writer::log_records(log.take(c)).len() as int;
            &&& before + log[c].records.len() <= writer::log_records(log).len()
            &&& writer::log_records(log).subrange(before, before + log[c].records.len())
                == log[c].records
            &&& writer::log_records(log.take(c + 1)).len() == before + log[c].records.len()
        }),
    decreases log.len(),
{
    let front = log.drop_last();
    let all = writer::log_records(log);
    let before = writer::log_records(log.take(c)).len() as int;
    if c == log.len() - 1 {
        assert(log.take(c) =~= front);
        assert(log.take(c + 1) =~= log);
        assert(all.subrange(before, all.len() as int) =~= log[c].records);
    } else {
        lemma_chunk_records(front, c);
        assert(front.take(c) =~= log.take(c));
        assert(front.take(c + 1) =~= log.take(c + 1));
        let f = writer::log_records(front);
        assert(all.subrange(before, before + log[c].records.len()) =~= f.subrange(
            before,
            before + log[c].records.len(),
        ));
    }
}

proof fn lemma_log_records_grow(log: Seq<ClosedChunk>, a: int, b: int)
    requires
        0 <= a <= b <= log.len(),
    ensures
        writer::log_records(log.take(a)).len() <= writer::log_records(log.take(b)).len(),
    decreases b - a,
{
    if a < b {
        lemma_chunk_records(log, a);
        lemma_log_records_grow(log, a + 1, b);
    }
}

proof fn lemma_chunks_follow(w: WriterView, a: int, b: int)
    requires
        w.complete(),
        file_fits(w),
        0 <= a < b < w.log.len(),
        order::in_time_order(w.recorded()),
    ensures
        w.index.len() == w.log.len(),
        w.index[a].end_stamp <= w.index[b].start_stamp,
{
    law_finished_file_reads_by_chunk(w, a);
    law_finished_file_reads_by_chunk(w, b);
    lemma_finished_file_opens(w);
    assert(writer::chunk_holds(w.compressor, w.log[a]));
    assert(writer::chunk_holds(w.compressor, w.log[b]));
    let all = writer::log_records(w.log);
    assert(w.recorded() =~= all);
    lemma_chunk_records(w.log, a);
    lemma_chunk_records(w.log, b);
    lemma_log_records_grow(w.log, a + 1, b);
    let na = writer::log_records(w.log.take(a)).len() as int;
    let nb = writer::log_records(w.log.take(b)).len() as int;
    let la = w.log[a].records.len() as int;
    assert(w.log[a].records[la - 1] == all[na + la - 1]);
    assert(w.log[b].records[0] == all[nb]);
    assert(order::Timed::time_key(all[na + la - 1]) <= order::Timed::time_key(all[nb]));
}

/// Playing a finished file from the beginning gives the messages that were recorded, one after
/// the other in order of time, those of one time in the order in which they were recorded.
pub proof fn law_finished_file_plays_what_was_recorded(
    w: WriterView,
    options: PlayOptions,
    i: nat,
)
    requires
        w.complete(),
        file_fits(w),
        w.recorded().len() <= usize::MAX,
        i < w.recorded().len(),
    ensures
        ReaderView::of_file(w.file()) matches Ok(r) && player_of(r, options).message_at(i) == Ok::<
            MessageView,
            Seq<char>,
        >(
            order::time_sorted(
                layout::resolved_all(w.head_schemas, w.head_channels, w.recorded()),
            )[i as int],
        ),
        order::in_time_order(w.recorded()) ==> order::time_sorted(
            layout::resolved_all(w.head_schemas, w.head_channels, w.recorded()),
        ) == layout::resolved_all(w.head_schemas, w.head_channels, w.recorded()),
{
    law_finished_file_is_playable(w, options);
    lemma_finished_file_opens(w);
    play::law_streaming_plays_what_reading_all_gives(player_of(finished_view(w), options), i);
    if order::in_time_order(w.recorded()) {
        lemma_resolved_order(w.head_schemas, w.head_channels, w.recorded());
    }
}

/// Where several entries have the same id, the first one counts.
pub proof fn law_first_entry_of_an_id_counts(
    schemas: Seq<SchemaView>,
    channels: Seq<ChannelView>,
    r: RecordView,
    i: int,
    j: int,
)
    requires
        0 <= i < channels.len(),
        channels[i].id == r.channel,
        forall|k: int| 0 <= k < i ==> (#[trigger] channels[k]).id != r.channel,
        0 <= j <= schemas.len(),
        j < schemas.len() ==> schemas[j].id == channels[i].schema_id,
        forall|k: int| 0 <= k < j ==> (#[trigger] schemas[k]).id != channels[i].schema_id,
    ensures
        layout::resolved(schemas, channels, r) == (MessageView {
            channel: channels[i].name,
            stamp: r.stamp,
            schema: if j < schemas.len() {
                schemas[j]
            } else {
                SchemaView {
                    id: channels[i].schema_id,
                    typename: Seq::empty(),
                    encoding: Seq::empty(),
                }
            },
            payload: r.payload,
        }),
{
    lemma_first_channel_counts(channels, i);
    if j < schemas.len() {
        lemma_first_schema_counts(schemas, j);
    } else {
        lemma_schema_absent(schemas, channels[i].schema_id);
    }
}

proof fn lemma_first_channel_counts(s: Seq<ChannelView>, i: int)
    requires
        0 <= i < s.len(),
        forall|k: int| 0 <= k < i ==> (#[trigger] s[k]).id != s[i].id,
    ensures
        layout::channel_with(s, s[i].id) == Some(s[i]),
    decreases s.len(),
{
    let front = s.drop_last();
    if i < front.len() {
        assert(front[i] == s[i]);
        lemma_first_channel_counts(front, i);
    } else {
        lemma_channel_absent(front, s[i].id);
    }
}

proof fn lemma_first_schema_counts(s: Seq<SchemaView>, i: int)
    requires
        0 <= i < s.len(),
        forall|k: int| 0 <= k < i ==> (#[trigger] s[k]).id != s[i].id,
    ensures
        layout::schema_with(s, s[i].id) == Some(s[i]),
    decreases s.len(),
{
    let front = s.drop_last();
    if i < front.len() {
        assert(front[i] == s[i]);
        lemma_first_schema_counts(front, i);
    } else {
        lemma_schema_absent(front, s[i].id);
    }
}

/// A message on a channel that is not declared keeps its time and its payload, on a channel without
/// a name and of a type without a name.
pub proof fn law_message_on_unknown_channel_has_no_name(
    schemas: Seq<SchemaView>,
    channels: Seq<ChannelView>,
    r: RecordView,
)
    requires
        forall|k: int| 0 <= k < channels.len() ==> (#[trigger] channels[k]).id != r.channel,
    ensures
        layout::resolved(schemas, channels, r) == (MessageView {
            channel: Seq::empty(),
            stamp: r.stamp,
            schema: SchemaView { id: 0, typename: Seq::empty(), encoding: Seq::empty() },
            payload: r.payload,
        }),
{
    lemma_channel_absent(channels, r.channel);
}

/// Of several records each one becomes a message, in the same order.
pub proof fn law_each_record_becomes_a_message(
    schemas: Seq<SchemaView>,
    channels: Seq<ChannelView>,
    rs: Seq<RecordView>,
    i: int,
)
    requires
        0 <= i < rs.len(),
    ensures
        layout::resolved_all(schemas, channels, rs).len() == rs.len(),
        layout::resolved_all(schemas, channels, rs)[i] == layout::resolved(
            schemas,
            channels,
            rs[i],
        ),
{
}

} // verus!
