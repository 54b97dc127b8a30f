//! Files of the older version 1: records one behind the other, without chunks.

use crate::layout::{Head, RecordView};
use crate::message::{ChannelView, MessageView, SchemaView};
use crate::singlefile::laws;
use crate::singlefile::reader::ReaderView;
use crate::{layout, le, wire};
use vstd::prelude::*;

verus! {

/// The head of a file of version 1: the mark, the version, the flags and the two tables.
#[verifier::opaque]
pub open spec fn older_head(
    flags: u32,
    schemas: Seq<SchemaView>,
    channels: Seq<ChannelView>,
) -> Seq<u8> {
    // "#DCAP"
    seq![0x23u8, 0x44, 0x43, 0x41, 0x50] + le::le_bytes(1, 4) + le::le_bytes(flags as nat, 4)
        + le::le_bytes(schemas.len(), 4) + layout::schemas_bytes(schemas) + le::le_bytes(
        channels.len(),
        4,
    ) + layout::channels_bytes(channels)
}

/// The mark that ends a file, "DCAP_END".
pub open spec fn end_mark() -> Seq<u8> {
    seq![0x44u8, 0x43, 0x41, 0x50, 0x5f, 0x45, 0x4e, 0x44]
}

/// The end of a file of version 1: the mark, where the head ends, and the number of messages.
pub open spec fn older_end(data_offset: u64, count: u64) -> Seq<u8> {
    end_mark() + le::le_bytes(data_offset as nat, 8) + le::le_bytes(count as nat, 8)
}

/// Whether no record begins like the end of a file.
pub open spec fn unlike_the_end(rs: Seq<RecordView>) -> bool {
    forall|i: int|
        0 <= i < rs.len() ==> layout::record_bytes(#[trigger] rs[i]).take(8) != end_mark()
}

#[verifier::rlimit(40)]
proof fn lemma_older_head(
    d: Seq<u8>,
    flags: u32,
    schemas: Seq<SchemaView>,
    channels: Seq<ChannelView>,
)
    requires
        wire::stands_at(d, 0, older_head(flags, schemas, channels)),
        laws::tables_fit(schemas, channels),
    ensures
        layout::head_of(d) == Ok::<Head, Seq<char>>(
            (Head {
                version: 1,
                compressor: 0,
                schemas,
                channels,
                data_offset: older_head(flags, schemas, channels).len() as int,
            }),
        ),
{
    reveal(older_head);
    let m = layout::file_magic();
    let v = le::le_bytes(1, 4);
    let f = le::le_bytes(flags as nat, 4);
    let ns = le::le_bytes(schemas.len(), 4);
    let s = layout::schemas_bytes(schemas);
    let nc = le::le_bytes(channels.len(), 4);
    let t = layout::channels_bytes(channels);
    assert(m =~= seq![0x23u8, 0x44, 0x43, 0x41, 0x50]);
    le::lemma_le_limits();
    wire::lemma_two_parts(d, 0, m + v + f + ns + s + nc, t);
    wire::lemma_two_parts(d, 0, m + v + f + ns + s, nc);
    wire::lemma_two_parts(d, 0, m + v + f + ns, s);
    wire::lemma_two_parts(d, 0, m + v + f, ns);
    wire::lemma_two_parts(d, 0, m + v, f);
    wire::lemma_two_parts(d, 0, m, v);
    wire::lemma_number_reads_back(d, 5, 1, 4);
    wire::lemma_number_reads_back(d, 9, flags as nat, 4);
    wire::lemma_number_reads_back(d, 13, schemas.len(), 4);
    laws::lemma_schemas_read_back(d, 17, schemas);
    wire::lemma_number_reads_back(d, 17 + s.len() as int, channels.len(), 4);
    laws::lemma_channels_read_back(d, 21 + s.len() as int, channels);
}

/// The records from number `i` on are read one by one.
#[verifier::rlimit(40)]
proof fn lemma_plain(
    schemas: Seq<SchemaView>,
    channels: Seq<ChannelView>,
    d: Seq<u8>,
    start: int,
    rs: Seq<RecordView>,
    i: int,
    left: Option<int>,
)
    requires
        0 <= i <= rs.len(),
        wire::stands_at(d, start, layout::records_bytes(rs)),
        laws::payloads_fit(rs),
        unlike_the_end(rs),
        left matches Some(n) ==> n >= rs.len() - i,
    ensures
        layout::plain_from(
            schemas,
            channels,
            d,
            start + layout::records_size(rs.take(i)),
            left,
        ) == layout::resolved_all(schemas, channels, rs.skip(i)) + layout::plain_from(
            schemas,
            channels,
            d,
            start + layout::records_size(rs),
            match left {
                Some(n) => Some(n - (rs.len() - i)),
                None => None,
            },
        ),
    decreases rs.len() - i,
{
    let pos = start + layout::records_size(rs.take(i));
    let rest = layout::resolved_all(schemas, channels, rs.skip(i));
    if i == rs.len() {
        assert(rs.take(i) =~= rs);
        assert(rest =~= Seq::empty());
        assert(layout::plain_from(schemas, channels, d, pos, left) =~= rest + layout::plain_from(
            schemas,
            channels,
            d,
            pos,
            left,
        ));
    } else {
        let r = rs[i];
        let b = layout::record_bytes(r);
        laws::lemma_record_stands(rs, i);
        laws::lemma_inside(
            d,
            start,
            layout::records_bytes(rs),
            layout::records_size(rs.take(i)) as int,
            b,
        );
        laws::lemma_record_reads_back(d, pos, r);
        if wire::stands_at(d, pos, layout::end_magic()) {
            assert(b.take(8) =~= end_mark()) by {
                assert(layout::end_magic() =~= end_mark());
                assert forall|k: int| 0 <= k < 8 implies b[k] == end_mark()[k] by {
                    assert(d.subrange(pos, pos + b.len())[k] == b[k]);
                    assert(d.subrange(pos, pos + 8)[k] == layout::end_magic()[k]);
                }
            }
        }
        let next = match left {
            Some(n) => Some(n - 1),
            None => None,
        };
        lemma_plain(schemas, channels, d, start, rs, i + 1, next);
        let m = layout::resolved(schemas, channels, r);
        let more = layout::resolved_all(schemas, channels, rs.skip(i + 1));
        assert(rest =~= seq![m] + more);
        let tail = layout::plain_from(
            schemas,
            channels,
            d,
            start + layout::records_size(rs),
            match left {
                Some(n) => Some(n - (rs.len() - i)),
                None => None,
            },
        );
        assert(seq![m] + (more + tail) =~= rest + tail);
    }
}

/// A file of version 1 that was brought to its end holds its records, as its end counts them.
#[verifier::rlimit(40)]
pub proof fn law_older_file_reads_back(
    flags: u32,
    schemas: Seq<SchemaView>,
    channels: Seq<ChannelView>,
    rs: Seq<RecordView>,
    data_offset: u64,
)
    requires
        laws::tables_fit(schemas, channels),
        laws::payloads_fit(rs),
        unlike_the_end(rs),
        rs.len() <= u64::MAX,
    ensures
        ({
            let d = older_head(flags, schemas, channels) + layout::records_bytes(rs) + older_end(
                data_offset,
                rs.len() as u64,
            );
            ReaderView::of_file(d) matches Ok(r) && r.head.version == 1 && r.head.schemas == schemas
                && r.head.channels == channels && r.index.len() == 0 && r.count == Some(
                rs.len() as u64,
            ) && r.whole_content() == Ok::<Seq<MessageView>, Seq<char>>(
                layout::resolved_all(schemas, channels, rs),
            )
        }),
{
    let head = older_head(flags, schemas, channels);
    let body = layout::records_bytes(rs);
    let count = rs.len() as u64;
    let end = older_end(data_offset, count);
    let d = head + body + end;
    assert(d =~= head + (body + end));
    assert(d.subrange(0, d.len() as int) =~= head + (body + end));
    wire::lemma_two_parts(d, 0, head, body + end);
    wire::lemma_two_parts(d, head.len() as int, body, end);
    lemma_older_head(d, flags, schemas, channels);
    le::lemma_le_limits();
    let o = le::le_bytes(data_offset as nat, 8);
    let k = le::le_bytes(count as nat, 8);
    le::lemma_le_bytes_len(data_offset as nat, 8);
    le::lemma_le_bytes_len(count as nat, 8);
    assert(layout::end_magic() =~= end_mark());
    let e = d.len() - 24;
    wire::lemma_two_parts(d, e, end_mark() + o, k);
    wire::lemma_two_parts(d, e, end_mark(), o);
    wire::lemma_number_reads_back(d, d.len() - 8, count as nat, 8);
    laws::lemma_records_len(rs);
    lemma_plain(schemas, channels, d, head.len() as int, rs, 0, Some(rs.len() as int));
    assert(rs.take(0).len() == 0);
    assert(rs.skip(0) =~= rs);
    let all = layout::resolved_all(schemas, channels, rs);
    assert(all + Seq::<MessageView>::empty() =~= all);
}

/// A part of a record at the end of a file is no record.
proof fn lemma_part_of_a_record(d: Seq<u8>, pos: int, r: RecordView, k: int)
    requires
        0 <= pos <= d.len(),
        0 <= k < 14 + r.payload.len(),
        r.payload.len() < 0x1_0000_0000,
        d.subrange(pos, d.len() as int) == layout::record_bytes(r).take(k),
    ensures
        !layout::record_fits(d, pos),
{
    let a = le::le_bytes(r.channel as nat, 2);
    let t = le::le_bytes(r.stamp as nat, 8);
    let n = le::le_bytes(r.payload.len(), 4);
    let b = layout::record_bytes(r);
    le::lemma_le_limits();
    le::lemma_le_bytes_len(r.channel as nat, 2);
    le::lemma_le_bytes_len(r.stamp as nat, 8);
    le::lemma_le_value_of_bytes(r.payload.len(), 4);
    assert(b.len() == 14 + r.payload.len());
    assert(d.subrange(pos, d.len() as int).len() == b.take(k).len());
    if k >= 14 {
        assert(d.subrange(pos + 10, pos + 14) =~= n) by {
            assert forall|i: int| 0 <= i < 4 implies d[pos + 10 + i] == n[i] by {
                assert(d.subrange(pos, d.len() as int)[10 + i] == b[10 + i]);
            }
        }
    }
}

/// A file of version 1 that was broken off, within a record or behind one, holds the records that
/// are whole.
#[verifier::rlimit(40)]
pub proof fn law_older_file_that_was_cut_keeps_whole_records(
    flags: u32,
    schemas: Seq<SchemaView>,
    channels: Seq<ChannelView>,
    rs: Seq<RecordView>,
    r: RecordView,
    k: int,
)
    requires
        laws::tables_fit(schemas, channels),
        laws::payloads_fit(rs.push(r)),
        unlike_the_end(rs.push(r)),
        0 <= k < 14 + r.payload.len(),
        ({
            let d = older_head(flags, schemas, channels) + layout::records_bytes(rs)
                + layout::record_bytes(r).take(k);
            !wire::stands_at(d, d.len() - 24, end_mark())
        }),
    ensures
        ({
            let d = older_head(flags, schemas, channels) + layout::records_bytes(rs)
                + layout::record_bytes(r).take(k);
            ReaderView::of_file(d) matches Ok(v) && v.count is None && v.whole_content() == Ok::<
                Seq<MessageView>,
                Seq<char>,
            >(layout::resolved_all(schemas, channels, rs))
        }),
{
    let head = older_head(flags, schemas, channels);
    let body = layout::records_bytes(rs);
    let b = layout::record_bytes(r);
    let rest = b.take(k);
    let d = head + body + rest;
    assert(rs.push(r)[rs.len() as int] == r);
    assert forall|i: int| 0 <= i < rs.len() implies (#[trigger] rs[i]).payload.len() < 0x1_0000_0000
        && layout::record_bytes(rs[i]).take(8) != end_mark() by {
        assert(rs.push(r)[i] == rs[i]);
    }
    assert(d =~= head + (body + rest));
    assert(d.subrange(0, d.len() as int) =~= head + (body + rest));
    wire::lemma_two_parts(d, 0, head, body + rest);
    wire::lemma_two_parts(d, head.len() as int, body, rest);
    lemma_older_head(d, flags, schemas, channels);
    assert(layout::end_magic() =~= end_mark());
    laws::lemma_records_len(rs);
    lemma_plain(schemas, channels, d, head.len() as int, rs, 0, None);
    assert(rs.take(0).len() == 0);
    assert(rs.skip(0) =~= rs);
    let p = (head + body).len() as int;
    assert(d.subrange(p, d.len() as int) =~= rest);
    lemma_part_of_a_record(d, p, r, k);
    let all = layout::resolved_all(schemas, channels, rs);
    assert(all + Seq::<MessageView>::empty() =~= all);
}

} // verus!
