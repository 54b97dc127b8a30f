//! When a writer writes what: the head, the chunks and the tables.

use crate::layout::RecordView;
use crate::message::{ChannelView, SchemaView};
use crate::singlefile::places::records_len;
use crate::singlefile::writer;
use crate::singlefile::writer::WriterView;
use crate::{compress, layout, order};
use vstd::prelude::*;

verus! {

/// A writer starts without schemas, channels or messages; it will deflate its chunks, and close
/// them at four mebibytes.
pub proof fn law_new_writer_is_empty()
    ensures
        ({
            let w = WriterView::fresh();
            &&& w.schemas.len() == 0 && w.channels.len() == 0
            &&& w.recorded().len() == 0
            &&& w.file().len() == 0
            &&& !w.header_written && !w.finished
            &&& w.compressor == 2
            &&& w.chunk_target == 4 * 1024 * 1024
            &&& w.sound()
        }),
{
    reveal_with_fuel(writer::log_records, 2);
}

proof fn lemma_sizes_agree(rs: Seq<RecordView>)
    ensures
        records_len(rs) == layout::records_size(rs),
    decreases rs.len(),
{
    if rs.len() > 0 {
        lemma_sizes_agree(rs.drop_last());
    }
}

/// What is written to the file stays there: bytes are only ever appended.
pub proof fn law_writing_only_appends(w: WriterView, r: RecordView)
    ensures
        w.file().is_prefix_of(w.after_write(r).0.file()),
        w.file().is_prefix_of(w.after_finish().0.file()),
        w.after_write(r).0.taken == w.taken,
        w.after_finish().0.taken == w.taken,
        w.log.is_prefix_of(w.after_write(r).0.log),
        w.log.is_prefix_of(w.after_finish().0.log),
{
    let h = w.with_head();
    assert(w.file().is_prefix_of(h.file())) by {
        assert(w.file() =~= h.file().take(w.file().len() as int));
    }
    let p = h.with_pending(r);
    let a = p.flushed().0;
    assert(p.file() =~= h.file());
    assert(w.file() =~= a.file().take(w.file().len() as int));
    assert(w.log =~= a.log.take(w.log.len() as int));
    let b = h.flushed().0;
    assert(w.file() =~= b.file().take(w.file().len() as int));
    assert(w.file() =~= b.ended().file().take(w.file().len() as int));
    assert(w.log =~= b.log.take(w.log.len() as int));
}

/// The first message fixes the tables of the head: those that are declared then. What is declared
/// later does not change them.
pub proof fn law_first_message_fixes_the_head(
    w: WriterView,
    r: RecordView,
    schema: SchemaView,
    name: Seq<char>,
    schema_id: u16,
)
    ensures
        ({
            let after = w.after_write(r).0;
            &&& after.header_written
            &&& !w.header_written ==> after.head_schemas == w.schemas && after.head_channels
                == w.channels
            &&& w.header_written ==> after.head_schemas == w.head_schemas && after.head_channels
                == w.head_channels
            &&& after.schemas == w.schemas && after.channels == w.channels
            &&& after.compressor == w.compressor && after.chunk_target == w.chunk_target
        }),
        w.after_add_schema(schema).0.head_schemas == w.head_schemas,
        w.after_add_schema(schema).0.head_channels == w.head_channels,
        w.after_add_schema(schema).0.file() == w.file(),
        w.after_add_channel(name, schema_id).0.head_schemas == w.head_schemas,
        w.after_add_channel(name, schema_id).0.head_channels == w.head_channels,
        w.after_add_channel(name, schema_id).0.file() == w.file(),
{
}

/// A message that leaves the open chunk smaller than the size at which chunks are closed waits in
/// it, behind the others. Otherwise the chunk is closed with all that it holds, in order of time;
/// where it cannot be compressed, its messages stay and the words of the error are told.
pub proof fn law_chunks_are_closed_at_their_size(w: WriterView, r: RecordView)
    requires
        w.sound(),
    ensures
        ({
            let size = records_len(w.pending) + 14 + r.payload.len();
            let (after, e) = w.after_write(r);
            let all = w.pending.push(r);
            if size < w.chunk_target {
                &&& e is None
                &&& after.pending == all
                &&& after.log == w.log
            } else if e is None {
                &&& after.pending.len() == 0
                &&& after.log.len() == w.log.len() + 1
                &&& after.log.drop_last() == w.log
                &&& after.log.last().records.to_multiset() == all.to_multiset()
                &&& order::in_time_order(after.log.last().records)
                &&& compress::packed(
                    w.compressor,
                    layout::records_bytes(after.log.last().records),
                ) == Ok::<Seq<u8>, Seq<char>>(after.log.last().block)
            } else {
                &&& after.log == w.log
                &&& after.pending.to_multiset() == all.to_multiset()
                &&& order::in_time_order(after.pending)
                &&& compress::packed(w.compressor, layout::records_bytes(after.pending)) == Err::<
                    Seq<u8>,
                    Seq<char>,
                >(e->Some_0)
            }
        }),
{
    lemma_sizes_agree(w.pending);
    let p = w.with_head().with_pending(r);
    let all = w.pending.push(r);
    assert(p.pending == all);
    order::law_sorted_is_in_order(all);
    order::law_sorting_loses_nothing(all);
    let (after, e) = w.after_write(r);
    if p.pending_bytes >= p.chunk_target && e is None {
        assert(after.log.drop_last() =~= w.log);
    }
}

/// Finishing closes the open chunk, if it holds anything, and completes the file; only where that
/// chunk cannot be compressed it fails, and nothing is lost or ended.
pub proof fn law_finishing_completes_the_file(w: WriterView)
    requires
        w.sound(),
        !w.finished,
        w.pending.len() > 0 ==> ({
            let raw = layout::records_bytes(order::time_sorted(w.pending));
            compress::packed(w.compressor, raw) matches Ok(block) ==> compress::unpacked(
                w.compressor,
                block,
                raw.len(),
            ) == Ok::<Seq<u8>, Seq<char>>(raw)
        }),
    ensures
        ({
            let (after, e) = w.after_finish();
            &&& e is None ==> after.complete() && after.pending.len() == 0
            &&& w.pending.len() == 0 ==> e is None && after.log == w.log
            &&& w.pending.len() > 0 && e is None ==> after.log.len() == w.log.len() + 1
                && after.log.last().records.to_multiset() == w.pending.to_multiset()
            &&& e is Some ==> !after.finished && after.log == w.log
                && after.pending.to_multiset() == w.pending.to_multiset()
        }),
{
    writer::lemma_head_keeps_sound(w);
    order::law_sorting_loses_nothing(w.pending);
    let h = w.with_head();
    let (f, e) = h.flushed();
    if w.pending.len() > 0 && e is None {
        writer::lemma_closing_keeps_sound(h, f.log.last().block);
    }
    if e is None {
        writer::lemma_ending_completes(f);
    }
}

/// A schema that is declared is in the table, under the id that is given back: the earlier one of
/// the same type and encoding, or else a new entry behind the others, numbered from one.
pub proof fn law_declared_schemas_are_numbered(w: WriterView, schema: SchemaView)
    ensures
        ({
            let (after, id) = w.after_add_schema(schema);
            let known = exists|i: int|
                0 <= i < w.schemas.len() && (#[trigger] w.schemas[i]).typename == schema.typename
                    && w.schemas[i].encoding == schema.encoding;
            &&& known ==> after == w && exists|i: int|
                0 <= i < w.schemas.len() && (#[trigger] w.schemas[i]).typename == schema.typename
                    && w.schemas[i].encoding == schema.encoding && w.schemas[i].id == id
            &&& !known ==> after.schemas == w.schemas.push(
                SchemaView { id, typename: schema.typename, encoding: schema.encoding },
            ) && id == (w.schemas.len() + 1) % 0x1_0000
        }),
{
    lemma_like(w.schemas, schema.typename, schema.encoding);
}

proof fn lemma_like(s: Seq<SchemaView>, typename: Seq<char>, encoding: Seq<char>)
    ensures
        match writer::schema_like(s, typename, encoding) {
            Some(x) => x.typename == typename && x.encoding == encoding && exists|i: int|
                0 <= i < s.len() && #[trigger] s[i] == x,
            None => forall|i: int|
                0 <= i < s.len() ==> (#[trigger] s[i]).typename != typename || s[i].encoding
                    != encoding,
        },
    decreases s.len(),
{
    if s.len() > 0 {
        let front = s.drop_last();
        lemma_like(front, typename, encoding);
        assert(forall|i: int| 0 <= i < front.len() ==> #[trigger] s[i] == front[i]);
        assert(s[s.len() - 1] == s.last());
        if let Some(x) = writer::schema_like(front, typename, encoding) {
            let i = choose|i: int| 0 <= i < front.len() && #[trigger] front[i] == x;
            assert(s[i] == x);
        }
    }
}

/// A channel that is declared is in the table, under the id that is given back: the earlier one of
/// the same name, or else a new entry behind the others, numbered from one.
pub proof fn law_declared_channels_are_numbered(w: WriterView, name: Seq<char>, schema_id: u16)
    ensures
        ({
            let (after, id) = w.after_add_channel(name, schema_id);
            let known = exists|i: int|
                0 <= i < w.channels.len() && (#[trigger] w.channels[i]).name == name;
            &&& known ==> after == w && exists|i: int|
                0 <= i < w.channels.len() && (#[trigger] w.channels[i]).name == name
                    && w.channels[i].id == id
            &&& !known ==> after.channels.len() == w.channels.len() + 1
                && after.channels.drop_last() == w.channels && after.channels.last().name == name
                && after.channels.last().schema_id == schema_id && after.channels.last().id == id
                && id == (w.channels.len() + 1) % 0x1_0000
        }),
{
    lemma_named(w.channels, name);
    let after = w.after_add_channel(name, schema_id).0;
    if writer::channel_named(w.channels, name) is None {
        assert(after.channels.drop_last() =~= w.channels);
    }
}

proof fn lemma_named(s: Seq<ChannelView>, name: Seq<char>)
    ensures
        match writer::channel_named(s, name) {
            Some(x) => x.name == name && exists|i: int| 0 <= i < s.len() && #[trigger] s[i] == x,
            None => forall|i: int| 0 <= i < s.len() ==> (#[trigger] s[i]).name != name,
        },
    decreases s.len(),
{
    if s.len() > 0 {
        let front = s.drop_last();
        lemma_named(front, name);
        assert(forall|i: int| 0 <= i < front.len() ==> #[trigger] s[i] == front[i]);
        assert(s[s.len() - 1] == s.last());
        if let Some(x) = writer::channel_named(front, name) {
            let i = choose|i: int| 0 <= i < front.len() && #[trigger] front[i] == x;
            assert(s[i] == x);
        }
    }
}

} // verus!
