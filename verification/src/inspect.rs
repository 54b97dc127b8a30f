//! What a recording is about, without playing it.

use crate::message::{ChannelMeta, ChunkIndex, MessageView, OwnedMessage, Schema, SchemaView};
use crate::msgs::codec::Codec;
use crate::msgs::types::{SceneMeta, SceneView};
use crate::singlefile::reader;
use crate::singlefile::laws;
use crate::singlefile::reader::{ReaderView, SingleFileReader};
use crate::singlefile::writer::WriterView;
use crate::storage::StorageReader;
use crate::text::same_text;
use crate::{layout, le, message, play};
use vstd::prelude::*;

verus! {

/// The number of messages: as the end of the file gives it, else as the index does.
pub open spec fn message_total(r: ReaderView) -> nat {
    match r.trailer_count() {
        Some(n) => n as nat,
        None => play::count_before(r.index, r.index.len() as int),
    }
}

/// The number of messages: as the end of the file gives it, else as the index does.
pub fn count_messages(reader: &SingleFileReader) -> (n: u64)
    requires
        message_total(reader@) <= u64::MAX,
    ensures
        n == message_total(reader@),
{
    if let Some(n) = reader.message_count() {
        return n;
    }
    let index: &[ChunkIndex] = reader.chunk_index();
    let mut n: u64 = 0;
    let mut i: usize = 0;
    while i < index.len()
        invariant
            i <= index.len(),
            n == play::count_before(index@, i as int),
            play::count_before(index@, index@.len() as int) <= u64::MAX,
        decreases index.len() - i,
    {
        proof {
            play::lemma_count_grows(index@, i + 1, index@.len() as int);
        }
        n = n + index[i].msg_count as u64;
        i = i + 1;
    }
    n
}

/// The type of the schema with the id `id`; empty where there is none.
pub open spec fn type_with(schemas: Seq<SchemaView>, id: u16) -> Seq<char> {
    match layout::schema_with(schemas, id) {
        Some(s) => s.typename,
        None => Seq::empty(),
    }
}

fn find_type(schemas: &[Schema], id: u16) -> (r: String)
    ensures
        r@ == type_with(message::views(schemas@), id),
{
    let ghost all = message::views(schemas@);
    let mut i: usize = 0;
    while i < schemas.len()
        invariant
            i <= schemas.len(),
            all == message::views(schemas@),
            layout::schema_with(all.take(i as int), id) is None,
        decreases schemas.len() - i,
    {
        proof {
            reader::lemma_first_schema(all, i as int, id);
        }
        if schemas[i].id == id {
            return schemas[i].typename.clone();
        }
        i = i + 1;
    }
    assert(all.take(i as int) =~= all);
    String::new()
}

/// A channel and the type of its messages.
#[derive(Debug, PartialEq, Eq)]
pub struct Topic {
    pub name: String,
    pub typename: String,
}

/// The channels of a reading end, each with the type of its messages.
pub fn topics<R: StorageReader>(reader: &R) -> (r: Vec<Topic>)
    ensures
        r@.len() == reader.channel_list().len(),
        forall|i: int|
            0 <= i < r@.len() ==> (#[trigger] r@[i]).name@ == reader.channel_list()[i].name
                && r@[i].typename@ == type_with(
                reader.schema_list(),
                reader.channel_list()[i].schema_id,
            ),
{
    let channels: &[ChannelMeta] = reader.channels();
    let schemas: &[Schema] = reader.schemas();
    let ghost cs = reader.channel_list();
    let ghost ss = reader.schema_list();
    let mut out: Vec<Topic> = Vec::new();
    let mut i: usize = 0;
    while i < channels.len()
        invariant
            i <= channels.len(),
            cs == message::views(channels@),
            ss == message::views(schemas@),
            out@.len() == i,
            forall|k: int|
                0 <= k < i ==> (#[trigger] out@[k]).name@ == cs[k].name && out@[k].typename@
                    == type_with(ss, cs[k].schema_id),
        decreases channels.len() - i,
    {
        let c: &ChannelMeta = &channels[i];
        assert(cs[i as int] == c@);
        out.push(Topic { name: c.name.clone(), typename: find_type(schemas, c.schema_id) });
        i = i + 1;
    }
    out
}

/// Where the first message of the channel `scene` is among `ms`.
pub open spec fn scene_place(ms: Seq<MessageView>, i: int) -> Option<int>
    decreases ms.len() - i,
{
    if i >= ms.len() {
        None
    } else if ms[i].channel == "scene"@ {
        Some(i)
    } else {
        scene_place(ms, i + 1)
    }
}

/// The scene that a message holds.
pub open spec fn scene_of(m: MessageView) -> Option<SceneView> {
    match SceneMeta::decoded(m.payload) {
        Ok(s) => Some(s),
        Err(e) => None,
    }
}

/// The scene that the first message of the channel `scene` holds, from chunk `c` on. A chunk that
/// cannot be read ends the search.
pub open spec fn scene_in_chunks<R: StorageReader>(reader: R, c: int) -> Option<SceneView>
    decreases reader.chunk_list().len() - c,
{
    if c >= reader.chunk_list().len() {
        None
    } else {
        match reader.chunk_content(c) {
            Err(e) => None,
            Ok(ms) => match scene_place(ms, 0) {
                Some(i) => scene_of(ms[i]),
                None => scene_in_chunks(reader, c + 1),
            },
        }
    }
}

/// What a reading end says that its channels are for.
pub open spec fn scene_in<R: StorageReader>(reader: R) -> Option<SceneView> {
    if reader.chunk_list().len() == 0 {
        match reader.whole_content() {
            Err(e) => None,
            Ok(ms) => match scene_place(ms, 0) {
                Some(i) => scene_of(ms[i]),
                None => None,
            },
        }
    } else {
        scene_in_chunks(reader, 0)
    }
}

/// Where the first message of the channel `scene` is among `ms`.
fn find_place(ms: &Vec<OwnedMessage>) -> (r: Option<usize>)
    ensures
        match r {
            Some(i) => scene_place(message::views(ms@), 0) == Some(i as int) && i < ms@.len(),
            None => scene_place(message::views(ms@), 0) is None,
        },
{
    let ghost v = message::views(ms@);
    let mut i: usize = 0;
    while i < ms.len()
        invariant
            i <= ms.len(),
            v == message::views(ms@),
            scene_place(v, 0) == scene_place(v, i as int),
        decreases ms.len() - i,
    {
        if same_text(ms[i].channel.as_str(), "scene") {
            return Some(i);
        }
        i = i + 1;
    }
    None
}

fn read_scene(m: &OwnedMessage) -> (r: Option<SceneMeta>)
    ensures
        match r {
            Some(s) => scene_of(m@) == Some(s@),
            None => scene_of(m@) is None,
        },
{
    match SceneMeta::decode(m.payload.as_slice()) {
        Ok(s) => Some(s),
        Err(_) => None,
    }
}

/// What a reading end says that its channels are for. Of one with chunks, no more are read than
/// it takes to find out.
pub fn find_scene<R: StorageReader>(reader: &mut R) -> (r: Option<SceneMeta>)
    ensures
        match r {
            Some(s) => scene_in(*old(reader)) == Some(s@),
            None => scene_in(*old(reader)) is None,
        },
        old(reader).chunk_list().len() > 0 ==> final(reader).chunk_list() == old(
            reader,
        ).chunk_list() && forall|i: int| #[trigger]
            final(reader).chunk_content(i) == old(reader).chunk_content(i),
{
    let ghost was = *reader;
    let n: usize = reader.chunk_index().len();
    if n == 0 {
        return match reader.read_all() {
            Err(_) => None,
            Ok(ms) => match find_place(&ms) {
                Some(i) => read_scene(&ms[i]),
                None => None,
            },
        };
    }
    let mut c: usize = 0;
    while c < n
        invariant
            c <= n,
            n > 0,
            was == *old(reader),
            n == was.chunk_list().len(),
            reader.chunk_list() == was.chunk_list(),
            forall|k: int| #[trigger] reader.chunk_content(k) == was.chunk_content(k),
            scene_in_chunks(was, 0) == scene_in_chunks(was, c as int),
        decreases n - c,
    {
        match reader.read_chunk_at(c) {
            Err(_) => {
                return None;
            },
            Ok(ms) => {
                if let Some(i) = find_place(&ms) {
                    return read_scene(&ms[i]);
                }
            },
        }
        c = c + 1;
    }
    None
}

/// The type of a schema is that of the first entry with its id, and empty where there is none.
pub proof fn law_type_is_that_of_the_schema(schemas: Seq<SchemaView>, id: u16, k: int)
    requires
        0 <= k <= schemas.len(),
        forall|j: int| 0 <= j < k ==> (#[trigger] schemas[j]).id != id,
    ensures
        k == schemas.len() ==> type_with(schemas, id) == Seq::<char>::empty(),
        k < schemas.len() && schemas[k].id == id ==> type_with(schemas, id) == schemas[k].typename,
{
    lemma_schema_passed(schemas, id, k);
    if k < schemas.len() && schemas[k].id == id {
        reader::lemma_first_schema(schemas, k, id);
        lemma_schema_kept(schemas, id, k + 1);
    } else {
        assert(schemas.take(schemas.len() as int) =~= schemas);
    }
}

proof fn lemma_schema_passed(schemas: Seq<SchemaView>, id: u16, k: int)
    requires
        0 <= k <= schemas.len(),
        forall|j: int| 0 <= j < k ==> (#[trigger] schemas[j]).id != id,
    ensures
        layout::schema_with(schemas.take(k), id) is None,
    decreases k,
{
    if k > 0 {
        lemma_schema_passed(schemas, id, k - 1);
        assert(schemas.take(k).drop_last() =~= schemas.take(k - 1));
        assert(schemas.take(k).last() == schemas[k - 1]);
    }
}

proof fn lemma_schema_kept(schemas: Seq<SchemaView>, id: u16, k: int)
    requires
        0 <= k <= schemas.len(),
        layout::schema_with(schemas.take(k), id) is Some,
    ensures
        layout::schema_with(schemas, id) == layout::schema_with(schemas.take(k), id),
    decreases schemas.len() - k,
{
    if k < schemas.len() {
        assert(schemas.take(k + 1).drop_last() =~= schemas.take(k));
        lemma_schema_kept(schemas, id, k + 1);
    } else {
        assert(schemas.take(k) =~= schemas);
    }
}

proof fn lemma_place_is_the_first(ms: Seq<MessageView>, i: int, k: int)
    requires
        0 <= i <= k <= ms.len(),
        forall|j: int| i <= j < k ==> (#[trigger] ms[j]).channel != "scene"@,
    ensures
        scene_place(ms, i) == scene_place(ms, k),
    decreases k - i,
{
    if i < k {
        assert(ms[i].channel != "scene"@);
        lemma_place_is_the_first(ms, i + 1, k);
    }
}

/// Whether no message is on the channel `scene`.
pub open spec fn without_scene(ms: Seq<MessageView>) -> bool {
    forall|j: int| 0 <= j < ms.len() ==> (#[trigger] ms[j]).channel != "scene"@
}

proof fn lemma_chunks_passed<R: StorageReader>(reader: R, a: int, c: int)
    requires
        0 <= a <= c <= reader.chunk_list().len(),
        forall|b: int|
            a <= b < c ==> (#[trigger] reader.chunk_content(b) matches Ok(ms) && without_scene(ms)),
    ensures
        scene_in_chunks(reader, a) == scene_in_chunks(reader, c),
    decreases c - a,
{
    if a < c {
        assert(reader.chunk_content(a) matches Ok(ms) && without_scene(ms));
        let ms = reader.chunk_content(a)->Ok_0;
        lemma_place_is_the_first(ms, 0, ms.len() as int);
        lemma_chunks_passed(reader, a + 1, c);
    }
}

/// The scene of a recording with chunks is what the first message on the channel `scene` decodes
/// to, and nothing where none is, or where a chunk before it cannot be read.
pub proof fn law_scene_is_that_of_the_first_message<R: StorageReader>(reader: R, c: int, k: int)
    requires
        reader.chunk_list().len() > 0,
        0 <= c <= reader.chunk_list().len(),
        forall|b: int|
            0 <= b < c ==> (#[trigger] reader.chunk_content(b) matches Ok(ms) && without_scene(ms)),
    ensures
        c == reader.chunk_list().len() ==> scene_in(reader) is None,
        c < reader.chunk_list().len() ==> match reader.chunk_content(c) {
            Err(e) => scene_in(reader) is None,
            Ok(ms) => 0 <= k < ms.len() && ms[k].channel == "scene"@ && without_scene(ms.take(k))
                ==> scene_in(reader) == (match SceneMeta::decoded(ms[k].payload) {
                Ok(s) => Some(s),
                Err(e) => None,
            }),
        },
{
    lemma_chunks_passed(reader, 0, c);
    if c < reader.chunk_list().len() {
        if let Ok(ms) = reader.chunk_content(c) {
            if 0 <= k < ms.len() && ms[k].channel == "scene"@ && without_scene(ms.take(k)) {
                assert forall|j: int| 0 <= j < k implies (#[trigger] ms[j]).channel != "scene"@ by {
                    assert(ms.take(k)[j] == ms[j]);
                }
                lemma_place_is_the_first(ms, 0, k);
            }
        }
    }
}

/// The scene of a recording without chunks is what its first message on the channel `scene`
/// decodes to.
pub proof fn law_scene_without_chunks<R: StorageReader>(reader: R, k: int)
    requires
        reader.chunk_list().len() == 0,
    ensures
        match reader.whole_content() {
            Err(e) => scene_in(reader) is None,
            Ok(ms) => {
                &&& without_scene(ms) ==> scene_in(reader) is None
                &&& 0 <= k < ms.len() && ms[k].channel == "scene"@ && without_scene(ms.take(k))
                    ==> scene_in(reader) == (match SceneMeta::decoded(ms[k].payload) {
                    Ok(s) => Some(s),
                    Err(e) => None,
                })
            },
        },
{
    if let Ok(ms) = reader.whole_content() {
        if without_scene(ms) {
            lemma_place_is_the_first(ms, 0, ms.len() as int);
        } else if 0 <= k < ms.len() && ms[k].channel == "scene"@ && without_scene(ms.take(k)) {
            assert forall|j: int| 0 <= j < k implies (#[trigger] ms[j]).channel != "scene"@ by {
                assert(ms.take(k)[j] == ms[j]);
            }
            lemma_place_is_the_first(ms, 0, k);
        }
    }
}

/// The number of messages of a finished file is the number of those that were recorded, whether it
/// is taken from the end of the file or from its index.
pub proof fn law_messages_of_a_finished_file_are_counted(w: WriterView)
    requires
        w.complete(),
        laws::file_fits(w),
        w.recorded().len() <= usize::MAX,
    ensures
        ReaderView::of_file(w.file()) matches Ok(r) && message_total(r) == w.recorded().len()
            && play::count_before(r.index, r.index.len() as int) == w.recorded().len(),
{
    laws::law_finished_file_reads_back(w);
    laws::law_finished_file_is_playable(w, play::PlayOptions { rate: 0, loop_: false });
}

/// Without an end that counts them, the messages are those that the index announces; an end counts
/// them in its last eight bytes.
pub proof fn law_messages_are_counted_by_the_end_or_the_index(r: ReaderView)
    ensures
        ({
            let d = r.data;
            // "DCAP_END"
            let ended = d.len() >= 32 && d.subrange(d.len() - 32, d.len() - 24) == seq![
                0x44u8, 0x43, 0x41, 0x50, 0x5f, 0x45, 0x4e, 0x44,
            ];
            message_total(r) == (if r.head.version == 2 && ended {
                le::le_value(d.subrange(d.len() - 8, d.len() as int))
            } else {
                play::count_before(r.index, r.index.len() as int)
            })
        }),
{
    let d = r.data;
    assert(layout::end_magic() =~= seq![0x44u8, 0x43, 0x41, 0x50, 0x5f, 0x45, 0x4e, 0x44]);
    if d.len() >= 32 {
        le::lemma_le_limits();
        le::lemma_le_value_bound(d.subrange(d.len() - 8, d.len() as int));
    }
}

} // verus!
