//! The recording front end: names in place of ids.

use crate::message::{Error, Schema, SchemaView, Timestamp};
use crate::storage::{ChannelId, SchemaId, StorageWriter};
use crate::text::{push_text, same_text, text_of};
use vstd::prelude::*;

verus! {

/// Records messages by channel name into any writing end.
pub struct Recorder<W: StorageWriter> {
    writer: W,
    schemas: Vec<((String, String), SchemaId)>,
    channels: Vec<(String, ChannelId)>,
}

/// The state of a [`Recorder`]: its writing end, and the ids that it knows.
#[verifier::ext_equal]
pub struct RecorderView<W> {
    pub writer: W,
    /// Each under its type and its encoding.
    pub schemas: Seq<((Seq<char>, Seq<char>), SchemaId)>,
    pub channels: Seq<(Seq<char>, ChannelId)>,
}

pub open spec fn keyed<T>(s: Seq<(String, T)>) -> Seq<(Seq<char>, T)> {
    Seq::new(s.len(), |i: int| (s[i].0@, s[i].1))
}

pub open spec fn keyed_by_pair<T>(s: Seq<((String, String), T)>) -> Seq<
    ((Seq<char>, Seq<char>), T),
> {
    Seq::new(s.len(), |i: int| ((s[i].0.0@, s[i].0.1@), s[i].1))
}

impl<W: StorageWriter> View for Recorder<W> {
    type V = RecorderView<W>;

    closed spec fn view(&self) -> RecorderView<W> {
        RecorderView {
            writer: self.writer,
            schemas: keyed_by_pair(self.schemas@),
            channels: keyed(self.channels@),
        }
    }
}

/// What is kept under `key`.
pub open spec fn kept_under<K, T>(s: Seq<(K, T)>, key: K) -> Option<T>
    decreases s.len(),
{
    if s.len() == 0 {
        None
    } else if s.last().0 == key {
        Some(s.last().1)
    } else {
        kept_under(s.drop_last(), key)
    }
}

/// The key of a schema: its type and its encoding.
pub open spec fn key_of(schema: SchemaView) -> (Seq<char>, Seq<char>) {
    (schema.typename, schema.encoding)
}

/// What registering `schema` does: a schema that is known is not handed to the writing end
/// again.
pub open spec fn registered<W: StorageWriter>(
    before: RecorderView<W>,
    schema: SchemaView,
    after: RecorderView<W>,
    r: Result<SchemaId, Error>,
) -> bool {
    match kept_under(before.schemas, key_of(schema)) {
        Some(id) => after == before && r == Ok::<SchemaId, Error>(id),
        None => {
            &&& W::schema_added(before.writer, schema, after.writer, r)
            &&& after.channels == before.channels
            &&& after.schemas == (match r {
                Ok(id) => before.schemas.push((key_of(schema), id)),
                Err(_) => before.schemas,
            })
        },
    }
}

/// What declaring a channel for the registered schema `schema_id` does: a channel that is known
/// is not handed to the writing end again.
pub open spec fn declared<W: StorageWriter>(
    before: RecorderView<W>,
    name: Seq<char>,
    schema_id: SchemaId,
    after: RecorderView<W>,
    r: Result<ChannelId, Error>,
) -> bool {
    match kept_under(before.channels, name) {
        Some(id) => after == before && r == Ok::<ChannelId, Error>(id),
        None => {
            &&& W::channel_added(before.writer, name, schema_id, after.writer, r)
            &&& after.schemas == before.schemas
            &&& after.channels == (match r {
                Ok(id) => before.channels.push((name, id)),
                Err(_) => before.channels,
            })
        },
    }
}

/// What adding a channel does: its schema is registered, and if that succeeds, the channel is
/// declared.
pub open spec fn added<W: StorageWriter>(
    before: RecorderView<W>,
    name: Seq<char>,
    schema: SchemaView,
    after: RecorderView<W>,
    r: Result<ChannelId, Error>,
) -> bool {
    exists|mid: RecorderView<W>, s: Result<SchemaId, Error>| #[trigger]
        registered(before, schema, mid, s) && match s {
            Err(e) => after == mid && r == Err::<ChannelId, Error>(e),
            Ok(schema_id) => declared(mid, name, schema_id, after, r),
        }
}

/// What writing a message does: on a channel that is not known, nothing.
pub open spec fn message_written<W: StorageWriter>(
    before: RecorderView<W>,
    channel: Seq<char>,
    stamp: Timestamp,
    payload: Seq<u8>,
    after: RecorderView<W>,
    r: Result<(), Error>,
) -> bool {
    &&& after.schemas == before.schemas
    &&& after.channels == before.channels
    &&& match kept_under(before.channels, channel) {
        None => after == before && r is Err && r->Err_0@ == "unknown channel: "@ + channel,
        Some(id) => W::written(before.writer, id, stamp, payload, after.writer, r),
    }
}

fn find<T: Copy>(s: &Vec<(String, T)>, key: &str) -> (r: Option<T>)
    ensures
        r == kept_under(keyed(s@), key@),
{
    let mut i: usize = s.len();
    assert(keyed(s@).take(i as int) =~= keyed(s@));
    while i > 0
        invariant
            i <= s.len(),
            kept_under(keyed(s@), key@) == kept_under(keyed(s@).take(i as int), key@),
        decreases i,
    {
        i = i - 1;
        assert(keyed(s@).take(i + 1).drop_last() =~= keyed(s@).take(i as int));
        if same_text(s[i].0.as_str(), key) {
            return Some(s[i].1);
        }
    }
    None
}

fn find_schema<T: Copy>(s: &Vec<((String, String), T)>, key: &(String, String)) -> (r: Option<T>)
    ensures
        r == kept_under(keyed_by_pair(s@), (key.0@, key.1@)),
{
    let ghost all = keyed_by_pair(s@);
    let ghost k = (key.0@, key.1@);
    let mut i: usize = s.len();
    assert(all.take(i as int) =~= all);
    while i > 0
        invariant
            i <= s.len(),
            all == keyed_by_pair(s@),
            k == (key.0@, key.1@),
            kept_under(all, k) == kept_under(all.take(i as int), k),
        decreases i,
    {
        i = i - 1;
        assert(all.take(i + 1).drop_last() =~= all.take(i as int));
        assert(all.take(i + 1).last() == all[i as int]);
        if same_text(s[i].0.0.as_str(), key.0.as_str()) && same_text(
            s[i].0.1.as_str(),
            key.1.as_str(),
        ) {
            return Some(s[i].1);
        }
    }
    None
}

impl<W: StorageWriter> Recorder<W> {
    /// A recorder that knows no schema and no channel yet.
    pub fn new(writer: W) -> (r: Self)
        ensures
            r@ == (RecorderView { writer, schemas: Seq::empty(), channels: Seq::empty() }),
    {
        let r = Recorder { writer, schemas: Vec::new(), channels: Vec::new() };
        assert(r@ =~= RecorderView { writer, schemas: Seq::empty(), channels: Seq::empty() });
        r
    }

    fn schema_key(schema: &Schema) -> (key: (String, String))
        ensures
            (key.0@, key.1@) == key_of(schema@),
    {
        (text_of(schema.typename.as_str()), text_of(schema.encoding.as_str()))
    }

    /// The id of `schema`, which is registered unless one of the same type and encoding is.
    pub fn register_schema(&mut self, schema: &Schema) -> (r: Result<SchemaId, Error>)
        ensures
            registered(old(self)@, schema@, final(self)@, r),
    {
        let key: (String, String) = Self::schema_key(schema);
        if let Some(id) = find_schema(&self.schemas, &key) {
            return Ok(id);
        }
        let ghost was = self@;
        let id: SchemaId = self.writer.add_schema(schema)?;
        self.schemas.push((key, id));
        assert(self@.schemas =~= was.schemas.push((key_of(schema@), id)));
        Ok(id)
    }

    /// The id of the channel `name`, which is added with its schema unless there is one.
    pub fn add_channel(&mut self, name: &str, schema: &Schema) -> (r: Result<ChannelId, Error>)
        ensures
            added(old(self)@, name@, schema@, final(self)@, r),
    {
        let ghost before = self@;
        let s: Result<SchemaId, Error> = self.register_schema(schema);
        let ghost mid = self@;
        assert(registered(before, schema@, mid, s));
        let schema_id: SchemaId = match s {
            Err(e) => {
                return Err(e);
            },
            Ok(schema_id) => schema_id,
        };
        if let Some(id) = find(&self.channels, name) {
            return Ok(id);
        }
        let id: ChannelId = self.writer.add_channel(name, schema_id)?;
        self.channels.push((text_of(name), id));
        assert(self@.channels =~= mid.channels.push((name@, id)));
        Ok(id)
    }

    /// Writes a message to a channel that was added.
    pub fn write(&mut self, channel: &str, stamp: Timestamp, payload: &[u8]) -> (r: Result<
        (),
        Error,
    >)
        ensures
            message_written(old(self)@, channel@, stamp, payload@, final(self)@, r),
    {
        match find(&self.channels, channel) {
            None => {
                let mut words: String = text_of("unknown channel: ");
                push_text(&mut words, channel);
                Err(Error(words))
            },
            Some(id) => self.writer.write(id, stamp, payload),
        }
    }

    /// Brings the recording to its end.
    pub fn finish(&mut self) -> (r: Result<(), Error>)
        ensures
            final(self)@.schemas == old(self)@.schemas,
            final(self)@.channels == old(self)@.channels,
            W::closed(old(self)@.writer, final(self)@.writer, r),
    {
        self.writer.finish()
    }

    /// The writing end, to take from it what it has ready.
    pub fn writer_mut(&mut self) -> (w: &mut W)
        ensures
            *w == old(self)@.writer,
            final(self)@ == (RecorderView { writer: *final(w), ..old(self)@ }),
    {
        &mut self.writer
    }

    /// Gives up the recorder for its writing end.
    pub fn into_writer(self) -> (w: W)
        ensures
            w == self@.writer,
    {
        self.writer
    }
}

/// A schema that was registered is registered for good: doing it again gives the same id and
/// changes nothing.
pub proof fn law_schema_is_registered_once<W: StorageWriter>(
    before: RecorderView<W>,
    schema: SchemaView,
    after: RecorderView<W>,
    r: Result<SchemaId, Error>,
    again: RecorderView<W>,
    r2: Result<SchemaId, Error>,
)
    requires
        registered(before, schema, after, r),
        r is Ok,
        registered(after, schema, again, r2),
    ensures
        again == after,
        r2 == r,
{
}

/// A channel that was added is added for good: adding it again under the same schema gives the
/// same id and changes nothing.
pub proof fn law_channel_is_added_once<W: StorageWriter>(
    before: RecorderView<W>,
    name: Seq<char>,
    schema: SchemaView,
    after: RecorderView<W>,
    r: Result<ChannelId, Error>,
    again: RecorderView<W>,
    r2: Result<ChannelId, Error>,
)
    requires
        added(before, name, schema, after, r),
        r is Ok,
        added(after, name, schema, again, r2),
    ensures
        again == after,
        r2 == r,
{
    let (mid, s) = choose|mid: RecorderView<W>, s: Result<SchemaId, Error>| #[trigger]
        registered(before, schema, mid, s) && match s {
            Err(e) => after == mid && r == Err::<ChannelId, Error>(e),
            Ok(schema_id) => declared(mid, name, schema_id, after, r),
        };
    let (mid2, s2) = choose|mid: RecorderView<W>, s: Result<SchemaId, Error>| #[trigger]
        registered(after, schema, mid, s) && match s {
            Err(e) => again == mid && r2 == Err::<ChannelId, Error>(e),
            Ok(schema_id) => declared(mid, name, schema_id, again, r2),
        };
    assert(mid2 == after && s2 is Ok);
}

/// What is kept under a key is what was put there last, and nothing where nothing was.
pub proof fn law_what_was_kept_last_is_found<K, T>(s: Seq<(K, T)>, key: K, k: int)
    requires
        -1 <= k < s.len(),
        forall|j: int| k < j < s.len() ==> (#[trigger] s[j]).0 != key,
    ensures
        k == -1 ==> kept_under(s, key) is None,
        k >= 0 && s[k].0 == key ==> kept_under(s, key) == Some(s[k].1),
    decreases s.len(),
{
    if s.len() > 0 && k < s.len() - 1 {
        assert(s[s.len() - 1].0 != key);
        let front = s.drop_last();
        assert forall|j: int| k < j < front.len() implies (#[trigger] front[j]).0 != key by {
            assert(front[j] == s[j]);
        }
        law_what_was_kept_last_is_found(front, key, k);
        if k >= 0 {
            assert(front[k] == s[k]);
        }
    }
}

/// A message goes to the channel that was added under its name, with its time and its payload; on
/// a name that was not added, it goes nowhere, and the name is told.
pub proof fn law_messages_go_to_their_channels<W: StorageWriter>(
    before: RecorderView<W>,
    channel: Seq<char>,
    stamp: Timestamp,
    payload: Seq<u8>,
    after: RecorderView<W>,
    r: Result<(), Error>,
    k: int,
)
    requires
        message_written(before, channel, stamp, payload, after, r),
        -1 <= k < before.channels.len(),
        forall|j: int|
            k < j < before.channels.len() ==> (#[trigger] before.channels[j]).0 != channel,
    ensures
        after.schemas == before.schemas,
        after.channels == before.channels,
        k == -1 ==> after == before && (r matches Err(e) && e@ == "unknown channel: "@ + channel),
        k >= 0 && before.channels[k].0 == channel ==> W::written(
            before.writer,
            before.channels[k].1,
            stamp,
            payload,
            after.writer,
            r,
        ),
{
    law_what_was_kept_last_is_found(before.channels, channel, k);
}

/// A name and a schema that are not known are both handed to the writing end, the schema first, and
/// both are known from there on; of a known schema, the id that it has is handed over.
pub proof fn law_new_channels_are_handed_over<W: StorageWriter>(
    before: RecorderView<W>,
    name: Seq<char>,
    schema: SchemaView,
    after: RecorderView<W>,
    r: Result<ChannelId, Error>,
)
    requires
        added(before, name, schema, after, r),
        forall|j: int| 0 <= j < before.channels.len() ==> (#[trigger] before.channels[j]).0 != name,
        r is Ok,
    ensures
        after.channels == before.channels.push((name, r->Ok_0)),
        (forall|j: int|
            0 <= j < before.schemas.len() ==> (#[trigger] before.schemas[j]).0 != (
            schema.typename,
            schema.encoding,
        )) ==> exists|mid: W, id: SchemaId|
            #![trigger W::schema_added(before.writer, schema, mid, Ok(id))]
            W::schema_added(before.writer, schema, mid, Ok(id)) && W::channel_added(
                mid,
                name,
                id,
                after.writer,
                r,
            ) && after.schemas == before.schemas.push(((schema.typename, schema.encoding), id)),
        forall|k: int|
            0 <= k < before.schemas.len() && (#[trigger] before.schemas[k]).0 == (
            schema.typename,
            schema.encoding,
        ) && (forall|j: int|
            k < j < before.schemas.len() ==> (#[trigger] before.schemas[j]).0 != (
            schema.typename,
            schema.encoding,
        )) ==> after.schemas == before.schemas && W::channel_added(
                before.writer,
                name,
                before.schemas[k].1,
                after.writer,
                r,
            ),
{
    let key = (schema.typename, schema.encoding);
    let (mid, s) = choose|mid: RecorderView<W>, s: Result<SchemaId, Error>| #[trigger]
        registered(before, schema, mid, s) && match s {
            Err(e) => after == mid && r == Err::<ChannelId, Error>(e),
            Ok(schema_id) => declared(mid, name, schema_id, after, r),
        };
    assert(s is Ok);
    let id = s->Ok_0;
    law_what_was_kept_last_is_found(before.channels, name, -1);
    assert(mid.channels == before.channels);
    if forall|j: int| 0 <= j < before.schemas.len() ==> (#[trigger] before.schemas[j]).0 != key {
        law_what_was_kept_last_is_found(before.schemas, key, -1);
        assert(W::schema_added(before.writer, schema, mid.writer, Ok(id)));
    }
    assert forall|k: int|
        0 <= k < before.schemas.len() && (#[trigger] before.schemas[k]).0 == key && (forall|j: int|
            k < j < before.schemas.len() ==> (#[trigger] before.schemas[j]).0
                != key) implies after.schemas == before.schemas && W::channel_added(
        before.writer,
        name,
        before.schemas[k].1,
        after.writer,
        r,
    ) by {
        law_what_was_kept_last_is_found(before.schemas, key, k);
    }
}

} // verus!
