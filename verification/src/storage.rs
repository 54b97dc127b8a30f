//! The interfaces of a storage back end: a writing end and a reading end.

use crate::message;
use crate::message::{
    ChannelMeta, ChannelView, ChunkIndex, Error, MessageView, OwnedMessage, Schema, SchemaView,
    Timestamp,
};
use vstd::prelude::*;

verus! {

#[derive(Clone, Copy, Debug, PartialEq, Eq, Hash)]
pub struct SchemaId(pub u16);

#[derive(Clone, Copy, Debug, PartialEq, Eq, Hash)]
pub struct ChannelId(pub u16);

/// A writing end. Each back end states through the four relations what its calls do: how the
/// state before a call, the arguments, the state after it and the result belong together.
pub trait StorageWriter: Sized {
    spec fn schema_added(
        before: Self,
        schema: SchemaView,
        after: Self,
        r: Result<SchemaId, Error>,
    ) -> bool;

    spec fn channel_added(
        before: Self,
        name: Seq<char>,
        schema_id: SchemaId,
        after: Self,
        r: Result<ChannelId, Error>,
    ) -> bool;

    spec fn written(
        before: Self,
        channel: ChannelId,
        stamp: Timestamp,
        payload: Seq<u8>,
        after: Self,
        r: Result<(), Error>,
    ) -> bool;

    spec fn closed(before: Self, after: Self, r: Result<(), Error>) -> bool;

    fn add_schema(&mut self, schema: &Schema) -> (r: Result<SchemaId, Error>)
        ensures
            Self::schema_added(*old(self), schema@, *final(self), r),
    ;

    fn add_channel(&mut self, name: &str, schema_id: SchemaId) -> (r: Result<ChannelId, Error>)
        ensures
            Self::channel_added(*old(self), name@, schema_id, *final(self), r),
    ;

    fn write(&mut self, channel: ChannelId, stamp: Timestamp, payload: &[u8]) -> (r: Result<
        (),
        Error,
    >)
        ensures
            Self::written(*old(self), channel, stamp, payload@, *final(self), r),
    ;

    fn finish(&mut self) -> (r: Result<(), Error>)
        ensures
            Self::closed(*old(self), *final(self), r),
    ;
}

/// A reading end. What it holds is given by spec functions; reading a chunk changes nothing
/// of it.
pub trait StorageReader: Sized {
    spec fn schema_list(&self) -> Seq<SchemaView>;

    spec fn channel_list(&self) -> Seq<ChannelView>;

    /// The chunk index; empty where the reading end has no chunks.
    spec fn chunk_list(&self) -> Seq<ChunkIndex>;

    /// The messages of chunk `index`, or the words of the error that reading it gives.
    spec fn chunk_content(&self, index: int) -> Result<Seq<MessageView>, Seq<char>>;

    /// All messages, or the words of the error that reading them gives.
    spec fn whole_content(&self) -> Result<Seq<MessageView>, Seq<char>>;

    fn schemas(&self) -> (r: &[Schema])
        ensures
            message::views(r@) == self.schema_list(),
    ;

    fn channels(&self) -> (r: &[ChannelMeta])
        ensures
            message::views(r@) == self.channel_list(),
    ;

    fn chunk_index(&self) -> (r: &[ChunkIndex])
        ensures
            r@ == self.chunk_list(),
    ;

    fn read_chunk_at(&mut self, index: usize) -> (r: Result<Vec<OwnedMessage>, Error>)
        ensures
            final(self).chunk_list() == old(self).chunk_list(),
            forall|i: int| #[trigger]
                final(self).chunk_content(i) == old(self).chunk_content(i),
            match r {
                Ok(v) => old(self).chunk_content(index as int) == Ok::<_, Seq<char>>(
                    message::views(v@),
                ),
                Err(e) => old(self).chunk_content(index as int) == Err::<Seq<MessageView>, _>(e@),
            },
    ;

    fn read_all(&mut self) -> (r: Result<Vec<OwnedMessage>, Error>)
        ensures
            match r {
                Ok(v) => old(self).whole_content() == Ok::<_, Seq<char>>(message::views(v@)),
                Err(e) => old(self).whole_content() == Err::<Seq<MessageView>, _>(e@),
            },
    ;
}

/// The messages of the first `n` chunks of a reading end, chunk after chunk, or the words of the
/// first error.
pub open spec fn chunks_content<R: StorageReader>(reader: R, n: nat) -> Result<
    Seq<MessageView>,
    Seq<char>,
>
    decreases n,
{
    if n == 0 {
        Ok(Seq::empty())
    } else {
        match chunks_content(reader, (n - 1) as nat) {
            Err(e) => Err(e),
            Ok(s) => match reader.chunk_content(n - 1) {
                Err(e) => Err(e),
                Ok(ms) => Ok(s + ms),
            },
        }
    }
}

proof fn lemma_chunks_stop<R: StorageReader>(reader: R, i: nat, n: nat)
    requires
        i <= n,
        chunks_content(reader, i) is Err,
    ensures
        chunks_content(reader, n) == chunks_content(reader, i),
    decreases n,
{
    if i < n {
        lemma_chunks_stop(reader, i, (n - 1) as nat);
    }
}

/// Reads all messages through the chunk index: what a reading end that has nothing better can do
/// for [`StorageReader::read_all`].
pub fn read_all_chunks<R: StorageReader>(reader: &mut R) -> (r: Result<Vec<OwnedMessage>, Error>)
    ensures
        final(reader).chunk_list() == old(reader).chunk_list(),
        forall|i: int| #[trigger]
            final(reader).chunk_content(i) == old(reader).chunk_content(i),
        match r {
            Ok(v) => chunks_content(*old(reader), old(reader).chunk_list().len()) == Ok::<
                Seq<MessageView>,
                Seq<char>,
            >(message::views(v@)),
            Err(e) => chunks_content(*old(reader), old(reader).chunk_list().len()) == Err::<
                Seq<MessageView>,
                Seq<char>,
            >(e@),
        },
{
    let ghost was = *reader;
    let n: usize = reader.chunk_index().len();
    let mut out: Vec<OwnedMessage> = Vec::new();
    let mut i: usize = 0;
    assert(message::views(out@) =~= Seq::empty());
    while i < n
        invariant
            i <= n,
            was == *old(reader),
            n == was.chunk_list().len(),
            reader.chunk_list() == was.chunk_list(),
            forall|k: int| #[trigger] reader.chunk_content(k) == was.chunk_content(k),
            chunks_content(was, i as nat) == Ok::<Seq<MessageView>, Seq<char>>(
                message::views(out@),
            ),
        decreases n - i,
    {
        let ghost before = message::views(out@);
        match reader.read_chunk_at(i) {
            Err(e) => {
                proof {
                    lemma_chunks_stop(was, (i + 1) as nat, n as nat);
                }
                return Err(e);
            },
            Ok(ms) => {
                let mut ms: Vec<OwnedMessage> = ms;
                let ghost more = message::views(ms@);
                out.append(&mut ms);
                assert(message::views(out@) =~= before + more);
            },
        }
        i = i + 1;
    }
    Ok(out)
}

/// The messages of all chunks are those of each chunk, one chunk behind the other; where a chunk
/// cannot be read, its words are told, of the first one that cannot.
pub proof fn law_chunks_follow_each_other<R: StorageReader>(reader: R, n: nat, k: nat)
    requires
        k < n,
        forall|i: int| 0 <= i < k ==> #[trigger] reader.chunk_content(i) is Ok,
    ensures
        chunks_content(reader, 0) == Ok::<Seq<MessageView>, Seq<char>>(Seq::empty()),
        chunks_content(reader, k) is Ok,
        reader.chunk_content(k as int) is Err ==> chunks_content(reader, n) == reader.chunk_content(
            k as int,
        ),
        reader.chunk_content(k as int) matches Ok(ms) ==> chunks_content(reader, k + 1) == Ok::<
            Seq<MessageView>,
            Seq<char>,
        >(chunks_content(reader, k)->Ok_0 + ms),
{
    lemma_readable_chunks(reader, k);
    if reader.chunk_content(k as int) is Err {
        lemma_chunks_stop(reader, k + 1, n);
    }
}

proof fn lemma_readable_chunks<R: StorageReader>(reader: R, k: nat)
    requires
        forall|i: int| 0 <= i < k ==> #[trigger] reader.chunk_content(i) is Ok,
    ensures
        chunks_content(reader, k) is Ok,
    decreases k,
{
    if k > 0 {
        lemma_readable_chunks(reader, (k - 1) as nat);
        assert(reader.chunk_content(k - 1) is Ok);
    }
}

} // verus!
