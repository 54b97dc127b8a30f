//! A reading end over messages in memory.

use crate::message;
use crate::message::{
    ChannelMeta, ChannelView, ChunkIndex, Error, MessageView, OwnedMessage, Schema, SchemaView,
};
use crate::storage::StorageReader;
use vstd::prelude::*;

verus! {

/// Messages in memory, without chunks. Reading them takes them out.
pub struct MemReader {
    messages: Vec<OwnedMessage>,
}

impl View for MemReader {
    type V = Seq<MessageView>;

    closed spec fn view(&self) -> Seq<MessageView> {
        message::views(self.messages@)
    }
}

impl MemReader {
    pub fn new(messages: Vec<OwnedMessage>) -> (r: Self)
        ensures
            r@ == message::views(messages@),
    {
        MemReader { messages }
    }
}

impl StorageReader for MemReader {
    open spec fn schema_list(&self) -> Seq<SchemaView> {
        Seq::empty()
    }

    open spec fn channel_list(&self) -> Seq<ChannelView> {
        Seq::empty()
    }

    open spec fn chunk_list(&self) -> Seq<ChunkIndex> {
        Seq::empty()
    }

    open spec fn chunk_content(&self, index: int) -> Result<Seq<MessageView>, Seq<char>> {
        Err("chunked read unsupported by this storage reader"@)
    }

    open spec fn whole_content(&self) -> Result<Seq<MessageView>, Seq<char>> {
        Ok(self@)
    }

    fn schemas(&self) -> (r: &[Schema]) {
        let r: &[Schema] = &[];
        assert(message::views(r@) =~= Seq::empty());
        r
    }

    fn channels(&self) -> (r: &[ChannelMeta]) {
        let r: &[ChannelMeta] = &[];
        assert(message::views(r@) =~= Seq::empty());
        r
    }

    fn chunk_index(&self) -> (r: &[ChunkIndex]) {
        let r: &[ChunkIndex] = &[];
        assert(r@ =~= Seq::empty());
        r
    }

    fn read_chunk_at(&mut self, index: usize) -> (r: Result<Vec<OwnedMessage>, Error>)
        ensures
            final(self)@ == old(self)@,
    {
        Err(Error::msg("chunked read unsupported by this storage reader"))
    }

    fn read_all(&mut self) -> (r: Result<Vec<OwnedMessage>, Error>)
        ensures
            final(self)@.len() == 0,
    {
        let mut out: Vec<OwnedMessage> = Vec::new();
        std::mem::swap(&mut out, &mut self.messages);
        Ok(out)
    }
}

} // verus!
