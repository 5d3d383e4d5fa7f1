//! Example pipeline sources: a source yields the chunks it was created
//! with, one per call, and then reports exhaustion. The synchronous and
//! the asynchronous engine wrappers share this generation logic.

use vstd::prelude::*;

use crate::chunk::Chunk;
use crate::chunk::copy_chunk;

verus! {

/// A source for the synchronous wrapper, yielding preloaded chunks.
pub struct ExampleSyncSource {
    pub pos: usize,
    pub chunks: Vec<Chunk>,
}

impl ExampleSyncSource {
    /// A source positioned at the first of the given chunks.
    pub fn create(chunks: Vec<Chunk>) -> (s: ExampleSyncSource)
        ensures
            s.pos == 0,
            s.chunks == chunks,
    {
        ExampleSyncSource { pos: 0, chunks }
    }

    /// Yields the next chunk, or nothing once every chunk was yielded.
    pub fn generate(&mut self) -> (r: Option<Chunk>)
        requires
            old(self).pos < usize::MAX,
        ensures
            final(self).pos == old(self).pos + 1,
            final(self).chunks == old(self).chunks,
            old(self).pos < old(self).chunks@.len() ==> (r matches Some(c) && c.same_content(
                old(self).chunks@[old(self).pos as int],
            )),
            old(self).pos >= old(self).chunks@.len() ==> r is None,
    {
        self.pos += 1;
        if self.chunks.len() >= self.pos {
            Some(copy_chunk(&self.chunks[self.pos - 1]))
        } else {
            None
        }
    }
}

/// A source for the asynchronous wrapper; the generation logic is the
/// same, the awaiting shell around it is the engine's.
pub struct ExampleAsyncSource {
    pub pos: usize,
    pub chunks: Vec<Chunk>,
}

impl ExampleAsyncSource {
    /// A source positioned at the first of the given chunks.
    pub fn create(chunks: Vec<Chunk>) -> (s: ExampleAsyncSource)
        ensures
            s.pos == 0,
            s.chunks == chunks,
    {
        ExampleAsyncSource { pos: 0, chunks }
    }

    /// Yields the next chunk, or nothing once every chunk was yielded.
    pub fn generate(&mut self) -> (r: Option<Chunk>)
        requires
            old(self).pos < usize::MAX,
        ensures
            final(self).pos == old(self).pos + 1,
            final(self).chunks == old(self).chunks,
            old(self).pos < old(self).chunks@.len() ==> (r matches Some(c) && c.same_content(
                old(self).chunks@[old(self).pos as int],
            )),
            old(self).pos >= old(self).chunks@.len() ==> r is None,
    {
        self.pos += 1;
        if self.chunks.len() >= self.pos {
            Some(copy_chunk(&self.chunks[self.pos - 1]))
        } else {
            None
        }
    }
}

} // verus!
