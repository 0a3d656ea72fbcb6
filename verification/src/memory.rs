//! An in-memory underlying resource.
//!
//! `MemoryStream` plays the part of the slow resource entirely in memory: it
//! yields a scripted list of chunks (so short reads and arbitrary chunking
//! can be exercised), records every chunk it is sent, and counts how often
//! its own flush is invoked.  It is a verified implementation of
//! [`Resource`], which also shows the trait's contracts are satisfiable.

use vstd::prelude::*;
use vstd::slice::{slice_subrange, slice_to_vec};

use crate::model::{concat_all, lemma_add_skip, lemma_add_take};
use crate::resource::Resource;

verus! {

/// The views of a list of byte chunks.
pub open spec fn chunk_views(chunks: Seq<Vec<u8>>) -> Seq<Seq<u8>> {
    chunks.map_values(|c: Vec<u8>| c@)
}

/// An in-memory resource yielding scripted chunks and recording all sends.
pub struct MemoryStream {
    chunks: Vec<Vec<u8>>,
    chunk_idx: usize,
    offset: usize,
    sent: Vec<Vec<u8>>,
    flush_count: u64,
    flush_total: Ghost<nat>,
}

impl MemoryStream {
    /// A resource that will yield exactly the given non-empty chunks, one
    /// read call each (split further only when a read asks for less).
    pub fn new(chunks: Vec<Vec<u8>>) -> (r: Self)
        requires
            forall|i: int| 0 <= i < chunks@.len() ==> chunks@[i]@.len() >= 1,
        ensures
            r.inv(),
            r.pending() == concat_all(chunk_views(chunks@)),
            r.sends() == Seq::<Seq<u8>>::empty(),
            r.flushes() == 0,
    {
        let r = MemoryStream {
            chunks,
            chunk_idx: 0,
            offset: 0,
            sent: Vec::new(),
            flush_count: 0,
            flush_total: Ghost(0),
        };
        proof {
            assert(chunk_views(r.chunks@).skip(0) =~= chunk_views(r.chunks@));
            assert(r.pending() =~= concat_all(chunk_views(r.chunks@)));
            assert(r.sends() =~= Seq::<Seq<u8>>::empty());
        }
        r
    }

    /// How many chunks have been sent to this resource.
    pub fn send_count(&self) -> (n: usize)
        ensures
            n == self.sends().len(),
    {
        self.sent.len()
    }

    /// The `i`-th chunk this resource was sent.
    pub fn send_at(&self, i: usize) -> (r: &Vec<u8>)
        requires
            i < self.sends().len(),
        ensures
            r@ == self.sends()[i as int],
    {
        &self.sent[i]
    }

    /// How often this resource's own flush has been invoked.
    pub fn flush_calls(&self) -> (n: u64)
        requires
            self.inv(),
        ensures
            self.flushes() < u64::MAX as nat ==> n as nat == self.flushes(),
    {
        self.flush_count
    }
}

impl Resource for MemoryStream {
    closed spec fn inv(&self) -> bool {
        &&& self.chunk_idx <= self.chunks@.len()
        &&& (self.chunk_idx < self.chunks@.len() ==> self.offset < self.chunks@[
            self.chunk_idx as int
        ]@.len())
        &&& (self.chunk_idx == self.chunks@.len() ==> self.offset == 0)
        &&& (forall|i: int|
            self.chunk_idx <= i < self.chunks@.len() ==> self.chunks@[i]@.len() >= 1)
        &&& self.flush_count as nat == (if self.flush_total@ <= u64::MAX as nat {
            self.flush_total@
        } else {
            u64::MAX as nat
        })
    }

    closed spec fn pending(&self) -> Seq<u8> {
        concat_all(chunk_views(self.chunks@).skip(self.chunk_idx as int)).skip(
            self.offset as int,
        )
    }

    closed spec fn sends(&self) -> Seq<Seq<u8>> {
        chunk_views(self.sent@)
    }

    closed spec fn flushes(&self) -> nat {
        self.flush_total@
    }

    fn read(&mut self, max: usize) -> (r: Option<Vec<u8>>) {
        if self.chunk_idx >= self.chunks.len() {
            proof {
                assert(chunk_views(self.chunks@).skip(self.chunk_idx as int)
                    =~= Seq::<Seq<u8>>::empty());
                assert(self.pending() =~= Seq::<u8>::empty());
            }
            return Option::None;
        }
        let ghost tail = chunk_views(old(self).chunks@).skip(old(self).chunk_idx as int);
        let ghost head = old(self).chunks@[old(self).chunk_idx as int]@;
        let ghost rest = concat_all(tail.skip(1));
        proof {
            assert(tail.len() > 0);
            assert(tail[0] == head);
            lemma_add_skip(head, rest, old(self).offset as int);
            assert(old(self).pending() =~= head.skip(old(self).offset as int) + rest);
        }
        let current = &self.chunks[self.chunk_idx];
        let clen = current.len();
        let avail = clen - self.offset;
        let n = if avail < max {
            avail
        } else {
            max
        };
        let part = slice_to_vec(slice_subrange(current.as_slice(), self.offset, self.offset + n));
        proof {
            lemma_add_take(head.skip(old(self).offset as int), rest, n as int);
            assert(head.skip(old(self).offset as int).take(n as int)
                =~= head.subrange(old(self).offset as int, old(self).offset + n as int));
            assert(part@ == old(self).pending().take(n as int));
        }
        if self.offset + n == clen {
            self.chunk_idx = self.chunk_idx + 1;
            self.offset = 0;
            proof {
                assert(chunk_views(self.chunks@).skip(self.chunk_idx as int) =~= tail.skip(1));
                lemma_add_skip(head.skip(old(self).offset as int), rest, n as int);
                assert(head.skip(old(self).offset as int).skip(n as int) =~= Seq::<u8>::empty());
                assert(self.pending() =~= old(self).pending().skip(n as int));
            }
        } else {
            self.offset = self.offset + n;
            proof {
                lemma_add_skip(head, rest, self.offset as int);
                lemma_add_skip(head.skip(old(self).offset as int), rest, n as int);
                assert(head.skip(old(self).offset as int).skip(n as int)
                    =~= head.skip(self.offset as int));
                assert(self.pending() =~= old(self).pending().skip(n as int));
            }
        }
        Option::Some(part)
    }

    fn write(&mut self, data: &[u8]) {
        let copy = slice_to_vec(data);
        self.sent.push(copy);
        proof {
            assert(self.sends() =~= old(self).sends().push(data@));
        }
    }

    fn flush(&mut self) {
        self.flush_total = Ghost(self.flush_total@ + 1);
        if self.flush_count < u64::MAX {
            self.flush_count = self.flush_count + 1;
        }
    }

    fn end_of_stream(&mut self) -> (r: bool) {
        if self.chunk_idx >= self.chunks.len() {
            proof {
                assert(chunk_views(self.chunks@).skip(self.chunk_idx as int)
                    =~= Seq::<Seq<u8>>::empty());
                assert(self.pending() =~= Seq::<u8>::empty());
            }
            true
        } else {
            proof {
                let tail = chunk_views(self.chunks@).skip(self.chunk_idx as int);
                let head = self.chunks@[self.chunk_idx as int]@;
                let rest = concat_all(tail.skip(1));
                assert(tail.len() > 0);
                assert(tail[0] == head);
                lemma_add_skip(head, rest, self.offset as int);
                assert(self.pending() =~= head.skip(self.offset as int) + rest);
                assert(self.pending().len() > 0);
            }
            false
        }
    }
}

} // verus!
