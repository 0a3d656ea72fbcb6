//! The capability set an underlying resource must offer.
//!
//! The buffered adapter is generic over any synchronous bidirectional byte
//! resource: something that yields bytes in chunks of its own choosing until
//! it is exhausted, accepts whole chunks of bytes, and has a flush of its
//! own.  The trait carries a ghost model of the resource — the bytes it has
//! yet to yield, the chunks it has received, how often it has been flushed —
//! and every method's contract is stated over that model.

use vstd::prelude::*;

verus! {

/// A synchronous byte resource (for instance a socket) the adapter can wrap.
pub trait Resource: Sized {
    /// Well-formedness of the resource's own state; every operation assumes
    /// and preserves it.
    spec fn inv(&self) -> bool;

    /// The bytes the resource has yet to yield to readers, in order.
    spec fn pending(&self) -> Seq<u8>;

    /// The chunks handed to the resource so far, one per write call, in order.
    spec fn sends(&self) -> Seq<Seq<u8>>;

    /// How many times the resource's own flush has been invoked.
    spec fn flushes(&self) -> nat;

    /// Yield at most `max` of the pending bytes, or `None` once exhausted.
    ///
    /// A successful read yields a non-empty prefix of the pending bytes; how
    /// the pending bytes are cut into chunks is the resource's own choice
    /// (a short read is always allowed).  The call may block.
    fn read(&mut self, max: usize) -> (r: Option<Vec<u8>>)
        requires
            old(self).inv(),
            max >= 1,
        ensures
            final(self).inv(),
            final(self).sends() == old(self).sends(),
            final(self).flushes() == old(self).flushes(),
            (match r {
                Option::None => {
                    &&& old(self).pending().len() == 0
                    &&& final(self).pending() == old(self).pending()
                },
                Option::Some(chunk) => {
                    &&& 1 <= chunk@.len() <= max
                    &&& chunk@.len() <= old(self).pending().len()
                    &&& chunk@ == old(self).pending().take(chunk@.len() as int)
                    &&& final(self).pending() == old(self).pending().skip(chunk@.len() as int)
                },
            }),
    ;

    /// Accept `data` as one whole send.  The call may block.
    fn write(&mut self, data: &[u8])
        requires
            old(self).inv(),
        ensures
            final(self).inv(),
            final(self).pending() == old(self).pending(),
            final(self).flushes() == old(self).flushes(),
            final(self).sends() == old(self).sends().push(data@),
    ;

    /// Force any resource-level buffering to be sent.  Must be idempotent in
    /// its own right.  The call may block.
    fn flush(&mut self)
        requires
            old(self).inv(),
        ensures
            final(self).inv(),
            final(self).pending() == old(self).pending(),
            final(self).sends() == old(self).sends(),
            final(self).flushes() == old(self).flushes() + 1,
    ;

    /// True exactly when no further bytes will ever be yielded.
    fn end_of_stream(&mut self) -> (r: bool)
        requires
            old(self).inv(),
        ensures
            final(self).inv(),
            final(self).pending() == old(self).pending(),
            final(self).sends() == old(self).sends(),
            final(self).flushes() == old(self).flushes(),
            r == (old(self).pending().len() == 0),
    ;
}

} // verus!
