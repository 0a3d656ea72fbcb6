//! The buffered adapter itself.
//!
//! `BufferedStream` wraps one owned underlying resource and exposes the same
//! read / write / flush / end-of-stream capability set, backed by two
//! independent fixed-capacity byte buffers.  The read buffer region
//! `[read_pos, read_max)` holds bytes already fetched but not yet delivered;
//! the write buffer region `[0, write_len)` holds bytes accepted but not yet
//! sent.  Both buffers keep their full capacity allocated for their whole
//! lifetime; a full write buffer is sent, never grown.

use vstd::prelude::*;
use vstd::slice::slice_subrange;

use crate::model::{
    concat_all, flush_step_sends, lemma_add_skip, lemma_add_take, lemma_concat_all_push,
    write_step_buf, write_step_sends,
};
use crate::resource::Resource;

verus! {

/// Default capacity of the read buffer in bytes.
pub const READ_BUF_SIZE: usize = 0x10000;

/// Default capacity of the write buffer in bytes.
pub const WRITE_BUF_SIZE: usize = 0x10000;

/// A push-back was attempted while the read buffer was full at its left edge
/// (`read_pos == 0` with buffered bytes remaining), so there is no room to
/// prepend: the caller broke the one-byte-lookahead discipline.  The buffer
/// is left unchanged.
#[derive(Clone, Copy, Debug, PartialEq, Eq, Structural)]
pub struct PokeError;

/// A buffered adapter over the underlying resource `T`.
pub struct BufferedStream<T: Resource> {
    wrapped: T,
    read_buffer: Vec<u8>,
    read_pos: usize,
    read_max: usize,
    write_buffer: Vec<u8>,
    write_len: usize,
    call_wrapped_flush: bool,
}

impl<T: Resource> BufferedStream<T> {
    /// Well-formedness: offsets stay inside the fixed buffer capacities and
    /// the wrapped resource is itself well formed.
    pub closed spec fn wf(&self) -> bool {
        &&& self.wrapped.inv()
        &&& self.read_pos <= self.read_max <= self.read_buffer@.len()
        &&& self.write_len <= self.write_buffer@.len()
        &&& self.read_buffer@.len() >= 1
        &&& self.write_buffer@.len() >= 1
    }

    /// Bytes already fetched from the underlying resource but not yet
    /// delivered to the caller, in delivery order.
    pub closed spec fn buffered_read(&self) -> Seq<u8> {
        self.read_buffer@.subrange(self.read_pos as int, self.read_max as int)
    }

    /// Bytes accepted from the caller but not yet sent to the underlying
    /// resource, in acceptance order.
    pub closed spec fn buffered_write(&self) -> Seq<u8> {
        self.write_buffer@.take(self.write_len as int)
    }

    /// Bytes the underlying resource has yet to yield.
    pub closed spec fn resource_pending(&self) -> Seq<u8> {
        self.wrapped.pending()
    }

    /// Chunks the underlying resource has received, one per send.
    pub closed spec fn resource_sends(&self) -> Seq<Seq<u8>> {
        self.wrapped.sends()
    }

    /// How often the underlying resource's own flush has been invoked.
    pub closed spec fn resource_flushes(&self) -> nat {
        self.wrapped.flushes()
    }

    /// Every byte still to be delivered to readers: the buffered bytes
    /// followed by whatever the underlying resource has yet to yield.
    pub open spec fn available(&self) -> Seq<u8> {
        self.buffered_read() + self.resource_pending()
    }

    /// Whether a logical flush also invokes the underlying resource's flush.
    pub closed spec fn propagates_flush(&self) -> bool {
        self.call_wrapped_flush
    }

    /// Fixed capacity of the read buffer.
    pub closed spec fn read_capacity(&self) -> int {
        self.read_buffer@.len() as int
    }

    /// Fixed capacity of the write buffer.
    pub closed spec fn write_capacity(&self) -> int {
        self.write_buffer@.len() as int
    }

    /// There is room to push one byte back: either a byte was just consumed
    /// (`read_pos > 0`) or the buffer is freshly drained (`read_max == 0`).
    pub closed spec fn poke_room(&self) -> bool {
        self.read_pos > 0 || self.read_max == 0
    }

    /// The construction-time configuration, which no operation changes.
    pub open spec fn same_config(pre: Self, post: Self) -> bool {
        &&& post.propagates_flush() == pre.propagates_flush()
        &&& post.read_capacity() == pre.read_capacity()
        &&& post.write_capacity() == pre.write_capacity()
    }

    /// Wrap `stream` with the default buffer capacities.  Both buffers start
    /// empty; nothing is read or sent until an operation asks for it.
    pub fn new(stream: T, call_wrapped_flush: bool) -> (r: Self)
        requires
            stream.inv(),
        ensures
            r.wf(),
            r.buffered_read() == Seq::<u8>::empty(),
            r.buffered_write() == Seq::<u8>::empty(),
            r.poke_room(),
            r.resource_pending() == stream.pending(),
            r.resource_sends() == stream.sends(),
            r.resource_flushes() == stream.flushes(),
            r.propagates_flush() == call_wrapped_flush,
            r.read_capacity() == READ_BUF_SIZE as int,
            r.write_capacity() == WRITE_BUF_SIZE as int,
    {
        Self::with_capacities(stream, call_wrapped_flush, READ_BUF_SIZE, WRITE_BUF_SIZE)
    }

    /// Wrap `stream` with the given buffer capacities (at least one byte
    /// each).  Both buffers start empty.
    pub fn with_capacities(
        stream: T,
        call_wrapped_flush: bool,
        read_cap: usize,
        write_cap: usize,
    ) -> (r: Self)
        requires
            stream.inv(),
            read_cap >= 1,
            write_cap >= 1,
        ensures
            r.wf(),
            r.buffered_read() == Seq::<u8>::empty(),
            r.buffered_write() == Seq::<u8>::empty(),
            r.poke_room(),
            r.resource_pending() == stream.pending(),
            r.resource_sends() == stream.sends(),
            r.resource_flushes() == stream.flushes(),
            r.propagates_flush() == call_wrapped_flush,
            r.read_capacity() == read_cap as int,
            r.write_capacity() == write_cap as int,
    {
        let r = BufferedStream {
            wrapped: stream,
            read_buffer: zeroed(read_cap),
            read_pos: 0,
            read_max: 0,
            write_buffer: zeroed(write_cap),
            write_len: 0,
            call_wrapped_flush,
        };
        proof {
            assert(r.buffered_read() =~= Seq::<u8>::empty());
            assert(r.buffered_write() =~= Seq::<u8>::empty());
        }
        r
    }

    /// Refill the drained read buffer with one read from the underlying
    /// resource.  Reports false exactly when the resource is exhausted.
    fn fill_buffer(&mut self) -> (r: bool)
        requires
            old(self).wf(),
            old(self).buffered_read().len() == 0,
        ensures
            final(self).wf(),
            Self::same_config(*old(self), *final(self)),
            final(self).buffered_write() == old(self).buffered_write(),
            final(self).resource_sends() == old(self).resource_sends(),
            final(self).resource_flushes() == old(self).resource_flushes(),
            final(self).available() == old(self).available(),
            r == (old(self).resource_pending().len() > 0),
            r ==> final(self).buffered_read().len() >= 1,
            !r ==> final(self).buffered_read().len() == 0
                && final(self).resource_pending().len() == 0,
    {
        let cap = self.read_buffer.len();
        let r = self.wrapped.read(cap);
        match r {
            Option::None => {
                self.read_pos = 0;
                self.read_max = 0;
                proof {
                    assert(self.buffered_read() =~= Seq::<u8>::empty());
                    assert(self.available() =~= old(self).available());
                }
                false
            },
            Option::Some(chunk) => {
                let n = chunk.len();
                copy_at(&mut self.read_buffer, 0, chunk.as_slice());
                self.read_pos = 0;
                self.read_max = n;
                proof {
                    assert(self.buffered_read() =~= chunk@);
                    assert(old(self).buffered_read() =~= Seq::<u8>::empty());
                    assert(chunk@ + old(self).resource_pending().skip(n as int)
                        =~= old(self).resource_pending());
                    assert(self.available() =~= old(self).available());
                }
                true
            },
        }
    }

    /// Deliver the next byte, filling the buffer from the underlying resource
    /// if it is drained; `None` exactly when every byte has been delivered
    /// and the resource is exhausted.  After a successful call there is room
    /// to push the byte back.
    pub fn read_byte(&mut self) -> (r: Option<u8>)
        requires
            old(self).wf(),
        ensures
            final(self).wf(),
            Self::same_config(*old(self), *final(self)),
            final(self).buffered_write() == old(self).buffered_write(),
            final(self).resource_sends() == old(self).resource_sends(),
            final(self).resource_flushes() == old(self).resource_flushes(),
            (match r {
                Option::Some(b) => {
                    &&& old(self).available().len() > 0
                    &&& b == old(self).available()[0]
                    &&& final(self).available() == old(self).available().skip(1)
                    &&& final(self).poke_room()
                },
                Option::None => {
                    &&& old(self).available().len() == 0
                    &&& final(self).available() == old(self).available()
                },
            }),
    {
        if self.read_pos == self.read_max {
            proof {
                assert(self.buffered_read() =~= Seq::<u8>::empty());
            }
            if !self.fill_buffer() {
                return Option::None;
            }
        }
        let ghost pre = *self;
        let b = self.read_buffer[self.read_pos];
        self.read_pos = self.read_pos + 1;
        proof {
            assert(pre.buffered_read().len() >= 1);
            assert(b == pre.buffered_read()[0]);
            assert(self.buffered_read() =~= pre.buffered_read().skip(1));
            lemma_add_skip(pre.buffered_read(), pre.resource_pending(), 1);
            assert(self.available() =~= pre.available().skip(1));
            assert(pre.available() == old(self).available());
            assert(old(self).available()[0] == pre.available()[0]);
        }
        Option::Some(b)
    }

    /// Poke a single byte back so it is delivered next.  Valid only right
    /// after consuming a byte, or on a freshly drained buffer; when the
    /// buffer is full at its left edge the call reports [`PokeError`] and
    /// leaves everything unchanged.
    pub fn poke_byte(&mut self, byte: u8) -> (r: Result<(), PokeError>)
        requires
            old(self).wf(),
        ensures
            final(self).wf(),
            Self::same_config(*old(self), *final(self)),
            final(self).buffered_write() == old(self).buffered_write(),
            final(self).resource_sends() == old(self).resource_sends(),
            final(self).resource_flushes() == old(self).resource_flushes(),
            final(self).resource_pending() == old(self).resource_pending(),
            r is Ok <==> old(self).poke_room(),
            (match r {
                Result::Ok(()) => {
                    &&& final(self).buffered_read() == seq![byte] + old(self).buffered_read()
                    &&& final(self).available() == seq![byte] + old(self).available()
                },
                Result::Err(_) => {
                    &&& final(self).buffered_read() == old(self).buffered_read()
                    &&& final(self).poke_room() == old(self).poke_room()
                },
            }),
    {
        if self.read_pos == 0 {
            if self.read_max != 0 {
                return Result::Err(PokeError);
            }
            self.read_max = 1;
        } else {
            self.read_pos = self.read_pos - 1;
        }
        let pos = self.read_pos;
        self.read_buffer[pos] = byte;
        proof {
            assert(self.buffered_read() =~= seq![byte] + old(self).buffered_read());
            assert(self.available() =~= seq![byte] + old(self).available());
        }
        Result::Ok(())
    }

    /// Copy up to `dest.len()` available bytes into the front of `dest`,
    /// filling the read buffer at most once; `None` exactly when every byte
    /// has been delivered and the resource is exhausted.  The result may be
    /// short: one fill never loops to satisfy a large destination.
    pub fn read(&mut self, dest: &mut Vec<u8>) -> (r: Option<usize>)
        requires
            old(self).wf(),
        ensures
            final(self).wf(),
            Self::same_config(*old(self), *final(self)),
            final(self).buffered_write() == old(self).buffered_write(),
            final(self).resource_sends() == old(self).resource_sends(),
            final(self).resource_flushes() == old(self).resource_flushes(),
            final(dest)@.len() == old(dest)@.len(),
            (match r {
                Option::Some(n) => {
                    &&& n <= old(dest)@.len()
                    &&& n <= old(self).available().len()
                    &&& old(self).available().len() > 0
                    &&& (old(dest)@.len() > 0 ==> n >= 1)
                    &&& final(dest)@ == old(self).available().take(n as int)
                        + old(dest)@.skip(n as int)
                    &&& final(self).available() == old(self).available().skip(n as int)
                    &&& (n == old(dest)@.len() || final(self).buffered_read().len() == 0)
                    &&& (old(self).buffered_read().len() > 0 ==> n as int == (
                        if old(self).buffered_read().len() <= old(dest)@.len() {
                            old(self).buffered_read().len() as int
                        } else {
                            old(dest)@.len() as int
                        }))
                },
                Option::None => {
                    &&& old(self).available().len() == 0
                    &&& final(self).available() == old(self).available()
                    &&& final(dest)@ == old(dest)@
                },
            }),
    {
        if self.read_pos == self.read_max {
            proof {
                assert(self.buffered_read() =~= Seq::<u8>::empty());
            }
            if !self.fill_buffer() {
                return Option::None;
            }
        }
        let ghost pre = *self;
        let avail = self.read_max - self.read_pos;
        let size = if avail < dest.len() {
            avail
        } else {
            dest.len()
        };
        let part = slice_subrange(
            self.read_buffer.as_slice(),
            self.read_pos,
            self.read_pos + size,
        );
        copy_at(dest, 0, part);
        self.read_pos = self.read_pos + size;
        proof {
            assert(pre.buffered_read().take(size as int)
                =~= pre.read_buffer@.subrange(pre.read_pos as int, pre.read_pos + size as int));
            assert(self.buffered_read() =~= pre.buffered_read().skip(size as int));
            lemma_add_take(pre.buffered_read(), pre.resource_pending(), size as int);
            lemma_add_skip(pre.buffered_read(), pre.resource_pending(), size as int);
            assert(dest@ =~= pre.available().take(size as int) + old(dest)@.skip(size as int));
            assert(self.available() =~= pre.available().skip(size as int));
            assert(pre.available() == old(self).available());
        }
        Option::Some(size)
    }

    /// True exactly when the read buffer is drained and the underlying
    /// resource is exhausted; buffered bytes keep the stream alive even once
    /// the resource has nothing more to yield.
    pub fn eof(&mut self) -> (r: bool)
        requires
            old(self).wf(),
        ensures
            final(self).wf(),
            Self::same_config(*old(self), *final(self)),
            final(self).buffered_read() == old(self).buffered_read(),
            final(self).buffered_write() == old(self).buffered_write(),
            final(self).resource_pending() == old(self).resource_pending(),
            final(self).resource_sends() == old(self).resource_sends(),
            final(self).resource_flushes() == old(self).resource_flushes(),
            r == (old(self).available().len() == 0),
    {
        if self.read_pos == self.read_max {
            proof {
                assert(self.buffered_read() =~= Seq::<u8>::empty());
            }
            self.wrapped.end_of_stream()
        } else {
            false
        }
    }

    /// Accept `src`, coalescing it into the write buffer.  A write that
    /// exactly fills the buffer sends the full buffer at once; one that would
    /// overflow it first sends any previously buffered bytes, then sends
    /// `src` as one unbuffered chunk, in that order.  Either way the bytes
    /// the resource will have seen after a final flush are exactly the bytes
    /// written, in order.
    pub fn write(&mut self, src: &[u8])
        requires
            old(self).wf(),
        ensures
            final(self).wf(),
            Self::same_config(*old(self), *final(self)),
            final(self).buffered_read() == old(self).buffered_read(),
            final(self).resource_pending() == old(self).resource_pending(),
            final(self).resource_flushes() == old(self).resource_flushes(),
            final(self).resource_sends() == write_step_sends(
                old(self).write_capacity(),
                old(self).resource_sends(),
                old(self).buffered_write(),
                src@,
            ),
            final(self).buffered_write() == write_step_buf(
                old(self).write_capacity(),
                old(self).buffered_write(),
                src@,
            ),
            concat_all(final(self).resource_sends()) + final(self).buffered_write()
                == concat_all(old(self).resource_sends()) + old(self).buffered_write() + src@,
    {
        let cap = self.write_buffer.len();
        if src.len() > cap - self.write_len {
            if self.write_len > 0 {
                let buffered = slice_subrange(self.write_buffer.as_slice(), 0, self.write_len);
                self.wrapped.write(buffered);
                self.write_len = 0;
            }
            self.wrapped.write(src);
            proof {
                assert(self.buffered_write() =~= Seq::<u8>::empty());
                if old(self).buffered_write().len() > 0 {
                    lemma_concat_all_push(
                        old(self).resource_sends(),
                        old(self).buffered_write(),
                    );
                    lemma_concat_all_push(
                        old(self).resource_sends().push(old(self).buffered_write()),
                        src@,
                    );
                } else {
                    assert(old(self).buffered_write() =~= Seq::<u8>::empty());
                    lemma_concat_all_push(old(self).resource_sends(), src@);
                }
                assert(concat_all(final(self).resource_sends()) + final(self).buffered_write()
                    =~= concat_all(old(self).resource_sends()) + old(self).buffered_write()
                        + src@);
            }
        } else {
            let ghost pre = *self;
            copy_at(&mut self.write_buffer, self.write_len, src);
            self.write_len = self.write_len + src.len();
            proof {
                assert(self.buffered_write()
                    =~= pre.buffered_write() + src@);
            }
            if self.write_len == cap {
                let full = slice_subrange(self.write_buffer.as_slice(), 0, self.write_len);
                self.wrapped.write(full);
                self.write_len = 0;
                proof {
                    assert(self.buffered_write() =~= Seq::<u8>::empty());
                    lemma_concat_all_push(
                        old(self).resource_sends(),
                        old(self).buffered_write() + src@,
                    );
                    assert(concat_all(final(self).resource_sends())
                        + final(self).buffered_write()
                        =~= concat_all(old(self).resource_sends()) + old(self).buffered_write()
                            + src@);
                }
            } else {
                proof {
                    assert(concat_all(final(self).resource_sends())
                        + final(self).buffered_write()
                        =~= concat_all(old(self).resource_sends()) + old(self).buffered_write()
                            + src@);
                }
            }
        }
    }

    /// Send any buffered write bytes to the underlying resource, then invoke
    /// the resource's own flush exactly when flush propagation was configured
    /// at construction.  A second flush with no intervening writes sends
    /// nothing further.
    pub fn flush(&mut self)
        requires
            old(self).wf(),
        ensures
            final(self).wf(),
            Self::same_config(*old(self), *final(self)),
            final(self).buffered_read() == old(self).buffered_read(),
            final(self).resource_pending() == old(self).resource_pending(),
            final(self).buffered_write() == Seq::<u8>::empty(),
            final(self).resource_sends() == flush_step_sends(
                old(self).resource_sends(),
                old(self).buffered_write(),
            ),
            final(self).resource_flushes() == old(self).resource_flushes()
                + (if old(self).propagates_flush() { 1nat } else { 0nat }),
            concat_all(final(self).resource_sends())
                == concat_all(old(self).resource_sends()) + old(self).buffered_write(),
    {
        if self.write_len > 0 {
            let buffered = slice_subrange(self.write_buffer.as_slice(), 0, self.write_len);
            self.wrapped.write(buffered);
            self.write_len = 0;
            proof {
                lemma_concat_all_push(old(self).resource_sends(), old(self).buffered_write());
            }
        } else {
            proof {
                assert(old(self).buffered_write() =~= Seq::<u8>::empty());
                assert(concat_all(old(self).resource_sends()) + old(self).buffered_write()
                    =~= concat_all(old(self).resource_sends()));
            }
        }
        if self.call_wrapped_flush {
            self.wrapped.flush();
        }
        proof {
            assert(self.buffered_write() =~= Seq::<u8>::empty());
        }
    }

    /// Borrow the wrapped resource for inspection.
    pub fn inner(&self) -> (r: &T)
        requires
            self.wf(),
        ensures
            r.inv(),
            r.pending() == self.resource_pending(),
            r.sends() == self.resource_sends(),
            r.flushes() == self.resource_flushes(),
    {
        &self.wrapped
    }

    /// Conclude the adapter: flush the buffered write bytes (propagating to
    /// the resource's own flush when so configured) and hand the underlying
    /// resource back.  Dropping the adapter without calling this discards any
    /// unflushed write bytes.
    pub fn into_inner(self) -> (r: T)
        requires
            self.wf(),
        ensures
            r.inv(),
            r.pending() == self.resource_pending(),
            r.sends() == flush_step_sends(self.resource_sends(), self.buffered_write()),
            r.flushes() == self.resource_flushes()
                + (if self.propagates_flush() { 1nat } else { 0nat }),
    {
        let mut s = self;
        s.flush();
        let BufferedStream { wrapped, .. } = s;
        wrapped
    }
}

/// A byte vector of length `n`, all zero, used as a fresh fixed buffer.
fn zeroed(n: usize) -> (v: Vec<u8>)
    ensures
        v@.len() == n as nat,
{
    let mut v: Vec<u8> = Vec::new();
    while v.len() < n
        invariant
            v@.len() <= n as nat,
        decreases n - v.len(),
    {
        v.push(0u8);
    }
    v
}

/// Copy all of `src` into `dst` starting at `offset`; the rest of `dst` is
/// untouched and its length never changes.
fn copy_at(dst: &mut Vec<u8>, offset: usize, src: &[u8])
    requires
        offset + src@.len() <= old(dst)@.len(),
    ensures
        final(dst)@.len() == old(dst)@.len(),
        final(dst)@ == old(dst)@.take(offset as int) + src@
            + old(dst)@.skip(offset as int + src@.len() as int),
{
    let n = src.len();
    let dst_len = dst.len();
    let mut i: usize = 0;
    while i < n
        invariant
            i <= n,
            n == src@.len(),
            offset + n <= dst_len,
            dst_len == dst@.len(),
            dst@.len() == old(dst)@.len(),
            forall|j: int|
                0 <= j < dst@.len() && !(offset <= j < offset + i) ==> dst@[j] == old(dst)@[j],
            forall|j: int| 0 <= j < i ==> dst@[offset + j] == src@[j],
        decreases n - i,
    {
        let idx = offset + i;
        dst[idx] = src[i];
        i = i + 1;
    }
    proof {
        assert(dst@ =~= old(dst)@.take(offset as int) + src@
            + old(dst)@.skip(offset as int + src@.len() as int));
    }
}

} // verus!
