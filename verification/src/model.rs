//! Mathematical model of the two buffer managers.
//!
//! The write side of the adapter is described by how one operation transforms
//! the pair (sequence of chunks already sent to the underlying resource,
//! bytes still held in the write buffer).  The spec functions here state those
//! transformations once; the executable methods promise in their `ensures`
//! that they realise them, and the laws in [`crate::laws`] are proved about
//! them.

use vstd::prelude::*;

verus! {

/// All chunks sent to the underlying resource, run together in order.
pub open spec fn concat_all(chunks: Seq<Seq<u8>>) -> Seq<u8>
    decreases chunks.len(),
{
    if chunks.len() == 0 {
        Seq::empty()
    } else {
        chunks[0] + concat_all(chunks.skip(1))
    }
}

/// The chunks the underlying resource has received after a write of `src`
/// into a write buffer of capacity `cap` currently holding `buf`.
pub open spec fn write_step_sends(
    cap: int,
    sends: Seq<Seq<u8>>,
    buf: Seq<u8>,
    src: Seq<u8>,
) -> Seq<Seq<u8>> {
    if buf.len() + src.len() > cap {
        if buf.len() > 0 {
            sends.push(buf).push(src)
        } else {
            sends.push(src)
        }
    } else if buf.len() + src.len() == cap {
        sends.push(buf + src)
    } else {
        sends
    }
}

/// The bytes left in the write buffer after a write of `src` into a write
/// buffer of capacity `cap` currently holding `buf`.
pub open spec fn write_step_buf(cap: int, buf: Seq<u8>, src: Seq<u8>) -> Seq<u8> {
    if buf.len() + src.len() >= cap {
        Seq::empty()
    } else {
        buf + src
    }
}

/// The chunks the underlying resource has received after a flush of a write
/// buffer holding `buf`; the buffer is empty afterwards.
pub open spec fn flush_step_sends(sends: Seq<Seq<u8>>, buf: Seq<u8>) -> Seq<Seq<u8>> {
    if buf.len() > 0 {
        sends.push(buf)
    } else {
        sends
    }
}

/// The chunks sent after a whole sequence of writes, applied in order.
pub open spec fn write_fold_sends(
    cap: int,
    sends: Seq<Seq<u8>>,
    buf: Seq<u8>,
    writes: Seq<Seq<u8>>,
) -> Seq<Seq<u8>>
    decreases writes.len(),
{
    if writes.len() == 0 {
        sends
    } else {
        write_fold_sends(
            cap,
            write_step_sends(cap, sends, buf, writes[0]),
            write_step_buf(cap, buf, writes[0]),
            writes.skip(1),
        )
    }
}

/// The bytes left buffered after a whole sequence of writes, applied in order.
pub open spec fn write_fold_buf(cap: int, buf: Seq<u8>, writes: Seq<Seq<u8>>) -> Seq<u8>
    decreases writes.len(),
{
    if writes.len() == 0 {
        buf
    } else {
        write_fold_buf(cap, write_step_buf(cap, buf, writes[0]), writes.skip(1))
    }
}

pub proof fn lemma_concat_all_push(chunks: Seq<Seq<u8>>, tail: Seq<u8>)
    ensures
        concat_all(chunks.push(tail)) == concat_all(chunks) + tail,
    decreases chunks.len(),
{
    if chunks.len() == 0 {
        assert(chunks.push(tail).skip(1) =~= Seq::<Seq<u8>>::empty());
        assert(concat_all(chunks.push(tail)) == tail + concat_all(Seq::<Seq<u8>>::empty()));
        assert(concat_all(chunks.push(tail)) =~= concat_all(chunks) + tail);
    } else {
        assert(chunks.push(tail).skip(1) =~= chunks.skip(1).push(tail));
        lemma_concat_all_push(chunks.skip(1), tail);
        assert(concat_all(chunks.push(tail)) =~= concat_all(chunks) + tail);
    }
}

pub proof fn lemma_add_take(a: Seq<u8>, b: Seq<u8>, k: int)
    requires
        0 <= k <= a.len(),
    ensures
        (a + b).take(k) == a.take(k),
{
    assert((a + b).take(k) =~= a.take(k));
}

pub proof fn lemma_add_skip(a: Seq<u8>, b: Seq<u8>, k: int)
    requires
        0 <= k <= a.len(),
    ensures
        (a + b).skip(k) == a.skip(k) + b,
{
    assert((a + b).skip(k) =~= a.skip(k) + b);
}

} // verus!
