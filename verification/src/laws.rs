//! Laws of the buffering algorithm.
//!
//! Each proof function here states, over the spec model of
//! [`crate::model`] that the contracts in [`crate::buffered`] are written
//! against, one property a user of the adapter may rely on.

use vstd::prelude::*;

use crate::model::{
    concat_all, flush_step_sends, lemma_concat_all_push, write_fold_buf, write_fold_sends,
    write_step_buf, write_step_sends,
};

verus! {

/// One write conserves the bytes in flight: the concatenation of everything
/// sent plus what stays buffered grows by exactly the written bytes.
pub proof fn lemma_write_step_conserves(cap: int, sends: Seq<Seq<u8>>, buf: Seq<u8>, src: Seq<u8>)
    ensures
        concat_all(write_step_sends(cap, sends, buf, src)) + write_step_buf(cap, buf, src)
            == concat_all(sends) + buf + src,
{
    if buf.len() + src.len() > cap {
        if buf.len() > 0 {
            lemma_concat_all_push(sends, buf);
            lemma_concat_all_push(sends.push(buf), src);
        } else {
            assert(buf =~= Seq::<u8>::empty());
            lemma_concat_all_push(sends, src);
        }
    } else if buf.len() + src.len() == cap {
        lemma_concat_all_push(sends, buf + src);
    }
    assert(concat_all(write_step_sends(cap, sends, buf, src)) + write_step_buf(cap, buf, src)
        =~= concat_all(sends) + buf + src);
}

/// A flush conserves the bytes in flight: afterwards the concatenation of
/// everything sent is the old one followed by the old buffered bytes.
pub proof fn lemma_flush_step_conserves(sends: Seq<Seq<u8>>, buf: Seq<u8>)
    ensures
        concat_all(flush_step_sends(sends, buf)) == concat_all(sends) + buf,
{
    if buf.len() > 0 {
        lemma_concat_all_push(sends, buf);
    } else {
        assert(buf =~= Seq::<u8>::empty());
        assert(concat_all(flush_step_sends(sends, buf)) =~= concat_all(sends) + buf);
    }
}

/// A whole sequence of writes conserves the bytes in flight.
pub proof fn lemma_write_fold_conserves(
    cap: int,
    sends: Seq<Seq<u8>>,
    buf: Seq<u8>,
    writes: Seq<Seq<u8>>,
)
    ensures
        concat_all(write_fold_sends(cap, sends, buf, writes)) + write_fold_buf(cap, buf, writes)
            == concat_all(sends) + buf + concat_all(writes),
    decreases writes.len(),
{
    if writes.len() == 0 {
        assert(concat_all(sends) + buf + concat_all(writes) =~= concat_all(sends) + buf);
    } else {
        lemma_write_step_conserves(cap, sends, buf, writes[0]);
        lemma_write_fold_conserves(
            cap,
            write_step_sends(cap, sends, buf, writes[0]),
            write_step_buf(cap, buf, writes[0]),
            writes.skip(1),
        );
        assert(concat_all(sends) + buf + writes[0] + concat_all(writes.skip(1))
            =~= concat_all(sends) + buf + concat_all(writes));
    }
}

/// Law: after any sequence of writes followed by one explicit flush, the
/// underlying resource has observed exactly the concatenation of the written
/// bytes, in order.  (In particular this holds when the writes together fit
/// within the write capacity, where no intermediate send was ever forced.)
pub proof fn lemma_writes_then_flush_deliver_exactly(cap: int, writes: Seq<Seq<u8>>)
    ensures
        concat_all(flush_step_sends(
            write_fold_sends(cap, Seq::empty(), Seq::empty(), writes),
            write_fold_buf(cap, Seq::empty(), writes),
        )) == concat_all(writes),
{
    lemma_write_fold_conserves(cap, Seq::empty(), Seq::empty(), writes);
    lemma_flush_step_conserves(
        write_fold_sends(cap, Seq::empty(), Seq::empty(), writes),
        write_fold_buf(cap, Seq::empty(), writes),
    );
    assert(concat_all(Seq::<Seq<u8>>::empty()) + Seq::<u8>::empty() + concat_all(writes)
        =~= concat_all(writes));
}

/// The bytes a run of single-byte reads delivers from a stream whose
/// available bytes are `avail`: each successful read hands out the head and
/// leaves the tail, until nothing is available.
pub open spec fn drain_all(avail: Seq<u8>) -> Seq<u8>
    decreases avail.len(),
{
    if avail.len() == 0 {
        Seq::empty()
    } else {
        seq![avail[0]] + drain_all(avail.skip(1))
    }
}

/// Law: repeated single-byte reads deliver exactly the available bytes —
/// the buffered bytes followed by everything the underlying resource yields,
/// however that resource chose to chunk them — and then report exhaustion.
pub proof fn lemma_reads_yield_available(avail: Seq<u8>)
    ensures
        drain_all(avail) == avail,
    decreases avail.len(),
{
    if avail.len() == 0 {
        assert(drain_all(avail) =~= avail);
    } else {
        lemma_reads_yield_available(avail.skip(1));
        assert(seq![avail[0]] + avail.skip(1) =~= avail);
    }
}

/// Law: a push-back followed by a read delivers the pushed-back byte before
/// any previously buffered or freshly fetched byte: pushing `b` turns the
/// available bytes `rest` into `[b] + rest`, whose first byte is `b` and
/// whose remainder is `rest` unchanged.
pub proof fn lemma_pushback_then_read(b: u8, rest: Seq<u8>)
    ensures
        (seq![b] + rest)[0] == b,
        (seq![b] + rest).skip(1) == rest,
{
    assert((seq![b] + rest).skip(1) =~= rest);
}

/// Law: a write that exactly fills the write buffer sends the full buffer to
/// the underlying resource at once, with no explicit flush, and leaves the
/// buffer empty.
pub proof fn lemma_exact_fill_sends(cap: int, sends: Seq<Seq<u8>>, buf: Seq<u8>, src: Seq<u8>)
    requires
        buf.len() + src.len() == cap,
    ensures
        write_step_sends(cap, sends, buf, src) == sends.push(buf + src),
        write_step_buf(cap, buf, src) == Seq::<u8>::empty(),
{
}

/// Law: a write that would overflow the write buffer first sends the
/// previously buffered bytes, then the new bytes as one unbuffered send, in
/// that order — even when the new bytes alone would have fit after an eager
/// flush — and leaves the buffer empty.
pub proof fn lemma_overflow_write_order(cap: int, sends: Seq<Seq<u8>>, buf: Seq<u8>, src: Seq<u8>)
    requires
        buf.len() + src.len() > cap,
        buf.len() > 0,
    ensures
        write_step_sends(cap, sends, buf, src) == sends.push(buf).push(src),
        write_step_buf(cap, buf, src) == Seq::<u8>::empty(),
{
}

/// Law: the stream is at its end exactly when the read buffer is drained and
/// the underlying resource is exhausted; whenever buffered bytes remain the
/// stream is not at its end, even if the resource already is exhausted.
pub proof fn lemma_eof_exact(buffered: Seq<u8>, pending: Seq<u8>)
    ensures
        ((buffered + pending).len() == 0) <==> (buffered.len() == 0 && pending.len() == 0),
        buffered.len() > 0 ==> (buffered + pending).len() > 0,
{
}

/// Law: flush is idempotent in what the underlying resource observes — a
/// second flush starts from an empty write buffer, so it sends nothing
/// further.  (When flush propagation is configured, the second flush does
/// invoke the resource's own flush again, which the resource promises is
/// itself idempotent.)
pub proof fn lemma_flush_idempotent(sends: Seq<Seq<u8>>, buf: Seq<u8>)
    ensures
        flush_step_sends(flush_step_sends(sends, buf), Seq::empty())
            == flush_step_sends(sends, buf),
{
}

} // verus!
