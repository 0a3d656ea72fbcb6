use bufstream::buffered::{BufferedStream, PokeError};
use bufstream::memory::MemoryStream;
use bufstream::resource::Resource;

fn stream_of(chunks: Vec<Vec<u8>>, propagate: bool, cap: usize) -> BufferedStream<MemoryStream> {
    BufferedStream::with_capacities(MemoryStream::new(chunks), propagate, cap, cap)
}

fn sends_of(ms: &MemoryStream) -> Vec<Vec<u8>> {
    let mut out: Vec<Vec<u8>> = Vec::new();
    let mut i: usize = 0;
    while i < ms.send_count() {
        out.push(ms.send_at(i).clone());
        i += 1;
    }
    out
}

#[test]
fn reads_across_chunks() {
    let mut bs = stream_of(vec![vec![1, 2, 3, 4], vec![5]], true, 4);
    assert_eq!(bs.read_byte(), Some(1));
    assert_eq!(bs.read_byte(), Some(2));
    assert_eq!(bs.read_byte(), Some(3));
    assert_eq!(bs.read_byte(), Some(4));
    assert_eq!(bs.read_byte(), Some(5));
    assert_eq!(bs.read_byte(), None);
    assert_eq!(bs.read_byte(), None);
}

#[test]
fn large_chunk_split_by_read_capacity() {
    let mut bs = stream_of(vec![vec![1, 2, 3]], true, 2);
    assert_eq!(bs.read_byte(), Some(1));
    assert_eq!(bs.read_byte(), Some(2));
    assert_eq!(bs.read_byte(), Some(3));
    assert_eq!(bs.read_byte(), None);
}

#[test]
fn two_writes_overflow_order() {
    let mut bs = stream_of(vec![], true, 4);
    bs.write(&[1, 2]);
    assert_eq!(bs.inner().send_count(), 0);
    bs.write(&[3, 4, 5]);
    assert_eq!(sends_of(bs.inner()), vec![vec![1, 2], vec![3, 4, 5]]);
}

#[test]
fn oversized_write_is_one_send() {
    let mut bs = stream_of(vec![], true, 4);
    bs.write(&[1, 2, 3, 4, 5, 6]);
    assert_eq!(sends_of(bs.inner()), vec![vec![1, 2, 3, 4, 5, 6]]);
}

#[test]
fn exact_fill_sends_without_flush() {
    let mut bs = stream_of(vec![], false, 4);
    bs.write(&[1, 2, 3]);
    assert_eq!(bs.inner().send_count(), 0);
    bs.write(&[4]);
    assert_eq!(sends_of(bs.inner()), vec![vec![1, 2, 3, 4]]);
    bs.write(&[9]);
    assert_eq!(bs.inner().send_count(), 1);
    bs.flush();
    assert_eq!(sends_of(bs.inner()), vec![vec![1, 2, 3, 4], vec![9]]);
}

#[test]
fn writes_within_capacity_concatenate_on_flush() {
    let mut bs = stream_of(vec![], true, 8);
    bs.write(&[1, 2]);
    bs.write(&[3]);
    bs.write(&[4, 5, 6]);
    assert_eq!(bs.inner().send_count(), 0);
    bs.flush();
    assert_eq!(sends_of(bs.inner()), vec![vec![1, 2, 3, 4, 5, 6]]);
}

#[test]
fn flush_twice_sends_nothing_more() {
    let mut bs = stream_of(vec![], true, 8);
    bs.write(&[7, 8]);
    bs.flush();
    bs.flush();
    assert_eq!(sends_of(bs.inner()), vec![vec![7, 8]]);
    assert_eq!(bs.inner().flush_calls(), 2);
}

#[test]
fn flush_without_propagation_skips_wrapped_flush() {
    let mut bs = stream_of(vec![], false, 8);
    bs.write(&[7]);
    bs.flush();
    bs.flush();
    assert_eq!(sends_of(bs.inner()), vec![vec![7]]);
    assert_eq!(bs.inner().flush_calls(), 0);
}

#[test]
fn empty_flush_propagates_only_the_wrapped_flush() {
    let mut bs = stream_of(vec![], true, 8);
    bs.flush();
    assert_eq!(bs.inner().send_count(), 0);
    assert_eq!(bs.inner().flush_calls(), 1);
}

#[test]
fn pushback_after_consume() {
    let mut bs = stream_of(vec![vec![1, 2, 3]], true, 4);
    assert_eq!(bs.read_byte(), Some(1));
    assert_eq!(bs.poke_byte(9), Ok(()));
    assert_eq!(bs.read_byte(), Some(9));
    assert_eq!(bs.read_byte(), Some(2));
    assert_eq!(bs.read_byte(), Some(3));
    assert_eq!(bs.read_byte(), None);
}

#[test]
fn pushback_on_drained_buffer() {
    let mut bs = stream_of(vec![vec![8]], true, 4);
    assert_eq!(bs.poke_byte(7), Ok(()));
    assert_eq!(bs.read_byte(), Some(7));
    assert_eq!(bs.read_byte(), Some(8));
    assert_eq!(bs.read_byte(), None);
}

#[test]
fn pushback_with_buffer_full_at_left_edge_fails() {
    let mut bs = stream_of(vec![vec![1, 2]], true, 4);
    let mut empty: Vec<u8> = Vec::new();
    assert_eq!(bs.read(&mut empty), Some(0));
    assert_eq!(bs.poke_byte(7), Err(PokeError));
    assert_eq!(bs.read_byte(), Some(1));
    assert_eq!(bs.read_byte(), Some(2));
    assert_eq!(bs.read_byte(), None);
}

#[test]
fn read_copies_and_reports_short_results() {
    let mut bs = stream_of(vec![vec![1, 2, 3]], true, 8);
    let mut dest = vec![0u8, 0u8];
    assert_eq!(bs.read(&mut dest), Some(2));
    assert_eq!(dest, vec![1, 2]);
    assert_eq!(bs.read(&mut dest), Some(1));
    assert_eq!(dest, vec![3, 2]);
    assert_eq!(bs.read(&mut dest), None);
    assert_eq!(dest, vec![3, 2]);
}

#[test]
fn read_fills_at_most_once() {
    let mut bs = stream_of(vec![vec![1, 2], vec![3, 4]], true, 8);
    let mut dest = vec![0u8; 4];
    assert_eq!(bs.read(&mut dest), Some(2));
    assert_eq!(dest, vec![1, 2, 0, 0]);
    assert_eq!(bs.read(&mut dest), Some(2));
    assert_eq!(dest, vec![3, 4, 0, 0]);
    assert_eq!(bs.read(&mut dest), None);
}

#[test]
fn eof_only_when_drained_and_exhausted() {
    let mut bs = stream_of(vec![vec![1, 2]], true, 4);
    assert!(!bs.eof());
    assert_eq!(bs.read_byte(), Some(1));
    assert!(!bs.eof());
    assert_eq!(bs.read_byte(), Some(2));
    assert!(bs.eof());
    let mut fresh = stream_of(vec![], true, 4);
    assert!(fresh.eof());
}

#[test]
fn into_inner_flushes_and_returns_resource() {
    let mut bs = stream_of(vec![], true, 8);
    bs.write(&[5, 6]);
    let ms = bs.into_inner();
    assert_eq!(sends_of(&ms), vec![vec![5, 6]]);
    assert_eq!(ms.flush_calls(), 1);
}

#[test]
fn into_inner_without_propagation() {
    let mut bs = stream_of(vec![], false, 8);
    bs.write(&[5]);
    let ms = bs.into_inner();
    assert_eq!(sends_of(&ms), vec![vec![5]]);
    assert_eq!(ms.flush_calls(), 0);
}

#[test]
fn memory_stream_honours_short_reads() {
    let mut ms = MemoryStream::new(vec![vec![1, 2, 3]]);
    assert_eq!(ms.read(2), Some(vec![1, 2]));
    assert_eq!(ms.read(2), Some(vec![3]));
    assert_eq!(ms.read(2), None);
    assert!(ms.end_of_stream());
}

#[test]
fn memory_stream_records_sends() {
    let mut ms = MemoryStream::new(vec![]);
    assert!(ms.end_of_stream());
    ms.write(&[1]);
    ms.write(&[2, 3]);
    assert_eq!(ms.send_count(), 2);
    assert_eq!(ms.send_at(0), &vec![1]);
    assert_eq!(ms.send_at(1), &vec![2, 3]);
    ms.flush();
    assert_eq!(ms.flush_calls(), 1);
}
