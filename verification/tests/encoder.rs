//! Behaviour of the aligned buffer and the H2C stream encoder against an
//! in-memory device sink.

use qdma_stream::device::{VecSink, VecSource};
use qdma_stream::errors::StreamError;
use qdma_stream::h2c::{plan_autonomous_flush, Buf, FlushPlan, HostToCardStream};
use qdma_stream::{ALIGN, PACKET_SIZE};

fn pattern(len: usize, seed: u8) -> Vec<u8> {
    (0..len).map(|i| (i as u8).wrapping_mul(7).wrapping_add(seed)).collect()
}

#[test]
fn buf_rejects_unaligned_capacity() {
    assert!(matches!(Buf::new(1000), Err(StreamError::Config)));
    assert!(matches!(Buf::new(0), Err(StreamError::Config)));
    assert!(matches!(Buf::new(ALIGN + 1), Err(StreamError::Config)));
    assert!(Buf::new(ALIGN).is_ok());
    assert!(Buf::new(3 * ALIGN).is_ok());
}

#[test]
fn buf_bounds_hold_under_overfill() {
    // Writes never grow the buffer past its capacity; the excess is
    // rejected and reported through the accepted count.
    let mut b = Buf::new(ALIGN).unwrap();
    assert_eq!(b.capacity(), ALIGN);
    let input = pattern(5000, 1);
    assert_eq!(b.write(&input), ALIGN);
    assert_eq!(b.len(), ALIGN);
    assert_eq!(b.write(&input), 0);
    assert_eq!(b.len(), ALIGN);
}

#[test]
fn buf_drain_aligned_plus_remainder() {
    // 5000 buffered bytes drain as exactly two writes: 4096 aligned bytes,
    // then the 904-byte remainder.
    let mut b = Buf::new(2 * ALIGN).unwrap();
    let input = pattern(5000, 2);
    assert_eq!(b.write(&input), 5000);
    let mut sink = VecSink::new();
    b.write_into(&mut sink).unwrap();
    assert_eq!(b.len(), 0);
    assert_eq!(sink.write_count(), 2);
    assert_eq!(sink.write_at(0).as_slice(), &input[..4096]);
    assert_eq!(sink.write_at(1).as_slice(), &input[4096..]);
}

#[test]
fn buf_drain_exactly_aligned_is_one_write() {
    let mut b = Buf::new(2 * ALIGN).unwrap();
    let input = pattern(2 * ALIGN, 3);
    assert_eq!(b.write(&input), 2 * ALIGN);
    let mut sink = VecSink::new();
    b.write_into(&mut sink).unwrap();
    assert_eq!(sink.write_count(), 1);
    assert_eq!(sink.write_at(0).as_slice(), input.as_slice());
}

#[test]
fn buf_drain_empty_issues_no_write() {
    let mut b = Buf::new(ALIGN).unwrap();
    let mut sink = VecSink::new();
    b.write_into(&mut sink).unwrap();
    assert_eq!(sink.write_count(), 0);
}

#[test]
fn small_write_timed_flush() {
    // 100 bytes below the threshold stay buffered until the autonomous
    // flusher finds the interval elapsed; the flush then delivers exactly
    // one aligned zero-byte write plus one 100-byte remainder.
    let sink = VecSink::new();
    let mut s = HostToCardStream::new(sink, 8192, 8192, 10, 0).unwrap();
    let input = pattern(100, 4);
    assert_eq!(s.write(&input, 0).unwrap(), 100);
    assert_eq!(s.sink().write_count(), 0);

    // 50 ms later the flusher wakes up.
    assert_eq!(plan_autonomous_flush(50, s.last_flush_ms(), s.flush_interval_ms()),
        FlushPlan::FlushNow);
    s.flush(50).unwrap();
    assert_eq!(s.last_flush_ms(), 50);

    let sink = s.sink();
    assert_eq!(sink.write_count(), 2);
    assert_eq!(sink.write_at(0).len(), 0);
    assert_eq!(sink.write_at(1).as_slice(), input.as_slice());
    assert_eq!(sink.concatenated(), input);
}

#[test]
fn flush_planner_waits_out_the_interval() {
    assert_eq!(plan_autonomous_flush(3, 0, 10), FlushPlan::Wait(7));
    assert_eq!(plan_autonomous_flush(10, 0, 10), FlushPlan::FlushNow);
    assert_eq!(plan_autonomous_flush(7, 5, 10), FlushPlan::Wait(8));
}

#[test]
fn threshold_crossing_flushes() {
    let sink = VecSink::new();
    let mut s = HostToCardStream::new(sink, 8192, 4096, 10, 0).unwrap();
    let input = pattern(4096, 5);
    assert_eq!(s.write(&input, 3).unwrap(), 4096);
    // The fill level reached the threshold: one aligned write, no remainder.
    assert_eq!(s.sink().write_count(), 1);
    assert_eq!(s.sink().write_at(0).as_slice(), input.as_slice());
    assert_eq!(s.last_flush_ms(), 3);
}

#[test]
fn write_remaining_emits_count_then_payload() {
    // write_remaining(5000 bytes) delivers the little-endian count 2, then
    // the 5000 payload bytes, in that order.
    let sink = VecSink::new();
    let mut s = HostToCardStream::new(sink, 8192, 8192, 10, 0).unwrap();
    let payload = pattern(5000, 6);
    s.write_remaining(&payload, 0).unwrap();

    let mut expected = vec![2u8, 0, 0, 0];
    expected.extend_from_slice(&payload);
    assert_eq!(s.sink().concatenated(), expected);
}

#[test]
fn write_remaining_packet_count_bytes() {
    let sink = VecSink::new();
    let mut s = HostToCardStream::new(sink, 4096, 4096, 10, 0).unwrap();
    s.write_remaining_packet_count(7, 0).unwrap();
    assert_eq!(s.sink().concatenated(), vec![7u8, 0, 0, 0]);
}

#[test]
fn writes_keep_byte_order() {
    // Order at the device: bytes arrive exactly in acceptance order, across
    // buffered writes and flushes.
    let sink = VecSink::new();
    let mut s = HostToCardStream::new(sink, 4096, 2048, 10, 0).unwrap();
    let a = pattern(1500, 7);
    let b = pattern(1500, 8);
    let c = pattern(1500, 9);
    s.write_all(&a, 1).unwrap();
    s.write_all(&b, 2).unwrap();
    s.write_all(&c, 3).unwrap();
    s.flush(4).unwrap();

    let mut expected = Vec::new();
    expected.extend_from_slice(&a);
    expected.extend_from_slice(&b);
    expected.extend_from_slice(&c);
    assert_eq!(s.sink().concatenated(), expected);
}

#[test]
fn write_complete_stream_counts_and_copies() {
    let sink = VecSink::new();
    let mut s = HostToCardStream::new(sink, 8192, 8192, 10, 0).unwrap();
    let payload = pattern(10000, 10);
    let mut reader = VecSource::new(payload.clone());
    s.write_complete_stream(&mut reader, 10000, 0).unwrap();

    // ceil(10000 / 4096) == 3 beats.
    let mut expected = vec![3u8, 0, 0, 0];
    expected.extend_from_slice(&payload);
    assert_eq!(s.sink().concatenated(), expected);
    assert_eq!(reader.remaining(), 0);
}

#[test]
fn write_complete_stream_short_reader_fails() {
    let sink = VecSink::new();
    let mut s = HostToCardStream::new(sink, 8192, 8192, 10, 0).unwrap();
    let mut reader = VecSource::new(pattern(100, 11));
    assert_eq!(s.write_complete_stream(&mut reader, 500, 0).unwrap_err(), StreamError::Io);
}

#[test]
fn encoder_rejects_bad_capacity() {
    assert!(matches!(
        HostToCardStream::new(VecSink::new(), 1234, 100, 10, 0),
        Err(StreamError::Config)
    ));
}

#[test]
fn packet_count_boundaries() {
    // Exact multiples of the beat size round to the quotient, anything
    // else rounds up.
    let sink = VecSink::new();
    let mut s = HostToCardStream::new(sink, 8192, 8192, 10, 0).unwrap();
    let payload = pattern(PACKET_SIZE, 12);
    s.write_remaining(&payload, 0).unwrap();
    let got = s.sink().concatenated();
    assert_eq!(&got[..4], &[1u8, 0, 0, 0]);

    let sink2 = VecSink::new();
    let mut s2 = HostToCardStream::new(sink2, 8192, 8192, 10, 0).unwrap();
    let payload2 = pattern(PACKET_SIZE + 1, 13);
    s2.write_remaining(&payload2, 0).unwrap();
    let got2 = s2.sink().concatenated();
    assert_eq!(&got2[..4], &[2u8, 0, 0, 0]);
}
