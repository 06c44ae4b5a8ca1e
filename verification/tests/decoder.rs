//! Behaviour of the C2H stream decoder against in-memory device streams.

use qdma_stream::c2h::{beat_starts_with_ctrl, ctrl_seq_bytes, CardToHostStream};
use qdma_stream::device::{VecSink, VecSource};
use qdma_stream::errors::StreamError;
use qdma_stream::PACKET_SIZE;

/// A full data beat filled with a simple per-index pattern.
fn data_beat(seed: u8) -> Vec<u8> {
    (0..PACKET_SIZE)
        .map(|i| (i as u8).wrapping_mul(31).wrapping_add(seed))
        .collect()
}

/// A data beat that begins with the control sequence.
fn escaped_data_beat(seed: u8) -> Vec<u8> {
    let mut b = data_beat(seed);
    let c = ctrl_seq_bytes();
    b[..4].copy_from_slice(&c);
    b
}

/// A control beat: the control sequence, then padding.
fn ctrl_beat() -> Vec<u8> {
    let mut b = vec![0xEEu8; PACKET_SIZE];
    let c = ctrl_seq_bytes();
    b[..4].copy_from_slice(&c);
    b
}

fn word(w: u32) -> Vec<u8> {
    w.to_le_bytes().to_vec()
}

#[test]
fn single_beat_frame() {
    // A control beat announcing "next beat is last, 0x1000 bytes", then the
    // data beat: the frame is exactly the first 0x1000 bytes of that beat.
    let payload = data_beat(7);
    let mut stream = Vec::new();
    stream.extend_from_slice(&ctrl_beat());
    stream.extend_from_slice(&word(0x1000));
    stream.extend_from_slice(&payload);

    let mut dec = CardToHostStream::new(VecSource::new(stream));
    let (is_last, data) = dec.next_stream_packet().unwrap();
    assert!(is_last);
    assert_eq!(data, payload[..0x1000].to_vec());
}

#[test]
fn single_beat_frame_complete_stream() {
    let payload = data_beat(9);
    let mut stream = Vec::new();
    stream.extend_from_slice(&ctrl_beat());
    stream.extend_from_slice(&word(0x1000));
    stream.extend_from_slice(&payload);

    let mut dec = CardToHostStream::new(VecSource::new(stream));
    let mut sink = VecSink::new();
    let total = dec.read_complete_stream(&mut sink).unwrap();
    assert_eq!(total, 0x1000);
    assert_eq!(sink.concatenated(), payload[..0x1000].to_vec());
}

#[test]
fn escaped_payload() {
    // A data beat that begins with the control sequence, escaped by a zero
    // control word, then a pre-declared full last beat: both beats come
    // back whole, the first still starting with the control sequence.
    let b1 = escaped_data_beat(3);
    let b2 = data_beat(5);
    let mut stream = Vec::new();
    stream.extend_from_slice(&b1);
    stream.extend_from_slice(&word(0));
    stream.extend_from_slice(&ctrl_beat());
    stream.extend_from_slice(&word(PACKET_SIZE as u32));
    stream.extend_from_slice(&b2);

    let mut dec = CardToHostStream::new(VecSource::new(stream));
    let (last1, p1) = dec.next_stream_packet().unwrap();
    assert!(!last1);
    assert_eq!(p1, b1);
    assert!(beat_starts_with_ctrl(&p1));
    let (last2, p2) = dec.next_stream_packet().unwrap();
    assert!(last2);
    assert_eq!(p2, b2);
}

#[test]
fn prev_is_last_termination() {
    // Three data beats, then a control word with the high bit set and
    // length 0x800: the frame is the first two beats whole and the third
    // truncated to 0x800 bytes.
    let b1 = data_beat(1);
    let b2 = data_beat(2);
    let b3 = data_beat(3);
    let mut stream = Vec::new();
    stream.extend_from_slice(&b1);
    stream.extend_from_slice(&b2);
    stream.extend_from_slice(&b3);
    stream.extend_from_slice(&ctrl_beat());
    stream.extend_from_slice(&word(0x8000_0800));

    let mut dec = CardToHostStream::new(VecSource::new(stream));
    let mut sink = VecSink::new();
    let total = dec.read_complete_stream(&mut sink).unwrap();
    assert_eq!(total, 2 * PACKET_SIZE + 0x800);
    let mut expected = Vec::new();
    expected.extend_from_slice(&b1);
    expected.extend_from_slice(&b2);
    expected.extend_from_slice(&b3[..0x800]);
    assert_eq!(sink.concatenated(), expected);
}

#[test]
fn protocol_violation() {
    // A `PrevIsLast` control word on a freshly constructed decoder: there
    // is no previous beat, so this is the protocol error.
    let mut stream = Vec::new();
    stream.extend_from_slice(&ctrl_beat());
    stream.extend_from_slice(&word(0x8000_0010));

    let mut dec = CardToHostStream::new(VecSource::new(stream));
    let r = dec.next_stream_packet();
    assert_eq!(r.unwrap_err(), StreamError::Protocol);
}

#[test]
fn short_read_is_io_error() {
    // The device ends mid-beat: an I/O error, not a protocol error.
    let mut dec = CardToHostStream::new(VecSource::new(vec![0u8; 100]));
    assert_eq!(dec.next_stream_packet().unwrap_err(), StreamError::Io);
}

#[test]
fn missing_control_word_is_io_error() {
    // A control beat with nothing after it: the control-word read fails.
    let mut dec = CardToHostStream::new(VecSource::new(ctrl_beat()));
    assert_eq!(dec.next_stream_packet().unwrap_err(), StreamError::Io);
}

#[test]
fn multi_beat_frame_packets_in_order() {
    // Two plain data beats followed by a retroactive terminator: packets
    // come out in device order, delayed by at most one beat.
    let b1 = data_beat(11);
    let b2 = data_beat(22);
    let mut stream = Vec::new();
    stream.extend_from_slice(&b1);
    stream.extend_from_slice(&b2);
    stream.extend_from_slice(&ctrl_beat());
    stream.extend_from_slice(&word(0x8000_0000 | PACKET_SIZE as u32));

    let mut dec = CardToHostStream::new(VecSource::new(stream));
    let (last1, p1) = dec.next_stream_packet().unwrap();
    assert!(!last1);
    assert_eq!(p1, b1);
    let (last2, p2) = dec.next_stream_packet().unwrap();
    assert!(last2);
    assert_eq!(p2, b2);
}

#[test]
fn next_raw_packet_returns_one_beat() {
    let b1 = data_beat(4);
    let b2 = data_beat(8);
    let mut stream = Vec::new();
    stream.extend_from_slice(&b1);
    stream.extend_from_slice(&b2);

    let mut dec = CardToHostStream::new(VecSource::new(stream));
    assert_eq!(dec.next_raw_packet().unwrap(), b1);
    assert_eq!(dec.next_raw_packet().unwrap(), b2);
    assert_eq!(dec.next_raw_packet().unwrap_err(), StreamError::Io);
}

#[test]
fn next_raw_packet_with_len_clamps_to_beat() {
    let b1 = data_beat(6);
    let mut dec = CardToHostStream::new(VecSource::new(b1.clone()));
    // A request longer than one beat is clamped to one beat.
    let got = dec.next_raw_packet_with_len(5000).unwrap();
    assert_eq!(got, b1);
}

#[test]
fn next_raw_packet_with_len_short_read() {
    let b1 = data_beat(6);
    let mut dec = CardToHostStream::new(VecSource::new(b1.clone()));
    let got = dec.next_raw_packet_with_len(100).unwrap();
    assert_eq!(got, b1[..100].to_vec());
}

#[test]
fn ctrl_sequence_bytes() {
    assert_eq!(ctrl_seq_bytes(), vec![0x5C, 0xF1, 0x37, 0x4A]);
    assert!(beat_starts_with_ctrl(&[0x5C, 0xF1, 0x37, 0x4A, 0, 0]));
    assert!(!beat_starts_with_ctrl(&[0x5C, 0xF1, 0x37]));
    assert!(!beat_starts_with_ctrl(&[0x4A, 0x37, 0xF1, 0x5C]));
}

#[test]
fn error_messages() {
    assert_eq!(StreamError::Io.message(), "device i/o failed");
    assert_eq!(StreamError::Protocol.message(), "protocol violation");
    assert_eq!(StreamError::Config.message(), "invalid configuration");
}

#[test]
fn two_frames_back_to_back() {
    // After a frame ends the decoder is back at the boundary: a second
    // frame on the same stream decodes independently.
    let b1 = data_beat(40);
    let b2 = data_beat(41);
    let mut stream = Vec::new();
    // First frame: one data beat, retroactively terminated in full.
    stream.extend_from_slice(&b1);
    stream.extend_from_slice(&ctrl_beat());
    stream.extend_from_slice(&word(0x8000_0000 | PACKET_SIZE as u32));
    // Second frame: a pre-declared single beat of 10 bytes.
    stream.extend_from_slice(&ctrl_beat());
    stream.extend_from_slice(&word(10));
    stream.extend_from_slice(&b2);

    let mut dec = CardToHostStream::new(VecSource::new(stream));
    let mut sink1 = VecSink::new();
    assert_eq!(dec.read_complete_stream(&mut sink1).unwrap(), PACKET_SIZE);
    assert_eq!(sink1.concatenated(), b1);
    let mut sink2 = VecSink::new();
    assert_eq!(dec.read_complete_stream(&mut sink2).unwrap(), 10);
    assert_eq!(sink2.concatenated(), b2[..10].to_vec());
}
