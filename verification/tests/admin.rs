//! Queue administration commands, managed-queue lifecycle, and the
//! verified pieces of the asynchronous reader.

use qdma_stream::c2h_async::{
    beat_starts_with_ctrl_legacy, resolve_ctrl_skip, Buf, PacketCursor,
};
use qdma_stream::ctl::{
    device_path, queue_add, queue_del, queue_start, queue_stop, usize_to_dec_string, ManagedQueue,
    QueueDir,
};
use qdma_stream::PACKET_SIZE;

fn strs(args: &[&str]) -> Vec<String> {
    args.iter().map(|s| s.to_string()).collect()
}

#[test]
fn decimal_rendering() {
    assert_eq!(usize_to_dec_string(0), "0");
    assert_eq!(usize_to_dec_string(7), "7");
    assert_eq!(usize_to_dec_string(10), "10");
    assert_eq!(usize_to_dec_string(1234), "1234");
    assert_eq!(usize_to_dec_string(40960), "40960");
    assert_eq!(usize_to_dec_string(usize::MAX), format!("{}", usize::MAX));
}

#[test]
fn add_arguments() {
    assert_eq!(
        queue_add("qdmac1000", 0, QueueDir::C2h),
        strs(&["qdmac1000", "q", "add", "idx", "0", "mode", "st", "dir", "c2h"])
    );
    assert_eq!(
        queue_add("qdmac1000", 12, QueueDir::H2c),
        strs(&["qdmac1000", "q", "add", "idx", "12", "mode", "st", "dir", "h2c"])
    );
}

#[test]
fn start_arguments_fetch_credit_for_h2c() {
    assert_eq!(
        queue_start("qdmac1000", 3, QueueDir::C2h),
        strs(&["qdmac1000", "q", "start", "idx", "3", "dir", "c2h"])
    );
    assert_eq!(
        queue_start("qdmac1000", 3, QueueDir::H2c),
        strs(&["qdmac1000", "q", "start", "idx", "3", "dir", "h2c", "fetch_credit", "h2c"])
    );
}

#[test]
fn stop_and_delete_arguments() {
    assert_eq!(
        queue_stop("dev0", 42, QueueDir::H2c),
        strs(&["dev0", "q", "stop", "idx", "42", "dir", "h2c"])
    );
    assert_eq!(
        queue_del("dev0", 42, QueueDir::H2c),
        strs(&["dev0", "q", "del", "idx", "42", "dir", "h2c"])
    );
}

#[test]
fn direction_strings() {
    assert_eq!(QueueDir::C2h.as_str(), "c2h");
    assert_eq!(QueueDir::H2c.as_str(), "h2c");
}

#[test]
fn device_node_path() {
    assert_eq!(device_path("qdmac1000", 7), "/dev/qdmac1000-ST-7");
    assert_eq!(device_path("card", 123), "/dev/card-ST-123");
}

#[test]
fn managed_queue_lifecycle() {
    let q = ManagedQueue::begin("qdmac1000", 5, QueueDir::C2h);
    assert!(q.active());
    assert_eq!(q.device(), "qdmac1000");
    assert_eq!(q.queue(), 5);
    assert_eq!(q.device_path(), "/dev/qdmac1000-ST-5");
    let up = q.startup_commands();
    assert_eq!(up.len(), 2);
    assert_eq!(up[0], strs(&["qdmac1000", "q", "add", "idx", "5", "mode", "st", "dir", "c2h"]));
    assert_eq!(up[1], strs(&["qdmac1000", "q", "start", "idx", "5", "dir", "c2h"]));
}

#[test]
fn managed_queue_teardown_is_idempotent() {
    // After an explicit stop, drop-time teardown has nothing left to run:
    // no double stop.
    let mut q = ManagedQueue::begin("qdmac1000", 5, QueueDir::H2c);
    let down = q.teardown_commands();
    assert_eq!(down.len(), 2);
    assert_eq!(down[0], strs(&["qdmac1000", "q", "stop", "idx", "5", "dir", "h2c"]));
    assert_eq!(down[1], strs(&["qdmac1000", "q", "del", "idx", "5", "dir", "h2c"]));
    assert!(!q.active());

    let again = q.teardown_commands();
    assert!(again.is_empty());
    assert!(!q.active());
}

#[test]
fn cursor_advances_one_beat_per_read() {
    // After N completed reads the offset is N * PACKET_SIZE.
    let mut c = PacketCursor::new();
    assert_eq!(c.read_offset(), 0);
    c.advance();
    c.advance();
    c.advance();
    assert_eq!(c.read_offset(), 3 * PACKET_SIZE as u64);
}

#[test]
fn async_beat_buffer() {
    let mut b = Buf::new();
    assert_eq!(b.as_slice().len(), PACKET_SIZE);
    assert!(b.as_slice().iter().all(|x| *x == 0));
    let beat = vec![0xABu8; PACKET_SIZE];
    b.fill(beat.clone());
    assert_eq!(b.as_slice(), beat.as_slice());
}

#[test]
fn legacy_ctrl_prefix() {
    assert!(beat_starts_with_ctrl_legacy(&[0x4A, 0x37, 0xF1, 0x5C, 9, 9]));
    assert!(!beat_starts_with_ctrl_legacy(&[0x5C, 0xF1, 0x37, 0x4A, 9, 9]));
    assert!(!beat_starts_with_ctrl_legacy(&[0x4A, 0x37]));
}

#[test]
fn ctrl_skip_resolution() {
    // A non-control beat is kept as read; after one control beat, only a
    // second control beat is kept (the escape), anything else is dropped.
    assert_eq!(resolve_ctrl_skip(false, false), Some(false));
    assert_eq!(resolve_ctrl_skip(false, true), Some(false));
    assert_eq!(resolve_ctrl_skip(true, true), Some(true));
    assert_eq!(resolve_ctrl_skip(true, false), None);
}
