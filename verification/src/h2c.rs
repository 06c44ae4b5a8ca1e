//! Host-to-card path: the page-aligned accumulation buffer and the buffered
//! stream encoder with its aligned-drain discipline, framing terminator and
//! autonomous-flush planning.

use vstd::prelude::*;
use vstd::bytes::{spec_u32_to_le_bytes, u32_to_le_bytes};
use vstd::seq_lib::lemma_flatten_concat;
use vstd::slice::slice_subrange;

use crate::device::{ByteSink, ByteSource};
use crate::errors::StreamError;
use crate::{ALIGN, PACKET_SIZE};

verus! {

/// The downstream write calls a drain of buffer contents `d` issues:
/// nothing for an empty buffer; otherwise a single aligned bulk write of
/// `floor(len / ALIGN) * ALIGN` bytes, followed by the unaligned remainder
/// as a separate write if one exists.
pub open spec fn drain_writes(d: Seq<u8>) -> Seq<Seq<u8>> {
    if d.len() == 0 {
        Seq::<Seq<u8>>::empty()
    } else {
        let a = (d.len() / (ALIGN as nat)) * (ALIGN as nat);
        if a < d.len() {
            seq![d.take(a as int), d.skip(a as int)]
        } else {
            seq![d]
        }
    }
}

/// Aligned-drain discipline: a drain issues at most two downstream writes,
/// the first of exactly the aligned prefix length, the optional second of
/// exactly the remainder length, and together they deliver the buffer
/// contents unchanged and in order.
pub proof fn lemma_drain_discipline(d: Seq<u8>)
    ensures
        drain_writes(d).len() <= 2,
        drain_writes(d).flatten() == d,
        d.len() > 0 ==> drain_writes(d)[0] == d.take(
            ((d.len() / (ALIGN as nat)) * (ALIGN as nat)) as int,
        ),
        d.len() % (ALIGN as nat) != 0 ==> drain_writes(d).len() == 2
            && drain_writes(d)[1].len() == d.len() % (ALIGN as nat),
        d.len() > 0 && d.len() % (ALIGN as nat) == 0 ==> drain_writes(d).len() == 1
            && drain_writes(d)[0] == d,
{
    broadcast use vstd::arithmetic::div_mod::lemma_fundamental_div_mod;

    let n = d.len() as int;
    let al = ALIGN as int;
    let a = (n / al) * al;
    assert(n == al * (n / al) + n % al);
    assert(0 <= n % al < al) by {
        vstd::arithmetic::div_mod::lemma_mod_bound(n, al);
    }
    if d.len() == 0 {
        assert(drain_writes(d).flatten() =~= d);
    } else if a < n {
        let parts = seq![d.take(a), d.skip(a)];
        assert(parts.drop_first() =~= seq![d.skip(a)]);
        seq![d.skip(a)].lemma_flatten_one_element();
        assert(parts.flatten() == d.take(a) + d.skip(a));
        assert(d.take(a) + d.skip(a) =~= d);
        assert(drain_writes(d)[1].len() == n - a);
    } else {
        seq![d].lemma_flatten_one_element();
        assert(d.take(a) =~= d);
    }
}

/// The page-aligned accumulation buffer of the H2C path.
///
/// Holds at most `cap` bytes, where `cap` is a positive multiple of
/// [`ALIGN`]; `bytes` is the run of valid bytes at the front.  The bound
/// `bytes().len() <= cap()` holds in every reachable state.
pub struct Buf {
    data: Vec<u8>,
    capacity: usize,
}

impl Buf {
    /// Well-formedness: the capacity is a positive multiple of [`ALIGN`]
    /// and the fill level never exceeds it.  Established by [`Buf::new`]
    /// and preserved by every operation.
    pub closed spec fn wf(&self) -> bool {
        &&& self.capacity % (ALIGN as usize) == 0
        &&& self.capacity > 0
        &&& self.data@.len() <= self.capacity
    }

    /// Buffer bounds: in every well-formed state the fill level is at most
    /// the capacity, which is a positive multiple of [`ALIGN`].
    pub proof fn lemma_buffer_bounds(&self)
        requires
            self.wf(),
        ensures
            self.bytes().len() <= self.cap(),
            self.cap() % (ALIGN as int) == 0,
            self.cap() >= ALIGN,
    {
        if self.cap() < ALIGN {
            vstd::arithmetic::div_mod::lemma_small_mod(self.cap() as nat, ALIGN as nat);
        }
    }

    /// The buffered bytes, oldest first.
    pub closed spec fn bytes(&self) -> Seq<u8> {
        self.data@
    }

    /// The fixed capacity chosen at construction.
    pub closed spec fn cap(&self) -> int {
        self.capacity as int
    }

    /// Allocate a buffer; the capacity must be a positive multiple of
    /// [`ALIGN`].
    pub fn new(capacity: usize) -> (r: Result<Buf, StreamError>)
        ensures
            r is Ok <==> capacity % ALIGN == 0 && capacity > 0,
            r is Ok ==> r->Ok_0.wf() && r->Ok_0.cap() == capacity && r->Ok_0.bytes()
                == Seq::<u8>::empty(),
            r is Err ==> r->Err_0 is Config,
    {
        if capacity % ALIGN == 0 && capacity > 0 {
            Ok(Buf { data: Vec::new(), capacity })
        } else {
            Err(StreamError::Config)
        }
    }

    /// Current fill level; never exceeds the capacity.
    pub fn len(&self) -> (n: usize)
        requires
            self.wf(),
        ensures
            n == self.bytes().len(),
            n <= self.cap(),
    {
        self.data.len()
    }

    /// The capacity chosen at construction.
    pub fn capacity(&self) -> (n: usize)
        ensures
            n == self.cap(),
    {
        self.capacity
    }

    /// Append as much of `bytes` as fits; never grows past the capacity.
    /// Partial writes are legal and callers are expected to loop.
    pub fn write(&mut self, bytes: &[u8]) -> (count: usize)
        requires
            old(self).wf(),
        ensures
            final(self).wf(),
            count == if bytes@.len() <= old(self).cap() - old(self).bytes().len() {
                bytes@.len() as int
            } else {
                old(self).cap() - old(self).bytes().len()
            },
            final(self).bytes() == old(self).bytes() + bytes@.take(count as int),
            final(self).cap() == old(self).cap(),
            final(self).bytes().len() <= final(self).cap(),
    {
        let free = self.capacity - self.data.len();
        let count = if bytes.len() <= free {
            bytes.len()
        } else {
            free
        };
        let accepted = slice_subrange(bytes, 0, count);
        self.data.extend_from_slice(accepted);
        count
    }

    /// Drain all buffered bytes into `writer` using the aligned-drain
    /// discipline described by [`drain_writes`]; on success the buffer is
    /// empty.  A failed downstream write leaves the buffered bytes in place.
    pub fn write_into<W: ByteSink>(&mut self, writer: &mut W) -> (r: Result<(), StreamError>)
        requires
            old(self).wf(),
        ensures
            final(self).wf(),
            final(self).cap() == old(self).cap(),
            r is Ok ==> final(self).bytes() == Seq::<u8>::empty() && final(writer).received()
                == old(writer).received() + drain_writes(old(self).bytes()),
            r is Err ==> r->Err_0 is Io && final(self).bytes() == old(self).bytes(),
            final(writer).reliable() == old(writer).reliable(),
            old(writer).reliable() ==> r is Ok,
    {
        if self.data.len() == 0 {
            proof {
                assert(old(writer).received() + drain_writes(old(self).bytes())
                    =~= old(writer).received());
            }
            return Ok(());
        }
        let aligned = self.data.len() / ALIGN * ALIGN;
        proof {
            broadcast use vstd::arithmetic::div_mod::lemma_fundamental_div_mod;

            vstd::arithmetic::div_mod::lemma_mod_bound(self.data@.len() as int, ALIGN as int);
        }
        let bulk = slice_subrange(self.data.as_slice(), 0, aligned);
        match writer.write_all(bulk) {
            Ok(()) => {}
            Err(e) => {
                return Err(e);
            }
        }
        if aligned < self.data.len() {
            let rest = slice_subrange(self.data.as_slice(), aligned, self.data.len());
            match writer.write_all(rest) {
                Ok(()) => {}
                Err(e) => {
                    return Err(e);
                }
            }
            proof {
                let d = old(self).bytes();
                assert(writer.received() =~= old(writer).received() + drain_writes(d));
            }
        } else {
            proof {
                let d = old(self).bytes();
                assert(d.take(aligned as int) =~= d);
                assert(writer.received() =~= old(writer).received() + drain_writes(d));
            }
        }
        self.data.clear();
        Ok(())
    }
}

/// Number of beats needed to carry `len` payload bytes: `ceil(len / PACKET_SIZE)`.
pub open spec fn spec_packet_count(len: nat) -> nat {
    if len % (PACKET_SIZE as nat) == 0 {
        len / (PACKET_SIZE as nat)
    } else {
        len / (PACKET_SIZE as nat) + 1
    }
}

/// What the autonomous flusher should do next.
#[derive(Debug, Clone, Copy, PartialEq, Eq, Structural)]
pub enum FlushPlan {
    /// Sleep this many milliseconds (outside the lock), then ask again.
    Wait(u64),
    /// The interval has elapsed: flush now, then sleep a full interval.
    FlushNow,
}

/// Decide one iteration of the background flusher: if less than
/// `interval_ms` has elapsed since the last flush, wait out the remainder;
/// otherwise flush immediately.
pub fn plan_autonomous_flush(now_ms: u64, last_flush_ms: u64, interval_ms: u64) -> (p: FlushPlan)
    requires
        last_flush_ms <= now_ms,
    ensures
        p == if now_ms - last_flush_ms < interval_ms {
            FlushPlan::Wait((interval_ms - (now_ms - last_flush_ms)) as u64)
        } else {
            FlushPlan::FlushNow
        },
{
    let elapsed = now_ms - last_flush_ms;
    if elapsed < interval_ms {
        FlushPlan::Wait(interval_ms - elapsed)
    } else {
        FlushPlan::FlushNow
    }
}

/// The buffered H2C stream encoder.
///
/// Accepts byte writes at arbitrary granularity, accumulates them in a
/// page-aligned [`Buf`], and drains to the device sink with the
/// aligned-drain discipline whenever the fill level reaches the flush
/// threshold, on an explicit `flush`, or when the autonomous flusher
/// decides the interval has elapsed.  Time enters only as millisecond
/// timestamps supplied by the caller, so every decision is verified.
pub struct HostToCardStream<W> {
    buf: Buf,
    sink: W,
    flush_threshold: usize,
    flush_interval_ms: u64,
    last_flush_ms: u64,
}

impl<W: ByteSink> HostToCardStream<W> {
    /// Well-formedness: the accumulation buffer is well formed.
    pub closed spec fn wf(&self) -> bool {
        self.buf.wf()
    }

    /// Bytes accepted but not yet delivered to the sink, oldest first.
    pub closed spec fn buffered(&self) -> Seq<u8> {
        self.buf.bytes()
    }

    /// Capacity of the accumulation buffer.
    pub closed spec fn cap(&self) -> int {
        self.buf.cap()
    }

    /// Fill level at which a `write` triggers a flush.
    pub closed spec fn threshold(&self) -> int {
        self.flush_threshold as int
    }

    /// Upper bound on the time between autonomous flushes.
    pub closed spec fn interval_ms(&self) -> u64 {
        self.flush_interval_ms
    }

    /// When the stream last flushed (caller-supplied clock).
    pub closed spec fn last_flush(&self) -> u64 {
        self.last_flush_ms
    }

    /// The write calls the sink has received.
    pub closed spec fn sink_writes(&self) -> Seq<Seq<u8>> {
        self.sink.received()
    }

    /// Whether the sink is known never to fail.
    pub closed spec fn sink_reliable(&self) -> bool {
        self.sink.reliable()
    }

    /// Every byte accepted so far, in acceptance order: first what the sink
    /// has received, then what is still buffered.  Writes and flushes only
    /// ever append to this sequence, which is the FIFO ordering guarantee
    /// of the H2C path.
    pub open spec fn stream_bytes(&self) -> Seq<u8> {
        self.sink_writes().flatten() + self.buffered()
    }

    /// The configuration fixed at construction.
    pub open spec fn same_config(pre: Self, post: Self) -> bool {
        &&& post.cap() == pre.cap()
        &&& post.threshold() == pre.threshold()
        &&& post.interval_ms() == pre.interval_ms()
        &&& post.sink_reliable() == pre.sink_reliable()
    }

    /// Open the encoder over `sink` with an aligned buffer of `capacity`
    /// bytes; `now_ms` initializes the flush clock.
    pub fn new(
        sink: W,
        capacity: usize,
        flush_threshold: usize,
        flush_interval_ms: u64,
        now_ms: u64,
    ) -> (r: Result<HostToCardStream<W>, StreamError>)
        ensures
            r is Ok <==> capacity % ALIGN == 0 && capacity > 0,
            r is Err ==> r->Err_0 is Config,
            r is Ok ==> ({
                let s = r->Ok_0;
                &&& s.wf()
                &&& s.buffered() == Seq::<u8>::empty()
                &&& s.cap() == capacity
                &&& s.threshold() == flush_threshold
                &&& s.interval_ms() == flush_interval_ms
                &&& s.last_flush() == now_ms
                &&& s.sink_writes() == sink.received()
                &&& s.sink_reliable() == sink.reliable()
            }),
    {
        let buf = match Buf::new(capacity) {
            Ok(b) => b,
            Err(e) => {
                return Err(e);
            }
        };
        Ok(HostToCardStream { buf, sink, flush_threshold, flush_interval_ms, last_flush_ms: now_ms })
    }

    /// Current fill level of the accumulation buffer.
    pub fn buffered_len(&self) -> (n: usize)
        requires
            self.wf(),
        ensures
            n == self.buffered().len(),
    {
        self.buf.len()
    }

    /// When the stream last flushed, for the autonomous flusher.
    pub fn last_flush_ms(&self) -> (t: u64)
        ensures
            t == self.last_flush(),
    {
        self.last_flush_ms
    }

    /// The configured flush interval, for the autonomous flusher.
    pub fn flush_interval_ms(&self) -> (t: u64)
        ensures
            t == self.interval_ms(),
    {
        self.flush_interval_ms
    }

    /// Borrow the sink, e.g. to inspect an in-memory one.
    pub fn sink(&self) -> (s: &W)
        ensures
            s.received() == self.sink_writes(),
            s.reliable() == self.sink_reliable(),
    {
        &self.sink
    }

    /// Record `now_ms` as the last flush time, then drain the buffer into
    /// the sink with the aligned-drain discipline.
    pub fn flush(&mut self, now_ms: u64) -> (r: Result<(), StreamError>)
        requires
            old(self).wf(),
        ensures
            final(self).wf(),
            Self::same_config(*old(self), *final(self)),
            final(self).last_flush() == now_ms,
            r is Ok ==> final(self).buffered() == Seq::<u8>::empty() && final(self).sink_writes()
                == old(self).sink_writes() + drain_writes(old(self).buffered()),
            r is Ok ==> final(self).stream_bytes() == old(self).stream_bytes(),
            r is Err ==> r->Err_0 is Io && final(self).buffered() == old(self).buffered()
                && final(self).last_flush() == now_ms,
            old(self).sink_reliable() ==> r is Ok,
    {
        self.last_flush_ms = now_ms;
        let r = self.buf.write_into(&mut self.sink);
        proof {
            if r is Ok {
                lemma_drain_discipline(old(self).buffered());
                lemma_flatten_concat(old(self).sink_writes(), drain_writes(old(self).buffered()));
                assert(final(self).stream_bytes() =~= old(self).stream_bytes());
            }
        }
        r
    }

    /// Append as much of `bytes` as fits, then flush if the fill level has
    /// reached the threshold.  Returns how many bytes were accepted;
    /// partial writes are legal and callers are expected to loop.
    pub fn write(&mut self, bytes: &[u8], now_ms: u64) -> (r: Result<usize, StreamError>)
        requires
            old(self).wf(),
        ensures
            final(self).wf(),
            Self::same_config(*old(self), *final(self)),
            ({
                let n = if bytes@.len() <= old(self).cap() - old(self).buffered().len() {
                    bytes@.len() as int
                } else {
                    old(self).cap() - old(self).buffered().len()
                };
                &&& r is Ok ==> r->Ok_0 == n
                &&& r is Ok ==> final(self).stream_bytes() == old(self).stream_bytes()
                    + bytes@.take(n)
                &&& r is Ok && old(self).buffered().len() + n < old(self).threshold()
                    ==> final(self).buffered() == old(self).buffered() + bytes@.take(n)
                        && final(self).sink_writes() == old(self).sink_writes()
                        && final(self).last_flush() == old(self).last_flush()
                &&& r is Ok && old(self).buffered().len() + n >= old(self).threshold()
                    ==> final(self).buffered() == Seq::<u8>::empty()
                        && final(self).sink_writes() == old(self).sink_writes()
                            + drain_writes(old(self).buffered() + bytes@.take(n))
                        && final(self).last_flush() == now_ms
                &&& r is Err ==> final(self).buffered() == old(self).buffered() + bytes@.take(n)
                    && final(self).last_flush() == now_ms
            }),
            r is Err ==> r->Err_0 is Io,
            old(self).sink_reliable() ==> r is Ok,
    {
        let count = self.buf.write(bytes);
        if self.buf.len() >= self.flush_threshold {
            match self.flush(now_ms) {
                Ok(()) => {}
                Err(e) => {
                    return Err(e);
                }
            }
        }
        Ok(count)
    }

    /// Deliver all of `bytes` through the buffered path, flushing as the
    /// threshold requires.  Fails with an I/O error if no progress can be
    /// made (a full buffer that the threshold never flushes).
    pub fn write_all(&mut self, bytes: &[u8], now_ms: u64) -> (r: Result<(), StreamError>)
        requires
            old(self).wf(),
        ensures
            final(self).wf(),
            Self::same_config(*old(self), *final(self)),
            r is Ok ==> final(self).stream_bytes() == old(self).stream_bytes() + bytes@,
            r is Err ==> r->Err_0 is Io,
            old(self).sink_reliable() && old(self).threshold() <= old(self).cap() ==> r is Ok,
    {
        let mut i: usize = 0;
        proof {
            assert(old(self).stream_bytes() + bytes@.take(0) =~= old(self).stream_bytes());
        }
        while i < bytes.len()
            invariant
                i <= bytes@.len(),
                self.wf(),
                Self::same_config(*old(self), *self),
                self.stream_bytes() == old(self).stream_bytes() + bytes@.take(i as int),
            decreases bytes@.len() - i, self.buffered().len() + 1,
        {
            let rest = slice_subrange(bytes, i, bytes.len());
            let ghost pre = *self;
            match self.write(rest, now_ms) {
                Err(e) => {
                    return Err(e);
                }
                Ok(count) => {
                    proof {
                        assert(bytes@.take(i as int) + rest@.take(count as int) =~= bytes@.take(
                            i + count,
                        ));
                    }
                    if count == 0 {
                        if self.buffered_len() > 0 {
                            // The buffer is full and below the threshold:
                            // nothing can ever drain it from here.
                            proof {
                                assert(!(pre.sink_reliable() && pre.threshold() <= pre.cap()));
                            }
                            return Err(StreamError::Io);
                        }
                        proof {
                            assert(self.stream_bytes() == old(self).stream_bytes() + bytes@.take(
                                i as int,
                            ));
                        }
                    } else {
                        i += count;
                    }
                }
            }
        }
        proof {
            assert(bytes@.take(bytes@.len() as int) =~= bytes@);
        }
        Ok(())
    }

    /// Announce that the frame ends after `count` more beats: flush any
    /// pending payload, then deliver the little-endian 32-bit count through
    /// the buffered path and flush again, so the count sits at a
    /// deterministic position in the byte stream.
    pub fn write_remaining_packet_count(&mut self, count: u32, now_ms: u64) -> (r: Result<
        (),
        StreamError,
    >)
        requires
            old(self).wf(),
        ensures
            final(self).wf(),
            Self::same_config(*old(self), *final(self)),
            r is Ok ==> final(self).buffered() == Seq::<u8>::empty() && final(self).sink_writes()
                == old(self).sink_writes() + drain_writes(old(self).buffered()) + drain_writes(
                spec_u32_to_le_bytes(count),
            ) && final(self).stream_bytes() == old(self).stream_bytes() + spec_u32_to_le_bytes(
                count,
            ) && final(self).last_flush() == now_ms,
            r is Err ==> r->Err_0 is Io,
            old(self).sink_reliable() ==> r is Ok,
    {
        match self.flush(now_ms) {
            Ok(()) => {}
            Err(e) => {
                return Err(e);
            }
        }
        let cb = u32_to_le_bytes(count);
        proof {
            vstd::bytes::lemma_auto_spec_u32_to_from_le_bytes();
            self.buf.lemma_buffer_bounds();
        }
        let n = self.buf.write(cb.as_slice());
        proof {
            assert(self.buf.bytes() =~= spec_u32_to_le_bytes(count));
        }
        let ghost mid = *self;
        let r = self.flush(now_ms);
        proof {
            if r is Ok {
                lemma_drain_discipline(old(self).buffered());
                lemma_drain_discipline(spec_u32_to_le_bytes(count));
                lemma_flatten_concat(old(self).sink_writes(), drain_writes(old(self).buffered()));
                lemma_flatten_concat(mid.sink_writes(), drain_writes(spec_u32_to_le_bytes(count)));
                assert(final(self).sink_writes() =~= old(self).sink_writes() + drain_writes(
                    old(self).buffered(),
                ) + drain_writes(spec_u32_to_le_bytes(count)));
                assert(final(self).stream_bytes() =~= old(self).stream_bytes()
                    + spec_u32_to_le_bytes(count));
            }
        }
        r
    }

    /// Finish the stream: emit the beat count `ceil(|remaining| /
    /// PACKET_SIZE)` as the frame terminator, deliver `remaining`, and
    /// flush.  Empty input is excluded by precondition, as is input whose
    /// beat count would not fit the 32-bit terminator.
    pub fn write_remaining(&mut self, remaining: &[u8], now_ms: u64) -> (r: Result<
        (),
        StreamError,
    >)
        requires
            old(self).wf(),
            remaining@.len() > 0,
            remaining@.len() <= (PACKET_SIZE as int) * 0xFFFF_FFFF,
        ensures
            final(self).wf(),
            Self::same_config(*old(self), *final(self)),
            r is Ok ==> final(self).buffered() == Seq::<u8>::empty() && final(self).stream_bytes()
                == old(self).stream_bytes() + spec_u32_to_le_bytes(
                spec_packet_count(remaining@.len()) as u32,
            ) + remaining@,
            r is Err ==> r->Err_0 is Io,
            old(self).sink_reliable() && old(self).threshold() <= old(self).cap() ==> r is Ok,
    {
        let count = packet_count_u32(remaining.len());
        match self.write_remaining_packet_count(count, now_ms) {
            Ok(()) => {}
            Err(e) => {
                return Err(e);
            }
        }
        match self.write_all(remaining, now_ms) {
            Ok(()) => {}
            Err(e) => {
                return Err(e);
            }
        }
        let ghost mid = *self;
        let r = self.flush(now_ms);
        proof {
            if r is Ok {
                assert(final(self).stream_bytes() =~= old(self).stream_bytes()
                    + spec_u32_to_le_bytes(spec_packet_count(remaining@.len()) as u32)
                    + remaining@);
            }
        }
        r
    }

    /// Stream exactly `length` bytes from `reader` through the encoder:
    /// emit the beat-count terminator, copy the bytes in beat-sized chunks,
    /// and flush.  Every copied byte is accounted for, so the delivered
    /// total always equals `length`.
    pub fn write_complete_stream<R: ByteSource>(
        &mut self,
        reader: &mut R,
        length: usize,
        now_ms: u64,
    ) -> (r: Result<(), StreamError>)
        requires
            old(self).wf(),
            length > 0,
            length <= (PACKET_SIZE as int) * 0xFFFF_FFFF,
        ensures
            final(self).wf(),
            Self::same_config(*old(self), *final(self)),
            final(reader).reliable() == old(reader).reliable(),
            r is Ok ==> length <= old(reader).avail().len()
                && final(reader).avail() == old(reader).avail().skip(length as int)
                && final(self).buffered() == Seq::<u8>::empty()
                && final(self).stream_bytes() == old(self).stream_bytes()
                    + spec_u32_to_le_bytes(spec_packet_count(length as nat) as u32)
                    + old(reader).avail().take(length as int),
            r is Err ==> r->Err_0 is Io,
            old(self).sink_reliable() && old(reader).reliable()
                && old(self).threshold() <= old(self).cap()
                && length <= old(reader).avail().len() ==> r is Ok,
    {
        let count = packet_count_u32(length);
        match self.write_remaining_packet_count(count, now_ms) {
            Ok(()) => {}
            Err(e) => {
                return Err(e);
            }
        }
        let ghost s1 = self.stream_bytes();
        let mut done: usize = 0;
        proof {
            assert(s1 + old(reader).avail().take(0) =~= s1);
        }
        while done < length
            invariant
                done <= length,
                self.wf(),
                Self::same_config(*old(self), *self),
                done <= old(reader).avail().len(),
                reader.avail() == old(reader).avail().skip(done as int),
                reader.reliable() == old(reader).reliable(),
                self.stream_bytes() == s1 + old(reader).avail().take(done as int),
                old(self).sink_reliable() ==> self.sink_reliable(),
            decreases length - done,
        {
            let chunk = if length - done <= PACKET_SIZE {
                length - done
            } else {
                PACKET_SIZE
            };
            let v = match reader.read_exact(chunk) {
                Ok(v) => v,
                Err(e) => {
                    return Err(e);
                }
            };
            match self.write_all(v.as_slice(), now_ms) {
                Ok(()) => {}
                Err(e) => {
                    return Err(e);
                }
            }
            proof {
                assert(old(reader).avail().take(done as int)
                    + old(reader).avail().skip(done as int).take(chunk as int)
                    =~= old(reader).avail().take(done + chunk));
                assert(old(reader).avail().skip(done as int).skip(chunk as int)
                    =~= old(reader).avail().skip(done + chunk));
            }
            done += chunk;
        }
        let ghost mid = *self;
        let r = self.flush(now_ms);
        proof {
            if r is Ok {
                assert(final(self).stream_bytes() =~= old(self).stream_bytes()
                    + spec_u32_to_le_bytes(spec_packet_count(length as nat) as u32)
                    + old(reader).avail().take(length as int));
            }
        }
        r
    }
}

/// `ceil(len / PACKET_SIZE)` as the 32-bit terminator value.
fn packet_count_u32(len: usize) -> (c: u32)
    requires
        len <= (PACKET_SIZE as int) * 0xFFFF_FFFF,
    ensures
        c == spec_packet_count(len as nat),
{
    let q = len / PACKET_SIZE;
    let rem = len % PACKET_SIZE;
    proof {
        broadcast use vstd::arithmetic::div_mod::lemma_fundamental_div_mod;

        vstd::arithmetic::div_mod::lemma_mod_bound(len as int, PACKET_SIZE as int);
        assert((len as int) / (PACKET_SIZE as int) <= 0xFFFF_FFFF) by {
            vstd::arithmetic::div_mod::lemma_div_is_ordered(
                len as int,
                (PACKET_SIZE as int) * 0xFFFF_FFFF,
                PACKET_SIZE as int,
            );
            vstd::arithmetic::div_mod::lemma_div_multiples_vanish(
                0xFFFF_FFFF,
                PACKET_SIZE as int,
            );
        }
        if rem != 0 {
            assert((len as int) / (PACKET_SIZE as int) < 0xFFFF_FFFF) by {
                if (len as int) / (PACKET_SIZE as int) == 0xFFFF_FFFF {
                    assert(len as int == (PACKET_SIZE as int) * 0xFFFF_FFFF + (len as int) % (
                    PACKET_SIZE as int));
                }
            }
        }
    }
    if rem == 0 {
        q as u32
    } else {
        (q + 1) as u32
    }
}

} // verus!
