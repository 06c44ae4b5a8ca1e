//! Card-to-host path: the QAXIS stream decoder.
//!
//! The device delivers fixed-size beats.  A beat whose first four bytes are
//! the control sequence is followed on the stream by a four-byte
//! little-endian control word that classifies it: `0` re-labels the beat as
//! ordinary data (the escape for payload that happens to begin with the
//! control sequence); a value with the high bit clear announces that the
//! *next* beat read is the last of the frame; a value with the high bit set
//! declares the *previous*, already-read beat to be the last.  Because an
//! end-of-frame can only be recognised after its beat is on the wire, the
//! decoder keeps a one-beat look-behind: in the middle of a frame exactly
//! one beat is in hand, emitted only once the following classification shows
//! it was not the last.

use vstd::prelude::*;
use vstd::bytes::{spec_u32_from_le_bytes, spec_u32_to_le_bytes, u32_from_le_bytes};
use vstd::seq_lib::lemma_flatten_concat;
use vstd::slice::{slice_subrange, slice_to_vec};

use crate::device::{ByteSink, ByteSource};
use crate::errors::StreamError;
use crate::{CTRL_SIZE, PACKET_SIZE};

verus! {

/// The four-byte control sequence that opens a control beat.
pub open spec fn spec_ctrl_seq() -> Seq<u8> {
    seq![0x5Cu8, 0xF1u8, 0x37u8, 0x4Au8]
}

/// Whether a beat starts with the control sequence.
pub open spec fn ctrl_prefix(b: Seq<u8>) -> bool {
    b.len() >= 4 && b[0] == 0x5Cu8 && b[1] == 0xF1u8 && b[2] == 0x37u8 && b[3] == 0x4Au8
}

/// The control sequence as bytes, for producers and tests.
pub fn ctrl_seq_bytes() -> (v: Vec<u8>)
    ensures
        v@ == spec_ctrl_seq(),
{
    let mut v: Vec<u8> = Vec::new();
    v.push(0x5C);
    v.push(0xF1);
    v.push(0x37);
    v.push(0x4A);
    proof {
        assert(v@ =~= spec_ctrl_seq());
    }
    v
}

/// Whether `beat` starts with the control sequence.
pub fn beat_starts_with_ctrl(beat: &[u8]) -> (r: bool)
    ensures
        r == ctrl_prefix(beat@),
{
    beat.len() >= 4 && *vstd::slice::slice_index_get(beat, 0) == 0x5C
        && *vstd::slice::slice_index_get(beat, 1) == 0xF1
        && *vstd::slice::slice_index_get(beat, 2) == 0x37
        && *vstd::slice::slice_index_get(beat, 3) == 0x4A
}

/// Classification of a beat, as decided by the control word that follows a
/// control-sequence prefix (a beat without the prefix is always data).
#[derive(Debug, Clone, Copy, PartialEq, Eq, Structural)]
pub enum BeatMeta {
    /// The beat just read is ordinary frame data.
    ThisIsData,
    /// The next beat read is the last of the frame, valid for this many bytes.
    ThisIsLast(usize),
    /// The previous, already-read beat was the last, valid for this many bytes.
    PrevIsLast(usize),
}

/// How a control word is interpreted.  Every 32-bit value maps to exactly
/// one classification; lengths are clamped to [`PACKET_SIZE`].
pub open spec fn classify_word(w: u32) -> BeatMeta {
    if w == 0 {
        BeatMeta::ThisIsData
    } else if w < 0x8000_0000u32 {
        BeatMeta::ThisIsLast(
            if w as usize <= PACKET_SIZE {
                w as usize
            } else {
                PACKET_SIZE
            },
        )
    } else {
        BeatMeta::PrevIsLast(
            if (w - 0x8000_0000u32) as usize <= PACKET_SIZE {
                (w - 0x8000_0000u32) as usize
            } else {
                PACKET_SIZE
            },
        )
    }
}

/// One read-and-classify on a stream whose pending bytes are `s`: the beat,
/// its classification, and the remaining stream; `None` when `s` is too
/// short for the reads involved.
pub open spec fn spec_classify(s: Seq<u8>) -> Option<(Seq<u8>, BeatMeta, Seq<u8>)> {
    if s.len() < PACKET_SIZE {
        None
    } else {
        let b = s.take(PACKET_SIZE as int);
        if !ctrl_prefix(b) {
            Some((b, BeatMeta::ThisIsData, s.skip(PACKET_SIZE as int)))
        } else if s.len() < PACKET_SIZE + CTRL_SIZE {
            None
        } else {
            let w = spec_u32_from_le_bytes(
                s.subrange(PACKET_SIZE as int, (PACKET_SIZE + CTRL_SIZE) as int),
            );
            Some((b, classify_word(w), s.skip((PACKET_SIZE + CTRL_SIZE) as int)))
        }
    }
}

/// The decoder's abstract state between calls.
pub enum DecoderModel {
    /// No beat in hand: at a frame boundary.
    Start,
    /// Mid-frame, with the look-behind slot holding one unemitted beat.
    Carry(Seq<u8>),
    /// A pre-declared last beat is in hand, valid for the given length.
    Pending(Seq<u8>, nat),
}

/// The outcome of one `next_stream_packet` call on model `m` with stream `s`.
pub enum StepOutcome {
    /// The stream ends before the reads the step needs.
    Short,
    /// A `PrevIsLast` control word with no beat in hand.
    Violation,
    /// A packet is emitted: `last` marks end of frame, `data` is the packet,
    /// `next` and `rest` are the model and stream afterwards.
    Emit { last: bool, data: Seq<u8>, next: DecoderModel, rest: Seq<u8> },
}

/// One step from mid-frame position with beat `p` in hand.
pub open spec fn step_from_carry(p: Seq<u8>, s: Seq<u8>) -> StepOutcome {
    match spec_classify(s) {
        None => StepOutcome::Short,
        Some((b, meta, rest)) => match meta {
            BeatMeta::ThisIsData => StepOutcome::Emit {
                last: false,
                data: p,
                next: DecoderModel::Carry(b),
                rest,
            },
            BeatMeta::ThisIsLast(l) => if rest.len() < PACKET_SIZE {
                StepOutcome::Short
            } else {
                StepOutcome::Emit {
                    last: false,
                    data: p,
                    next: DecoderModel::Pending(rest.take(PACKET_SIZE as int), l as nat),
                    rest: rest.skip(PACKET_SIZE as int),
                }
            },
            BeatMeta::PrevIsLast(l) => StepOutcome::Emit {
                last: true,
                data: p.take(l as int),
                next: DecoderModel::Start,
                rest,
            },
        },
    }
}

/// One step of the decoder: what `next_stream_packet` consumes, emits and
/// becomes, as a function of the abstract state and the pending stream.
pub open spec fn spec_step(m: DecoderModel, s: Seq<u8>) -> StepOutcome {
    match m {
        DecoderModel::Start => match spec_classify(s) {
            None => StepOutcome::Short,
            Some((b, meta, rest)) => match meta {
                BeatMeta::ThisIsData => step_from_carry(b, rest),
                BeatMeta::ThisIsLast(l) => if rest.len() < PACKET_SIZE {
                    StepOutcome::Short
                } else {
                    StepOutcome::Emit {
                        last: true,
                        data: rest.take(PACKET_SIZE as int).take(l as int),
                        next: DecoderModel::Start,
                        rest: rest.skip(PACKET_SIZE as int),
                    }
                },
                BeatMeta::PrevIsLast(_) => StepOutcome::Violation,
            },
        },
        DecoderModel::Carry(p) => step_from_carry(p, s),
        DecoderModel::Pending(b, l) => StepOutcome::Emit {
            last: true,
            data: b.take(l as int),
            next: DecoderModel::Start,
            rest: s,
        },
    }
}

/// The decoder's protocol position between calls.
#[derive(Debug, Clone, Copy, PartialEq, Eq, Structural)]
pub enum ProtocolState {
    /// At a frame boundary, no beat in hand.
    NotSet,
    /// Mid-frame, the previous-slot beat unemitted.
    Data,
    /// The current-slot beat is the frame's pre-declared last, this long.
    Last(usize),
}

/// The synchronous C2H stream decoder over a readable device handle.
pub struct CardToHostStream<R> {
    source: R,
    prev: Vec<u8>,
    cur: Vec<u8>,
    state: ProtocolState,
}

impl<R: ByteSource> CardToHostStream<R> {
    /// Well-formedness: both beat slots hold exactly one beat and a pending
    /// last-beat length never exceeds the beat size.
    pub closed spec fn wf(&self) -> bool {
        &&& self.prev@.len() == PACKET_SIZE
        &&& self.cur@.len() == PACKET_SIZE
        &&& (self.state matches ProtocolState::Last(l) ==> l <= PACKET_SIZE)
    }

    /// The abstract protocol state.
    pub closed spec fn model(&self) -> DecoderModel {
        match self.state {
            ProtocolState::NotSet => DecoderModel::Start,
            ProtocolState::Data => DecoderModel::Carry(self.prev@),
            ProtocolState::Last(l) => DecoderModel::Pending(self.cur@, l as nat),
        }
    }

    /// The bytes the device has yet to deliver.
    pub closed spec fn source_avail(&self) -> Seq<u8> {
        self.source.avail()
    }

    /// Whether the source is known never to fail.
    pub closed spec fn source_reliable(&self) -> bool {
        self.source.reliable()
    }

    /// Wrap a readable handle; the decoder starts at a frame boundary.
    pub fn new(source: R) -> (s: CardToHostStream<R>)
        ensures
            s.wf(),
            s.model() == DecoderModel::Start,
            s.source_avail() == source.avail(),
            s.source_reliable() == source.reliable(),
    {
        CardToHostStream {
            source,
            prev: vec![0u8; PACKET_SIZE],
            cur: vec![0u8; PACKET_SIZE],
            state: ProtocolState::NotSet,
        }
    }

    /// Read the next beat raw, without protocol interpretation, as a single
    /// read of [`PACKET_SIZE`] bytes.
    pub fn next_raw_packet(&mut self) -> (r: Result<Vec<u8>, StreamError>)
        requires
            old(self).wf(),
        ensures
            final(self).wf(),
            final(self).model() == old(self).model(),
            final(self).source_reliable() == old(self).source_reliable(),
            r is Ok ==> PACKET_SIZE <= old(self).source_avail().len() && r->Ok_0@ == old(
                self,
            ).source_avail().take(PACKET_SIZE as int) && final(self).source_avail() == old(
                self,
            ).source_avail().skip(PACKET_SIZE as int),
            r is Err ==> r->Err_0 is Io,
            old(self).source_reliable() ==> (r is Ok <==> PACKET_SIZE <= old(
                self,
            ).source_avail().len()),
    {
        self.next_raw_packet_with_len(PACKET_SIZE)
    }

    /// Read the next `min(len, PACKET_SIZE)` bytes raw, as a single
    /// shortened read of exactly that length.
    pub fn next_raw_packet_with_len(&mut self, len: usize) -> (r: Result<Vec<u8>, StreamError>)
        requires
            old(self).wf(),
        ensures
            final(self).wf(),
            final(self).model() == old(self).model(),
            final(self).source_reliable() == old(self).source_reliable(),
            ({
                let n = if len <= PACKET_SIZE {
                    len as int
                } else {
                    PACKET_SIZE as int
                };
                &&& r is Ok ==> n <= old(self).source_avail().len() && r->Ok_0@ == old(
                    self,
                ).source_avail().take(n) && final(self).source_avail() == old(
                    self,
                ).source_avail().skip(n)
                &&& old(self).source_reliable() ==> (r is Ok <==> n <= old(
                    self,
                ).source_avail().len())
            }),
            r is Err ==> r->Err_0 is Io,
    {
        let n = if len <= PACKET_SIZE {
            len
        } else {
            PACKET_SIZE
        };
        self.source.read_exact(n)
    }

    /// Read and classify one beat from the source.
    fn classify_next(&mut self) -> (r: Result<(Vec<u8>, BeatMeta), StreamError>)
        ensures
            final(self).prev == old(self).prev,
            final(self).cur == old(self).cur,
            final(self).state == old(self).state,
            final(self).source_reliable() == old(self).source_reliable(),
            r is Ok ==> (spec_classify(old(self).source_avail()) matches Some((b, meta, rest))
                && r->Ok_0.0@ == b && r->Ok_0.1 == meta && final(self).source_avail() == rest),
            r is Err ==> r->Err_0 is Io,
            old(self).source_reliable() ==> (r is Ok <==> spec_classify(
                old(self).source_avail(),
            ) is Some),
    {
        let ghost s0 = old(self).source_avail();
        let beat = match self.source.read_exact(PACKET_SIZE) {
            Ok(b) => b,
            Err(e) => {
                return Err(e);
            }
        };
        if !beat_starts_with_ctrl(beat.as_slice()) {
            return Ok((beat, BeatMeta::ThisIsData));
        }
        let wb = match self.source.read_exact(CTRL_SIZE) {
            Ok(b) => b,
            Err(e) => {
                proof {
                    assert(old(self).source_reliable() ==> !(spec_classify(s0) is Some));
                }
                return Err(e);
            }
        };
        let w = u32_from_le_bytes(wb.as_slice());
        proof {
            assert(wb@ =~= s0.subrange(PACKET_SIZE as int, (PACKET_SIZE + CTRL_SIZE) as int));
            assert(self.source_avail() =~= s0.skip((PACKET_SIZE + CTRL_SIZE) as int));
        }
        let meta = if w == 0 {
            BeatMeta::ThisIsData
        } else if w < 0x8000_0000u32 {
            let lw = w as usize;
            BeatMeta::ThisIsLast(
                if lw <= PACKET_SIZE {
                    lw
                } else {
                    PACKET_SIZE
                },
            )
        } else {
            let lw = (w - 0x8000_0000u32) as usize;
            BeatMeta::PrevIsLast(
                if lw <= PACKET_SIZE {
                    lw
                } else {
                    PACKET_SIZE
                },
            )
        };
        Ok((beat, meta))
    }

    /// Decode and return the next packet of the frame as `(is_last, data)`.
    ///
    /// The call consumes, emits and transitions exactly as [`spec_step`]
    /// describes for the decoder's abstract state and the pending device
    /// bytes.  A `PrevIsLast` control word at a frame boundary is the one
    /// protocol violation; a stream that ends mid-read surfaces as an I/O
    /// error.
    pub fn next_stream_packet(&mut self) -> (r: Result<(bool, Vec<u8>), StreamError>)
        requires
            old(self).wf(),
        ensures
            final(self).wf(),
            final(self).source_reliable() == old(self).source_reliable(),
            r is Ok ==> (spec_step(old(self).model(), old(self).source_avail()) matches
                StepOutcome::Emit { last, data, next, rest } && r->Ok_0.0 == last && r->Ok_0.1@
                == data && final(self).model() == next && final(self).source_avail() == rest),
            r is Err ==> r->Err_0 is Io || r->Err_0 is Protocol,
            r is Err && r->Err_0 is Protocol ==> spec_step(
                old(self).model(),
                old(self).source_avail(),
            ) is Violation,
            old(self).source_reliable() ==> (r is Ok <==> spec_step(
                old(self).model(),
                old(self).source_avail(),
            ) is Emit),
            old(self).source_reliable() && spec_step(
                old(self).model(),
                old(self).source_avail(),
            ) is Violation ==> r == Err::<(bool, Vec<u8>), StreamError>(StreamError::Protocol),
    {
        let ghost s0 = old(self).source_avail();
        match self.state {
            ProtocolState::Last(len) => {
                self.state = ProtocolState::NotSet;
                let data = slice_to_vec(slice_subrange(self.cur.as_slice(), 0, len));
                return Ok((true, data));
            }
            ProtocolState::NotSet => {
                let (beat, meta) = match self.classify_next() {
                    Ok(bm) => bm,
                    Err(e) => {
                        return Err(e);
                    }
                };
                match meta {
                    BeatMeta::ThisIsData => {
                        self.prev = beat;
                        self.state = ProtocolState::Data;
                    }
                    BeatMeta::ThisIsLast(len) => {
                        let last_beat = match self.source.read_exact(PACKET_SIZE) {
                            Ok(b) => b,
                            Err(e) => {
                                return Err(e);
                            }
                        };
                        self.prev = last_beat;
                        let data = slice_to_vec(slice_subrange(self.prev.as_slice(), 0, len));
                        return Ok((true, data));
                    }
                    BeatMeta::PrevIsLast(_) => {
                        return Err(StreamError::Protocol);
                    }
                }
            }
            ProtocolState::Data => {}
        }
        // state == Data: one beat pending in the look-behind slot.
        let (beat, meta) = match self.classify_next() {
            Ok(bm) => bm,
            Err(e) => {
                return Err(e);
            }
        };
        match meta {
            BeatMeta::ThisIsData => {
                self.cur = beat;
                core::mem::swap(&mut self.prev, &mut self.cur);
                let data = slice_to_vec(self.cur.as_slice());
                Ok((false, data))
            }
            BeatMeta::ThisIsLast(len) => {
                let last_beat = match self.source.read_exact(PACKET_SIZE) {
                    Ok(b) => b,
                    Err(e) => {
                        return Err(e);
                    }
                };
                self.cur = last_beat;
                self.state = ProtocolState::Last(len);
                let data = slice_to_vec(self.prev.as_slice());
                Ok((false, data))
            }
            BeatMeta::PrevIsLast(len) => {
                self.state = ProtocolState::NotSet;
                let data = slice_to_vec(slice_subrange(self.prev.as_slice(), 0, len));
                Ok((true, data))
            }
        }
    }
}

/// A non-final step always consumes at least one beat from the stream, and
/// a final step always returns the decoder to the frame boundary.
pub proof fn lemma_step_consumes(m: DecoderModel, s: Seq<u8>)
    ensures
        spec_step(m, s) matches StepOutcome::Emit { last, data, next, rest } ==> ((!last
            ==> rest.len() < s.len()) && (last ==> next is Start)),
{
}

/// The packets a whole frame decodes to, starting from model `m` with
/// pending stream `s`: `Some((packets, rest))` where `packets` ends with the
/// frame's last packet and `rest` is the unconsumed stream, or `None` when
/// the stream is too short or violates the protocol.
pub open spec fn decode_from(m: DecoderModel, s: Seq<u8>) -> Option<(Seq<Seq<u8>>, Seq<u8>)>
    decreases s.len(),
{
    match spec_step(m, s) {
        StepOutcome::Short => None,
        StepOutcome::Violation => None,
        StepOutcome::Emit { last, data, next, rest } => if last {
            Some((seq![data], rest))
        } else if rest.len() < s.len() {
            match decode_from(next, rest) {
                None => None,
                Some((ps, r2)) => Some((seq![data].add(ps), r2)),
            }
        } else {
            // unreachable: a non-final step consumes part of the stream
            None
        },
    }
}

impl<R: ByteSource> CardToHostStream<R> {
    /// Drain one complete frame: repeatedly decode packets, deliver each to
    /// `sink` as one write, and stop after the packet marked last.  Returns
    /// the total payload byte count of the frame.
    pub fn read_complete_stream<W: ByteSink>(&mut self, sink: &mut W) -> (r: Result<
        usize,
        StreamError,
    >)
        requires
            old(self).wf(),
        ensures
            final(self).wf(),
            final(self).source_reliable() == old(self).source_reliable(),
            final(sink).reliable() == old(sink).reliable(),
            r is Ok ==> (decode_from(old(self).model(), old(self).source_avail()) matches Some(
                (ps, rest),
            ) && final(sink).received() == old(sink).received() + ps && r->Ok_0
                == ps.flatten().len() && final(self).model() is Start && final(self).source_avail()
                == rest),
            r is Err ==> r->Err_0 is Io || r->Err_0 is Protocol,
            old(self).source_reliable() && old(sink).reliable() && (decode_from(
                old(self).model(),
                old(self).source_avail(),
            ) matches Some((ps, rest)) && ps.flatten().len() <= usize::MAX) ==> r is Ok,
    {
        let mut total: usize = 0;
        let ghost mut emitted: Seq<Seq<u8>> = Seq::empty();
        let ghost d0 = decode_from(old(self).model(), old(self).source_avail());
        proof {
            assert(old(sink).received() + emitted =~= old(sink).received());
            assert(emitted.flatten() =~= Seq::<u8>::empty());
        }
        loop
            invariant
                self.wf(),
                self.source_reliable() == old(self).source_reliable(),
                sink.reliable() == old(sink).reliable(),
                sink.received() == old(sink).received() + emitted,
                total == emitted.flatten().len(),
                match decode_from(self.model(), self.source_avail()) {
                    None => d0 is None,
                    Some((ps, rest)) => d0 == Some::<(Seq<Seq<u8>>, Seq<u8>)>(
                        (emitted + ps, rest),
                    ),
                },
                d0 == decode_from(old(self).model(), old(self).source_avail()),
            decreases self.source_avail().len(),
        {
            let ghost pre = *self;
            let ghost emitted0 = emitted;
            let (is_last, data) = match self.next_stream_packet() {
                Ok(p) => p,
                Err(e) => {
                    proof {
                        if pre.source_reliable() {
                            assert(!(spec_step(pre.model(), pre.source_avail()) is Emit));
                            assert(decode_from(pre.model(), pre.source_avail()) is None);
                        }
                    }
                    return Err(e);
                }
            };
            proof {
                lemma_step_consumes(pre.model(), pre.source_avail());
                // relate the frame decode before the step to the one after
                if !is_last {
                    assert(decode_from(pre.model(), pre.source_avail()) == (match decode_from(
                        self.model(),
                        self.source_avail(),
                    ) {
                        None => None,
                        Some((ps2, r2)) => Some((seq![data@].add(ps2), r2)),
                    }));
                } else {
                    assert(decode_from(pre.model(), pre.source_avail()) == Some::<(
                        Seq<Seq<u8>>,
                        Seq<u8>,
                    )>((seq![data@], self.source_avail())));
                }
            }
            if total > usize::MAX - data.len() {
                proof {
                    if d0 matches Some((ps, rest)) && ps.flatten().len() <= usize::MAX {
                        if is_last {
                            assert(d0 == Some::<(Seq<Seq<u8>>, Seq<u8>)>(
                                (emitted0 + seq![data@], self.source_avail()),
                            ));
                            lemma_flatten_concat(emitted0, seq![data@]);
                            seq![data@].lemma_flatten_one_element();
                        } else {
                            let d2 = decode_from(self.model(), self.source_avail());
                            assert(d2 is Some);
                            let ps2 = d2->Some_0.0;
                            lemma_flatten_concat(emitted0, seq![data@].add(ps2));
                            lemma_flatten_concat(seq![data@], ps2);
                            seq![data@].lemma_flatten_one_element();
                        }
                        assert(false);
                    }
                }
                return Err(StreamError::Io);
            }
            match sink.write_all(data.as_slice()) {
                Ok(()) => {}
                Err(e) => {
                    return Err(e);
                }
            }
            total = total + data.len();
            proof {
                emitted = emitted0.push(data@);
                emitted0.lemma_flatten_push(data@);
                assert(sink.received() =~= old(sink).received() + emitted);
            }
            if is_last {
                proof {
                    assert(d0 == Some::<(Seq<Seq<u8>>, Seq<u8>)>(
                        (emitted0 + seq![data@], self.source_avail()),
                    ));
                    assert(emitted0 + seq![data@] =~= emitted);
                    lemma_flatten_concat(emitted0, seq![data@]);
                    seq![data@].lemma_flatten_one_element();
                }
                return Ok(total);
            }
            proof {
                if decode_from(self.model(), self.source_avail()) is Some {
                    let ps2 = decode_from(self.model(), self.source_avail())->Some_0.0;
                    let r2 = decode_from(self.model(), self.source_avail())->Some_0.1;
                    assert(decode_from(pre.model(), pre.source_avail()) == Some::<(
                        Seq<Seq<u8>>,
                        Seq<u8>,
                    )>((seq![data@].add(ps2), r2)));
                    assert(emitted0 + (seq![data@].add(ps2)) =~= emitted + ps2);
                }
            }
        }
    }
}

// ------------------------------------------------------------------
// The wire encoding of a frame, and the round-trip laws.
// ------------------------------------------------------------------

/// A data beat as a producer must place it on the wire: a beat that happens
/// to begin with the control sequence is escaped by a zero control word;
/// any other beat is sent as is.
pub open spec fn enc_data_beat(b: Seq<u8>) -> Seq<u8> {
    if ctrl_prefix(b) {
        b + spec_u32_to_le_bytes(0)
    } else {
        b
    }
}

/// A run of escaped data beats on the wire.
pub open spec fn enc_beats(bs: Seq<Seq<u8>>) -> Seq<u8>
    decreases bs.len(),
{
    if bs.len() == 0 {
        Seq::<u8>::empty()
    } else {
        enc_data_beat(bs[0]) + enc_beats(bs.drop_first())
    }
}

/// Every beat is exactly one packet long.
pub open spec fn beats_wf(bs: Seq<Seq<u8>>) -> bool {
    forall|i: int| 0 <= i < bs.len() ==> (#[trigger] bs[i]).len() == PACKET_SIZE
}

/// A frame with a pre-declaring terminator: the escaped data beats, then a
/// control beat, the control word `l`, and the raw last beat.
pub open spec fn frame_enc_this_last(
    bs: Seq<Seq<u8>>,
    c: Seq<u8>,
    last: Seq<u8>,
    l: int,
) -> Seq<u8> {
    enc_beats(bs) + c + spec_u32_to_le_bytes(l as u32) + last
}

/// A frame with a retroactive terminator: every beat escaped (the last
/// included), then a control beat and the word `0x8000_0000 + l`.
pub open spec fn frame_enc_prev_last(bs: Seq<Seq<u8>>, c: Seq<u8>, l: int) -> Seq<u8> {
    enc_beats(bs) + c + spec_u32_to_le_bytes((0x8000_0000 + l) as u32)
}

/// The packets a frame of beats `bs` decodes to when its last beat is valid
/// for `l` bytes.
pub open spec fn frame_packets(bs: Seq<Seq<u8>>, l: int) -> Seq<Seq<u8>>
    recommends
        bs.len() >= 1,
{
    bs.drop_last().push(bs.last().take(l))
}

/// Classifying the wire form of a data beat always yields the beat itself,
/// labelled as data, however it begins.
proof fn lemma_classify_data(b: Seq<u8>, r: Seq<u8>)
    requires
        b.len() == PACKET_SIZE,
    ensures
        spec_classify(enc_data_beat(b) + r) == Some((b, BeatMeta::ThisIsData, r)),
{
    let s = enc_data_beat(b) + r;
    vstd::bytes::lemma_auto_spec_u32_to_from_le_bytes();
    assert(s.take(PACKET_SIZE as int) =~= b);
    if ctrl_prefix(b) {
        assert(s.subrange(PACKET_SIZE as int, (PACKET_SIZE + CTRL_SIZE) as int)
            =~= spec_u32_to_le_bytes(0));
        assert(s.skip((PACKET_SIZE + CTRL_SIZE) as int) =~= r);
    } else {
        assert(s.skip(PACKET_SIZE as int) =~= r);
    }
}

/// Classifying a control beat followed by control word `w` yields the
/// classification of `w`.
proof fn lemma_classify_ctrl(c: Seq<u8>, w: u32, r: Seq<u8>)
    requires
        c.len() == PACKET_SIZE,
        ctrl_prefix(c),
    ensures
        spec_classify(c + spec_u32_to_le_bytes(w) + r) == Some((c, classify_word(w), r)),
{
    let s = c + spec_u32_to_le_bytes(w) + r;
    vstd::bytes::lemma_auto_spec_u32_to_from_le_bytes();
    assert(s.take(PACKET_SIZE as int) =~= c);
    assert(s.subrange(PACKET_SIZE as int, (PACKET_SIZE + CTRL_SIZE) as int)
        =~= spec_u32_to_le_bytes(w));
    assert(s.skip((PACKET_SIZE + CTRL_SIZE) as int) =~= r);
}

/// Look-behind correctness: a data beat that begins with the control
/// sequence but is followed by a zero control word enters the look-behind
/// slot byte-identical, control-sequence prefix included, and the step
/// emits the previously carried beat unchanged.  A later step then emits
/// the escaped beat itself unchanged (any carried beat is emitted whole
/// whenever the frame continues).
pub proof fn lemma_escaped_beat_identical(q: Seq<u8>, b: Seq<u8>, s: Seq<u8>, s2: Seq<u8>)
    requires
        b.len() == PACKET_SIZE,
        ctrl_prefix(b),
    ensures
        spec_step(DecoderModel::Carry(q), enc_data_beat(b) + s) == (StepOutcome::Emit {
            last: false,
            data: q,
            next: DecoderModel::Carry(b),
            rest: s,
        }),
        spec_step(DecoderModel::Carry(b), s2) matches StepOutcome::Emit { last: false, data, .. }
            ==> data == b,
{
    lemma_classify_data(b, s);
}

/// The flattened length of uniformly sized beats.
pub proof fn lemma_flatten_uniform_len(bs: Seq<Seq<u8>>, w: int)
    requires
        forall|i: int| 0 <= i < bs.len() ==> (#[trigger] bs[i]).len() == w,
    ensures
        bs.flatten().len() == bs.len() * w,
    decreases bs.len(),
{
    if bs.len() == 0 {
    } else {
        let tail = bs.drop_first();
        assert(forall|i: int| 0 <= i < tail.len() ==> (#[trigger] tail[i]).len() == w);
        lemma_flatten_uniform_len(tail, w);
        assert(bs.len() * w == w + (bs.len() - 1) * w) by (nonlinear_arith);
    }
}

/// A frame decode that begins with a data beat proceeds exactly as a decode
/// that already carries that beat.
proof fn lemma_decode_start_via_carry(s: Seq<u8>)
    requires
        spec_classify(s) matches Some((b, meta, rest)) && meta is ThisIsData,
    ensures
        spec_classify(s) matches Some((b, meta, rest)) ==> decode_from(DecoderModel::Start, s)
            == decode_from(DecoderModel::Carry(b), rest),
{
    let (b, meta, rest) = spec_classify(s)->Some_0;
    assert(rest.len() < s.len());
    lemma_step_consumes(DecoderModel::Carry(b), rest);
    let st = spec_step(DecoderModel::Carry(b), rest);
    assert(spec_step(DecoderModel::Start, s) == st);
    match st {
        StepOutcome::Short => {}
        StepOutcome::Violation => {}
        StepOutcome::Emit { last, data, next, rest: r2 } => {
            if !last {
                assert(r2.len() < rest.len());
            }
        }
    }
}

/// Decoding a run of escaped data beats, a pre-declaring terminator and the
/// raw last beat, starting with beat `p` in hand: every beat comes back
/// whole and in order, then the last beat truncated to `l`.
proof fn lemma_decode_carry_this_last(
    p: Seq<u8>,
    bs: Seq<Seq<u8>>,
    c: Seq<u8>,
    last: Seq<u8>,
    l: int,
    extra: Seq<u8>,
)
    requires
        beats_wf(bs),
        c.len() == PACKET_SIZE,
        ctrl_prefix(c),
        last.len() == PACKET_SIZE,
        1 <= l <= PACKET_SIZE,
    ensures
        decode_from(DecoderModel::Carry(p), enc_beats(bs) + c + spec_u32_to_le_bytes(l as u32)
            + last + extra) == Some((seq![p] + bs + seq![last.take(l)], extra)),
    decreases bs.len(),
{
    let w = l as u32;
    let s = enc_beats(bs) + c + spec_u32_to_le_bytes(w) + last + extra;
    if bs.len() == 0 {
        assert(s =~= c + spec_u32_to_le_bytes(w) + (last + extra));
        lemma_classify_ctrl(c, w, last + extra);
        assert(classify_word(w) == BeatMeta::ThisIsLast(l as usize));
        let rest = last + extra;
        assert(rest.take(PACKET_SIZE as int) =~= last);
        assert(rest.skip(PACKET_SIZE as int) =~= extra);
        assert(spec_step(DecoderModel::Carry(p), s) == (StepOutcome::Emit {
            last: false,
            data: p,
            next: DecoderModel::Pending(last, l as nat),
            rest: extra,
        }));
        assert(decode_from(DecoderModel::Pending(last, l as nat), extra) == Some::<(
            Seq<Seq<u8>>,
            Seq<u8>,
        )>((seq![last.take(l)], extra)));
        assert(extra.len() < s.len());
        assert(seq![p].add(seq![last.take(l)]) =~= seq![p] + bs + seq![last.take(l)]);
    } else {
        let b0 = bs[0];
        let bs1 = bs.drop_first();
        assert(beats_wf(bs1));
        let tail = enc_beats(bs1) + c + spec_u32_to_le_bytes(w) + last + extra;
        assert(s =~= enc_data_beat(b0) + tail);
        lemma_classify_data(b0, tail);
        assert(spec_step(DecoderModel::Carry(p), s) == (StepOutcome::Emit {
            last: false,
            data: p,
            next: DecoderModel::Carry(b0),
            rest: tail,
        }));
        lemma_decode_carry_this_last(b0, bs1, c, last, l, extra);
        assert(tail.len() < s.len());
        assert(seq![p].add(seq![b0] + bs1 + seq![last.take(l)]) =~= seq![p] + bs + seq![last.take(
            l,
        )]);
    }
}

/// Decoding a run of escaped data beats closed by a retroactive terminator,
/// starting with beat `p` in hand.
proof fn lemma_decode_carry_prev_last(
    p: Seq<u8>,
    bs: Seq<Seq<u8>>,
    c: Seq<u8>,
    l: int,
    extra: Seq<u8>,
)
    requires
        beats_wf(bs),
        c.len() == PACKET_SIZE,
        ctrl_prefix(c),
        0 <= l <= PACKET_SIZE,
    ensures
        decode_from(DecoderModel::Carry(p), enc_beats(bs) + c + spec_u32_to_le_bytes(
            (0x8000_0000 + l) as u32,
        ) + extra) == Some((frame_packets(seq![p] + bs, l), extra)),
    decreases bs.len(),
{
    let w = (0x8000_0000 + l) as u32;
    let s = enc_beats(bs) + c + spec_u32_to_le_bytes(w) + extra;
    if bs.len() == 0 {
        assert(s =~= c + spec_u32_to_le_bytes(w) + extra);
        lemma_classify_ctrl(c, w, extra);
        assert(classify_word(w) == BeatMeta::PrevIsLast(l as usize));
        assert(spec_step(DecoderModel::Carry(p), s) == (StepOutcome::Emit {
            last: true,
            data: p.take(l),
            next: DecoderModel::Start,
            rest: extra,
        }));
        assert(seq![p.take(l)] =~= frame_packets(seq![p] + bs, l));
    } else {
        let b0 = bs[0];
        let bs1 = bs.drop_first();
        assert(beats_wf(bs1));
        let tail = enc_beats(bs1) + c + spec_u32_to_le_bytes(w) + extra;
        assert(s =~= enc_data_beat(b0) + tail);
        lemma_classify_data(b0, tail);
        assert(spec_step(DecoderModel::Carry(p), s) == (StepOutcome::Emit {
            last: false,
            data: p,
            next: DecoderModel::Carry(b0),
            rest: tail,
        }));
        lemma_decode_carry_prev_last(b0, bs1, c, l, extra);
        assert(tail.len() < s.len());
        assert(seq![p].add(frame_packets(seq![b0] + bs1, l)) =~= frame_packets(
            seq![p] + bs,
            l,
        ));
    }
}

/// Decoder round trip, pre-declared terminator: a frame of `bs.len() + 1`
/// data beats whose wire form escapes each of `bs` and pre-declares the raw
/// last beat with length `l` decodes, from a frame boundary, to every beat
/// of `bs` unchanged followed by the first `l` bytes of the last beat —
/// `bs.len() * PACKET_SIZE + l` payload bytes in all — leaving the decoder
/// back at the boundary with exactly the frame consumed.
pub proof fn lemma_round_trip_this_last(
    bs: Seq<Seq<u8>>,
    c: Seq<u8>,
    last: Seq<u8>,
    l: int,
    extra: Seq<u8>,
)
    requires
        beats_wf(bs),
        c.len() == PACKET_SIZE,
        ctrl_prefix(c),
        last.len() == PACKET_SIZE,
        1 <= l <= PACKET_SIZE,
    ensures
        decode_from(DecoderModel::Start, frame_enc_this_last(bs, c, last, l) + extra) == Some((
            bs + seq![last.take(l)],
            extra,
        )),
        (bs + seq![last.take(l)]).flatten() == bs.flatten() + last.take(l),
        (bs + seq![last.take(l)]).flatten().len() == bs.len() * (PACKET_SIZE as int) + l,
{
    let w = l as u32;
    let s = frame_enc_this_last(bs, c, last, l) + extra;
    lemma_flatten_concat(bs, seq![last.take(l)]);
    seq![last.take(l)].lemma_flatten_one_element();
    lemma_flatten_uniform_len(bs, PACKET_SIZE as int);
    if bs.len() == 0 {
        assert(s =~= c + spec_u32_to_le_bytes(w) + (last + extra));
        lemma_classify_ctrl(c, w, last + extra);
        assert(classify_word(w) == BeatMeta::ThisIsLast(l as usize));
        let rest = last + extra;
        assert(rest.take(PACKET_SIZE as int) =~= last);
        assert(rest.skip(PACKET_SIZE as int) =~= extra);
        assert(rest.take(PACKET_SIZE as int).take(l) == last.take(l));
        assert(spec_step(DecoderModel::Start, s) == (StepOutcome::Emit {
            last: true,
            data: last.take(l),
            next: DecoderModel::Start,
            rest: extra,
        }));
        assert(bs + seq![last.take(l)] =~= seq![last.take(l)]);
    } else {
        let b0 = bs[0];
        let bs1 = bs.drop_first();
        assert(beats_wf(bs1));
        let tail = enc_beats(bs1) + c + spec_u32_to_le_bytes(w) + last + extra;
        assert(s =~= enc_data_beat(b0) + tail);
        lemma_classify_data(b0, tail);
        lemma_decode_start_via_carry(s);
        lemma_decode_carry_this_last(b0, bs1, c, last, l, extra);
        assert(seq![b0] + bs1 + seq![last.take(l)] =~= bs + seq![last.take(l)]);
    }
}

/// Decoder round trip, retroactive terminator: a frame of `bs.len()` data
/// beats, each escaped on the wire and closed by a control beat whose word
/// sets the high bit and length `l`, decodes from a frame boundary to all
/// but the last beat unchanged and the last truncated to `l` —
/// `(bs.len() - 1) * PACKET_SIZE + l` payload bytes — leaving the decoder
/// back at the boundary with exactly the frame consumed.
pub proof fn lemma_round_trip_prev_last(bs: Seq<Seq<u8>>, c: Seq<u8>, l: int, extra: Seq<u8>)
    requires
        beats_wf(bs),
        bs.len() >= 1,
        c.len() == PACKET_SIZE,
        ctrl_prefix(c),
        0 <= l <= PACKET_SIZE,
    ensures
        decode_from(DecoderModel::Start, frame_enc_prev_last(bs, c, l) + extra) == Some((
            frame_packets(bs, l),
            extra,
        )),
        frame_packets(bs, l).flatten() == bs.drop_last().flatten() + bs.last().take(l),
        frame_packets(bs, l).flatten().len() == (bs.len() - 1) * (PACKET_SIZE as int) + l,
{
    let w = (0x8000_0000 + l) as u32;
    let s = frame_enc_prev_last(bs, c, l) + extra;
    let b0 = bs[0];
    let bs1 = bs.drop_first();
    assert(beats_wf(bs1));
    let tail = enc_beats(bs1) + c + spec_u32_to_le_bytes(w) + extra;
    assert(s =~= enc_data_beat(b0) + tail);
    lemma_classify_data(b0, tail);
    lemma_decode_start_via_carry(s);
    lemma_decode_carry_prev_last(b0, bs1, c, l, extra);
    assert(seq![b0] + bs1 =~= bs);
    assert(frame_packets(bs, l) =~= bs.drop_last().push(bs.last().take(l)));
    bs.drop_last().lemma_flatten_push(bs.last().take(l));
    assert(forall|i: int| 0 <= i < bs.drop_last().len() ==> (#[trigger] bs.drop_last()[i]).len()
        == PACKET_SIZE);
    lemma_flatten_uniform_len(bs.drop_last(), PACKET_SIZE as int);
}

} // verus!
