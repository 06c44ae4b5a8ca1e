//! Card-to-host path on a cooperative scheduler: the verified pieces of the
//! asynchronous beat reader.
//!
//! The asynchronous stream issues positional reads of one beat at a time at
//! a monotonically advancing offset.  The scheduler, the device file and
//! the buffer registration belong to the unverified shell; what is verified
//! here is the beat buffer's contents, the positional bookkeeping — the
//! offset advances by exactly one beat per completed read and stays put
//! when a read is cancelled, because only a completed read reaches
//! [`PacketCursor::advance`] — and the beat classification used to skip
//! control traffic, in both control-sequence byte orders.

use vstd::prelude::*;

use crate::c2h::ctrl_prefix;
use crate::PACKET_SIZE;

verus! {

/// The legacy byte order of the control sequence, kept as a compatibility
/// mode for devices from before the endianness migration.
pub open spec fn legacy_ctrl_prefix(b: Seq<u8>) -> bool {
    b.len() >= 4 && b[0] == 0x4Au8 && b[1] == 0x37u8 && b[2] == 0xF1u8 && b[3] == 0x5Cu8
}

/// Whether `beat` starts with the control sequence in its legacy byte order.
pub fn beat_starts_with_ctrl_legacy(beat: &[u8]) -> (r: bool)
    ensures
        r == legacy_ctrl_prefix(beat@),
{
    beat.len() >= 4 && *vstd::slice::slice_index_get(beat, 0) == 0x4A
        && *vstd::slice::slice_index_get(beat, 1) == 0x37
        && *vstd::slice::slice_index_get(beat, 2) == 0xF1
        && *vstd::slice::slice_index_get(beat, 3) == 0x5C
}

/// Given the classifications of up to two consecutively read beats, decide
/// what a control-skipping read returns: a beat that is not control traffic
/// is returned as is; after one control beat, a second control beat is
/// returned (the escape), anything else is dropped.
pub fn resolve_ctrl_skip(first_is_ctrl: bool, second_is_ctrl: bool) -> (keep_second: Option<bool>)
    ensures
        keep_second == if !first_is_ctrl {
            Some(false)
        } else if second_is_ctrl {
            Some(true)
        } else {
            None::<bool>
        },
{
    if !first_is_ctrl {
        Some(false)
    } else if second_is_ctrl {
        Some(true)
    } else {
        None
    }
}

/// One beat of storage for the asynchronous reader, always exactly
/// [`PACKET_SIZE`] bytes.
pub struct Buf {
    data: Vec<u8>,
}

impl Buf {
    /// Well-formedness: the buffer holds exactly one beat.
    pub closed spec fn wf(&self) -> bool {
        self.data@.len() == PACKET_SIZE
    }

    /// The buffered beat.
    pub closed spec fn bytes(&self) -> Seq<u8> {
        self.data@
    }

    /// A zero-initialized beat buffer.
    pub fn new() -> (b: Buf)
        ensures
            b.wf(),
            b.bytes() == Seq::<u8>::new(PACKET_SIZE as nat, |i: int| 0u8),
    {
        let b = Buf { data: vec![0u8; PACKET_SIZE] };
        proof {
            assert(b.bytes() =~= Seq::<u8>::new(PACKET_SIZE as nat, |i: int| 0u8));
        }
        b
    }

    /// The buffered beat as a slice.
    pub fn as_slice(&self) -> (s: &[u8])
        ensures
            s@ == self.bytes(),
    {
        self.data.as_slice()
    }

    /// Replace the buffered beat with one just read.
    pub fn fill(&mut self, beat: Vec<u8>)
        requires
            beat@.len() == PACKET_SIZE,
        ensures
            final(self).wf(),
            final(self).bytes() == beat@,
    {
        self.data = beat;
    }
}

/// The monotonically advancing read offset of the asynchronous stream.
///
/// The shell advances the cursor only after a positional read completes;
/// a cancelled read never reaches [`PacketCursor::advance`], so the offset
/// is unchanged in the cancelled case.
pub struct PacketCursor {
    pos: u64,
}

impl PacketCursor {
    /// The current read offset in bytes.
    pub closed spec fn offset(&self) -> u64 {
        self.pos
    }

    /// A cursor at the start of the stream.
    pub fn new() -> (c: PacketCursor)
        ensures
            c.offset() == 0,
    {
        PacketCursor { pos: 0 }
    }

    /// The offset at which the next beat must be read.
    pub fn read_offset(&self) -> (p: u64)
        ensures
            p == self.offset(),
    {
        self.pos
    }

    /// Record one completed beat read: the offset advances by exactly
    /// [`PACKET_SIZE`].
    pub fn advance(&mut self)
        requires
            old(self).offset() + PACKET_SIZE <= u64::MAX,
        ensures
            final(self).offset() == old(self).offset() + PACKET_SIZE,
    {
        self.pos = self.pos + (PACKET_SIZE as u64);
    }
}

/// The offset after `n` completed beat reads from offset 0.
pub open spec fn offset_after(n: nat) -> int
    decreases n,
{
    if n == 0 {
        0
    } else {
        offset_after((n - 1) as nat) + PACKET_SIZE
    }
}

/// Positional advance: after `n` completed beat reads the cursor stands at
/// exactly `n * PACKET_SIZE` — each completed read moves it one beat, and
/// nothing else moves it.
pub proof fn lemma_positional_advance(n: nat)
    ensures
        offset_after(n) == n * (PACKET_SIZE as int),
    decreases n,
{
    if n == 0 {
    } else {
        lemma_positional_advance((n - 1) as nat);
        assert(n * (PACKET_SIZE as int) == (n - 1) * (PACKET_SIZE as int) + (
        PACKET_SIZE as int)) by (nonlinear_arith);
    }
}

} // verus!
