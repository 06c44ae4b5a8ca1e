//! Capability interface over device handles.
//!
//! The encoder and decoder are parameterized over any writable or readable
//! byte stream.  A sink is modelled by the history of write calls it has
//! completed (`received`), a source by the bytes it has yet to deliver
//! (`avail`).  Handles that cannot fail, such as the in-memory ones used in
//! tests, say so through `reliable`, which turns the conditional contracts of
//! the streaming operations into guarantees.

use vstd::prelude::*;
use vstd::slice::{slice_subrange, slice_to_vec};

use crate::errors::StreamError;

verus! {

/// A writable byte stream, such as an opened H2C queue device.
///
/// Implementations outside the library (real device files) are not verified;
/// the contracts below are what the streaming core relies on.
pub trait ByteSink {
    /// The write calls completed so far, each with the bytes it delivered.
    /// Unverified handles, whose histories nothing observes, may keep the
    /// default.
    open spec fn received(&self) -> Seq<Seq<u8>> {
        Seq::<Seq<u8>>::empty()
    }

    /// True for sinks whose writes always succeed.
    open spec fn reliable(&self) -> bool {
        false
    }

    /// Deliver all of `buf` as one downstream write call.
    fn write_all(&mut self, buf: &[u8]) -> (r: Result<(), StreamError>)
        ensures
            r is Ok ==> final(self).received() == old(self).received().push(buf@),
            r is Err ==> r->Err_0 is Io,
            final(self).reliable() == old(self).reliable(),
            old(self).reliable() ==> r is Ok,
    ;
}

/// A readable byte stream, such as an opened C2H queue device.
pub trait ByteSource {
    /// The bytes this source will deliver next, in order.  Unverified
    /// handles, whose streams nothing observes, may keep the default.
    open spec fn avail(&self) -> Seq<u8> {
        Seq::<u8>::empty()
    }

    /// True for sources whose in-range reads always succeed.
    open spec fn reliable(&self) -> bool {
        false
    }

    /// Read exactly `n` bytes as one read call; a source that cannot
    /// deliver all `n` reports an I/O error.
    fn read_exact(&mut self, n: usize) -> (r: Result<Vec<u8>, StreamError>)
        ensures
            r is Ok ==> n <= old(self).avail().len()
                && r->Ok_0@ == old(self).avail().take(n as int)
                && final(self).avail() == old(self).avail().skip(n as int),
            r is Err ==> r->Err_0 is Io,
            final(self).reliable() == old(self).reliable(),
            old(self).reliable() ==> (r is Ok <==> n <= old(self).avail().len()),
            old(self).reliable() && r is Err ==> final(self).avail() == old(self).avail(),
    ;
}

/// An in-memory sink that records every write call.
pub struct VecSink {
    writes: Vec<Vec<u8>>,
}

impl VecSink {
    /// An empty sink with no writes recorded.
    pub fn new() -> (s: VecSink)
        ensures
            s.received() == Seq::<Seq<u8>>::empty(),
    {
        let s = VecSink { writes: Vec::new() };
        proof {
            assert(s.received() =~~= Seq::<Seq<u8>>::empty());
        }
        s
    }

    /// How many write calls have been recorded.
    pub fn write_count(&self) -> (n: usize)
        ensures
            n == self.received().len(),
    {
        self.writes.len()
    }

    /// The bytes delivered by write call `i`.
    pub fn write_at(&self, i: usize) -> (w: &Vec<u8>)
        requires
            i < self.received().len(),
        ensures
            w@ == self.received()[i as int],
    {
        &self.writes[i]
    }

    /// All delivered bytes, in order, with the write boundaries dropped.
    pub fn concatenated(&self) -> (bytes: Vec<u8>)
        ensures
            bytes@ == self.received().flatten(),
    {
        let mut bytes: Vec<u8> = Vec::new();
        let mut i: usize = 0;
        proof {
            assert(self.received().take(0) =~= Seq::<Seq<u8>>::empty());
        }
        while i < self.writes.len()
            invariant
                i <= self.writes.len(),
                bytes@ == self.received().take(i as int).flatten(),
            decreases self.writes.len() - i,
        {
            let w = &self.writes[i];
            let mut j: usize = 0;
            while j < w.len()
                invariant
                    j <= w.len(),
                    w@ == self.received()[i as int],
                    i < self.received().len(),
                    bytes@ == self.received().take(i as int).flatten() + w@.take(j as int),
                decreases w.len() - j,
            {
                bytes.push(w[j]);
                proof {
                    assert(w@.take(j + 1) =~= w@.take(j as int).push(w@[j as int]));
                }
                j += 1;
            }
            proof {
                let pre = self.received().take(i as int);
                assert(self.received().take(i + 1) =~= pre.push(self.received()[i as int]));
                pre.lemma_flatten_push(self.received()[i as int]);
                assert(w@.take(w@.len() as int) =~= w@);
            }
            i += 1;
        }
        proof {
            assert(self.received().take(self.writes@.len() as int) =~= self.received());
        }
        bytes
    }
}

impl ByteSink for VecSink {
    closed spec fn received(&self) -> Seq<Seq<u8>> {
        self.writes.deep_view()
    }

    open spec fn reliable(&self) -> bool {
        true
    }

    fn write_all(&mut self, buf: &[u8]) -> (r: Result<(), StreamError>) {
        let copy = slice_to_vec(buf);
        self.writes.push(copy);
        proof {
            assert(self.received() =~~= old(self).received().push(buf@));
        }
        Ok(())
    }
}

/// An in-memory source that delivers a fixed byte vector.
pub struct VecSource {
    data: Vec<u8>,
    pos: usize,
}

impl VecSource {
    #[verifier::type_invariant]
    spec fn inv(&self) -> bool {
        self.pos <= self.data@.len()
    }

    /// A source that will deliver exactly `data`.
    pub fn new(data: Vec<u8>) -> (s: VecSource)
        ensures
            s.avail() == data@,
    {
        let s = VecSource { data, pos: 0 };
        proof {
            assert(s.avail() =~= s.data@);
        }
        s
    }

    /// How many bytes are still undelivered.
    pub fn remaining(&self) -> (n: usize)
        ensures
            n == self.avail().len(),
    {
        proof {
            use_type_invariant(self);
        }
        self.data.len() - self.pos
    }
}

impl ByteSource for VecSource {
    closed spec fn avail(&self) -> Seq<u8> {
        self.data@.skip(self.pos as int)
    }

    open spec fn reliable(&self) -> bool {
        true
    }

    fn read_exact(&mut self, n: usize) -> (r: Result<Vec<u8>, StreamError>) {
        proof {
            use_type_invariant(&*self);
        }
        if n <= self.data.len() - self.pos {
            let out = slice_to_vec(slice_subrange(self.data.as_slice(), self.pos, self.pos + n));
            proof {
                assert(out@ =~= old(self).avail().take(n as int));
            }
            self.pos = self.pos + n;
            proof {
                assert(self.avail() =~= old(self).avail().skip(n as int));
            }
            Ok(out)
        } else {
            Err(StreamError::Io)
        }
    }
}

} // verus!
