//! The abstract output capability: anything that accepts ordered, fallible
//! byte writes. The censoring strategies are verified against this trait
//! alone, so an in-memory buffer for tests and an asynchronous transport
//! outside the verified library satisfy the same contract.

use vstd::prelude::*;

verus! {

/// The error a sink reports when a write fails.
#[derive(Clone, Copy, PartialEq, Eq, Structural, Debug)]
pub struct SinkWriteError;

/// An ordered byte sink. Writes append to the sink's accepted contents and
/// may fail; nothing already accepted is ever undone (append-only).
pub trait ByteSink {
    /// The bytes the sink has accepted so far, in order. Every
    /// implementation should override this with its own model; the default
    /// is only a placeholder, under which `write` cannot promise success.
    open spec fn contents(&self) -> Seq<u8> {
        Seq::empty()
    }

    /// Whether the sink promises that writes keep succeeding. A sink that
    /// cannot fail lets callers conclude their whole run succeeds; by
    /// default nothing is promised.
    open spec fn infallible(&self) -> bool {
        false
    }

    /// Writes `bytes` after everything accepted before. On success the sink
    /// has accepted exactly the new bytes at its end; on failure it has
    /// accepted some leading part of them and nothing more.
    fn write(&mut self, bytes: &[u8]) -> (r: Result<(), SinkWriteError>)
        ensures
            r is Ok ==> final (self).contents() == old(self).contents() + bytes@,
            r is Err ==> exists|k: int|
                0 <= k <= bytes@.len() && final (self).contents() == old(self).contents()
                    + bytes@.take(k),
            old(self).infallible() ==> r is Ok && final (self).infallible(),
    ;
}

/// An in-memory sink: appends every write to an owned byte vector and never
/// fails.
pub struct VecSink {
    accepted: Vec<u8>,
}

impl VecSink {
    /// Creates an empty in-memory sink.
    pub fn new() -> (s: VecSink)
        ensures
            s.contents() == Seq::<u8>::empty(),
            s.infallible(),
    {
        VecSink { accepted: Vec::new() }
    }

    /// The bytes accepted so far.
    pub fn bytes(&self) -> (r: &Vec<u8>)
        ensures
            r@ == self.contents(),
    {
        &self.accepted
    }

    /// Hands the accepted bytes back to the caller.
    pub fn into_bytes(self) -> (r: Vec<u8>)
        ensures
            r@ == self.contents(),
    {
        self.accepted
    }
}

impl ByteSink for VecSink {
    closed spec fn contents(&self) -> Seq<u8> {
        self.accepted@
    }

    closed spec fn infallible(&self) -> bool {
        true
    }

    fn write(&mut self, bytes: &[u8]) -> (r: Result<(), SinkWriteError>) {
        self.accepted.extend_from_slice(bytes);
        proof {
            assert(self.accepted@ =~= old(self).accepted@ + bytes@);
        }
        Ok(())
    }
}

/// An in-memory sink that accepts only a limited number of writes and then
/// fails every further one: exercises callers' write-failure paths.
pub struct BoundedSink {
    accepted: Vec<u8>,
    writes_left: usize,
}

impl BoundedSink {
    /// Creates an empty sink that will accept `writes` write calls.
    pub fn new(writes: usize) -> (s: BoundedSink)
        ensures
            s.contents() == Seq::<u8>::empty(),
    {
        BoundedSink { accepted: Vec::new(), writes_left: writes }
    }

    /// The bytes accepted so far.
    pub fn bytes(&self) -> (r: &Vec<u8>)
        ensures
            r@ == self.contents(),
    {
        &self.accepted
    }
}

impl ByteSink for BoundedSink {
    closed spec fn contents(&self) -> Seq<u8> {
        self.accepted@
    }

    closed spec fn infallible(&self) -> bool {
        false
    }

    fn write(&mut self, bytes: &[u8]) -> (r: Result<(), SinkWriteError>) {
        if self.writes_left == 0 {
            proof {
                assert(self.accepted@ =~= old(self).accepted@ + bytes@.take(0));
            }
            return Err(SinkWriteError);
        }
        self.writes_left = self.writes_left - 1;
        self.accepted.extend_from_slice(bytes);
        proof {
            assert(self.accepted@ =~= old(self).accepted@ + bytes@);
        }
        Ok(())
    }
}

} // verus!
