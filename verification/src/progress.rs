//! Progress reporting: the engine hands each completed round to a sink,
//! synchronously, once per round.
//!
//! A sink carries a specification-level history of the reports it has
//! received, so the engine's contracts can state the whole trace of a call:
//! exactly one report per round, ascending round indices for encryption and
//! descending for decryption.
use vstd::prelude::*;

verus! {

/// The trace an encryption with round count `c` reports:
/// `(0, c), (1, c), ..., (c - 1, c)`.
pub open spec fn encrypt_trace(c: u8) -> Seq<(u8, u8)> {
    Seq::new(c as nat, |i: int| (i as u8, c))
}

/// The trace a decryption with round count `c` reports:
/// `(c - 1, c), ..., (1, c), (0, c)`.
pub open spec fn decrypt_trace(c: u8) -> Seq<(u8, u8)> {
    Seq::new(c as nat, |i: int| ((c - 1 - i) as u8, c))
}

/// A progress sink. The engine calls `on_round(r, c)` after finishing round
/// `r` of `c`; `history()` is the sequence of reports received so far, oldest
/// first, and `on_round` appends exactly the pair it was handed.
pub trait ProgressSink: Sized {
    /// The reports received so far.  Sinks that keep no record, such as a
    /// front end that only draws, may leave the default, which stands for a
    /// record nobody reads.
    open spec fn history(&self) -> Seq<(u8, u8)> {
        Seq::empty()
    }

    fn on_round(&mut self, round: u8, total: u8)
        ensures
            final(self).history() == old(self).history().push((round, total)),
    ;
}

/// A sink that remembers every report, for callers that want the trace.
pub struct RecordingSink {
    /// The `(round index, round count)` pairs received, oldest first.
    pub calls: Vec<(u8, u8)>,
}

impl RecordingSink {
    /// A sink with an empty history.
    pub fn new() -> (s: RecordingSink)
        ensures
            s.history() == Seq::<(u8, u8)>::empty(),
    {
        RecordingSink { calls: Vec::new() }
    }
}

impl ProgressSink for RecordingSink {
    open spec fn history(&self) -> Seq<(u8, u8)> {
        self.calls@
    }

    fn on_round(&mut self, round: u8, total: u8) {
        self.calls.push((round, total));
    }
}

/// A sink that ignores every report; its history is ghost only.
pub struct SilentSink {
    trace: Ghost<Seq<(u8, u8)>>,
}

impl SilentSink {
    /// A sink with an empty history.
    pub fn new() -> (s: SilentSink)
        ensures
            s.history() == Seq::<(u8, u8)>::empty(),
    {
        SilentSink { trace: Ghost(Seq::empty()) }
    }
}

impl ProgressSink for SilentSink {
    closed spec fn history(&self) -> Seq<(u8, u8)> {
        self.trace@
    }

    fn on_round(&mut self, round: u8, total: u8) {
        self.trace = Ghost(self.trace@.push((round, total)));
    }
}

} // verus!
