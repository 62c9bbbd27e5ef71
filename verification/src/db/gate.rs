//! Who may write, and when a flush may run.
//!
//! A writer claims its sequence number, logs its record without holding anything,
//! and settles once the record is in memory. A flush releases the log, so it must
//! not run while a write is under way: it first blocks new claims and then waits
//! until every claimed write has settled.

use vstd::prelude::*;

use crate::memtable::SeqNo;

verus! {

/// The write path's state.
#[derive(Debug)]
pub struct WriteState {
    next_seq: SeqNo,
    in_flight: usize,
    flush_pending: bool,
}

/// What a [`WriteState`] holds.
#[verifier::ext_equal]
pub struct WriteView {
    /// The next sequence number.
    pub next_seq: u64,
    /// How many writes have claimed a number and not settled.
    pub in_flight: nat,
    /// A flush waits or runs.
    pub flush_pending: bool,
}

impl View for WriteState {
    type V = WriteView;

    closed spec fn view(&self) -> WriteView {
        WriteView {
            next_seq: self.next_seq,
            in_flight: self.in_flight as nat,
            flush_pending: self.flush_pending,
        }
    }
}

impl WriteView {
    /// No write and no flush is under way.
    pub open spec fn quiet(self) -> bool {
        self.in_flight == 0 && !self.flush_pending
    }
}

impl WriteState {
    /// Nothing is under way.
    pub fn new(next_seq: SeqNo) -> (w: Self)
        ensures
            w@ == (WriteView { next_seq, in_flight: 0, flush_pending: false }),
    {
        WriteState { next_seq, in_flight: 0, flush_pending: false }
    }

    /// The next sequence number.
    pub fn next_seq(&self) -> (n: SeqNo)
        ensures
            n == self@.next_seq,
    {
        self.next_seq
    }

    /// Claims the next sequence number, unless a flush waits or runs.
    pub fn claim(&mut self) -> (r: Option<SeqNo>)
        requires
            old(self)@.next_seq < u64::MAX,
            old(self)@.in_flight < usize::MAX,
        ensures
            match r {
                Some(seq) => !old(self)@.flush_pending && seq == old(self)@.next_seq
                    && final(self)@ == (WriteView {
                    next_seq: (seq + 1) as u64,
                    in_flight: old(self)@.in_flight + 1,
                    flush_pending: false,
                }),
                None => old(self)@.flush_pending && final(self)@ == old(self)@,
            },
    {
        if self.flush_pending {
            return None;
        }
        let seq: u64 = self.next_seq;
        self.next_seq = seq + 1;
        self.in_flight = self.in_flight + 1;
        Some(seq)
    }

    /// A claimed write is in memory, or has failed.
    pub fn settle(&mut self)
        requires
            old(self)@.in_flight > 0,
        ensures
            final(self)@ == (WriteView {
                in_flight: (old(self)@.in_flight - 1) as nat,
                ..old(self)@
            }),
    {
        self.in_flight = self.in_flight - 1;
    }

    /// Blocks new claims.
    pub fn begin_flush(&mut self)
        ensures
            final(self)@ == (WriteView { flush_pending: true, ..old(self)@ }),
    {
        self.flush_pending = true;
    }

    /// Whether every claimed write has settled, so that a flush may run.
    pub fn is_quiesced(&self) -> (r: bool)
        ensures
            r == (self@.in_flight == 0),
    {
        self.in_flight == 0
    }

    /// Lets writers claim again.
    pub fn end_flush(&mut self)
        ensures
            final(self)@ == (WriteView { flush_pending: false, ..old(self)@ }),
    {
        self.flush_pending = false;
    }
}

} // verus!
