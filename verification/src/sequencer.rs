//! The decisions of the sequencer: the one owner of the book, through which
//! every submission passes, and which answers a submission only when the
//! store holds its changes.

use crate::error::SubmitError;
use crate::order::{Order, Trade};
use crate::order_book::{offer_outcome, refusal_of, submit_outcome, BookState, OrderBook};
use vstd::prelude::*;

verus! {

/// How one attempt to write the changes of a submission to the store ended.
#[derive(Debug, Clone, Copy, PartialEq, Eq, Structural)]
pub enum WriteOutcome {
    /// The changes are in the store.
    Committed,
    /// The store was busy; nothing was written, and another attempt can
    /// succeed.
    Transient,
    /// The store failed; nothing was written, and another attempt would fail
    /// too.
    Failed,
}

/// What follows an attempt to write.
#[derive(Debug, Clone, Copy, PartialEq, Eq, Structural)]
pub enum WriteStep {
    /// Answer the submission.
    Acknowledge,
    /// Write again.
    Retry,
    /// Give up: the submission is not answered, and no further one is taken.
    Halt,
}

/// How often the changes of one submission are written at most.
pub const WRITE_ATTEMPTS: u8 = 3;

/// What follows attempt number `attempt`, counted from 1, that ended with
/// `outcome`: a busy store is tried again until the attempts are used up.
pub open spec fn write_step_of(outcome: WriteOutcome, attempt: u8) -> WriteStep {
    match outcome {
        WriteOutcome::Committed => WriteStep::Acknowledge,
        WriteOutcome::Transient => if attempt < WRITE_ATTEMPTS {
            WriteStep::Retry
        } else {
            WriteStep::Halt
        },
        WriteOutcome::Failed => WriteStep::Halt,
    }
}

/// What a taken submission came to: the arrival number the order got, what
/// is left unfilled of it, and its trades.
#[derive(Debug, Clone)]
pub struct Taken {
    pub arrival: u64,
    pub remaining: u64,
    pub trades: Vec<Trade>,
}

/// The book together with whether submissions are still taken.
#[derive(Debug, Clone)]
pub struct Sequencer {
    order_book: OrderBook,
    halted: bool,
}

impl Sequencer {
    /// The state of the book.
    pub closed spec fn book(&self) -> BookState {
        self.order_book@
    }

    /// Whether a write failed, so that no submission is taken any more.
    pub closed spec fn is_halted(&self) -> bool {
        self.halted
    }

    /// The book is well formed.
    pub closed spec fn wf(&self) -> bool {
        self.order_book.wf()
    }

    /// A sequencer that owns `order_book` and takes submissions.
    pub fn new(order_book: OrderBook) -> (sequencer: Self)
        requires
            order_book.wf(),
        ensures
            sequencer.wf(),
            sequencer.book() == order_book@,
            !sequencer.is_halted(),
    {
        Sequencer { order_book, halted: false }
    }

    /// Whether a write failed, so that no submission is taken any more.
    pub fn halted(&self) -> (halted: bool)
        ensures
            halted == self.is_halted(),
    {
        self.halted
    }

    /// The book.
    pub fn order_book(&self) -> (order_book: &OrderBook)
        ensures
            order_book@ == self.book(),
            self.wf() ==> order_book.wf(),
    {
        &self.order_book
    }

    /// Offers `order` to the book. After a failed write every order is
    /// refused; before that, an order is taken or refused as by
    /// `OrderBook::try_submit_limit_order`. A refused order leaves the book
    /// as it was.
    pub fn submit(&mut self, order: Order) -> (result: Result<Taken, SubmitError>)
        requires
            old(self).wf(),
        ensures
            final(self).wf(),
            final(self).is_halted() == old(self).is_halted(),
            final(self).book() == (if old(self).is_halted() {
                old(self).book()
            } else {
                offer_outcome(old(self).book(), order)
            }),
            match result {
                Ok(taken) => {
                    &&& !old(self).is_halted()
                    &&& refusal_of(old(self).book(), order).is_none()
                    &&& taken.arrival == old(self).book().next_sequence
                    &&& taken.remaining == submit_outcome(old(self).book(), order).remaining
                    &&& taken.trades@ == submit_outcome(old(self).book(), order).trades
                },
                Err(error) => if old(self).is_halted() {
                    error == SubmitError::Halted
                } else {
                    refusal_of(old(self).book(), order) == Some(error)
                },
            },
    {
        if self.halted {
            return Err(SubmitError::Halted);
        }
        let arrival = self.order_book.next_sequence();
        match self.order_book.try_submit_limit_order(order) {
            Ok((remaining, trades)) => Ok(Taken { arrival, remaining, trades }),
            Err(error) => Err(error),
        }
    }

    /// Says what follows attempt number `attempt`, counted from 1, to write
    /// the changes of the last taken submission, which ended with `outcome`.
    /// Where it says to give up, no further submission is taken. The book is
    /// not changed.
    pub fn after_write(&mut self, outcome: WriteOutcome, attempt: u8) -> (step: WriteStep)
        requires
            old(self).wf(),
        ensures
            step == write_step_of(outcome, attempt),
            final(self).wf(),
            final(self).book() == old(self).book(),
            final(self).is_halted() == (old(self).is_halted() || step == WriteStep::Halt),
    {
        let step = match outcome {
            WriteOutcome::Committed => WriteStep::Acknowledge,
            WriteOutcome::Transient => if attempt < WRITE_ATTEMPTS {
                WriteStep::Retry
            } else {
                WriteStep::Halt
            },
            WriteOutcome::Failed => WriteStep::Halt,
        };
        if let WriteStep::Halt = step {
            self.halted = true;
        }
        step
    }
}

} // verus!
