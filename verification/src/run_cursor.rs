//! A cursor that walks over a column run by run.

use vstd::prelude::*;
use crate::runs::{expand, lemma_expand_run, lemma_total_step, lemma_total_take, total};

verus! {

/// A place in a column of runs: the run the cursor is in, and how many of
/// that run's values are still ahead.
#[derive(Debug)]
pub struct RunCursor<'a> {
    runs: &'a [(u8, u32)],
    next: usize,
    value: u8,
    remaining: u32,
}

impl<'a> RunCursor<'a> {
    #[verifier::type_invariant]
    spec fn in_run(self) -> bool {
        &&& self.next <= self.runs@.len()
        &&& self.next == 0 ==> self.remaining == 0
        &&& self.next > 0 ==> self.remaining <= self.runs@[self.next - 1].1 && self.value
            == self.runs@[self.next - 1].0
    }

    /// The runs that the cursor walks over.
    pub closed spec fn runs(&self) -> Seq<(u8, u32)> {
        self.runs@
    }

    /// How many values the cursor has passed.
    pub closed spec fn position(&self) -> int {
        total(self.runs@.take(self.next as int)) - self.remaining
    }

    /// How many values of the current run are still ahead.
    pub closed spec fn remaining(&self) -> nat {
        self.remaining as nat
    }

    /// The value of the current run.
    pub closed spec fn value(&self) -> u8 {
        self.value
    }

    /// Whether the cursor stands inside its column: the values that are
    /// ahead in the current run are values of the column, from the cursor's
    /// position on, and each of them is the current value.
    pub open spec fn aligned(&self) -> bool {
        &&& 0 <= self.position()
        &&& self.position() + self.remaining() <= total(self.runs())
        &&& forall|k: int|
            self.position() <= k < self.position() + self.remaining() ==> #[trigger] expand(
                self.runs(),
            )[k] == self.value()
    }

    /// Whether the cursor has passed every value of its column.
    pub open spec fn exhausted(&self) -> bool {
        self.position() == total(self.runs()) && self.remaining() == 0
    }

    /// A cursor that stands in a run stands inside its column.
    proof fn lemma_aligned(self)
        requires
            self.in_run(),
        ensures
            self.aligned(),
    {
        let runs = self.runs@;
        lemma_total_take(runs, self.next as int);
        if self.next > 0 {
            let n = self.next - 1;
            lemma_total_step(runs, n);
            assert forall|k: int|
                self.position() <= k < self.position() + self.remaining() implies #[trigger] expand(
                runs,
            )[k] == self.value() by {
                lemma_expand_run(runs, n, k);
            }
        } else {
            assert(runs.take(0) =~= Seq::<(u8, u32)>::empty());
        }
    }

    /// A cursor before the first run of `runs`.
    pub fn new(runs: &'a [(u8, u32)]) -> (cursor: Self)
        ensures
            cursor.runs() == runs@,
            cursor.position() == 0,
            cursor.remaining() == 0,
            cursor.aligned(),
    {
        let cursor = RunCursor { runs, next: 0, value: 0, remaining: 0 };
        proof {
            assert(runs@.take(0) =~= Seq::<(u8, u32)>::empty());
            cursor.lemma_aligned();
        }
        cursor
    }

    /// Where nothing of the current run is ahead, moves into the next run
    /// that holds a value. Tells whether a value is ahead now: it is not when
    /// the cursor has passed every value of the column.
    pub fn advance(&mut self) -> (more: bool)
        ensures
            final(self).runs() == old(self).runs(),
            final(self).position() == old(self).position(),
            final(self).aligned(),
            more == (old(self).position() < total(old(self).runs())),
            more ==> final(self).remaining() >= 1,
            !more ==> final(self).exhausted(),
            old(self).remaining() > 0 ==> final(self).remaining() == old(self).remaining()
                && final(self).value() == old(self).value(),
    {
        proof {
            use_type_invariant(&*self);
            self.lemma_aligned();
        }
        while self.remaining == 0 && self.next < self.runs.len()
            invariant
                self.in_run(),
                self.runs@ == old(self).runs@,
                self.position() == old(self).position(),
                old(self).remaining > 0 ==> self.remaining == old(self).remaining && self.value
                    == old(self).value,
            decreases self.runs@.len() - self.next,
        {
            let (value, count) = self.runs[self.next];
            proof {
                lemma_total_step(self.runs@, self.next as int);
            }
            *self = RunCursor { runs: self.runs, next: self.next + 1, value, remaining: count };
        }
        proof {
            self.lemma_aligned();
            if self.remaining == 0 {
                assert(self.runs@.take(self.runs@.len() as int) =~= self.runs@);
            }
        }
        self.remaining > 0
    }

    /// The value of the current run and how many of its values are ahead.
    pub fn current(&self) -> (run: (u8, u32))
        ensures
            run.0 == self.value(),
            run.1 == self.remaining(),
            self.aligned(),
    {
        proof {
            use_type_invariant(self);
            self.lemma_aligned();
        }
        (self.value, self.remaining)
    }

    /// Passes `count` values of the current run.
    pub fn consume(&mut self, count: u32)
        requires
            count <= old(self).remaining(),
        ensures
            final(self).runs() == old(self).runs(),
            final(self).value() == old(self).value(),
            final(self).position() == old(self).position() + count,
            final(self).remaining() == old(self).remaining() - count,
            final(self).aligned(),
    {
        proof {
            use_type_invariant(&*self);
        }
        self.remaining = self.remaining - count;
        proof {
            self.lemma_aligned();
        }
    }
}

} // verus!
