//! A front end that turns a list of calls and skips into a [RandomReverser].
use crate::reversal::random_reverser::{same_but_filters, skipped_by, FilteredSkip, RandomReverser, SeedFilter};
use crate::util::lcg::{combined, java_lcg, LCG};
use vstd::prelude::*;

verus! {

/// A high-level wrapper for adding lattice bounds. Whether adding succeeds, and with which
/// error it fails, depends on the call alone; what it makes of the reverser it is handed is
/// named by [CallType::adds] and left to each implementation.
pub trait CallType {
    /// The number of generator calls it stands for.
    spec fn calls(&self) -> i64;

    /// What adding it gives: `Ok` or the error.
    spec fn add_result(&self) -> Result<(), ReversalError>;

    /// Adding it to the reverser `before` leaves the reverser `after`.
    spec fn adds(&self, before: RandomReverser, after: RandomReverser) -> bool;

    fn num_calls(&self) -> (n: i64)
        ensures
            n == self.calls(),
    ;

    fn add_to(&self, reverser: &mut RandomReverser) -> (r: Result<(), ReversalError>)
        ensures
            r == self.add_result(),
            self.adds(*old(reverser), *final(reverser)),
    ;
}

/// Converts `self` to a test used for filtering the resulting seeds. Whether the conversion
/// succeeds, and with which error it fails, depends on `self` alone.
pub trait AsFilterFn {
    /// The number of generator calls it stands for.
    spec fn calls(&self) -> i64;

    /// The conversion fails.
    spec fn filter_fails(&self) -> bool;

    /// The error the conversion fails with.
    spec fn filter_error(&self) -> ReversalError;

    fn num_calls(&self) -> (n: i64)
        ensures
            n == self.calls(),
    ;

    fn as_filter_fn(&self) -> (r: Result<Box<dyn SeedFilter>, ReversalError>)
        ensures
            r is Err <==> self.filter_fails(),
            r matches Err(e) ==> e == self.filter_error(),
    ;
}

/// Allows inverting `self`.
pub trait Invertible: Sized {
    fn invert(self) -> Box<Self>;
}

/// A generic error when processing a [CallType]/[FilterFn](AsFilterFn).
#[derive(Debug, PartialEq, Eq, Structural)]
pub enum ReversalError {
    RangeIsEmpty,
    TooSmallBound,
    MaxLowerThanMin,
    MinLessThanLowerBound,
    MaxGreaterThanUpperBound,
}

impl ReversalError {
    /// The name of the error, as its `Debug` form writes it.
    pub fn to_string(&self) -> (s: String)
        ensures
            s@ == match self {
                ReversalError::RangeIsEmpty => "RangeIsEmpty"@,
                ReversalError::TooSmallBound => "TooSmallBound"@,
                ReversalError::MaxLowerThanMin => "MaxLowerThanMin"@,
                ReversalError::MinLessThanLowerBound => "MinLessThanLowerBound"@,
                ReversalError::MaxGreaterThanUpperBound => "MaxGreaterThanUpperBound"@,
            },
    {
        match self {
            ReversalError::RangeIsEmpty => String::from_str("RangeIsEmpty"),
            ReversalError::TooSmallBound => String::from_str("TooSmallBound"),
            ReversalError::MaxLowerThanMin => String::from_str("MaxLowerThanMin"),
            ReversalError::MinLessThanLowerBound => String::from_str("MinLessThanLowerBound"),
            ReversalError::MaxGreaterThanUpperBound => String::from_str("MaxGreaterThanUpperBound"),
        }
    }
}

/// A high-level frontend for building the [RandomReverser].
pub struct DynamicProgram {
    pub random_reverser: RandomReverser,
    /// The calls skipped since the last added call.
    pub current_skip: i64,
    /// The calls made so far, added or skipped.
    pub current_index: i64,
}

impl DynamicProgram {
    /// Creates a new DynamicProgram with the given LCG.
    pub fn create(lcg: LCG) -> (p: DynamicProgram)
        requires
            lcg.wf(),
        ensures
            p.random_reverser.wf(),
            p.random_reverser.lcg == lcg,
            p.random_reverser.dimensions == 0,
            p.random_reverser.current_call_index == 0,
            p.random_reverser.filtered_skips@.len() == 0,
            p.current_skip == 0,
            p.current_index == 0,
    {
        DynamicProgram { random_reverser: RandomReverser::new(lcg), current_skip: 0, current_index: 0 }
    }

    /// Skips the given amount LCG calls.
    pub fn skip(&mut self, steps: i64)
        requires
            i64::MIN <= old(self).current_skip + steps <= i64::MAX,
            i64::MIN <= old(self).current_index + steps <= i64::MAX,
        ensures
            final(self).current_skip == old(self).current_skip + steps,
            final(self).current_index == old(self).current_index + steps,
            final(self).random_reverser == old(self).random_reverser,
    {
        self.current_skip = self.current_skip + steps;
        self.current_index = self.current_index + steps;
    }

    /// Adds a [CallType] to the lattice: the skipped calls are passed on to the reverser,
    /// then the call adds itself. On success the skip restarts at zero and the index moves
    /// past the call's calls (wrapping around `i64`); an error of the call is returned as it
    /// is, with the skip kept.
    pub fn add(&mut self, call: Box<dyn CallType>) -> (r: Result<(), ReversalError>)
        requires
            old(self).random_reverser.wf(),
            i64::MIN <= old(self).random_reverser.current_call_index + old(self).current_skip <= i64::MAX,
        ensures
            r == call.add_result(),
            exists|handed: RandomReverser|
                skipped_by(old(self).random_reverser, old(self).current_skip as int, handed) && #[trigger] call.adds(
                    handed,
                    final(self).random_reverser,
                ),
            r is Ok ==> final(self).current_skip == 0 && final(self).current_index == old(self).current_index.wrapping_add(
                call.calls(),
            ),
            r is Err ==> final(self).current_skip == old(self).current_skip && final(self).current_index == old(self).current_index,
    {
        let ghost before = self.random_reverser;
        self.random_reverser.add_unmeasured_seeds(self.current_skip);
        let ghost handed = self.random_reverser;
        let added = call.add_to(&mut self.random_reverser);
        proof {
            assert(skipped_by(before, self.current_skip as int, handed));
            assert(call.adds(handed, self.random_reverser));
        }
        if added.is_err() {
            return added;
        }
        let ghost after = self.random_reverser;
        self.current_skip = 0;
        self.current_index = self.current_index.wrapping_add(call.num_calls());
        proof {
            assert(self.random_reverser == after);
            assert(call.adds(handed, self.random_reverser));
        }
        added
    }

    /// Adds a [AsFilterFn] to the [RandomReverser]: its test runs on the state at the current
    /// index, and its calls are skipped. An error of the conversion is returned as it is, with
    /// nothing changed.
    pub fn add_filter(&mut self, call: Box<dyn AsFilterFn>) -> (r: Result<(), ReversalError>)
        requires
            old(self).random_reverser.wf(),
        ensures
            final(self).random_reverser.wf(),
            r is Err <==> call.filter_fails(),
            r matches Err(e) ==> e == call.filter_error(),
            r is Err ==> *final(self) == *old(self),
            r is Ok ==> final(self).random_reverser.filtered_skips.len() == old(self).random_reverser.filtered_skips.len() + 1
                && final(self).random_reverser.filtered_skips@.last().skip_lcg == combined(java_lcg(), old(self).current_index)
                && final(self).current_skip == old(self).current_skip.wrapping_add(call.calls())
                && final(self).current_index == old(self).current_index.wrapping_add(call.calls()),
    {
        let filter = match call.as_filter_fn() {
            Ok(f) => f,
            Err(e) => {
                return Err(e);
            },
        };
        self.add_boxed_filter_fn(filter, call.num_calls());
        Ok(())
    }

    /// Adds a custom seed filter to the [RandomReverser]: it runs on the state at the current
    /// index, and `steps` calls are skipped.
    pub fn add_filter_fn(&mut self, filter: Box<dyn SeedFilter>, steps: i64)
        requires
            old(self).random_reverser.wf(),
        ensures
            final(self).random_reverser.wf(),
            final(self).random_reverser.filtered_skips.len() == old(self).random_reverser.filtered_skips.len() + 1,
            forall|i: int|
                0 <= i < old(self).random_reverser.filtered_skips.len() ==> #[trigger] final(self).random_reverser.filtered_skips@[i]
                    == old(self).random_reverser.filtered_skips@[i],
            final(self).random_reverser.filtered_skips@.last().skip_lcg == combined(java_lcg(), old(self).current_index),
            same_but_filters(old(self).random_reverser, final(self).random_reverser),
            final(self).current_skip == old(self).current_skip.wrapping_add(steps),
            final(self).current_index == old(self).current_index.wrapping_add(steps),
    {
        self.add_boxed_filter_fn(filter, steps);
    }

    fn add_boxed_filter_fn(&mut self, filter: Box<dyn SeedFilter>, steps: i64)
        requires
            old(self).random_reverser.wf(),
        ensures
            final(self).random_reverser.wf(),
            final(self).random_reverser.filtered_skips.len() == old(self).random_reverser.filtered_skips.len() + 1,
            forall|i: int|
                0 <= i < old(self).random_reverser.filtered_skips.len() ==> #[trigger] final(self).random_reverser.filtered_skips@[i]
                    == old(self).random_reverser.filtered_skips@[i],
            final(self).random_reverser.filtered_skips@.last().skip_lcg == combined(java_lcg(), old(self).current_index),
            same_but_filters(old(self).random_reverser, final(self).random_reverser),
            final(self).current_skip == old(self).current_skip.wrapping_add(steps),
            final(self).current_index == old(self).current_index.wrapping_add(steps),
    {
        let skip = FilteredSkip::new(self.current_index, filter);
        self.random_reverser.add_filtered_skip(skip);
        self.current_skip = self.current_skip.wrapping_add(steps);
        self.current_index = self.current_index.wrapping_add(steps);
    }
}

} // verus!
