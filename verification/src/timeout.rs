//! When levels activate on their own: each level's timeout elapses at
//! a configured multiple of its index.

use vstd::prelude::*;

verus! {

/// A strategy assigning every level a deadline, in milliseconds after
/// the node starts, at which it activates if nothing activated it
/// earlier.
pub trait TimeoutStrategy {
    /// The deadline of a level, or `None` where it would not fit the
    /// clock's range.
    fn timeout_for(&self, level: usize) -> Option<u64>;
}

/// Level `l` activates `l * period` milliseconds after start.
#[derive(Clone, Debug)]
pub struct LinearTimeout {
    pub period: u64,
}

impl LinearTimeout {
    pub fn new(period: u64) -> (r: LinearTimeout)
        ensures
            r.period == period,
    {
        LinearTimeout { period }
    }

    /// The deadline of a level: `level * period`, or `None` where that
    /// would overflow the clock.
    pub fn level_timeout(&self, level: usize) -> (r: Option<u64>)
        ensures
            match r {
                Some(t) => t == level * self.period,
                None => level * self.period > u64::MAX,
            },
    {
        if self.period == 0 {
            return Some(0);
        }
        if level as u64 <= u64::MAX / self.period {
            proof {
                assert((level as u64) * self.period <= (u64::MAX / self.period) * self.period)
                    by (nonlinear_arith)
                    requires
                        level as u64 <= u64::MAX / self.period,
                        self.period > 0,
                ;
                assert((u64::MAX / self.period) * self.period <= u64::MAX) by (nonlinear_arith)
                    requires
                        self.period > 0,
                ;
            }
            Some((level as u64) * self.period)
        } else {
            proof {
                assert((level as u64) * self.period > u64::MAX) by (nonlinear_arith)
                    requires
                        level as u64 > u64::MAX / self.period,
                        self.period > 0,
                ;
            }
            None
        }
    }
}

impl TimeoutStrategy for LinearTimeout {
    fn timeout_for(&self, level: usize) -> Option<u64> {
        self.level_timeout(level)
    }
}

} // verus!
