//! Counts of components by status.
use vstd::prelude::*;
use crate::text::{decimal, push_decimal};

verus! {

/// A count of components grouped by their [`Status`](crate::Status) variant.
///
/// Produced by [`HealthRegistry::summary`](crate::HealthRegistry::summary).
/// Useful for emitting metrics or a one-line dashboard such as
/// `"3 ok, 1 degraded, 0 down, 0 unknown"`.
#[derive(Debug, Clone, Copy, PartialEq, Eq)]
pub struct Summary {
    pub ok: usize,
    pub degraded: usize,
    pub down: usize,
    pub unknown: usize,
}

impl Default for Summary {
    /// All counts zero.
    fn default() -> (r: Self)
        ensures
            r == (Summary { ok: 0, degraded: 0, down: 0, unknown: 0 }),
    {
        Summary { ok: 0, degraded: 0, down: 0, unknown: 0 }
    }
}

impl Summary {
    /// The sum of the four counts.
    pub open spec fn sum(self) -> int {
        self.ok + self.degraded + self.down + self.unknown
    }

    /// The one-line rendering `"<ok> ok, <degraded> degraded, <down> down, <unknown> unknown"`.
    pub open spec fn text(self) -> Seq<char> {
        decimal(self.ok as nat) + " ok, "@ + decimal(self.degraded as nat) + " degraded, "@
            + decimal(self.down as nat) + " down, "@ + decimal(self.unknown as nat)
            + " unknown"@
    }

    /// Total number of components counted.
    pub fn total(&self) -> (r: usize)
        requires
            self.sum() <= usize::MAX,
        ensures
            r == self.sum(),
    {
        self.ok + self.degraded + self.down + self.unknown
    }

    /// Renders the summary as `"3 ok, 1 degraded, 0 down, 0 unknown"`.
    pub fn to_string(&self) -> (r: String)
        ensures
            r@ == self.text(),
    {
        let mut s = String::new();
        push_decimal(&mut s, self.ok);
        s.append(" ok, ");
        push_decimal(&mut s, self.degraded);
        s.append(" degraded, ");
        push_decimal(&mut s, self.down);
        s.append(" down, ");
        push_decimal(&mut s, self.unknown);
        s.append(" unknown");
        proof {
            assert(s@ =~= self.text());
        }
        s
    }
}

} // verus!
