//! The small records that the tables and the automaton hold.

use vstd::prelude::*;

verus! {

/// The value that stands for no node and no timestamp.
pub const INVALID_ID: u32 = u32::MAX;

/// A half-open interval of timestamps.
#[derive(Clone, Copy, Debug, PartialEq, Eq, Structural)]
pub struct Interval {
    /// The first timestamp in the interval.
    pub start: u32,
    /// The first timestamp after the interval.
    pub end: u32,
}

impl Interval {
    /// Whether a timestamp lies in the interval.
    pub open spec fn holds(self, x: u32) -> bool {
        self.start <= x < self.end
    }

    /// Whether `x` lies in the interval.
    pub fn contains(&self, x: u32) -> (r: bool)
        ensures
            r == self.holds(x),
    {
        self.start <= x && x < self.end
    }
}

/// What one test of the last-token condition for a token reads.
#[derive(Clone, Copy, Debug, PartialEq, Eq, Structural)]
pub struct SearchEntry {
    /// The timestamps of the last tokens that the token may follow.
    pub valid: Interval,
    /// The byte length of the token.
    pub len: u16,
    /// The byte length of the token's successor, 0 for a single byte.
    pub suc_len: u16,
}

impl Default for SearchEntry {
    fn default() -> (r: Self)
        ensures
            r == (SearchEntry { valid: Interval { start: 0, end: 0 }, len: 0, suc_len: 0 }),
    {
        SearchEntry { valid: Interval { start: 0, end: 0 }, len: 0, suc_len: 0 }
    }
}

/// The payload of an automaton pattern: what the search needs to know of the longest token that
/// ends at a position.
///
/// A special token reuses the payload and is told apart by `dfs_in_tau == INVALID_ID`, which no
/// timestamp equals.
#[derive(Clone, Copy, Debug, PartialEq, Eq, Structural)]
pub struct StateEntry {
    /// The valid interval of the token, or the id of a special token.
    pub valid: Interval,
    /// The timestamp of the token, or `INVALID_ID` for a special token.
    pub dfs_in_tau: u32,
    /// The byte length of the pattern.
    pub len: u16,
    /// The byte length of the token's successor, 0 for a single byte.
    pub suc_len: u16,
}

impl StateEntry {
    /// The payload of the special token `id`, which is `len` bytes long.
    pub open spec fn of_special(id: u32, len: u16) -> StateEntry {
        StateEntry {
            valid: Interval { start: id, end: id },
            dfs_in_tau: INVALID_ID,
            len,
            suc_len: 0,
        }
    }

    /// Builds the payload of a special token, which carries its id in the otherwise unused
    /// interval.
    pub fn special(id: u32, len: u16) -> (r: Self)
        ensures
            r == StateEntry::of_special(id, len),
    {
        StateEntry {
            valid: Interval { start: id, end: id },
            dfs_in_tau: INVALID_ID,
            len,
            suc_len: 0,
        }
    }

    /// Whether the payload belongs to a special token.
    pub fn is_special(&self) -> (r: bool)
        ensures
            r == (self.dfs_in_tau == INVALID_ID),
    {
        self.dfs_in_tau == INVALID_ID
    }

    /// The id of a special token; meaningful only for the payload of one.
    pub fn special_id(&self) -> (r: u32)
        ensures
            r == self.valid.start,
            forall|id: u32, len: u16| *self == StateEntry::of_special(id, len) ==> r == id,
    {
        self.valid.start
    }
}

/// The rank and the byte length of the token with some timestamp.
#[derive(Clone, Copy, Debug, PartialEq, Eq, Structural)]
pub struct DfsEntry {
    pub rank: u32,
    pub len: u16,
}

impl Default for DfsEntry {
    fn default() -> (r: Self)
        ensures
            r == (DfsEntry { rank: 0, len: 0 }),
    {
        DfsEntry { rank: 0, len: 0 }
    }
}

} // verus!
