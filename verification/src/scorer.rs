//! Time-decayed relevance scoring.
//!
//! Frecency is the rank weighted by a step function of the record's age.
//! The weights four, two, one half and one quarter are carried exactly by
//! reporting the score in quarter rank units: sixteen, eight, two and one
//! quarters. Scores are only ever compared with one another, so the common
//! factor of four does not matter.

use vstd::prelude::*;
use crate::record::History;
use crate::record::HistoryModel;

verus! {

pub const HOUR: u64 = 3600;

pub const DAY: u64 = 86400;

pub const WEEK: u64 = 604800;

/// Which key a query orders by.
#[derive(Clone, Copy)]
pub enum SortBy {
    Frecent,
    Time,
    Rank,
}

/// The age of a record at time `now`, clamped to zero when the recorded
/// time lies in the future (clock skew must not wrap around).
pub open spec fn age_of(time: int, now: int) -> int {
    if now >= time {
        now - time
    } else {
        0
    }
}

/// The frecency of a rank at a given age, in quarter rank units:
/// sixteen within an hour, eight within a day, two within a week,
/// one beyond a week.
pub open spec fn frecency(rank: int, age: int) -> int {
    if age < HOUR {
        rank * 16
    } else if age < DAY {
        rank * 8
    } else if age < WEEK {
        rank * 2
    } else {
        rank * 1
    }
}

/// The key a record is ordered by under a given sort mode.
pub open spec fn sort_key(m: HistoryModel, sort: SortBy, now: int) -> int {
    match sort {
        SortBy::Rank => m.rank,
        SortBy::Time => m.time,
        SortBy::Frecent => frecency(m.rank, age_of(m.time, now)),
    }
}

impl History {
    /// The frecency score of this record at `current_time`, in quarter
    /// rank units.
    pub fn frecent(&self, current_time: u64) -> (score: u128)
        ensures
            score == frecency(self@.rank, age_of(self@.time, current_time as int)),
    {
        let age: u64 = if current_time >= self.time {
            current_time - self.time
        } else {
            0
        };
        let rank = self.rank as u128;
        if age < HOUR {
            rank * 16
        } else if age < DAY {
            rank * 8
        } else if age < WEEK {
            rank * 2
        } else {
            rank
        }
    }

    /// The sort key of this record under `sort` at `current_time`.
    pub fn get_sort(&self, sort: SortBy, current_time: u64) -> (key: u128)
        ensures
            key == sort_key(self@, sort, current_time as int),
    {
        match sort {
            SortBy::Rank => self.rank as u128,
            SortBy::Time => self.time as u128,
            SortBy::Frecent => self.frecent(current_time),
        }
    }
}

/// Frecency never increases as a record ages: as the age crosses the hour,
/// day and week boundaries the weight only falls.
pub proof fn lemma_frecency_monotone(rank: int, age1: int, age2: int)
    requires
        0 <= rank,
        0 <= age1 <= age2,
    ensures
        frecency(rank, age1) >= frecency(rank, age2),
{
}

} // verus!

