//! A frecency engine for tracked directories: visit records ranked by a
//! time-decayed score, matched by ordered lowercase fragments, decayed
//! and pruned on maintenance, and persisted as bar-separated lines.
//! Ranks are fixed-point integers in hundredths of a visit, so every
//! rule of the engine is exact integer arithmetic.

pub mod clock;
pub mod codec;
pub mod maintain;
pub mod matcher;
pub mod query;
pub mod record;
pub mod scorer;
