//! Verified solvers for a set of small log-analysis and string
//! puzzles: cyclic frequency calibration, identifier checksums and
//! near-pair search, rectangular fabric claims, a guard sleep-log
//! event reducer, and a polymer reaction.

pub mod text;
pub mod chronal;
pub mod polymer;
pub mod sleeplog;
pub mod inventory;
pub mod fabric;
