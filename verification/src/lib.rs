//! Library behind a local workflow tool for competitive programming:
//! a whitespace-tolerant output differ, planning and classification of
//! test fixtures, and the path bookkeeping around them.

pub mod config;
pub mod contest;
pub mod diff;
pub mod paths;
pub mod runner;
