//! Aggregation of security-event logs for a dashboard.
//!
//! The library picks the log files of a directory listing that were modified
//! recently ([`selection`]), counts the recent rows of each file by priority,
//! source, destination and half-day of AWARE events ([`records`],
//! [`aggregate`]), folds the counts of all files into totals ([`global`]),
//! and lays the totals out as two documents ([`ranking`], [`report`]).
//!
//! Reading the clock, the directory and the files, and writing the documents
//! out, is left to the caller.

pub mod aggregate;
pub mod counts;
pub mod global;
pub mod ranking;
pub mod records;
pub mod report;
pub mod selection;
pub mod text;
pub mod timestamp;
