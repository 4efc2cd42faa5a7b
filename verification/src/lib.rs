//! Aggregation of weather-station measurements (`name;temperature` lines):
//! word-at-a-time scanning, an open-addressing station table, merging of
//! per-worker tables and the `{name=min/mean/max, ...}` report.

use vstd::prelude::*;

pub mod word;
pub mod number;
pub mod input;
pub mod stats;
pub mod key;
pub mod table;
pub mod segment;
pub mod format;
pub mod merge;
pub mod order;
pub mod report;
pub mod listing;
pub mod worker;
pub mod mapped;
pub mod validate;
