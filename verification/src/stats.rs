//! Statistics tracking: counters, gauges and bucket counters that change
//! as logs that trigger them are recorded.

pub mod buckets;
pub mod change;
pub mod config;
pub mod defn;
pub mod groups;
pub mod laws;
pub mod report;
pub mod stat;
pub mod tracker;

