//! A work-hours log: clock-time arithmetic in hundredths of an hour, dated
//! entries ordered newest first, and the line-oriented text logs that keep
//! them.

pub mod calendar;
pub mod decimal;
pub mod entry;
pub mod order;
pub mod round_trip;
pub mod store;
pub mod table;
pub mod text;
pub mod time;
pub mod tracker;
