//! Recurring collection schedules: compact bit sets, a cron-like recurrence
//! parser and compiler, a timestamp matcher, and a due-time ordered index of
//! subscriptions over an ordered key-value store.

pub mod bitset;
pub mod cron;
pub mod cron_spec;
pub mod due_key;
pub mod store;
pub mod due_queue;
