//! A cron-style job scheduling library.
//!
//! - [`expr`] models the five per-field constraints of a cron expression:
//!   a unit's fixed bounds, and an interval that is either every value or an
//!   explicit sorted set.
//! - [`datetime`] is the calendar: minute-resolution instants with a
//!   validity invariant, day indices, weekdays, and the carry-propagating
//!   successor operations.
//! - [`entry`] holds job descriptors and the occurrence engine, which
//!   computes the earliest instant satisfying all five constraints — proved
//!   to skip no earlier satisfying instant.
//! - [`parser`] turns crontab lines into validated descriptors, reporting
//!   line-numbered errors as values.
//! - [`schedule`] keeps the registry of active jobs under synthetic
//!   identities and decides each worker cycle; the embedding process runs
//!   the workers and carries the advisory cancellation signals.

pub mod datetime;
pub mod entry;
pub mod expr;
pub mod parser;
pub mod schedule;
