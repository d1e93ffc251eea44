//! Evaluation engine for opening-hours rule sets.
//!
//! - `range`: interval algebra (union, intersection, wrapping containment,
//!   comparison against a point).
//! - `schedule`: the state of each minute of one day, overlay of schedules
//!   and their filled form as consecutive ranges.
//! - `combine`: the rules of a sequence combined, by their operators, into
//!   the schedule of one date.
//! - `timeline`: a cursor that walks the days and yields one dated interval
//!   per run of one state, and the queries built on it.
pub mod range;
pub mod schedule;
pub mod combine;
pub mod timeline;
