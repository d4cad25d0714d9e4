//! Operational-transform core for structured rich text: a document model,
//! operations over it, and the algebra that applies, composes and
//! normalizes those operations.

pub mod add_del_laws;
pub mod add_laws;
pub mod apply;
pub mod caret;
pub mod coalesce;
pub mod compose;
pub mod compose_laws;
pub mod doc;
pub mod laws;
pub mod native;
pub mod normalize;
pub mod parse;
pub mod place;
pub mod random;
pub mod stepper;
pub mod units;
pub mod walkers;
pub mod writer;
