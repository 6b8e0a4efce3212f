//! Lazy adapters that collapse runs of consecutive equal elements of a
//! sequential source, keeping the first element of each run.
//!
//! A source is anything that implements [`Source`]: it is pulled from one
//! element at a time and says, as a sequence, what it has yet to hand out.
//! The three adapters wrap a source and are sources themselves, so they
//! compose:
//!
//! * [`Dedup`] drops an element that equals the one emitted before it;
//! * [`DedupBy`] drops an element that a supplied test judges to be the same
//!   as the one emitted before it;
//! * [`DedupByKey`] drops an element whose key equals the key of the one
//!   emitted before it.
//!
//! An element is always judged against the last *emitted* element, never
//! against a dropped one. What an adapter emits is defined once, in
//! [`runs`], and the laws of that definition are proved there.

pub mod runs;
pub mod source;
pub mod dedup;
pub mod dedup_by;
pub mod dedup_by_key;

pub use crate::dedup::{Dedup, DedupAdapter};
pub use crate::dedup_by::{DedupBy, DedupByAdapter};
pub use crate::dedup_by_key::{DedupByKey, DedupByKeyAdapter};
pub use crate::source::{SliceSource, Source, VecSource};
