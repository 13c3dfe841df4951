//! Two ways to reduce a list of `Result`s: `foldr` stops at the first
//! failure, `foldr_bisect` sorts every outcome into successes or failures.
//! Both hand out references into the list and leave it as it was.
//!
//! `model` says what the reductions are, over sequences; `fold` holds the
//! two traits and their verified implementations for `Vec`; `laws` proves
//! what follows for every list.

pub mod error;
pub mod fold;
pub mod laws;
pub mod model;

pub use error::StaticStringError;
pub use fold::VecFoldResult;
pub use fold::VecFoldResultBisect;
