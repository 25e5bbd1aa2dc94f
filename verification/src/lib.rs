use vstd::prelude::*;

pub mod text;
pub mod plan;
pub mod dag;
pub mod tracks;
pub mod clock;
pub mod claim;
pub mod questions;
pub mod listing;
pub mod wrap;
pub mod edits;
pub mod json;
pub mod paths;
pub mod stats;
pub mod vcs;

verus! {

} // verus!
