use vstd::prelude::*;

pub mod dashboard;
pub mod diskstats;
pub mod format;
pub mod history;
pub mod process;
pub mod search;
pub mod snapshot;
pub mod sorting;
pub mod tree;

verus! {

} // verus!
