//! Mirror of a remote mod catalog into a local relational index: path
//! normalization of packed assets, package-entry selection inside zip
//! containers, and the decisions of the incremental sync and the local
//! rebuild, stated as store operations over a model of the store.
use vstd::prelude::*;

pub mod archive;
pub mod path;
pub mod reconcile;
pub mod store;
pub mod sync;

verus! {

} // verus!
