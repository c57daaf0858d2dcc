use vstd::prelude::*;

pub mod scope;
pub mod semantics;
pub mod execute;
pub mod process;
pub mod parsers;
pub mod laws;

verus! {
} // verus!
