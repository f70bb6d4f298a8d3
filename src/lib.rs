use vstd::prelude::*;

pub mod eval;
pub mod tree;
pub mod value;

verus! {

} // verus!
