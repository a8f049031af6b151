use vstd::prelude::*;

pub mod bounce;
pub mod hits;

verus! {

} // verus!
