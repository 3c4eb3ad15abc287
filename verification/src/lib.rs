use vstd::prelude::*;

pub mod catalog;
pub mod netdata;
pub mod order;
pub mod text;

verus! {

} // verus!
