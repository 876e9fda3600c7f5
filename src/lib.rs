use vstd::prelude::*;

pub mod labels;
pub mod present;
pub mod report;
pub mod text;
pub mod walk;

verus! {

} // verus!
