use vstd::prelude::*;

pub mod text;
pub mod fence;
pub mod wrap;
pub mod format;
pub mod args;
pub mod template;

verus! {

} // verus!
