use vstd::prelude::*;

pub mod ids;
pub mod nav;
pub mod recovery;
pub mod rows;
pub mod seqs;
pub mod strip;
pub mod switcher;
pub mod text;
pub mod tray;

verus! {

} // verus!
