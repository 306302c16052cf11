//! The actions of a recorded timeline.

use vstd::prelude::*;

verus! {

/// A recorded action.
#[derive(Clone, Debug, PartialEq, Eq)]
pub enum RecordedAction {
    Place { pos: [i32; 3], block: String },
    Remove { pos: [i32; 3] },
    Assert { pos: [i32; 3], block: String },
}

/// The actions recorded at one tick.
#[derive(Clone, Debug, Default, PartialEq, Eq)]
pub struct TimelineStep {
    pub tick: u32,
    pub actions: Vec<RecordedAction>,
}

} // verus!
