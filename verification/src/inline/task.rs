//! Task-list markers.

use vstd::prelude::*;

verus! {

/// A task-list marker: `[ ]` unchecked, `[x]` or `[X]` checked.
#[derive(Copy, Clone, Debug, PartialEq, Eq, Structural)]
pub struct TaskMarker {
    pub checked: bool,
}

impl TaskMarker {
    pub fn new(checked: bool) -> (r: Self)
        ensures
            r.checked == checked,
    {
        TaskMarker { checked }
    }

    pub fn checked(self) -> (r: bool)
        ensures
            r == self.checked,
    {
        self.checked
    }
}

} // verus!
