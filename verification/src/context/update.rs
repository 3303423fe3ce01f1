//! Delivery of state that was produced outside a traversal.

use vstd::prelude::*;
use crate::state::AppState;

verus! {

/// What a node is handed while it applies a payload.
pub struct UpdateCx {
    pub app: AppState,
}

impl UpdateCx {
    pub open spec fn wf(&self) -> bool {
        self.app.wf()
    }

    pub fn new(app: AppState) -> (cx: UpdateCx)
        requires
            app.wf(),
        ensures
            cx.wf(),
            cx.app == app,
    {
        UpdateCx { app }
    }
}

} // verus!
