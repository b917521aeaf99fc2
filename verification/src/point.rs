//! The executable point type threaded through the pipeline stages.

use vstd::prelude::*;
use crate::model::{pt_valid, PPoint, Q, LAST_MINUTE};
use crate::rat::Rat;

verus! {

/// One pipeline datum: a minute of day, a chart x coordinate, and the
/// photovoltaic value being reshaped.
#[derive(Clone, Copy, PartialEq, Eq, Structural, Debug)]
pub struct PlotData {
    pub minutes: u32,
    pub x: Rat,
    pub pv: Rat,
}

impl View for PlotData {
    type V = PPoint;

    open spec fn view(&self) -> PPoint {
        PPoint { minute: self.minutes as int, x: self.x@, pv: self.pv@ }
    }
}

/// The model sequence of a sequence of points.
pub open spec fn pts(s: Seq<PlotData>) -> Seq<PPoint> {
    Seq::new(s.len(), |i: int| s[i]@)
}

impl PlotData {
    pub open spec fn wf(self) -> bool {
        pt_valid(self@)
    }

    pub fn new(minutes: u32, x: Rat, pv: Rat) -> (r: PlotData)
        requires
            minutes <= LAST_MINUTE,
            x.wf(),
            pv.wf(),
        ensures
            r@ == (PPoint { minute: minutes as int, x: x@, pv: pv@ }),
            r.wf(),
    {
        PlotData { minutes, x, pv }
    }
}

} // verus!
