//! Per-repository issue counts, and the two bars that show them.
use crate::color::{color, new_color, Color};
use crate::display::MetricType;
use vstd::prelude::*;

verus! {

/// Counts of one repository's issues over one polling cycle.
pub struct IssueTally {
    /// Open issues.
    pub open: u32,
    /// Closed issues updated within the look-back span.
    pub closed: u32,
    /// Those closed issues whose pull request was merged.
    pub merged: u32,
    /// Open issues that have an assignee and no close date.
    pub assigned_open: u32,
}

/// One more, stopping at the largest count.
pub open spec fn bumped(n: u32) -> u32 {
    if n < u32::MAX {
        (n + 1) as u32
    } else {
        n
    }
}

fn bump(n: u32) -> (r: u32)
    ensures
        r == bumped(n),
{
    if n < u32::MAX {
        n + 1
    } else {
        n
    }
}

/// The colors of the state bar: open, closed unmerged, merged.
pub open spec fn state_colors() -> Seq<Color> {
    seq![color(0, 255, 0), color(0, 0, 255), color(191, 119, 246)]
}

/// The colors of the assignment bar: unassigned open, assigned open.
pub open spec fn assignment_colors() -> Seq<Color> {
    seq![color(12, 255, 12), color(2, 171, 46)]
}

impl IssueTally {
    /// Merged issues are among the closed ones, assigned open issues among the
    /// open ones.
    pub open spec fn wf(&self) -> bool {
        self.merged <= self.closed && self.assigned_open <= self.open
    }

    /// No issue counted yet.
    pub fn new() -> (t: IssueTally)
        ensures
            t.wf(),
            t.open == 0 && t.closed == 0 && t.merged == 0 && t.assigned_open == 0,
    {
        IssueTally { open: 0, closed: 0, merged: 0, assigned_open: 0 }
    }

    /// Counts an open issue; it counts as assigned when it has an assignee
    /// and no close date.
    pub fn record_open(&mut self, assigned: bool, has_close_date: bool)
        requires
            old(self).wf(),
        ensures
            final(self).wf(),
            final(self).open == bumped(old(self).open),
            final(self).assigned_open == if assigned && !has_close_date {
                bumped(old(self).assigned_open)
            } else {
                old(self).assigned_open
            },
            final(self).closed == old(self).closed,
            final(self).merged == old(self).merged,
    {
        self.open = bump(self.open);
        if assigned && !has_close_date {
            self.assigned_open = bump(self.assigned_open);
        }
    }

    /// Counts a closed issue, and whether its pull request was merged.
    pub fn record_closed(&mut self, merged: bool)
        requires
            old(self).wf(),
        ensures
            final(self).wf(),
            final(self).closed == bumped(old(self).closed),
            final(self).merged == if merged {
                bumped(old(self).merged)
            } else {
                old(self).merged
            },
            final(self).open == old(self).open,
            final(self).assigned_open == old(self).assigned_open,
    {
        self.closed = bump(self.closed);
        if merged {
            self.merged = bump(self.merged);
        }
    }

    /// The repository's two one-column bars: open, closed unmerged and merged
    /// issues; then unassigned and assigned open issues.
    pub fn metrics(&self) -> (r: Vec<MetricType>)
        requires
            self.wf(),
        ensures
            r@.len() == 2,
            r@[0] matches MetricType::ColumnRatio { width, values, colors } && width == 1
                && values@ == seq![self.open, (self.closed - self.merged) as u32, self.merged]
                && colors@ == state_colors(),
            r@[1] matches MetricType::ColumnRatio { width, values, colors } && width == 1
                && values@ == seq![(self.open - self.assigned_open) as u32, self.assigned_open]
                && colors@ == assignment_colors(),
    {
        let unmerged = self.closed - self.merged;
        let unassigned = self.open - self.assigned_open;
        let state = MetricType::ColumnRatio {
            width: 1,
            values: vec![self.open, unmerged, self.merged],
            colors: vec![new_color(0, 255, 0), new_color(0, 0, 255), new_color(191, 119, 246)],
        };
        let assignment = MetricType::ColumnRatio {
            width: 1,
            values: vec![unassigned, self.assigned_open],
            colors: vec![new_color(12, 255, 12), new_color(2, 171, 46)],
        };
        let r = vec![state, assignment];
        r
    }
}

} // verus!
