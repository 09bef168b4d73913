//! Which rows of a terminal a frame draws.
use crate::terminal::FrameSnapshot;
use std::ops::Range;
use std::sync::Arc;
use vstd::prelude::*;

verus! {

/// Where a view of history stands.
#[derive(Clone, Copy, Debug, PartialEq, Eq, Structural)]
pub enum ScrollMode {
    FollowTail,
    Anchored { line_id: u64, cell_offset: u32 },
}

#[derive(Debug, PartialEq, Eq)]
pub struct RenderPlan {
    pub generation: u64,
    pub visible_rows: Range<u16>,
    pub glyph_instances_upper_bound: usize,
}

impl Clone for RenderPlan {
    fn clone(&self) -> (plan: Self)
        ensures
            plan == *self,
    {
        RenderPlan {
            generation: self.generation,
            visible_rows: self.visible_rows.start..self.visible_rows.end,
            glyph_instances_upper_bound: self.glyph_instances_upper_bound,
        }
    }
}

#[derive(Clone, Copy, Debug)]
pub struct ViewportPlanner {
    overscan_rows: u16,
}

/// The rows that are planned: those of the viewport, and up to `overscan` more
/// on either side, as far as the snapshot reaches.
pub open spec fn planned_rows(first: int, viewport: int, overscan: int, rows: int) -> (int, int) {
    let start = if first >= overscan {
        first - overscan
    } else {
        0
    };
    let wanted = first + viewport + overscan;
    let below = if wanted <= u16::MAX {
        wanted
    } else {
        u16::MAX as int
    };
    (start, if below <= rows {
        below
    } else {
        rows
    })
}

pub open spec fn plans(
    plan: RenderPlan,
    snapshot: FrameSnapshot,
    first: u16,
    viewport: u16,
    overscan: u16,
) -> bool {
    let (start, end) = planned_rows(
        first as int,
        viewport as int,
        overscan as int,
        snapshot.rows as int,
    );
    &&& plan.generation == snapshot.generation
    &&& plan.visible_rows.start == start
    &&& plan.visible_rows.end == end
    &&& plan.glyph_instances_upper_bound == if end > start {
        (end - start) * snapshot.cols
    } else {
        0
    }
}

impl ViewportPlanner {
    pub closed spec fn overscan(self) -> u16 {
        self.overscan_rows
    }

    pub fn new(overscan_rows: u16) -> (planner: Self)
        ensures
            planner.overscan() == overscan_rows,
    {
        ViewportPlanner { overscan_rows }
    }

    pub fn plan(self, snapshot: &FrameSnapshot, first_visible_row: u16, viewport_rows: u16) -> (plan:
        RenderPlan)
        ensures
            plans(plan, *snapshot, first_visible_row, viewport_rows, self.overscan()),
    {
        let start: u16 = if first_visible_row >= self.overscan_rows {
            first_visible_row - self.overscan_rows
        } else {
            0
        };
        let wanted: u32 = first_visible_row as u32 + viewport_rows as u32
            + self.overscan_rows as u32;
        let below: u16 = if wanted <= u16::MAX as u32 {
            wanted as u16
        } else {
            u16::MAX
        };
        let end: u16 = if below <= snapshot.rows {
            below
        } else {
            snapshot.rows
        };
        let count: u32 = if end > start {
            end as u32 - start as u32
        } else {
            0
        };
        assert(count * snapshot.cols <= u32::MAX) by (nonlinear_arith)
            requires
                count <= 0xffff,
                snapshot.cols <= 0xffff,
        ;
        RenderPlan {
            generation: snapshot.generation,
            visible_rows: start..end,
            glyph_instances_upper_bound: (count * snapshot.cols as u32) as usize,
        }
    }
}

impl Default for ViewportPlanner {
    fn default() -> (planner: Self)
        ensures
            planner.overscan() == 2,
    {
        ViewportPlanner { overscan_rows: 2 }
    }
}

#[derive(Clone, Debug)]
pub struct TerminalSurfaceFrame {
    pub snapshot: Arc<FrameSnapshot>,
    pub plan: RenderPlan,
    pub generation_changed: bool,
}

/// The newest snapshot that a renderer has been given.
#[derive(Clone, Debug)]
pub struct TerminalSurfaceModel {
    latest: Option<Arc<FrameSnapshot>>,
    last_prepared_generation: Option<u64>,
    planner: ViewportPlanner,
}

impl Default for TerminalSurfaceModel {
    fn default() -> (surface: Self)
        ensures
            surface.latest() is None,
            surface.last_prepared() is None,
            surface.overscan() == 2,
    {
        TerminalSurfaceModel {
            latest: None,
            last_prepared_generation: None,
            planner: ViewportPlanner::default(),
        }
    }
}

/// A snapshot of a generation is newer than the one that there is, if any.
pub open spec fn is_newer(latest: Option<Arc<FrameSnapshot>>, generation: u64) -> bool {
    latest matches Some(current) ==> generation > current.generation
}

/// A frame of a generation shows something else than the last frame.
pub open spec fn shows_change(last_prepared: Option<u64>, generation: u64) -> bool {
    last_prepared != Some(generation)
}

impl TerminalSurfaceModel {
    /// The snapshot that frames are drawn from.
    pub closed spec fn latest(self) -> Option<Arc<FrameSnapshot>> {
        self.latest
    }

    /// The generation of the last frame.
    pub closed spec fn last_prepared(self) -> Option<u64> {
        self.last_prepared_generation
    }

    pub closed spec fn overscan(self) -> u16 {
        self.planner.overscan()
    }

    /// Takes a newer snapshot. One that is not newer is ignored, so that a
    /// late frame cannot take the terminal back.
    pub fn submit_snapshot(&mut self, snapshot: Arc<FrameSnapshot>) -> (taken: bool)
        ensures
            taken == (old(self).latest() matches Some(current) ==> snapshot.generation
                > current.generation),
            taken == is_newer(old(self).latest(), snapshot.generation),
            final(self).latest() == if taken {
                Some(snapshot)
            } else {
                old(self).latest()
            },
            old(self).latest() matches Some(current) ==> (final(self).latest() matches Some(newest)
                && newest.generation >= current.generation),
            final(self).last_prepared() == old(self).last_prepared(),
            final(self).overscan() == old(self).overscan(),
    {
        let stale = match &self.latest {
            Some(current) => snapshot.generation <= current.generation,
            None => false,
        };
        if stale {
            return false;
        }
        self.latest = Some(snapshot);
        true
    }

    pub fn latest_snapshot(&self) -> (snapshot: Option<&Arc<FrameSnapshot>>)
        ensures
            match snapshot {
                Some(snapshot) => self.latest() == Some(*snapshot),
                None => self.latest() is None,
            },
    {
        match &self.latest {
            Some(snapshot) => Some(snapshot),
            None => None,
        }
    }

    /// Plans a frame of the newest snapshot and says whether it shows another
    /// generation than the last one.
    pub fn prepare_frame(&mut self, first_visible_row: u16, viewport_rows: u16) -> (frame: Option<
        TerminalSurfaceFrame,
    >)
        ensures
            final(self).latest() == old(self).latest(),
            final(self).overscan() == old(self).overscan(),
            match (old(self).latest(), frame) {
                (None, frame) => frame is None && final(self).last_prepared() == old(
                    self,
                ).last_prepared(),
                (Some(snapshot), Some(frame)) => {
                    &&& frame.snapshot == snapshot
                    &&& frame.generation_changed == (old(self).last_prepared() != Some(
                        snapshot.generation,
                    ))
                    &&& frame.generation_changed == shows_change(
                        old(self).last_prepared(),
                        snapshot.generation,
                    )
                    &&& final(self).last_prepared() == Some(snapshot.generation)
                    &&& plans(
                        frame.plan,
                        *snapshot,
                        first_visible_row,
                        viewport_rows,
                        old(self).overscan(),
                    )
                },
                (Some(_), None) => false,
            },
    {
        let snapshot = match &self.latest {
            Some(snapshot) => snapshot.clone(),
            None => {
                return None;
            },
        };
        let generation: u64 = snapshot.generation;
        let generation_changed = match self.last_prepared_generation {
            Some(last) => last != generation,
            None => true,
        };
        self.last_prepared_generation = Some(generation);
        let plan = self.planner.plan(&snapshot, first_visible_row, viewport_rows);
        Some(TerminalSurfaceFrame { snapshot, plan, generation_changed })
    }
}

/// The viewport is always part of the plan as far as the snapshot has rows for
/// it, and the plan stays within the snapshot.
pub proof fn law_plan_covers_viewport(
    plan: RenderPlan,
    snapshot: FrameSnapshot,
    first: u16,
    viewport: u16,
    overscan: u16,
    row: u16,
)
    requires
        plans(plan, snapshot, first, viewport, overscan),
        first <= row < first + viewport,
        row < snapshot.rows,
    ensures
        plan.visible_rows.start <= row < plan.visible_rows.end <= snapshot.rows,
{
}

/// The rows that are planned are those of the viewport and of the overscan on
/// either side of it, as far as the snapshot has them, and no others; every
/// cell of them may show a glyph.
pub proof fn law_plan_is_the_viewport_and_the_overscan(
    plan: RenderPlan,
    snapshot: FrameSnapshot,
    first: u16,
    viewport: u16,
    overscan: u16,
    row: u16,
)
    requires
        plans(plan, snapshot, first, viewport, overscan),
        first + viewport + overscan <= u16::MAX,
    ensures
        plan.visible_rows.start <= row < plan.visible_rows.end <==> row < snapshot.rows && first
            - overscan <= row < first + viewport + overscan,
        plan.visible_rows.start <= plan.visible_rows.end ==> plan.glyph_instances_upper_bound == (
        plan.visible_rows.end - plan.visible_rows.start) * snapshot.cols,
        plan.generation == snapshot.generation,
{
    if plan.visible_rows.start == plan.visible_rows.end {
        assert((plan.visible_rows.end - plan.visible_rows.start) * snapshot.cols == 0)
            by (nonlinear_arith)
            requires
                plan.visible_rows.start == plan.visible_rows.end,
        ;
    }
}

/// The terminal never goes back: of two snapshots the one of the later
/// generation stays, in whichever order they come, and the same one is not
/// taken twice.
pub proof fn law_terminal_never_goes_back(
    latest: Option<Arc<FrameSnapshot>>,
    snapshot: Arc<FrameSnapshot>,
    other: u64,
)
    ensures
        is_newer(None, other),
        is_newer(Some(snapshot), other) <==> other >= snapshot.generation + 1,
        is_newer(latest, snapshot.generation) && is_newer(Some(snapshot), other) ==> is_newer(
            latest,
            other,
        ),
        !is_newer(Some(snapshot), snapshot.generation),
{
}

/// A frame shows a change unless the last one was of the same generation.
pub proof fn law_same_generation_shows_no_change(one: u64, other: u64)
    ensures
        shows_change(None, one),
        shows_change(Some(one), other) <==> one != other,
{
}

} // verus!
