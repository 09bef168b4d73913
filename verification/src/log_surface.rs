//! A view of a log: which page it shows, where it stands in it and which pages
//! and layouts it asks for.
use crate::log_reflow::{
    anchored_at, find_row, law_row_start_anchors_row, lemma_logical_below, line_index, page_fault,
    reflow_key, unbroken, valid_page, validate_page, LayoutModel, LogPage, LogReflowLayout,
    LogReflowRequest, LogSourceId, LogSurfaceError, LogVisualRow, ReflowKey, MAX_LOG_PAGE_ROWS,
    MAX_LOG_REFLOW_ROWS,
};
use crate::surface::ScrollMode;
use std::ops::Range;
use std::sync::Arc;
use vstd::prelude::*;

verus! {

#[derive(Clone, Copy, Debug, PartialEq, Eq, Structural)]
pub struct LogPageRequest {
    pub source_id: LogSourceId,
    pub follow_tail: bool,
    pub anchor_line_id: u64,
    pub cell_offset: u32,
    pub rows_before: u16,
    pub rows_after: u16,
}

#[derive(Clone, Copy, Debug, PartialEq, Eq, Structural)]
pub struct LogScrollbarState {
    pub top_line_id: u64,
    pub total_line_count: u64,
    pub viewport_rows: u16,
    pub follow_tail: bool,
}

#[derive(Debug)]
pub struct LogSurfaceFrame {
    pub page: Arc<LogPage>,
    pub visual_rows: Arc<Vec<LogVisualRow>>,
    pub layout_columns: u16,
    pub visible_rows: Range<usize>,
    /// The row of `visible_rows` that is the first one on the screen; those
    /// before it lie above.
    pub first_viewport_row: usize,
    pub cell_offset: u32,
    pub new_lines_available: u64,
}

#[derive(Clone, Debug)]
pub struct LogSurfaceModel {
    page: Option<Arc<LogPage>>,
    layout: Option<LogReflowLayout>,
    mode: ScrollMode,
    overscan_rows: u16,
    new_lines_available: u64,
    desired_columns: Option<u16>,
    pending_reflow: Option<ReflowKey>,
    failed_reflow: Option<ReflowKey>,
    pending_scroll_rows: i32,
    last_viewport_rows: u16,
    pending_page_anchor: Option<(u64, u32)>,
    page_request_dirty: bool,
    last_page_request: Option<LogPageRequest>,
}

/// The state of a view.
#[verifier::ext_equal]
pub struct SurfaceState {
    /// The newest page.
    pub page: Option<LogPage>,
    /// What is drawn; it may still show an older page.
    pub layout: Option<LayoutModel>,
    pub mode: ScrollMode,
    pub overscan: u16,
    pub new_lines: u64,
    pub desired_columns: Option<u16>,
    pub pending_reflow: Option<ReflowKey>,
    pub failed_reflow: Option<ReflowKey>,
    /// Rows to scroll as soon as the next layout is there.
    pub pending_scroll: i32,
    pub last_viewport: u16,
    /// A line to go to as soon as its page and layout are there.
    pub pending_anchor: Option<(u64, u32)>,
    pub request_dirty: bool,
    pub last_request: Option<LogPageRequest>,
}

impl View for LogSurfaceModel {
    type V = SurfaceState;

    closed spec fn view(&self) -> SurfaceState {
        SurfaceState {
            page: match self.page {
                Some(page) => Some(*page),
                None => None,
            },
            layout: match self.layout {
                Some(layout) => Some(layout@),
                None => None,
            },
            mode: self.mode,
            overscan: self.overscan_rows,
            new_lines: self.new_lines_available,
            desired_columns: self.desired_columns,
            pending_reflow: self.pending_reflow,
            failed_reflow: self.failed_reflow,
            pending_scroll: self.pending_scroll_rows,
            last_viewport: self.last_viewport_rows,
            pending_anchor: self.pending_page_anchor,
            request_dirty: self.page_request_dirty,
            last_request: self.last_page_request,
        }
    }
}

pub open spec fn at_least_zero(number: int) -> int {
    if number >= 0 {
        number
    } else {
        0
    }
}

pub open spec fn lesser(left: int, right: int) -> int {
    if left <= right {
        left
    } else {
        right
    }
}

/// The wider of a width and one column.
pub open spec fn some_width(columns: u16) -> u16 {
    if columns == 0 {
        1
    } else {
        columns
    }
}

impl SurfaceState {
    pub open spec fn wf(self) -> bool {
        &&& self.page matches Some(page) ==> valid_page(page)
        &&& self.layout matches Some(layout) ==> layout.wf()
        &&& self.page is Some <==> self.layout is Some
    }

    pub open spec fn empty(overscan: u16) -> Self {
        SurfaceState {
            page: None,
            layout: None,
            mode: ScrollMode::FollowTail,
            overscan,
            new_lines: 0,
            desired_columns: None,
            pending_reflow: None,
            failed_reflow: None,
            pending_scroll: 0,
            last_viewport: 0,
            pending_anchor: None,
            request_dirty: false,
            last_request: None,
        }
    }

    pub open spec fn following_tail(self) -> Self {
        SurfaceState {
            request_dirty: self.request_dirty || self.mode != ScrollMode::FollowTail
                || self.pending_anchor is Some,
            mode: ScrollMode::FollowTail,
            new_lines: 0,
            pending_scroll: 0,
            pending_anchor: None,
            ..self
        }
    }

    pub open spec fn anchored(self, line_id: u64, cell_offset: u32) -> Self {
        SurfaceState {
            request_dirty: self.request_dirty || self.mode == ScrollMode::FollowTail
                || self.pending_anchor is Some,
            mode: ScrollMode::Anchored { line_id, cell_offset },
            new_lines: 0,
            pending_scroll: 0,
            pending_anchor: None,
            ..self
        }
    }

    /// The line that a jump goes to: the nearest one that there is.
    pub open spec fn jump_target(self, line_id: u64) -> u64 {
        let total = self.page->0.total_line_count;
        if line_id < 1 {
            1
        } else if line_id > total {
            total
        } else {
            line_id
        }
    }

    /// A line on the drawn page is shown at once; any other one is asked for
    /// first.
    pub open spec fn jumped(self, line_id: u64, cell_offset: u32) -> (Self, bool) {
        if self.page is None || self.page->0.total_line_count == 0 {
            (self, false)
        } else {
            let line = self.jump_target(line_id);
            if self.layout matches Some(layout) && layout.anchor_row(line, cell_offset) is Some {
                (self.anchored(line, cell_offset), true)
            } else {
                (
                    SurfaceState {
                        pending_anchor: Some((line, cell_offset)),
                        pending_scroll: 0,
                        request_dirty: true,
                        ..self
                    },
                    true,
                )
            }
        }
    }

    /// The view stands on a row of the drawn layout.
    pub open spec fn standing_on(self, at: int) -> Self {
        let layout = self.layout->0;
        SurfaceState {
            request_dirty: self.request_dirty || self.mode == ScrollMode::FollowTail,
            mode: ScrollMode::Anchored {
                line_id: layout.page.rows@[layout.rows[at].logical_row_index as int].line_id,
                cell_offset: layout.rows[at].start_cell,
            },
            new_lines: 0,
            ..self
        }
    }

    /// The row of the drawn layout at the top of the screen.
    pub open spec fn top_row(self, viewport: u16) -> Option<int> {
        let layout = self.layout->0;
        match self.mode {
            ScrollMode::FollowTail => Some(at_least_zero(layout.rows.len() - viewport)),
            ScrollMode::Anchored { line_id, cell_offset } => layout.anchor_row(
                line_id,
                cell_offset,
            ),
        }
    }

    /// Moves the top of the screen by rows of the screen. What goes beyond the
    /// drawn page is kept until more of the log is there.
    pub open spec fn scrolled(self, delta: i32, viewport: u16) -> (Self, bool) {
        let entered = SurfaceState { last_viewport: viewport, pending_anchor: None, ..self };
        if delta == 0 || self.layout is None || self.layout->0.rows.len() == 0 {
            (entered, false)
        } else {
            let layout = self.layout->0;
            let count = layout.rows.len() as int;
            let target = match self.top_row(viewport) {
                Some(row) => row,
                None => 0,
            } + delta;
            if target < 0 {
                (
                    SurfaceState {
                        pending_scroll: if layout.page.has_before {
                            target as i32
                        } else {
                            0
                        },
                        ..entered.standing_on(0)
                    },
                    true,
                )
            } else if target >= count && layout.page.has_after {
                (
                    SurfaceState {
                        pending_scroll: lesser(target - (count - 1), i32::MAX as int) as i32,
                        ..entered.standing_on(count - 1)
                    },
                    true,
                )
            } else if !layout.page.has_after && target + viewport >= count {
                (entered.following_tail(), true)
            } else {
                (SurfaceState { pending_scroll: 0, ..entered.standing_on(target) }, true)
            }
        }
    }

    /// Where the view stands among all the lines.
    pub open spec fn scrollbar(self, viewport: u16) -> Option<LogScrollbarState> {
        match self.layout {
            None => None,
            Some(layout) => match self.mode {
                ScrollMode::FollowTail => Some(
                    LogScrollbarState {
                        top_line_id: layout.page.total_line_count,
                        total_line_count: self.page->0.total_line_count,
                        viewport_rows: viewport,
                        follow_tail: true,
                    },
                ),
                ScrollMode::Anchored { line_id, cell_offset } => if layout.anchor_row(
                    line_id,
                    cell_offset,
                ) is Some {
                    Some(
                        LogScrollbarState {
                            top_line_id: line_id,
                            total_line_count: self.page->0.total_line_count,
                            viewport_rows: viewport,
                            follow_tail: false,
                        },
                    )
                } else {
                    None
                },
            },
        }
    }

    /// The frame draws the rows on the screen, and up to the overscan on either
    /// side.
    pub open spec fn frames(self, viewport: u16, frame: Option<LogSurfaceFrame>) -> bool {
        match self.layout {
            None => frame is None,
            Some(layout) => match self.top_row(viewport) {
                None => frame is None,
                Some(top) => {
                    &&& frame matches Some(frame)
                    &&& *frame.page == layout.page
                    &&& frame.visual_rows@ == layout.rows
                    &&& frame.layout_columns == layout.columns
                    &&& frame.visible_rows.start == at_least_zero(top - self.overscan)
                    &&& frame.visible_rows.end == lesser(
                        top + viewport + self.overscan,
                        layout.rows.len() as int,
                    )
                    &&& frame.first_viewport_row == top - frame.visible_rows.start
                    &&& frame.cell_offset == match self.mode {
                        ScrollMode::FollowTail => 0u32,
                        ScrollMode::Anchored { line_id: _, cell_offset } => cell_offset,
                    }
                    &&& frame.new_lines_available == self.new_lines
                    &&& self.mode matches ScrollMode::Anchored { line_id, cell_offset: _ } ==> 0
                        <= top < layout.rows.len()
                        && layout.page.rows@[layout.rows[top].logical_row_index as int].line_id
                        == line_id
                },
            },
        }
    }

    pub open spec fn source_changes(self, page: LogPage) -> bool {
        self.page matches Some(current) && current.source_id != page.source_id
    }

    /// The page is not newer than the one that is there.
    pub open spec fn is_stale(self, page: LogPage) -> bool {
        self.page matches Some(current) && current.source_id == page.source_id && page.revision
            <= current.revision
    }

    /// The line that a page must hold.
    pub open spec fn required_line(self) -> Option<u64> {
        match self.pending_anchor {
            Some(anchor) => Some(anchor.0),
            None => match self.mode {
                ScrollMode::Anchored { line_id, cell_offset: _ } => Some(line_id),
                ScrollMode::FollowTail => None,
            },
        }
    }

    /// Why a page is not taken.
    pub open spec fn refusal(self, page: LogPage) -> Option<LogSurfaceError> {
        if page_fault(page) is Some {
            page_fault(page)
        } else if self.is_stale(page) || self.source_changes(page) {
            None
        } else {
            match self.required_line() {
                Some(line_id) => if line_index(page.rows@, line_id) is None {
                    Some(LogSurfaceError::AnchorMissing(line_id))
                } else {
                    None
                },
                None => None,
            }
        }
    }

    /// The lines that have come since the view left the tail.
    pub open spec fn lines_behind(self, page: LogPage) -> u64 {
        if self.mode == ScrollMode::FollowTail {
            0
        } else {
            let known = match self.page {
                Some(current) => if current.source_id == page.source_id {
                    current.total_line_count as int
                } else {
                    0
                },
                None => 0,
            };
            lesser(
                self.new_lines + at_least_zero(page.total_line_count - known),
                u64::MAX as int,
            ) as u64
        }
    }

    /// The state with a page that is taken.
    pub open spec fn with_page(self, page: LogPage) -> Self {
        let changes = self.source_changes(page);
        let entered = if changes {
            self.following_tail()
        } else {
            self
        };
        SurfaceState {
            new_lines: entered.lines_behind(page),
            layout: if changes || self.layout is None || self.desired_columns is None {
                Some(unbroken(page))
            } else {
                self.layout
            },
            page: Some(page),
            request_dirty: entered.request_dirty || self.page is None || changes,
            ..entered
        }
    }

    /// The drawn layout is already the wanted one, one is on its way, or this
    /// one could not be made.
    pub open spec fn needs_no_reflow(self, key: ReflowKey) -> bool {
        ||| self.layout matches Some(layout) && layout.key() == key
        ||| self.pending_reflow is Some
        ||| self.failed_reflow == Some(key)
    }

    /// The layout that was on its way could not be made.
    pub open spec fn without_reflow(self) -> Self {
        SurfaceState { failed_reflow: self.pending_reflow, pending_reflow: None, ..self }
    }

    /// The layout is one of the newest page at the width that was asked for
    /// last.
    pub open spec fn is_current(self, layout: LayoutModel) -> bool {
        &&& self.page matches Some(page) && reflow_key(page, layout.columns) == layout.key()
        &&& self.desired_columns == Some(layout.columns)
    }

    pub open spec fn with_layout(self, layout: LayoutModel) -> (Self, bool) {
        let entered = SurfaceState {
            pending_reflow: if self.pending_reflow == Some(layout.key()) {
                None
            } else {
                self.pending_reflow
            },
            ..self
        };
        if !self.is_current(layout) {
            (entered, false)
        } else {
            let drawn = SurfaceState { layout: Some(layout), failed_reflow: None, ..entered };
            let reached = match self.pending_anchor {
                Some((line_id, cell_offset)) => if layout.anchor_row(line_id, cell_offset) is Some {
                    SurfaceState {
                        mode: ScrollMode::Anchored { line_id, cell_offset },
                        pending_anchor: None,
                        new_lines: 0,
                        ..drawn
                    }
                } else {
                    drawn
                },
                None => drawn,
            };
            let settled = SurfaceState { pending_scroll: 0, ..reached };
            if self.pending_scroll != 0 {
                (settled.scrolled(self.pending_scroll, self.last_viewport).0, true)
            } else {
                (settled, true)
            }
        }
    }

    /// The page that the view wants.
    pub open spec fn wanted_page(self, viewport: u16) -> Option<LogPageRequest> {
        let tail_rows = lesser(viewport + self.overscan, MAX_LOG_PAGE_ROWS - 1);
        let side_rows = lesser(tail_rows, (MAX_LOG_PAGE_ROWS - 1) / 2);
        let mode = match self.pending_anchor {
            Some((line_id, cell_offset)) => ScrollMode::Anchored { line_id, cell_offset },
            None => self.mode,
        };
        match self.page {
            None => None,
            Some(page) => match mode {
                ScrollMode::FollowTail => if page.rows@.len() == 0 {
                    None
                } else {
                    Some(
                        LogPageRequest {
                            source_id: page.source_id,
                            follow_tail: true,
                            anchor_line_id: page.rows@.last().line_id,
                            cell_offset: 0,
                            rows_before: tail_rows as u16,
                            rows_after: 0,
                        },
                    )
                },
                ScrollMode::Anchored { line_id, cell_offset } => Some(
                    LogPageRequest {
                        source_id: page.source_id,
                        follow_tail: false,
                        anchor_line_id: line_id,
                        cell_offset,
                        rows_before: side_rows as u16,
                        rows_after: side_rows as u16,
                    },
                ),
            },
        }
    }

    /// The anchor is close to an end of the page behind which there is more,
    /// or not on the page at all.
    pub open spec fn near_boundary(self, request: LogPageRequest, viewport: u16) -> bool {
        let page = self.page->0;
        let margin = viewport / 2 + self.overscan;
        !request.follow_tail && match line_index(page.rows@, request.anchor_line_id) {
            Some(index) => page.has_before && index <= lesser(margin, u16::MAX as int)
                || page.has_after && page.rows@.len() - (index + 1) <= lesser(
                margin,
                u16::MAX as int,
            ),
            None => true,
        }
    }

    /// A page is asked for only when something has changed, when the view
    /// waits for one or when it comes near an end of the page; the same one is
    /// not asked for twice in a row.
    pub open spec fn asking_for_page(self, viewport: u16) -> (Self, Option<LogPageRequest>) {
        match self.wanted_page(viewport) {
            None => (self, None),
            Some(request) => {
                let due = self.request_dirty || self.pending_anchor is Some || self.pending_scroll
                    != 0 || self.near_boundary(request, viewport);
                if !due {
                    (self, None)
                } else if self.last_request == Some(request) {
                    (SurfaceState { request_dirty: false, ..self }, None)
                } else {
                    (
                        SurfaceState {
                            request_dirty: false,
                            last_request: Some(request),
                            ..self
                        },
                        Some(request),
                    )
                }
            },
        }
    }
}

impl Default for LogSurfaceModel {
    fn default() -> (surface: Self)
        ensures
            surface@ == SurfaceState::empty(2),
            surface@.wf(),
    {
        LogSurfaceModel::new(2)
    }
}

impl LogSurfaceModel {
    pub fn new(overscan_rows: u16) -> (surface: Self)
        ensures
            surface@ == SurfaceState::empty(overscan_rows),
            surface@.wf(),
    {
        LogSurfaceModel {
            page: None,
            layout: None,
            mode: ScrollMode::FollowTail,
            overscan_rows,
            new_lines_available: 0,
            desired_columns: None,
            pending_reflow: None,
            failed_reflow: None,
            pending_scroll_rows: 0,
            last_viewport_rows: 0,
            pending_page_anchor: None,
            page_request_dirty: false,
            last_page_request: None,
        }
    }

    pub fn mode(&self) -> (mode: ScrollMode)
        ensures
            mode == self@.mode,
    {
        self.mode
    }

    pub fn new_lines_available(&self) -> (lines: u64)
        ensures
            lines == self@.new_lines,
    {
        self.new_lines_available
    }

    pub fn follow_tail(&mut self)
        ensures
            final(self)@ == old(self)@.following_tail(),
            old(self)@.wf() ==> final(self)@.wf(),
    {
        self.page_request_dirty = self.page_request_dirty || self.mode != ScrollMode::FollowTail
            || self.pending_page_anchor.is_some();
        self.mode = ScrollMode::FollowTail;
        self.new_lines_available = 0;
        self.pending_scroll_rows = 0;
        self.pending_page_anchor = None;
    }

    pub fn anchor(&mut self, line_id: u64, cell_offset: u32)
        ensures
            final(self)@ == old(self)@.anchored(line_id, cell_offset),
            old(self)@.wf() ==> final(self)@.wf(),
    {
        self.page_request_dirty = self.page_request_dirty || self.mode == ScrollMode::FollowTail
            || self.pending_page_anchor.is_some();
        self.mode = ScrollMode::Anchored { line_id, cell_offset };
        self.new_lines_available = 0;
        self.pending_scroll_rows = 0;
        self.pending_page_anchor = None;
    }

    /// Goes to a line. What is drawn stays until the line's page and layout
    /// are there.
    pub fn jump_to_line(&mut self, line_id: u64, cell_offset: u32) -> (jumps: bool)
        requires
            old(self)@.wf(),
        ensures
            (final(self)@, jumps) == old(self)@.jumped(line_id, cell_offset),
            final(self)@.wf(),
    {
        let total: u64 = match &self.page {
            Some(page) => page.total_line_count,
            None => {
                return false;
            },
        };
        if total == 0 {
            return false;
        }
        let line: u64 = if line_id < 1 {
            1
        } else if line_id > total {
            total
        } else {
            line_id
        };
        let shown = match &self.layout {
            Some(layout) => layout.visual_row_for_anchor(line, cell_offset).is_some(),
            None => false,
        };
        if shown {
            self.anchor(line, cell_offset);
        } else {
            self.pending_page_anchor = Some((line, cell_offset));
            self.pending_scroll_rows = 0;
            self.page_request_dirty = true;
        }
        true
    }

    /// Moves the top of the screen by rows of the screen, towards the tail
    /// where `delta` is positive.
    pub fn scroll_visual_rows(&mut self, delta: i32, viewport_rows: u16) -> (scrolls: bool)
        requires
            old(self)@.wf(),
        ensures
            (final(self)@, scrolls) == old(self)@.scrolled(delta, viewport_rows),
            final(self)@.wf(),
    {
        self.last_viewport_rows = viewport_rows;
        self.pending_page_anchor = None;
        if delta == 0 {
            return false;
        }
        let (count, has_before, has_after, current) = match &self.layout {
            None => {
                return false;
            },
            Some(layout) => {
                let count: usize = layout.visual_rows().len();
                if count == 0 {
                    return false;
                }
                let current: usize = match self.mode {
                    ScrollMode::FollowTail => if count >= viewport_rows as usize {
                        count - viewport_rows as usize
                    } else {
                        0
                    },
                    ScrollMode::Anchored { line_id, cell_offset } => {
                        match layout.visual_row_for_anchor(line_id, cell_offset) {
                            Some(row) => row,
                            None => 0,
                        }
                    },
                };
                (count, layout.page().has_before, layout.page().has_after, current)
            },
        };
        assert(count <= MAX_LOG_REFLOW_ROWS && current <= count);
        let target: i64 = current as i64 + delta as i64;
        if target < 0 {
            self.set_anchor_from_visual(0);
            self.pending_scroll_rows = if has_before {
                target as i32
            } else {
                0
            };
            return true;
        }
        let target: usize = target as usize;
        if target >= count && has_after {
            self.set_anchor_from_visual(count - 1);
            let beyond: usize = target - (count - 1);
            self.pending_scroll_rows = if beyond <= 2147483647 {
                beyond as i32
            } else {
                i32::MAX
            };
            return true;
        }
        if !has_after && (target >= count || viewport_rows as usize >= count - target) {
            self.follow_tail();
        } else {
            self.set_anchor_from_visual(target);
            self.pending_scroll_rows = 0;
        }
        true
    }

    fn set_anchor_from_visual(&mut self, visual_index: usize)
        requires
            old(self)@.wf(),
            old(self)@.layout is Some,
            visual_index < old(self)@.layout->0.rows.len(),
        ensures
            final(self)@ == old(self)@.standing_on(visual_index as int),
            final(self)@.wf(),
    {
        let (line_id, cell_offset) = match &self.layout {
            Some(layout) => {
                proof {
                    lemma_logical_below(
                        layout@.rows,
                        layout@.page.rows@,
                        visual_index as int,
                    );
                }
                let row = layout.visual_rows()[visual_index];
                (layout.page().rows[row.logical_row_index as usize].line_id, row.start_cell)
            },
            None => {
                return;
            },
        };
        self.page_request_dirty = self.page_request_dirty || self.mode == ScrollMode::FollowTail;
        self.mode = ScrollMode::Anchored { line_id, cell_offset };
        self.new_lines_available = 0;
    }

    /// Takes a page. One that is not newer is ignored; one that does not hold
    /// the line that the view stands on is refused, so that a late read cannot
    /// move the view.
    pub fn submit_page(&mut self, page: Arc<LogPage>) -> (taken: Result<bool, LogSurfaceError>)
        requires
            old(self)@.wf(),
        ensures
            final(self)@.wf(),
            match old(self)@.refusal(*page) {
                Some(error) => taken == Err::<bool, _>(error) && final(self)@ == old(self)@,
                None => if old(self)@.is_stale(*page) {
                    taken == Ok::<_, LogSurfaceError>(false) && final(self)@ == old(self)@
                } else {
                    taken == Ok::<_, LogSurfaceError>(true) && final(self)@ == old(
                        self,
                    )@.with_page(*page)
                },
            },
    {
        match validate_page(&page) {
            Ok(()) => {},
            Err(error) => {
                return Err(error);
            },
        }
        let first_page = self.page.is_none();
        let mut source_changed = false;
        let mut known: u64 = 0;
        if let Some(current) = &self.page {
            if current.source_id == page.source_id {
                if page.revision <= current.revision {
                    return Ok(false);
                }
                known = current.total_line_count;
            } else {
                source_changed = true;
            }
        }
        if source_changed {
            self.follow_tail();
        }
        let required = match self.pending_page_anchor {
            Some(anchor) => Some(anchor.0),
            None => match self.mode {
                ScrollMode::Anchored { line_id, cell_offset: _ } => Some(line_id),
                ScrollMode::FollowTail => None,
            },
        };
        if let Some(line_id) = required {
            if find_row(&page.rows, line_id).is_none() {
                return Err(LogSurfaceError::AnchorMissing(line_id));
            }
        }
        if self.mode != ScrollMode::FollowTail {
            let arrived: u64 = if page.total_line_count >= known {
                page.total_line_count - known
            } else {
                0
            };
            self.new_lines_available = if arrived <= u64::MAX - self.new_lines_available {
                self.new_lines_available + arrived
            } else {
                u64::MAX
            };
        } else {
            self.new_lines_available = 0;
        }
        if source_changed || self.layout.is_none() || self.desired_columns.is_none() {
            self.layout = Some(LogReflowLayout::identity(page.clone()));
        }
        self.page = Some(page);
        self.page_request_dirty = self.page_request_dirty || first_page || source_changed;
        Ok(true)
    }

    /// Asks for a layout of the newest page at a width, one at a time. What is
    /// drawn stays until the layout is there.
    pub fn request_reflow(&mut self, columns: u16) -> (request: Option<LogReflowRequest>)
        requires
            old(self)@.wf(),
        ensures
            final(self)@.wf(),
            ({
                let width = some_width(columns);
                let entered = SurfaceState { desired_columns: Some(width), ..old(self)@ };
                match old(self)@.page {
                    None => request is None && final(self)@ == entered,
                    Some(page) => {
                        let key = reflow_key(page, width);
                        if entered.needs_no_reflow(key) {
                            request is None && final(self)@ == entered
                        } else {
                            &&& final(self)@ == (SurfaceState {
                                pending_reflow: Some(key),
                                ..entered
                            })
                            &&& request matches Some(request) && request.page() == page
                                && request.width() == width && valid_page(request.page())
                        }
                    },
                }
            }),
    {
        let width: u16 = if columns == 0 {
            1
        } else {
            columns
        };
        self.desired_columns = Some(width);
        let page = match &self.page {
            Some(page) => page.clone(),
            None => {
                return None;
            },
        };
        let key = ReflowKey::new(&page, width);
        let drawn = match &self.layout {
            Some(layout) => layout.key() == key,
            None => false,
        };
        let failed = match self.failed_reflow {
            Some(failed) => failed == key,
            None => false,
        };
        if drawn || self.pending_reflow.is_some() || failed {
            return None;
        }
        self.pending_reflow = Some(key);
        Some(LogReflowRequest::new(page, width))
    }

    /// Draws a layout, if it is one of the newest page at the newest width. A
    /// late one is dropped.
    pub fn submit_reflow(&mut self, layout: LogReflowLayout) -> (drawn: bool)
        requires
            old(self)@.wf(),
            layout@.wf(),
        ensures
            (final(self)@, drawn) == old(self)@.with_layout(layout@),
            final(self)@.wf(),
    {
        let key = layout.key();
        if let Some(pending) = self.pending_reflow {
            if pending == key {
                self.pending_reflow = None;
            }
        }
        let columns: u16 = layout.columns();
        let same_page = match &self.page {
            Some(page) => ReflowKey::new(page, columns) == key,
            None => false,
        };
        let same_width = match self.desired_columns {
            Some(desired) => desired == columns,
            None => false,
        };
        if !(same_page && same_width) {
            return false;
        }
        let reached = match self.pending_page_anchor {
            Some((line_id, cell_offset)) => layout.visual_row_for_anchor(
                line_id,
                cell_offset,
            ).is_some(),
            None => false,
        };
        self.layout = Some(layout);
        self.failed_reflow = None;
        if reached {
            if let Some((line_id, cell_offset)) = self.pending_page_anchor {
                self.mode = ScrollMode::Anchored { line_id, cell_offset };
                self.pending_page_anchor = None;
                self.new_lines_available = 0;
            }
        }
        let pending_scroll: i32 = self.pending_scroll_rows;
        self.pending_scroll_rows = 0;
        if pending_scroll != 0 {
            let viewport: u16 = self.last_viewport_rows;
            self.scroll_visual_rows(pending_scroll, viewport);
        }
        true
    }

    /// The layout that was asked for could not be made: another one may be
    /// asked for, but not the same one again.
    pub fn reflow_failed(&mut self)
        ensures
            final(self)@ == old(self)@.without_reflow(),
            old(self)@.wf() ==> final(self)@.wf(),
    {
        self.failed_reflow = self.pending_reflow;
        self.pending_reflow = None;
    }

    pub fn page_request(&self, viewport_rows: u16) -> (request: Option<LogPageRequest>)
        ensures
            request == self@.wanted_page(viewport_rows),
    {
        let page = match &self.page {
            Some(page) => page,
            None => {
                return None;
            },
        };
        let wanted: u32 = viewport_rows as u32 + self.overscan_rows as u32;
        let tail_rows: u16 = if wanted <= 4095 {
            wanted as u16
        } else {
            4095
        };
        let side_rows: u16 = if tail_rows <= 2047 {
            tail_rows
        } else {
            2047
        };
        let mode = match self.pending_page_anchor {
            Some((line_id, cell_offset)) => ScrollMode::Anchored { line_id, cell_offset },
            None => self.mode,
        };
        match mode {
            ScrollMode::FollowTail => {
                let count: usize = page.rows.len();
                if count == 0 {
                    return None;
                }
                Some(
                    LogPageRequest {
                        source_id: page.source_id,
                        follow_tail: true,
                        anchor_line_id: page.rows[count - 1].line_id,
                        cell_offset: 0,
                        rows_before: tail_rows,
                        rows_after: 0,
                    },
                )
            },
            ScrollMode::Anchored { line_id, cell_offset } => Some(
                LogPageRequest {
                    source_id: page.source_id,
                    follow_tail: false,
                    anchor_line_id: line_id,
                    cell_offset,
                    rows_before: side_rows,
                    rows_after: side_rows,
                },
            ),
        }
    }

    fn comes_near_boundary(&self, request: LogPageRequest, viewport_rows: u16) -> (near: bool)
        requires
            self@.wf(),
            self@.page is Some,
        ensures
            near == self@.near_boundary(request, viewport_rows),
    {
        if request.follow_tail {
            return false;
        }
        let wanted: u32 = (viewport_rows / 2) as u32 + self.overscan_rows as u32;
        let margin: usize = if wanted <= 65535 {
            wanted as usize
        } else {
            65535
        };
        match &self.page {
            Some(page) => match find_row(&page.rows, request.anchor_line_id) {
                Some(index) => page.has_before && index <= margin || page.has_after
                    && page.rows.len() - (index + 1) <= margin,
                None => true,
            },
            None => true,
        }
    }

    /// The page to read next, if one is due.
    pub fn take_page_request(&mut self, viewport_rows: u16) -> (request: Option<LogPageRequest>)
        requires
            old(self)@.wf(),
        ensures
            (final(self)@, request) == old(self)@.asking_for_page(viewport_rows),
            final(self)@.wf(),
    {
        let request = match self.page_request(viewport_rows) {
            Some(request) => request,
            None => {
                return None;
            },
        };
        let due = self.page_request_dirty || self.pending_page_anchor.is_some()
            || self.pending_scroll_rows != 0 || self.comes_near_boundary(request, viewport_rows);
        if !due {
            return None;
        }
        self.page_request_dirty = false;
        if let Some(last) = self.last_page_request {
            if last == request {
                return None;
            }
        }
        self.last_page_request = Some(request);
        Some(request)
    }

    /// Where the view stands among all the lines.
    pub fn scrollbar_state(&self, viewport_rows: u16) -> (state: Option<LogScrollbarState>)
        requires
            self@.wf(),
        ensures
            match self@.layout {
                None => state is None,
                Some(layout) => match self@.mode {
                    ScrollMode::FollowTail => state == Some(
                        LogScrollbarState {
                            top_line_id: layout.page.total_line_count,
                            total_line_count: self@.page->0.total_line_count,
                            viewport_rows,
                            follow_tail: true,
                        },
                    ),
                    ScrollMode::Anchored { line_id, cell_offset } => if layout.anchor_row(
                        line_id,
                        cell_offset,
                    ) is Some {
                        state == Some(
                            LogScrollbarState {
                                top_line_id: line_id,
                                total_line_count: self@.page->0.total_line_count,
                                viewport_rows,
                                follow_tail: false,
                            },
                        )
                    } else {
                        state is None
                    },
                },
            },
            state == self@.scrollbar(viewport_rows),
    {
        let layout = match &self.layout {
            Some(layout) => layout,
            None => {
                return None;
            },
        };
        let page = match &self.page {
            Some(page) => page,
            None => {
                return None;
            },
        };
        match self.mode {
            ScrollMode::FollowTail => Some(
                LogScrollbarState {
                    top_line_id: layout.page().total_line_count,
                    total_line_count: page.total_line_count,
                    viewport_rows,
                    follow_tail: true,
                },
            ),
            ScrollMode::Anchored { line_id, cell_offset } => {
                match layout.visual_row_for_anchor(line_id, cell_offset) {
                    None => None,
                    Some(at) => {
                        proof {
                            lemma_logical_below(layout@.rows, layout@.page.rows@, at as int);
                        }
                        let row = layout.visual_rows()[at];
                        Some(
                            LogScrollbarState {
                                top_line_id: layout.page().rows[row.logical_row_index as usize].line_id,
                                total_line_count: page.total_line_count,
                                viewport_rows,
                                follow_tail: false,
                            },
                        )
                    },
                }
            },
        }
    }

    /// The rows to draw: those on the screen, and up to the overscan on either
    /// side. An anchored view has a row of the anchor's line at the top.
    pub fn prepare_frame(&self, viewport_rows: u16) -> (frame: Option<LogSurfaceFrame>)
        requires
            self@.wf(),
        ensures
            match self@.layout {
                None => frame is None,
                Some(layout) => match self@.top_row(viewport_rows) {
                    None => frame is None,
                    Some(top) => {
                        &&& frame matches Some(frame)
                        &&& *frame.page == layout.page
                        &&& frame.visual_rows@ == layout.rows
                        &&& frame.layout_columns == layout.columns
                        &&& frame.visible_rows.start == at_least_zero(top - self@.overscan)
                        &&& frame.visible_rows.end == lesser(
                            top + viewport_rows + self@.overscan,
                            layout.rows.len() as int,
                        )
                        &&& frame.first_viewport_row == top - frame.visible_rows.start
                        &&& frame.cell_offset == match self@.mode {
                            ScrollMode::FollowTail => 0u32,
                            ScrollMode::Anchored { line_id: _, cell_offset } => cell_offset,
                        }
                        &&& frame.new_lines_available == self@.new_lines
                        &&& self@.mode matches ScrollMode::Anchored { line_id, cell_offset: _ }
                            ==> 0 <= top < layout.rows.len()
                            && layout.page.rows@[layout.rows[top].logical_row_index as int].line_id
                            == line_id
                    },
                },
            },
            self@.frames(viewport_rows, frame),
    {
        let layout = match &self.layout {
            Some(layout) => layout,
            None => {
                return None;
            },
        };
        let count: usize = layout.visual_rows().len();
        let (first_viewport, cell_offset) = match self.mode {
            ScrollMode::FollowTail => (
                if count >= viewport_rows as usize {
                    count - viewport_rows as usize
                } else {
                    0
                },
                0u32,
            ),
            ScrollMode::Anchored { line_id, cell_offset } => {
                match layout.visual_row_for_anchor(line_id, cell_offset) {
                    Some(row) => (row, cell_offset),
                    None => {
                        return None;
                    },
                }
            },
        };
        let overscan: usize = self.overscan_rows as usize;
        let start: usize = if first_viewport >= overscan {
            first_viewport - overscan
        } else {
            0
        };
        assert(first_viewport <= MAX_LOG_REFLOW_ROWS);
        let wanted: usize = first_viewport + viewport_rows as usize + overscan;
        let end: usize = if wanted <= count {
            wanted
        } else {
            count
        };
        Some(
            LogSurfaceFrame {
                page: layout.page().clone(),
                visual_rows: layout.visual_rows().clone(),
                layout_columns: layout.columns(),
                visible_rows: start..end,
                first_viewport_row: first_viewport - start,
                cell_offset,
                new_lines_available: self.new_lines_available,
            },
        )
    }
}

// ---------------------------------------------------------------------------
// Laws.

/// New lines do not move a view that is anchored: a newer page of the same log
/// leaves it where it is and leaves what is drawn, and only counts the lines.
pub proof fn law_new_lines_do_not_move_the_view(state: SurfaceState, page: LogPage, viewport: u16)
    requires
        state.wf(),
        state.mode != ScrollMode::FollowTail,
        state.desired_columns is Some,
        state.page is Some,
        state.page->0.source_id == page.source_id,
        state.refusal(page) is None,
        !state.is_stale(page),
    ensures
        ({
            let after = state.with_page(page);
            &&& after.mode == state.mode
            &&& after.layout == state.layout
            &&& after.top_row(viewport) == state.top_row(viewport)
            &&& after.new_lines == lesser(
                state.new_lines + at_least_zero(
                    page.total_line_count - state.page->0.total_line_count,
                ),
                u64::MAX as int,
            )
        }),
{
}

/// A layout of another page or another width than the newest ones changes
/// nothing of what is drawn.
pub proof fn law_late_layout_is_dropped(state: SurfaceState, layout: LayoutModel)
    requires
        state.wf(),
        !state.is_current(layout),
    ensures
        !state.with_layout(layout).1,
        state.with_layout(layout).0.layout == state.layout,
        state.with_layout(layout).0.mode == state.mode,
{
}

/// No two layouts are made at once: while one is on its way none is asked for.
pub proof fn law_one_reflow_at_a_time(state: SurfaceState, key: ReflowKey)
    requires
        state.pending_reflow is Some,
    ensures
        state.needs_no_reflow(key),
{
}

/// A layout that could not be made is not asked for again, and stands in the
/// way of no other.
pub proof fn law_failed_reflow_is_not_retried(
    state: SurfaceState,
    failed: ReflowKey,
    other: ReflowKey,
)
    requires
        state.pending_reflow == Some(failed),
        other != failed,
    ensures
        state.without_reflow().needs_no_reflow(failed),
        state.without_reflow().needs_no_reflow(other) <==> (state.layout matches Some(layout)
            && layout.key() == other),
        state.without_reflow().layout == state.layout,
        state.without_reflow().mode == state.mode,
{
}

/// A new layout keeps the anchored line at the top of the screen.
pub proof fn law_resize_keeps_the_anchor(
    state: SurfaceState,
    layout: LayoutModel,
    line_id: u64,
    cell_offset: u32,
    viewport: u16,
)
    requires
        state.wf(),
        layout.wf(),
        state.is_current(layout),
        state.mode == (ScrollMode::Anchored { line_id, cell_offset }),
        state.pending_anchor is None,
        state.pending_scroll == 0,
        line_index(layout.page.rows@, line_id) is Some,
    ensures
        ({
            let after = state.with_layout(layout).0;
            &&& after.mode == state.mode
            &&& after.layout == Some(layout)
            &&& after.top_row(viewport) matches Some(top) && 0 <= top < layout.rows.len()
                && layout.page.rows@[layout.rows[top].logical_row_index as int].line_id == line_id
        }),
{
    let rows = layout.rows;
    let page = layout.page.rows@;
    let logical = line_index(page, line_id)->0;
    assert(0 <= logical < page.len() && page[logical].line_id == line_id);
    lemma_anchor_exists(layout, logical, cell_offset as int);
    let top = choose|at: int| #[trigger] anchored_at(rows, logical, cell_offset as int, at);
    assert(anchored_at(rows, logical, cell_offset as int, top));
}

/// Each row of the page has a row of the screen for every cell.
pub proof fn lemma_anchor_exists(layout: LayoutModel, logical: int, cell: int)
    requires
        layout.wf(),
        0 <= logical < layout.page.rows@.len(),
    ensures
        exists|at: int| #[trigger] anchored_at(layout.rows, logical, cell, at),
{
    let rows = layout.rows;
    crate::log_reflow::lemma_row_is_shown(rows, layout.page.rows@, logical, 0);
    let shown = choose|i: int|
        0 <= i < rows.len() && (#[trigger] rows[i]).logical_row_index == logical;
    lemma_first_or_last(rows, logical, cell, shown);
}

proof fn lemma_first_or_last(
    rows: Seq<LogVisualRow>,
    logical: int,
    cell: int,
    last: int,
)
    requires
        0 <= last < rows.len(),
        rows[last].logical_row_index == logical,
    ensures
        exists|at: int| #[trigger] anchored_at(rows, logical, cell, at),
    decreases rows.len() - last,
{
    if exists|i: int|
        0 <= i < rows.len() && (#[trigger] rows[i]).logical_row_index == logical
            && crate::log_reflow::holds_cell(rows[i], cell) {
        let i = choose|i: int|
            0 <= i < rows.len() && (#[trigger] rows[i]).logical_row_index == logical
                && crate::log_reflow::holds_cell(rows[i], cell);
        lemma_first_holding(rows, logical, cell, i);
    } else if exists|i: int|
        last < i < rows.len() && (#[trigger] rows[i]).logical_row_index == logical {
        let i = choose|i: int|
            last < i < rows.len() && (#[trigger] rows[i]).logical_row_index == logical;
        lemma_first_or_last(rows, logical, cell, i);
    } else {
        assert(anchored_at(rows, logical, cell, last));
    }
}

proof fn lemma_first_holding(rows: Seq<LogVisualRow>, logical: int, cell: int, at: int)
    requires
        0 <= at < rows.len(),
        rows[at].logical_row_index == logical,
        crate::log_reflow::holds_cell(rows[at], cell),
    ensures
        exists|first: int| #[trigger] anchored_at(rows, logical, cell, first),
    decreases at,
{
    if exists|i: int|
        0 <= i < at && (#[trigger] rows[i]).logical_row_index == logical
            && crate::log_reflow::holds_cell(rows[i], cell) {
        let i = choose|i: int|
            0 <= i < at && (#[trigger] rows[i]).logical_row_index == logical
                && crate::log_reflow::holds_cell(rows[i], cell);
        lemma_first_holding(rows, logical, cell, i);
    } else {
        assert(anchored_at(rows, logical, cell, at));
    }
}

/// Scrolling away and back comes to the same place, as long as neither step
/// leaves the drawn page or reaches the tail.
pub proof fn law_scrolling_back_returns(
    state: SurfaceState,
    from: int,
    delta: i32,
    viewport: u16,
)
    requires
        state.wf(),
        state.layout is Some,
        0 <= from < state.layout->0.rows.len(),
        0 <= from + delta < state.layout->0.rows.len(),
        state.mode == state.standing_on(from).mode,
        delta != 0,
        delta > i32::MIN,
        state.layout->0.page.has_after || from + viewport < state.layout->0.rows.len() && from
            + delta + viewport < state.layout->0.rows.len(),
    ensures
        ({
            let there = state.scrolled(delta, viewport);
            let back = there.0.scrolled((-delta) as i32, viewport);
            &&& there.0.mode == state.standing_on(from + delta).mode
            &&& back.0.mode == state.mode
            &&& there.1 && back.1
        }),
{
    let layout = state.layout->0;
    law_row_start_anchors_row(layout, from);
    law_row_start_anchors_row(layout, from + delta);
}

/// A jump to a line that is not drawn leaves what is drawn as it is, until a
/// layout with that line is there; the view then stands on it.
pub proof fn law_jump_waits_for_its_page(
    state: SurfaceState,
    line_id: u64,
    cell_offset: u32,
    page: LogPage,
    layout: LayoutModel,
)
    requires
        state.wf(),
        state.page is Some,
        1 <= line_id <= state.page->0.total_line_count,
        state.desired_columns is Some,
        state.layout->0.anchor_row(line_id, cell_offset) is None,
        page.source_id == state.page->0.source_id,
        page.revision > state.page->0.revision,
        valid_page(page),
        line_index(page.rows@, line_id) is Some,
        layout.wf(),
        layout.page == page,
        Some(layout.columns) == state.desired_columns,
    ensures
        ({
            let jumped = state.jumped(line_id, cell_offset).0;
            let loaded = jumped.with_page(page);
            let drawn = loaded.with_layout(layout).0;
            &&& jumped.layout == state.layout && jumped.mode == state.mode
            &&& jumped.refusal(page) is None && !jumped.is_stale(page)
            &&& loaded.layout == state.layout && loaded.mode == state.mode
            &&& drawn.layout == Some(layout)
            &&& drawn.mode == (ScrollMode::Anchored { line_id, cell_offset })
        }),
{
}

} // verus!
