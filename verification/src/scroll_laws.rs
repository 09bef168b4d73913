//! What a view of a log shows, and how it moves.
use crate::log_reflow::{
    anchored_at, follows, law_row_start_anchors_row, lemma_logical_below, line_index, LayoutModel,
    LogPage, MAX_LOG_PAGE_ROWS,
};
use crate::log_surface::{lemma_anchor_exists, LogSurfaceFrame, SurfaceState};
use crate::surface::ScrollMode;
use vstd::prelude::*;

verus! {

/// A row of the screen begins the part of its line that an anchor names.
pub open spec fn begins_row(layout: LayoutModel, row: int, mode: ScrollMode) -> bool {
    &&& 0 <= row < layout.rows.len()
    &&& mode == (ScrollMode::Anchored {
        line_id: layout.page.rows@[layout.rows[row].logical_row_index as int].line_id,
        cell_offset: layout.rows[row].start_cell,
    })
}

/// The row at the top of the screen, the first one where the view stands on a
/// line that is not drawn.
pub open spec fn top_of(state: SurfaceState, viewport: u16) -> int {
    match state.top_row(viewport) {
        Some(row) => row,
        None => 0,
    }
}

/// A view that follows the tail has the last row on the screen, at the bottom
/// of it if there are rows enough; one that is anchored has at the top a row of
/// the line that it is anchored to, and there the cell, if the line has it.
pub proof fn law_screen_shows_tail_or_anchor(state: SurfaceState, viewport: u16)
    requires
        state.wf(),
        state.layout is Some,
    ensures
        ({
            let layout = state.layout->0;
            let count = layout.rows.len() as int;
            match state.mode {
                ScrollMode::FollowTail => {
                    &&& state.top_row(viewport) matches Some(top)
                    &&& 0 <= top <= count <= top + viewport
                    &&& top == 0 || top + viewport == count
                },
                ScrollMode::Anchored { line_id, cell_offset } => {
                    &&& state.top_row(viewport) is Some <==> exists|i: int|
                        0 <= i < layout.page.rows@.len() && (
                        #[trigger] layout.page.rows@[i]).line_id == line_id
                    &&& state.top_row(viewport) matches Some(top) ==> {
                        let row = layout.rows[top];
                        &&& 0 <= top < count
                        &&& layout.page.rows@[row.logical_row_index as int].line_id == line_id
                        &&& cell_offset >= row.start_cell && cell_offset < row.end_cell || forall|
                            i: int,
                        |
                            0 <= i < count && (#[trigger] layout.rows[i]).logical_row_index
                                == row.logical_row_index ==> !(layout.rows[i].start_cell
                                <= cell_offset < layout.rows[i].end_cell)
                    }
                },
            }
        }),
{
    let layout = state.layout->0;
    if let ScrollMode::Anchored { line_id, cell_offset } = state.mode {
        if line_index(layout.page.rows@, line_id) is Some {
            let logical = line_index(layout.page.rows@, line_id)->0;
            assert(0 <= logical < layout.page.rows@.len()
                && layout.page.rows@[logical].line_id == line_id);
            lemma_anchor_exists(layout, logical, cell_offset as int);
            let top = state.top_row(viewport)->0;
            assert(anchored_at(layout.rows, logical, cell_offset as int, top));
            let row = layout.rows[top];
            if row.start_cell == row.end_cell {
                assert forall|i: int|
                    0 <= i < layout.rows.len() && (#[trigger] layout.rows[i]).logical_row_index
                        == logical implies i <= top by {
                    if i > top {
                        lemma_logical_below(layout.rows, layout.page.rows@, top);
                        lemma_logical_below(layout.rows, layout.page.rows@, top + 1);
                        assert(layout.rows[top].logical_row_index
                            <= layout.rows[top + 1].logical_row_index);
                        assert(follows(
                            layout.rows[top],
                            layout.rows[top + 1],
                            layout.page.rows@,
                        ));
                    }
                }
            }
        }
    }
}

proof fn lemma_standing(state: SurfaceState, row: int, viewport: u16)
    requires
        state.wf(),
        state.layout is Some,
        begins_row(state.layout->0, row, state.mode),
    ensures
        state.top_row(viewport) == Some(row),
{
    law_row_start_anchors_row(state.layout->0, row);
}

proof fn lemma_top(state: SurfaceState, viewport: u16)
    requires
        state.wf(),
        state.layout is Some,
        state.layout->0.rows.len() > 0,
    ensures
        0 <= top_of(state, viewport) <= state.layout->0.rows.len(),
{
    law_screen_shows_tail_or_anchor(state, viewport);
}

/// A scroll that stays on the drawn page, and short of the tail, moves the top
/// of the screen by just as many rows as it says.
pub proof fn law_scroll_moves_by_its_rows(state: SurfaceState, delta: i32, viewport: u16)
    requires
        state.wf(),
        state.layout is Some,
        delta != 0,
        0 <= top_of(state, viewport) + delta < state.layout->0.rows.len(),
        state.layout->0.page.has_after || top_of(state, viewport) + delta + viewport
            < state.layout->0.rows.len(),
    ensures
        ({
            let (after, scrolls) = state.scrolled(delta, viewport);
            &&& scrolls
            &&& after.layout == state.layout
            &&& after.top_row(viewport) == Some(top_of(state, viewport) + delta)
            &&& begins_row(state.layout->0, top_of(state, viewport) + delta, after.mode)
            &&& after.pending_scroll == 0
            &&& after.pending_anchor is None
            &&& after.new_lines == 0
        }),
{
    let after = state.scrolled(delta, viewport).0;
    lemma_standing(after, top_of(state, viewport) + delta, viewport);
}

/// A scroll above the first row of the drawn page stops at that row. What is
/// left of it is kept if and only if there is more of the log before the page.
pub proof fn law_scroll_stops_at_the_first_row(state: SurfaceState, delta: i32, viewport: u16)
    requires
        state.wf(),
        state.layout is Some,
        state.layout->0.rows.len() > 0,
        top_of(state, viewport) + delta < 0,
    ensures
        ({
            let (after, scrolls) = state.scrolled(delta, viewport);
            &&& scrolls
            &&& after.layout == state.layout
            &&& after.top_row(viewport) == Some(0int)
            &&& begins_row(state.layout->0, 0, after.mode)
            &&& state.layout->0.page.has_before ==> after.pending_scroll == top_of(state, viewport)
                + delta
            &&& !state.layout->0.page.has_before ==> after.pending_scroll == 0
        }),
{
    lemma_top(state, viewport);
    let after = state.scrolled(delta, viewport).0;
    lemma_standing(after, 0, viewport);
}

/// A scroll below the last row of the drawn page, where the log goes on, stops
/// at that row, and what is left of it is kept.
pub proof fn law_scroll_stops_at_the_last_row(state: SurfaceState, delta: i32, viewport: u16)
    requires
        state.wf(),
        state.layout is Some,
        state.layout->0.rows.len() > 0,
        delta != 0,
        state.layout->0.page.has_after,
        top_of(state, viewport) + delta >= state.layout->0.rows.len(),
    ensures
        ({
            let (after, scrolls) = state.scrolled(delta, viewport);
            let last = state.layout->0.rows.len() - 1;
            let left = top_of(state, viewport) + delta - last;
            &&& scrolls
            &&& after.layout == state.layout
            &&& after.top_row(viewport) == Some(last)
            &&& begins_row(state.layout->0, last, after.mode)
            &&& 0 < after.pending_scroll <= left
            &&& after.pending_scroll == left || after.pending_scroll == i32::MAX
        }),
{
    lemma_top(state, viewport);
    let after = state.scrolled(delta, viewport).0;
    lemma_standing(after, state.layout->0.rows.len() - 1, viewport);
}

/// A scroll that brings the end of the log onto the screen follows the tail,
/// with nothing left of it.
pub proof fn law_scroll_to_the_end_follows_the_tail(
    state: SurfaceState,
    delta: i32,
    viewport: u16,
)
    requires
        state.wf(),
        state.layout is Some,
        state.layout->0.rows.len() > 0,
        delta != 0,
        !state.layout->0.page.has_after,
        0 <= top_of(state, viewport) + delta,
        top_of(state, viewport) + delta + viewport >= state.layout->0.rows.len(),
    ensures
        ({
            let (after, scrolls) = state.scrolled(delta, viewport);
            &&& scrolls
            &&& after.layout == state.layout
            &&& after.mode == ScrollMode::FollowTail
            &&& after.pending_scroll == 0
            &&& after.new_lines == 0
        }),
{
}

/// Scrolling up never moves the view down, and scrolling down never moves it
/// up, but for a view that stands so low that its screen is not full: there a
/// scroll downwards comes to the tail.
pub proof fn law_scrolling_goes_its_way(state: SurfaceState, delta: i32, viewport: u16)
    requires
        state.wf(),
        state.layout is Some,
        state.layout->0.rows.len() > 0,
        viewport > 0,
        delta != 0,
    ensures
        ({
            let after = state.scrolled(delta, viewport).0;
            let before = top_of(state, viewport);
            let count = state.layout->0.rows.len() as int;
            &&& after.top_row(viewport) matches Some(top)
            &&& delta < 0 ==> 0 <= top <= before && (top == 0 || top <= before + delta)
            &&& delta > 0 ==> top <= before + delta && (top >= before || after.mode
                == ScrollMode::FollowTail && before + viewport > count)
        }),
{
    lemma_top(state, viewport);
    law_screen_shows_tail_or_anchor(state, viewport);
    let after = state.scrolled(delta, viewport).0;
    let count = state.layout->0.rows.len() as int;
    let target = top_of(state, viewport) + delta;
    if target < 0 {
        law_scroll_stops_at_the_first_row(state, delta, viewport);
    } else if target >= count && state.layout->0.page.has_after {
        law_scroll_stops_at_the_last_row(state, delta, viewport);
    } else if !state.layout->0.page.has_after && target + viewport >= count {
        law_scroll_to_the_end_follows_the_tail(state, delta, viewport);
        law_screen_shows_tail_or_anchor(after, viewport);
    } else {
        law_scroll_moves_by_its_rows(state, delta, viewport);
    }
}

/// Where there is nothing drawn, or nothing to scroll by, a scroll does nothing
/// but give up a jump that is under way.
pub proof fn law_nothing_to_scroll(state: SurfaceState, delta: i32, viewport: u16)
    requires
        delta == 0 || state.layout is None || state.layout->0.rows.len() == 0,
    ensures
        !state.scrolled(delta, viewport).1,
        state.scrolled(delta, viewport).0.mode == state.mode,
        state.scrolled(delta, viewport).0.layout == state.layout,
        state.scrolled(delta, viewport).0.page == state.page,
        state.scrolled(delta, viewport).0.pending_scroll == state.pending_scroll,
        state.scrolled(delta, viewport).0.pending_anchor is None,
{
}

/// Rows that a scroll could not go because the page ended are gone as soon as
/// a layout of a new page is there.
pub proof fn law_kept_rows_are_scrolled_later(
    state: SurfaceState,
    layout: LayoutModel,
    line_id: u64,
    cell_offset: u32,
)
    requires
        state.wf(),
        layout.wf(),
        state.is_current(layout),
        state.mode == (ScrollMode::Anchored { line_id, cell_offset }),
        state.pending_anchor is None,
        state.pending_scroll != 0,
        line_index(layout.page.rows@, line_id) is Some,
        ({
            let there = SurfaceState { layout: Some(layout), ..state };
            let target = top_of(there, state.last_viewport) + state.pending_scroll;
            0 <= target && target + state.last_viewport < layout.rows.len()
        }),
    ensures
        ({
            let there = SurfaceState { layout: Some(layout), ..state };
            let (after, drawn) = state.with_layout(layout);
            &&& drawn
            &&& after.layout == Some(layout)
            &&& after.top_row(state.last_viewport) == Some(
                top_of(there, state.last_viewport) + state.pending_scroll,
            )
            &&& after.pending_scroll == 0
        }),
{
    let entered = SurfaceState {
        layout: Some(layout),
        failed_reflow: None,
        pending_scroll: 0,
        pending_reflow: state.with_layout(layout).0.pending_reflow,
        ..state
    };
    let there = SurfaceState { layout: Some(layout), ..state };
    assert(there.top_row(state.last_viewport) == entered.top_row(state.last_viewport));
    assert(state.with_layout(layout).0 == entered.scrolled(
        state.pending_scroll,
        state.last_viewport,
    ).0);
    law_scroll_moves_by_its_rows(entered, state.pending_scroll, state.last_viewport);
}

/// Following the tail shows the end of what is drawn, counts no new lines,
/// gives up what was under way, and asks for the last lines if the view stood
/// elsewhere.
pub proof fn law_following_the_tail(state: SurfaceState)
    ensures
        ({
            let after = state.following_tail();
            &&& after.mode == ScrollMode::FollowTail
            &&& after.new_lines == 0
            &&& after.pending_scroll == 0
            &&& after.pending_anchor is None
            &&& after.page == state.page
            &&& after.layout == state.layout
            &&& state.mode != ScrollMode::FollowTail || state.pending_anchor is Some
                ==> after.request_dirty
            &&& state.request_dirty ==> after.request_dirty
        }),
{
}

/// An anchored view stands where it was told to, counts no new lines and gives
/// up what was under way.
pub proof fn law_anchoring(state: SurfaceState, line_id: u64, cell_offset: u32)
    ensures
        ({
            let after = state.anchored(line_id, cell_offset);
            &&& after.mode == (ScrollMode::Anchored { line_id, cell_offset })
            &&& after.new_lines == 0
            &&& after.pending_scroll == 0
            &&& after.pending_anchor is None
            &&& after.page == state.page
            &&& after.layout == state.layout
            &&& state.mode == ScrollMode::FollowTail || state.pending_anchor is Some
                ==> after.request_dirty
        }),
{
}

/// The distance between two lines.
pub open spec fn distance(one: u64, other: u64) -> int {
    if one <= other {
        other - one
    } else {
        one - other
    }
}

/// A jump goes to the line that was asked for, or to the nearest one that there
/// is: at once where it is drawn, and else as soon as its page is there. There
/// is no jump if and only if there are no lines.
pub proof fn law_jump_goes_to_the_nearest_line(
    state: SurfaceState,
    line_id: u64,
    cell_offset: u32,
)
    requires
        state.wf(),
    ensures
        ({
            let (after, jumps) = state.jumped(line_id, cell_offset);
            let total = state.page->0.total_line_count;
            &&& jumps <==> state.page is Some && total > 0
            &&& !jumps ==> after == state
            &&& jumps ==> exists|line: u64|
                {
                    &&& 1 <= line <= total
                    &&& forall|other: u64|
                        1 <= other <= total ==> distance(line, line_id) <= #[trigger] distance(
                            other,
                            line_id,
                        )
                    &&& {
                        ||| after.mode == (ScrollMode::Anchored { line_id: line, cell_offset })
                            && after.pending_anchor is None && (exists|i: int|
                            0 <= i < state.layout->0.page.rows@.len() && (
                            #[trigger] state.layout->0.page.rows@[i]).line_id == line)
                        ||| after.mode == state.mode && #[trigger] after.pending_anchor == Some(
                            (line, cell_offset),
                        ) && after.request_dirty && !(exists|i: int|
                            0 <= i < state.layout->0.page.rows@.len() && (
                            #[trigger] state.layout->0.page.rows@[i]).line_id == line)
                    }
                }
            &&& after.layout == state.layout
        }),
{
    let (after, jumps) = state.jumped(line_id, cell_offset);
    if jumps {
        let total = state.page->0.total_line_count;
        let line = state.jump_target(line_id);
        assert(1 <= line <= total);
        assert forall|other: u64| 1 <= other <= total implies distance(line, line_id)
            <= #[trigger] distance(other, line_id) by {}
    }
}

/// The page that a view asks for holds the line that the view stands on or
/// jumps to, is not larger than a page may be, and reaches as far on either
/// side as the screen and the overscan need; following the tail it ends with
/// the last line that is known.
pub proof fn law_wanted_page_holds_the_view(state: SurfaceState, viewport: u16)
    requires
        state.wf(),
        state.wanted_page(viewport) is Some,
    ensures
        ({
            let request = state.wanted_page(viewport)->0;
            let page = state.page->0;
            &&& state.page is Some
            &&& request.source_id == page.source_id
            &&& request.rows_before + 1 + request.rows_after <= MAX_LOG_PAGE_ROWS
            &&& request.follow_tail <==> state.pending_anchor is None && state.mode
                == ScrollMode::FollowTail
            &&& request.follow_tail ==> {
                &&& request.anchor_line_id == page.rows@.last().line_id
                &&& request.rows_after == 0
                &&& request.rows_before == viewport + state.overscan || request.rows_before + 1
                    == MAX_LOG_PAGE_ROWS && request.rows_before < viewport + state.overscan
            }
            &&& !request.follow_tail ==> {
                &&& request.rows_before == request.rows_after
                &&& request.rows_before == viewport + state.overscan || request.rows_before * 2 + 2
                    == MAX_LOG_PAGE_ROWS && request.rows_before < viewport + state.overscan
                &&& state.pending_anchor matches Some((line, cell)) ==> request.anchor_line_id
                    == line && request.cell_offset == cell
                &&& state.pending_anchor is None ==> state.mode == (ScrollMode::Anchored {
                    line_id: request.anchor_line_id,
                    cell_offset: request.cell_offset,
                })
            }
        }),
{
}

/// A view with nothing to show asks for no page; any other one knows which it
/// wants.
pub proof fn law_every_view_wants_a_page(state: SurfaceState, viewport: u16)
    requires
        state.wf(),
    ensures
        state.wanted_page(viewport) is None <==> state.page is None || state.pending_anchor is None
            && state.mode == ScrollMode::FollowTail && state.page->0.rows@.len() == 0,
{
}

/// The same page is not asked for twice in a row, and asking changes nothing
/// of what is shown.
pub proof fn law_page_is_asked_for_once(state: SurfaceState, viewport: u16)
    ensures
        ({
            let (after, asked) = state.asking_for_page(viewport);
            &&& asked matches Some(request) ==> state.wanted_page(viewport) == Some(request)
                && state.last_request != Some(request)
            &&& after.asking_for_page(viewport).1 is None
            &&& after.mode == state.mode && after.layout == state.layout && after.page == state.page
            &&& after.pending_anchor == state.pending_anchor && after.pending_scroll
                == state.pending_scroll
        }),
{
    let (after, asked) = state.asking_for_page(viewport);
    assert(after.wanted_page(viewport) == state.wanted_page(viewport));
    if state.wanted_page(viewport) is Some {
        let request = state.wanted_page(viewport)->0;
        assert(after.near_boundary(request, viewport) == state.near_boundary(request, viewport));
    }
}

/// A page is asked for when something has changed, when a jump or a scroll
/// waits for one, and when the view comes within half a screen and the overscan
/// of an end of the page behind which there is more, or stands on a line that
/// the page lacks.
pub proof fn law_page_is_asked_for_when_due(
    state: SurfaceState,
    viewport: u16,
    line_id: u64,
    cell_offset: u32,
    at: int,
)
    requires
        state.wf(),
        state.page is Some,
        state.mode == (ScrollMode::Anchored { line_id, cell_offset }),
        state.pending_anchor is None,
        state.wanted_page(viewport) != state.last_request,
        0 <= at < state.page->0.rows@.len(),
        state.page->0.rows@[at].line_id == line_id,
        viewport / 2 + state.overscan <= u16::MAX,
    ensures
        ({
            let page = state.page->0;
            let margin = viewport / 2 + state.overscan;
            state.asking_for_page(viewport).1 is Some <==> {
                ||| state.request_dirty
                ||| state.pending_scroll != 0
                ||| page.has_before && at <= margin
                ||| page.has_after && page.rows@.len() - 1 - at <= margin
            }
        }),
{
    crate::log_reflow::lemma_line_index(state.page->0.rows@, at);
}

/// A frame draws every row of the screen, no more than the overscan beyond it
/// on either side, and says which of its rows is at the top.
pub proof fn law_frame_draws_the_screen(
    state: SurfaceState,
    viewport: u16,
    frame: LogSurfaceFrame,
    row: int,
)
    requires
        state.wf(),
        state.layout is Some,
        state.frames(viewport, Some(frame)),
    ensures
        ({
            let layout = state.layout->0;
            let top = state.top_row(viewport)->0;
            let shown = frame.visible_rows;
            &&& *frame.page == layout.page
            &&& frame.visual_rows@ == layout.rows
            &&& shown.start <= shown.end <= layout.rows.len()
            &&& shown.start + frame.first_viewport_row == top
            &&& 0 <= row < layout.rows.len() && top <= row < top + viewport ==> shown.start <= row
                < shown.end
            &&& shown.start <= row < shown.end ==> top - state.overscan <= row < top + viewport
                + state.overscan
            &&& 0 <= row < layout.rows.len() && top - state.overscan <= row < top + viewport
                + state.overscan ==> shown.start <= row < shown.end
            &&& frame.new_lines_available == state.new_lines
        }),
{
    law_screen_shows_tail_or_anchor(state, viewport);
}

/// There is a frame and a scroll bar if and only if something is drawn and the
/// view stands on a line of it. The scroll bar tells the line at the top of an
/// anchored view, the last one when the tail is followed, and how many lines
/// there are.
pub proof fn law_scroll_bar_tells_where_the_view_stands(
    state: SurfaceState,
    viewport: u16,
    frame: Option<LogSurfaceFrame>,
)
    requires
        state.wf(),
        state.frames(viewport, frame),
    ensures
        ({
            let bar = state.scrollbar(viewport);
            &&& bar is Some <==> frame is Some
            &&& bar matches Some(bar) ==> {
                let layout = state.layout->0;
                let top = state.top_row(viewport)->0;
                &&& bar.follow_tail <==> state.mode == ScrollMode::FollowTail
                &&& bar.viewport_rows == viewport
                &&& bar.total_line_count == state.page->0.total_line_count
                &&& bar.follow_tail ==> bar.top_line_id == layout.page.total_line_count
                &&& !bar.follow_tail ==> bar.top_line_id
                    == layout.page.rows@[layout.rows[top].logical_row_index as int].line_id
            }
        }),
{
    if state.layout is Some {
        law_screen_shows_tail_or_anchor(state, viewport);
    }
}

/// Another log begins at its tail, with its own page drawn at once and nothing
/// left of what was under way in the one before it.
pub proof fn law_another_log_begins_at_its_tail(state: SurfaceState, page: LogPage)
    requires
        state.wf(),
        state.page is Some,
        state.page->0.source_id != page.source_id,
        state.refusal(page) is None,
    ensures
        ({
            let after = state.with_page(page);
            &&& after.page == Some(page)
            &&& after.mode == ScrollMode::FollowTail
            &&& after.layout is Some && after.layout->0.page == page
            &&& after.new_lines == 0
            &&& after.pending_anchor is None
            &&& after.pending_scroll == 0
            &&& after.request_dirty
        }),
{
}

/// Only what is newer is taken: a page of the same log that is not newer
/// changes nothing, and one that is taken is the newest page.
pub proof fn law_newest_page_is_kept(state: SurfaceState, page: LogPage)
    requires
        state.wf(),
        state.refusal(page) is None,
    ensures
        state.is_stale(page) <==> state.page is Some && state.page->0.source_id == page.source_id
            && page.revision <= state.page->0.revision,
        state.with_page(page).page == Some(page),
        state.page is None ==> state.with_page(page).layout is Some && state.with_page(
            page,
        ).layout->0.page == page && state.with_page(page).request_dirty,
{
}

/// A view that follows the tail is never behind it. One that stands on a line
/// falls behind by as many lines as a page of the same log has more than the
/// last one, and by none where it has fewer.
pub proof fn law_new_lines_are_counted(state: SurfaceState, page: LogPage)
    requires
        state.page matches Some(current) && current.source_id == page.source_id,
        state.new_lines + page.total_line_count <= u64::MAX,
    ensures
        state.mode == ScrollMode::FollowTail ==> state.lines_behind(page) == 0,
        state.mode != ScrollMode::FollowTail && page.total_line_count
            >= state.page->0.total_line_count ==> state.lines_behind(page) == state.new_lines
            + page.total_line_count - state.page->0.total_line_count,
        state.mode != ScrollMode::FollowTail && page.total_line_count
            < state.page->0.total_line_count ==> state.lines_behind(page) == state.new_lines,
        state.with_page(page).new_lines == state.lines_behind(page),
{
}

/// A page of the same log is refused where the line that the view stands on, or
/// waits for, is not among its rows.
pub proof fn law_page_without_the_line_is_refused(
    state: SurfaceState,
    page: LogPage,
    line_id: u64,
    cell_offset: u32,
)
    requires
        crate::log_reflow::valid_page(page),
        state.page matches Some(current) ==> current.source_id == page.source_id
            && page.revision > current.revision,
        state.pending_anchor == Some((line_id, cell_offset)) || state.pending_anchor is None
            && state.mode == (ScrollMode::Anchored { line_id, cell_offset }),
    ensures
        state.refusal(page) is None <==> exists|i: int|
            0 <= i < page.rows@.len() && (#[trigger] page.rows@[i]).line_id == line_id,
{
}

} // verus!
