use cshell::glyph_atlas::{
    ascii_glyph, atlas_pixel, churn_atlas, drain_atlas_upload, fits_tile, tile_origin, ChurnEnd,
    GlyphAtlas, GlyphContent, GlyphImage, UploadTally, ATLAS_BYTES_PER_PIXEL, ATLAS_HEIGHT,
    ATLAS_WIDTH,
};
use cshell::log_reflow::{LogPage, LogRow, LogSourceId, LogStyleSpan, LogVisualRow};
use cshell::log_surface::{LogSurfaceFrame, LogSurfaceModel};
use cshell::paint::{
    log_geometry_key, plan_cell, plan_frame_row, resolve_color, search_layers, surface_step,
    terminal_geometry_key, xterm_color, CellPaint, ClusterPaint, Ink, LogDecorations,
    LogSearchMatch, RenderOutcome, SurfaceStatus, SurfaceStep, TerminalViewport,
};
use cshell::surface::{TerminalSurfaceModel, ViewportPlanner};
use cshell::terminal::{
    Cell, CellWidth, Color, CursorAppearance, CursorShape, FrameSnapshot, Style,
};
use cshell::terminal_interaction::{
    answer_lines, search_terminal_snapshot, SearchableRow, TerminalCellPoint, TerminalDecorations, TerminalInteractionError,
    TerminalSearchMatch, TerminalSearchOptions, TerminalSearchResult, TerminalSelection,
    TerminalSelectionMode, MAX_TERMINAL_SEARCH_MATCHES, MAX_TERMINAL_SEARCH_QUERY_BYTES,
};
use std::sync::Arc;

fn snapshot(rows: &[Vec<Cell>]) -> FrameSnapshot {
    let row_count = u16::try_from(rows.len())
        .unwrap_or_else(|error| panic!("test row count must fit u16: {error:?}"));
    let cols = u16::try_from(rows.first().map_or(0, Vec::len))
        .unwrap_or_else(|error| panic!("test column count must fit u16: {error:?}"));
    FrameSnapshot {
        generation: 1,
        rows: row_count,
        cols,
        cursor_row: 0,
        cursor_col: 0,
        cursor_appearance: Default::default(),
        cells: rows.iter().flatten().cloned().collect(),
    }
}

fn cells(text: &str, cols: usize) -> Vec<Cell> {
    text.chars()
        .map(|character| Cell::new(character, CellWidth::Single, Default::default()))
        .chain(std::iter::repeat_with(Cell::default))
        .take(cols)
        .collect()
}

#[test]
fn character_line_and_block_selection_copy_project_owned_cells() {
    let frame = snapshot(&[cells("alpha", 5), cells("bravo", 5), cells("charl", 5)]);
    let selection = TerminalSelection {
        anchor: TerminalCellPoint { row: 0, column: 2 },
        focus: TerminalCellPoint { row: 1, column: 2 },
        mode: TerminalSelectionMode::Character,
    };
    assert_eq!(
        selection
            .text(&frame)
            .unwrap_or_else(|error| panic!("selection must fit: {error:?}")),
        "pha\nbra"
    );
    assert!(selection.contains(&frame, 1, 1));
    assert!(!selection.contains(&frame, 2, 0));

    assert_eq!(
        TerminalSelection {
            mode: TerminalSelectionMode::Line,
            ..selection
        }
        .text(&frame)
        .unwrap_or_else(|error| panic!("line selection must fit: {error:?}")),
        "alpha\nbravo"
    );
    assert_eq!(
        TerminalSelection {
            anchor: TerminalCellPoint { row: 0, column: 1 },
            focus: TerminalCellPoint { row: 2, column: 3 },
            mode: TerminalSelectionMode::Block,
        }
        .text(&frame)
        .unwrap_or_else(|error| panic!("block selection must fit: {error:?}")),
        "lph\nrav\nhar"
    );
}

#[test]
fn selection_and_search_preserve_wide_and_combining_cell_boundaries() {
    let wide = Cell::with_zerowidth('界', vec!['\u{fe0f}'], CellWidth::Wide, Default::default());
    let frame = snapshot(&[vec![
        Cell::new('A', CellWidth::Single, Default::default()),
        wide,
        Cell::new(' ', CellWidth::WideSpacer, Default::default()),
        Cell::new('B', CellWidth::Single, Default::default()),
    ]]);
    let selection = TerminalSelection {
        anchor: TerminalCellPoint { row: 0, column: 2 },
        focus: TerminalCellPoint { row: 0, column: 3 },
        mode: TerminalSelectionMode::Character,
    };
    assert_eq!(
        selection
            .text(&frame)
            .unwrap_or_else(|error| panic!("wide selection must fit: {error:?}")),
        "界️B"
    );

    let result = search_terminal_snapshot(
        &frame,
        "界️B",
        TerminalSearchOptions {
            case_sensitive: true,
            whole_word: false,
            regex: false,
        },
    )
    .unwrap_or_else(|error| panic!("wide search must be valid: {error:?}"));
    assert_eq!(result.matches.len(), 1);
    assert_eq!(result.matches[0].start.column, 1);
    assert_eq!(result.matches[0].end.column, 3);
}

#[test]
fn search_supports_unicode_case_and_whole_word_with_hard_limits() {
    let frame = snapshot(&[cells("Rust rustacean RUST", 19)]);
    let result = search_terminal_snapshot(
        &frame,
        "rust",
        TerminalSearchOptions {
            case_sensitive: false,
            whole_word: true,
            regex: false,
        },
    )
    .unwrap_or_else(|error| panic!("whole-word search must be valid: {error:?}"));
    assert_eq!(result.matches.len(), 2);
    assert_eq!(result.matches[0].start.column, 0);
    assert_eq!(result.matches[1].start.column, 15);

    assert!(matches!(
        search_terminal_snapshot(
            &frame,
            &"x".repeat(MAX_TERMINAL_SEARCH_QUERY_BYTES + 1),
            TerminalSearchOptions::default()
        ),
        Err(TerminalInteractionError::SearchQueryTooLong { .. })
    ));

    let many = snapshot(&[cells(
        &"a".repeat(MAX_TERMINAL_SEARCH_MATCHES + 8),
        MAX_TERMINAL_SEARCH_MATCHES + 8,
    )]);
    let result = search_terminal_snapshot(&many, "a", TerminalSearchOptions::default())
        .unwrap_or_else(|error| panic!("bounded search must be valid: {error:?}"));
    assert_eq!(result.matches.len(), MAX_TERMINAL_SEARCH_MATCHES);
    assert!(result.truncated);
}

#[test]
fn regex_search_is_bounded_validated_and_maps_terminal_cells() {
    let wide = Cell::with_zerowidth('界', vec!['\u{fe0f}'], CellWidth::Wide, Default::default());
    let frame = snapshot(&[vec![
        Cell::new('A', CellWidth::Single, Default::default()),
        wide,
        Cell::new(' ', CellWidth::WideSpacer, Default::default()),
        Cell::new('B', CellWidth::Single, Default::default()),
    ]]);
    let options = TerminalSearchOptions {
        case_sensitive: true,
        whole_word: false,
        regex: true,
    };
    let result = search_terminal_snapshot(&frame, "界.*B", options)
        .unwrap_or_else(|error| panic!("regex search must be valid: {error:?}"));
    assert_eq!(result.matches.len(), 1);
    assert_eq!(result.matches[0].start.column, 1);
    assert_eq!(result.matches[0].end.column, 3);

    assert!(matches!(
        search_terminal_snapshot(&frame, "[", options),
        Err(TerminalInteractionError::InvalidSearchRegex(_))
    ));
    assert_eq!(
        search_terminal_snapshot(&frame, "a*", options),
        Err(TerminalInteractionError::EmptySearchRegexMatch)
    );
    assert_eq!(
        search_terminal_snapshot(&frame, "\\b", options),
        Err(TerminalInteractionError::EmptySearchRegexMatch)
    );

    let literal = snapshot(&[cells("a.b acb", 7)]);
    let literal_result =
        search_terminal_snapshot(&literal, "a.b", TerminalSearchOptions::default())
            .unwrap_or_else(|error| panic!("literal search must escape regex syntax: {error:?}"));
    assert_eq!(literal_result.matches.len(), 1);
    assert_eq!(literal_result.matches[0].start.column, 0);
}

#[test]
fn a_match_holds_the_cells_between_its_ends() {
    let found = TerminalSearchMatch {
        start: TerminalCellPoint { row: 1, column: 3 },
        end: TerminalCellPoint { row: 1, column: 5 },
    };
    assert!(found.contains(1, 3));
    assert!(found.contains(1, 5));
    assert!(!found.contains(1, 2));
    assert!(!found.contains(1, 6));
    assert!(!found.contains(2, 4));
}

// ---------------------------------------------------------------------------
// Surfaces.

fn blank(generation: u64, rows: u16, cols: u16) -> FrameSnapshot {
    FrameSnapshot {
        generation,
        rows,
        cols,
        cursor_row: 0,
        cursor_col: 0,
        cursor_appearance: Default::default(),
        cells: vec![Cell::default(); usize::from(rows) * usize::from(cols)],
    }
}

#[test]
fn only_visible_rows_and_overscan_are_planned() {
    let snapshot = blank(9, 100, 80);
    let plan = ViewportPlanner::new(2).plan(&snapshot, 50, 20);
    assert_eq!(plan.visible_rows, 48..72);
    assert_eq!(plan.glyph_instances_upper_bound, 24 * 80);
}

#[test]
fn terminal_surface_accepts_latest_arc_and_rejects_stale_generations() {
    let snapshot = |generation| Arc::new(blank(generation, 24, 80));
    let mut surface = TerminalSurfaceModel::default();
    assert!(surface.submit_snapshot(snapshot(3)));
    assert!(!surface.submit_snapshot(snapshot(2)));
    let first = surface
        .prepare_frame(0, 20)
        .unwrap_or_else(|| panic!("submitted snapshot must prepare a frame"));
    assert_eq!(first.plan.generation, 3);
    assert!(first.generation_changed);
    assert!(
        !surface
            .prepare_frame(0, 20)
            .unwrap_or_else(|| panic!("submitted snapshot must remain available"))
            .generation_changed
    );

    let newest = snapshot(4);
    assert!(surface.submit_snapshot(Arc::clone(&newest)));
    let frame = surface
        .prepare_frame(0, 20)
        .unwrap_or_else(|| panic!("newer snapshot must prepare a frame"));
    assert!(Arc::ptr_eq(&frame.snapshot, &newest));
    assert!(frame.generation_changed);
}

#[test]
fn rows_are_found_by_their_number() {
    let snapshot = blank(1, 2, 3);
    assert_eq!(snapshot.row(1).unwrap().len(), 3);
    assert!(snapshot.row(2).is_none());
}

#[test]
fn each_state_of_a_surface_has_its_step() {
    assert_eq!(surface_step(SurfaceStatus::Ready), SurfaceStep::Draw { reconfigure: false });
    assert_eq!(surface_step(SurfaceStatus::Occluded), SurfaceStep::Skip);
    assert_eq!(
        surface_step(SurfaceStatus::Lost),
        SurfaceStep::Reconfigure { recreate: true }
    );
    assert_eq!(surface_step(SurfaceStatus::Invalid), SurfaceStep::Fail);
    assert_eq!(SurfaceStep::Skip.outcome(), Some(RenderOutcome::Skipped));
    assert_eq!(SurfaceStep::Fail.outcome(), None);
}

#[test]
fn logical_terminal_rect_converts_to_an_outward_rounded_physical_viewport() {
    let pixels_per_point = 2.0_f32;
    let low = |edge: f32| (edge * pixels_per_point).floor().max(0.0) as u32;
    let high = |edge: f32| (edge * pixels_per_point).ceil().max(0.0) as u32;
    let viewport =
        TerminalViewport::from_corners(low(10.25), low(20.5), high(100.1), high(80.1));
    assert_eq!(viewport, TerminalViewport { x: 20, y: 41, width: 181, height: 120 });
    assert_eq!(
        viewport.clamp(150, 100),
        TerminalViewport { x: 20, y: 41, width: 130, height: 59 }
    );
    assert!(viewport.clamp(10, 10).is_empty());
    assert_eq!(
        TerminalViewport::from_corners(5, 6, 4, 7),
        TerminalViewport { x: 5, y: 6, width: 0, height: 1 }
    );
}

// ---------------------------------------------------------------------------
// Painting.

#[test]
fn xterm_palette_covers_ansi_cube_and_grayscale() {
    assert_eq!(xterm_color(1), [205, 49, 49]);
    assert_eq!(xterm_color(16), [0, 0, 0]);
    assert_eq!(xterm_color(231), [255, 255, 255]);
    assert_eq!(xterm_color(232), [8, 8, 8]);
    assert_eq!(xterm_color(255), [238, 238, 238]);
}

/// The corners of the triangles that paints are drawn with: two triangles for
/// each rectangle, four rectangles for the outline of a cell.
fn corners(paints: &[CellPaint]) -> usize {
    paints
        .iter()
        .map(|paint| match paint {
            CellPaint::Cursor(CursorShape::HollowBlock, _) => 24,
            _ => 6,
        })
        .sum()
}

#[test]
fn terminal_cells_generate_bounded_background_glyph_and_underline_quads() {
    let snapshot = FrameSnapshot {
        generation: 1,
        rows: 1,
        cols: 2,
        cursor_row: 0,
        cursor_col: 1,
        cursor_appearance: Default::default(),
        cells: vec![
            Cell::new(
                'A',
                CellWidth::Single,
                Style {
                    foreground: Color::Indexed(196),
                    background: Color::Indexed(17),
                    underline: true,
                    ..Style::default()
                },
            ),
            Cell::default(),
        ],
    };
    let [red, green, blue] = xterm_color(196);
    let foreground = Ink::Solid { red, green, blue };
    let [red, green, blue] = xterm_color(17);
    let background = Ink::Solid { red, green, blue };
    let mut paints = plan_cell(&snapshot, &snapshot.cells[0], 0, 0, 0, false, true);
    assert_eq!(
        paints,
        [
            CellPaint::Background(background),
            CellPaint::Glyphs(foreground),
            CellPaint::Underline(foreground),
        ]
    );
    paints.extend(plan_cell(&snapshot, &snapshot.cells[1], 0, 1, 0, false, true));
    assert_eq!(corners(&paints), 24);
}

#[test]
fn cursor_shapes_generate_bounded_geometry_and_apply_explicit_color() {
    let mut snapshot = blank(1, 1, 1);
    let cell = Cell::default();
    let mut paint = |appearance, visible| {
        snapshot.cursor_appearance = appearance;
        plan_cell(&snapshot, &cell, 0, 0, 0, false, visible)
    };
    let shaped = |shape| CursorAppearance { shape, ..CursorAppearance::default() };
    assert_eq!(corners(&paint(CursorAppearance::default(), true)), 6);
    assert_eq!(corners(&paint(CursorAppearance::default(), false)), 0);
    assert_eq!(corners(&paint(shaped(CursorShape::Hidden), true)), 0);
    assert_eq!(corners(&paint(shaped(CursorShape::Underline), true)), 6);
    assert_eq!(corners(&paint(shaped(CursorShape::HollowBlock), true)), 24);
    let beam = paint(
        CursorAppearance {
            shape: CursorShape::Beam,
            blinking: true,
            color: Some(Color::Rgb(255, 0, 0)),
        },
        true,
    );
    assert_eq!(corners(&beam), 6);
    assert_eq!(
        beam,
        [CellPaint::Cursor(CursorShape::Beam, Ink::Solid { red: 255, green: 0, blue: 0 })]
    );
}

#[test]
fn search_selection_and_cursor_overlays_follow_the_documented_layer_order() {
    let point = TerminalCellPoint { row: 0, column: 0 };
    let snapshot = blank(1, 1, 1);
    let decorations = TerminalDecorations {
        revision: 1,
        selection: Some(TerminalSelection {
            anchor: point,
            focus: point,
            mode: TerminalSelectionMode::Character,
        }),
        search: TerminalSearchResult {
            matches: vec![TerminalSearchMatch { start: point, end: point }],
            truncated: false,
        },
        active_search_match: Some(0),
    };
    let layers = search_layers(&decorations, 1, 0, 1);
    assert_eq!(layers, [2]);
    let selected = decorations.selection.unwrap().contains(&snapshot, 0, 0);
    let paints = plan_cell(&snapshot, &Cell::default(), 0, 0, layers[0], selected, true);
    assert_eq!(corners(&paints), 18);
    assert_eq!(
        paints,
        [
            CellPaint::ActiveSearchMatch,
            CellPaint::Selection,
            CellPaint::CursorBlock(resolve_color(Color::Default, true)),
        ]
    );
    let passive = TerminalDecorations { active_search_match: None, ..decorations };
    assert_eq!(search_layers(&passive, 1, 0, 1), [1]);
}

fn log_frame(text: &str, spans: Vec<LogStyleSpan>, end_byte: u32) -> LogSurfaceFrame {
    let page = Arc::new(LogPage {
        source_id: LogSourceId(4),
        revision: 1,
        anchor_line_id: 9,
        rows: vec![LogRow {
            line_id: 9,
            text: text.to_owned(),
            style_spans: spans,
            truncated: false,
        }],
        total_line_count: 1,
        has_before: false,
        has_after: false,
    });
    LogSurfaceFrame {
        page,
        visual_rows: Arc::new(vec![LogVisualRow {
            logical_row_index: 0,
            start_byte: 0,
            end_byte,
            start_cell: 0,
            end_cell: u32::MAX,
        }]),
        layout_columns: 0,
        visible_rows: 0..1,
        first_viewport_row: 0,
        cell_offset: 0,
        new_lines_available: 0,
    }
}

/// The corners of the triangles that clusters are drawn with, where each
/// cluster has one glyph.
fn cluster_corners(paints: &[ClusterPaint]) -> usize {
    paints
        .iter()
        .map(|paint| {
            let filled = paint.highlighted || paint.background != Ink::Clear;
            let parts = [filled, paint.has_glyphs, paint.style.underline];
            parts.iter().filter(|part| **part).count() * 6
        })
        .sum()
}

#[test]
fn log_rows_generate_only_visible_styled_unicode_geometry() {
    let span = LogStyleSpan {
        byte_range: 0..1,
        style: Style {
            foreground: Color::Indexed(196),
            background: Color::Indexed(17),
            underline: true,
            ..Style::default()
        },
    };
    let frame = log_frame("A中", vec![span], 4);
    let paints = plan_frame_row(&frame, 0, &LogDecorations::default()).unwrap();
    assert_eq!(cluster_corners(&paints), 24);
    assert!(paints[0].style.underline);
    assert_eq!((paints[0].cell, paints[0].columns), (0, 1));
    assert_eq!((paints[1].cell, paints[1].columns), (1, 2));
    assert!(paints.iter().all(|paint| !paint.highlighted));

    let decorations = LogDecorations {
        revision: 1,
        active_search_match: Some(LogSearchMatch { line_id: 9, byte_range: 1..4 }),
    };
    let paints = plan_frame_row(&frame, 0, &decorations).unwrap();
    assert_eq!(cluster_corners(&paints), 30);
    assert!(!paints[0].highlighted);
    assert!(paints[1].highlighted);

    let clipped = LogSurfaceFrame { cell_offset: 1, ..frame };
    let paints = plan_frame_row(&clipped, 0, &LogDecorations::default()).unwrap();
    assert_eq!(cluster_corners(&paints), 6);
    assert_eq!(paints.len(), 1);
    assert_eq!(paints[0].start_byte, 1);
    assert!(plan_frame_row(&clipped, 1, &LogDecorations::default()).is_none());
}

#[test]
fn wrapped_log_geometry_scans_each_visual_text_slice_once() {
    let page = LogPage {
        source_id: LogSourceId(5),
        revision: 1,
        anchor_line_id: 1,
        rows: vec![LogRow {
            line_id: 1,
            text: "ABCD".to_owned(),
            style_spans: Vec::new(),
            truncated: false,
        }],
        total_line_count: 1,
        has_before: false,
        has_after: false,
    };
    let mut surface = LogSurfaceModel::new(0);
    surface.submit_page(Arc::new(page)).unwrap();
    let layout = surface.request_reflow(2).unwrap().execute().unwrap();
    assert!(surface.submit_reflow(layout));
    let frame = surface.prepare_frame(2).unwrap();
    assert_eq!(frame.visual_rows.len(), 2);
    let mut paints = Vec::new();
    for row in 0..2 {
        paints.extend(plan_frame_row(&frame, row, &LogDecorations::default()).unwrap());
    }
    assert_eq!(cluster_corners(&paints), 24);
}

#[test]
fn geometry_is_kept_while_nothing_changes() {
    let viewport = TerminalViewport { x: 0, y: 0, width: 10, height: 10 };
    let frame = log_frame("A", Vec::new(), 1);
    let key = |revision| {
        let decorations = LogDecorations { revision, active_search_match: None };
        log_geometry_key(&frame, &decorations, 10, 10, viewport)
    };
    assert_eq!(key(1), key(1));
    assert_ne!(key(1), key(2));

    let mut surface = TerminalSurfaceModel::default();
    surface.submit_snapshot(Arc::new(blank(1, 1, 1)));
    let frame = surface.prepare_frame(0, 1).unwrap();
    let decorations = TerminalDecorations::default();
    let key = |visible| terminal_geometry_key(&frame, &decorations, visible, 10, 10, viewport);
    assert_eq!(key(true), key(true));
    assert_ne!(key(true), key(false));
}

// ---------------------------------------------------------------------------
// The atlas.

#[test]
fn dirty_glyph_regions_merge_into_one_compact_upload() {
    let mut atlas = GlyphAtlas::new();
    while atlas.take_dirty_upload().is_some() {}
    atlas.mark_dirty(10, 20, 3, 4);
    atlas.mark_dirty(20, 15, 2, 2);

    let Some(upload) = atlas.take_dirty_upload() else {
        panic!("dirty atlas upload");
    };
    assert_eq!(upload.origin, [10, 15]);
    assert_eq!(upload.size, [12, 9]);
    assert_eq!(upload.bytes.len(), 12 * 9 * 4);
    assert!(atlas.take_dirty_upload().is_none());
}

#[test]
fn dynamic_atlas_evicts_the_oldest_unpinned_glyph() {
    let mut atlas = GlyphAtlas::with_area(30, 10);
    for key in [1, 2, 3] {
        assert!(atlas.reserve(key, 10, 10).is_some());
    }
    atlas.begin_frame();
    atlas.pin(1);
    assert!(atlas.reserve(4, 10, 10).is_some());
    assert!(atlas.contains(1));
    assert!(!atlas.contains(2));
    assert!(atlas.contains(3));
    assert_eq!(atlas.evictions(), 1);
}

#[test]
fn full_atlas_pressure_preserves_bounds_and_rerasterizes() {
    let mut shown = GlyphAtlas::new();
    let image = GlyphImage {
        width: 8,
        height: 10,
        left: 0,
        top: 9,
        content: GlyphContent::Mask,
        data: &[9; 80],
    };
    assert!(shown.place_glyph(5, &image).is_some());
    let tally = drain_atlas_upload(&mut shown, UploadTally::default());
    assert_eq!((tally.operations, tally.bytes, tally.largest), (1, 320, 320));
    assert!(!shown.forget(6));
    assert!(shown.forget(5));
    assert!(!shown.contains(5));
    assert_eq!(shown.glyph_count(), 0);
    let revision = shown.revision();
    assert!(shown.place_glyph(5, &image).is_some());
    assert!(shown.contains(5));
    assert!(shown.revision() > revision);
    let tally = drain_atlas_upload(&mut shown, tally);
    assert_eq!((tally.operations, tally.bytes, tally.largest), (2, 640, 320));
    let mut atlas = GlyphAtlas::new();
    let churn = churn_atlas(&mut atlas, 8, tally);
    assert_eq!(churn.tally.operations, churn.reserved + 2);
    assert_eq!(atlas.pixels().len(), 2048 * 2048 * 4);
    assert_eq!(churn.end, ChurnEnd::Worn);
    assert!(churn.capacity > 0);
    assert!(atlas.evictions() >= 8);
    assert!(atlas.contains(churn.first_key.unwrap()));
    assert!(churn.tally.integrity);
    assert!(churn.tally.largest < atlas.pixels().len());
}

#[test]
fn glyphs_go_only_where_there_is_no_room() {
    let mut atlas = GlyphAtlas::with_area(64, 64);
    let churn = churn_atlas(&mut atlas, 1, UploadTally::default());
    assert_eq!(churn.end, ChurnEnd::Worn);
    assert_eq!(churn.capacity, atlas.glyph_count());
    assert_eq!(churn.reserved, atlas.glyph_count() as u64 + atlas.evictions());
    let mut atlas = GlyphAtlas::new();
    atlas.begin_frame();
    assert!(atlas.reserve(1, 20, 20).is_some());
    atlas.begin_frame();
    assert!(atlas.reserve(2, 20, 20).is_some());
    assert!(atlas.contains(1));
    assert_eq!(atlas.evictions(), 0);
}

#[test]
fn found_ranges_become_matches_of_the_lines() {
    let lines = vec![SearchableRow {
        row: 3,
        text: "a界b".to_owned(),
        columns: vec![0, 1, 1, 1, 3],
    }];
    let options = TerminalSearchOptions { case_sensitive: true, whole_word: false, regex: true };
    let result = answer_lines(&lines, Ok(vec![Vec::new(), vec![(1, 4)]]), options).unwrap();
    assert_eq!(
        result.matches,
        vec![TerminalSearchMatch {
            start: TerminalCellPoint { row: 3, column: 1 },
            end: TerminalCellPoint { row: 3, column: 1 },
        }]
    );
    assert_eq!(
        answer_lines(&lines, Ok(vec![vec![(0, 0)], Vec::new()]), options),
        Err(TerminalInteractionError::EmptySearchRegexMatch)
    );
    assert_eq!(
        answer_lines(&lines, Err("no".to_owned()), options),
        Err(TerminalInteractionError::InvalidSearchRegex("no".to_owned()))
    );
}

#[test]
fn placed_glyphs_are_painted_where_they_stand() {
    let mut atlas = GlyphAtlas::new();
    let image = GlyphImage {
        width: 2,
        height: 1,
        left: 3,
        top: 4,
        content: GlyphContent::Mask,
        data: &[17, 34],
    };
    let glyph = atlas.place_glyph(7, &image).unwrap();
    assert_eq!((glyph.width, glyph.height, glyph.left, glyph.top), (2, 1, 3, 4));
    assert!(!glyph.colored);
    assert_eq!((glyph.atlas_x, glyph.atlas_y), (2, 66));
    let at = ((glyph.atlas_y * ATLAS_WIDTH + glyph.atlas_x) * ATLAS_BYTES_PER_PIXEL) as usize;
    assert_eq!(atlas.pixels()[at..at + 8], [255, 255, 255, 17, 255, 255, 255, 34]);
    assert_eq!(atlas.revision(), 1);
    assert_eq!(atlas.lookup(7), Some(glyph));
    assert_eq!(atlas.lookup(8), None);
    let empty = GlyphImage { width: 0, ..image };
    assert!(atlas.place_glyph(9, &empty).is_none());
    assert_eq!(atlas.glyph_count(), 1);
}

#[test]
fn swash_pixels_preserve_color_and_convert_masks_to_white_alpha() {
    assert_eq!(atlas_pixel(GlyphContent::Mask, &[17], 0), [255, 255, 255, 17]);
    assert_eq!(atlas_pixel(GlyphContent::Color, &[10, 20, 30, 40], 0), [10, 20, 30, 40]);
    assert_eq!(
        atlas_pixel(GlyphContent::SubpixelMask, &[10, 80, 30, 0], 0),
        [255, 255, 255, 80]
    );
}

#[test]
fn tiles_of_ascii_glyphs_stand_apart() {
    assert_eq!(ascii_glyph('中'), ascii_glyph('?'));
    assert_ne!(ascii_glyph('A'), ascii_glyph('B'));
    let first = tile_origin(0);
    let second = tile_origin(1);
    assert!(first.0 + 32 <= second.0 || first.1 + 32 <= second.1);
    assert!(fits_tile(28, 28));
    assert!(!fits_tile(33, 1));
    assert!(tile_origin(94).1 < ATLAS_HEIGHT);
}
