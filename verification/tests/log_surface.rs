use cshell::log_reflow::{
    LogPage, LogRow, LogSourceId, LogStyleSpan, LogSurfaceError, LogVisualRow, MAX_LOG_PAGE_ROWS,
    MAX_LOG_PAGE_STYLE_SPANS, MAX_LOG_PAGE_TEXT_BYTES, MAX_LOG_REFLOW_ROWS,
};
use cshell::log_surface::LogSurfaceModel;
use cshell::surface::ScrollMode;
use cshell::terminal::{Color, Style};
use std::sync::Arc;

fn page(revision: u64, ids: std::ops::Range<u64>, total: u64) -> Arc<LogPage> {
    let rows: Vec<LogRow> = ids
        .map(|line_id| LogRow {
            line_id,
            text: format!("line {line_id}"),
            style_spans: Vec::new(),
            truncated: false,
        })
        .collect();
    Arc::new(LogPage {
        source_id: LogSourceId(7),
        revision,
        anchor_line_id: rows.first().map_or(0, |row| row.line_id),
        rows,
        total_line_count: total,
        has_before: true,
        has_after: false,
    })
}

#[test]
fn follow_tail_plans_only_viewport_and_overscan_without_copying_rows() {
    let page = page(1, 100..120, 120);
    let mut surface = LogSurfaceModel::new(2);
    assert!(
        surface
            .submit_page(Arc::clone(&page))
            .unwrap_or_else(|error| panic!("{error:?}"))
    );

    let frame = surface
        .prepare_frame(5)
        .unwrap_or_else(|| panic!("submitted page should render"));
    assert!(Arc::ptr_eq(&frame.page, &page));
    assert_eq!(frame.visible_rows, 13..20);
    assert_eq!(frame.first_viewport_row, 2);
    assert_eq!(frame.page.rows[15].line_id, 115);
}

#[test]
fn anchored_view_does_not_move_when_new_tail_lines_arrive() {
    let mut surface = LogSurfaceModel::new(1);
    surface
        .submit_page(page(1, 100..120, 120))
        .unwrap_or_else(|error| panic!("{error:?}"));
    surface.anchor(105, 17);
    let before = surface
        .prepare_frame(4)
        .unwrap_or_else(|| panic!("anchor should be visible"));

    surface
        .submit_page(page(2, 100..120, 130))
        .unwrap_or_else(|error| panic!("{error:?}"));
    let after = surface
        .prepare_frame(4)
        .unwrap_or_else(|| panic!("anchor should remain visible"));
    assert_eq!(
        surface.mode(),
        ScrollMode::Anchored {
            line_id: 105,
            cell_offset: 17,
        }
    );
    assert_eq!(before.visible_rows, after.visible_rows);
    assert_eq!(after.page.rows[5].line_id, 105);
    assert_eq!(after.cell_offset, 17);
    assert_eq!(after.new_lines_available, 10);
}

#[test]
fn page_missing_the_active_anchor_is_rejected_without_replacing_current_data() {
    let original = page(1, 100..120, 120);
    let mut surface = LogSurfaceModel::default();
    surface
        .submit_page(Arc::clone(&original))
        .unwrap_or_else(|error| panic!("{error:?}"));
    surface.anchor(105, 0);

    assert_eq!(
        surface.submit_page(page(2, 200..220, 220)),
        Err(LogSurfaceError::AnchorMissing(105))
    );
    let frame = surface
        .prepare_frame(5)
        .unwrap_or_else(|| panic!("original page should remain available"));
    assert!(Arc::ptr_eq(&frame.page, &original));
}

#[test]
fn stale_pages_are_ignored_and_source_changes_return_to_tail() {
    let mut surface = LogSurfaceModel::default();
    surface
        .submit_page(page(3, 10..20, 20))
        .unwrap_or_else(|error| panic!("{error:?}"));
    surface.anchor(12, 0);
    assert!(
        !surface
            .submit_page(page(2, 10..20, 20))
            .unwrap_or_else(|error| panic!("{error:?}"))
    );

    let mut replacement = (*page(1, 500..510, 510)).clone();
    replacement.source_id = LogSourceId(8);
    surface
        .submit_page(Arc::new(replacement))
        .unwrap_or_else(|error| panic!("{error:?}"));
    assert_eq!(surface.mode(), ScrollMode::FollowTail);
    assert_eq!(surface.new_lines_available(), 0);
}

#[test]
fn page_request_keeps_stable_line_and_cell_anchor() {
    let mut surface = LogSurfaceModel::new(3);
    surface
        .submit_page(page(1, 40..60, 60))
        .unwrap_or_else(|error| panic!("{error:?}"));
    surface.anchor(47, 9);
    let request = surface
        .page_request(20)
        .unwrap_or_else(|| panic!("loaded source should produce a request"));
    assert_eq!(request.source_id, LogSourceId(7));
    assert!(!request.follow_tail);
    assert_eq!(request.anchor_line_id, 47);
    assert_eq!(request.cell_offset, 9);
    assert_eq!(request.rows_before, 23);
    assert_eq!(request.rows_after, 23);
}

#[test]
fn paging_requests_are_coalesced_until_the_view_nears_a_page_boundary() {
    let mut surface = LogSurfaceModel::new(10);
    surface.submit_page(page(1, 100..300, 300)).unwrap();
    let layout = surface.request_reflow(80).unwrap().execute().unwrap();
    assert!(surface.submit_reflow(layout));

    let initial = surface.take_page_request(10).unwrap();
    assert!(initial.follow_tail);
    assert!(surface.take_page_request(10).is_none());

    assert!(surface.scroll_visual_rows(-80, 10));
    let anchored = surface.take_page_request(10).unwrap();
    assert!(!anchored.follow_tail);
    assert_eq!(anchored.anchor_line_id, 210);

    // Scrolling inside the already-loaded page is entirely local.
    assert!(surface.scroll_visual_rows(-1, 10));
    assert!(surface.take_page_request(10).is_none());

    // Approaching an edge asks the journal for the adjacent bounded page.
    surface.anchor(103, 0);
    let boundary = surface.take_page_request(10).unwrap();
    assert_eq!(boundary.anchor_line_id, 103);
    assert!(!boundary.follow_tail);
    assert!(surface.take_page_request(10).is_none());
}

#[test]
fn resize_storm_and_continuous_scroll_preserve_the_visual_anchor() {
    let mut wrapped = (*page(1, 100..180, 500)).clone();
    wrapped.rows = wrapped
        .rows
        .iter()
        .map(|row| LogRow {
            line_id: row.line_id,
            text: format!("line {:03} {}", row.line_id, "x".repeat(48)),
            style_spans: Vec::new(),
            truncated: false,
        })
        .collect();
    wrapped.anchor_line_id = 140;
    wrapped.has_after = true;

    let mut surface = LogSurfaceModel::new(2);
    surface.submit_page(Arc::new(wrapped)).unwrap();
    let initial = surface.request_reflow(20).unwrap().execute().unwrap();
    assert!(surface.submit_reflow(initial));
    surface.anchor(140, 0);

    for cycle in 0..32 {
        let (stale_columns, latest_columns) = if cycle % 2 == 0 { (9, 13) } else { (11, 7) };
        let stale = surface
            .request_reflow(stale_columns)
            .unwrap()
            .execute()
            .unwrap();
        assert!(surface.request_reflow(latest_columns).is_none());
        let old_rows = surface.prepare_frame(8).unwrap().visual_rows;
        assert!(!surface.submit_reflow(stale));
        assert!(Arc::ptr_eq(
            &surface.prepare_frame(8).unwrap().visual_rows,
            &old_rows
        ));

        let latest = surface
            .request_reflow(latest_columns)
            .unwrap()
            .execute()
            .unwrap();
        assert!(surface.submit_reflow(latest));
        let frame = surface.prepare_frame(8).unwrap();
        assert_eq!(frame.layout_columns, latest_columns);
        let first_visual =
            frame.visual_rows[frame.visible_rows.start + frame.first_viewport_row];
        let first_line = frame.page.rows[first_visual.logical_row_index as usize].line_id;
        let ScrollMode::Anchored { line_id, .. } = surface.mode() else {
            panic!("resize must not return an anchored view to follow-tail mode");
        };
        assert_eq!(first_line, line_id);

        let delta = if cycle % 2 == 0 { 1 } else { -1 };
        assert!(surface.scroll_visual_rows(delta, 8));
    }
}

#[test]
fn wheel_scroll_moves_by_visual_rows_and_rejoins_the_tail() {
    let mut surface = LogSurfaceModel::new(1);
    surface.submit_page(page(1, 100..120, 120)).unwrap();
    let layout = surface.request_reflow(80).unwrap().execute().unwrap();
    assert!(surface.submit_reflow(layout));

    assert!(surface.scroll_visual_rows(-3, 5));
    assert_eq!(
        surface.mode(),
        ScrollMode::Anchored {
            line_id: 112,
            cell_offset: 0,
        }
    );
    assert!(surface.scroll_visual_rows(3, 5));
    assert_eq!(surface.mode(), ScrollMode::FollowTail);
}

#[test]
fn wrapped_scroll_anchor_uses_the_visual_segments_cell_offset() {
    let mut long_page = (*page(1, 1..2, 1)).clone();
    long_page.rows = vec![LogRow {
        line_id: 1,
        text: "abcdefghijkl".to_owned(),
        style_spans: Vec::new(),
        truncated: false,
    }];
    let mut surface = LogSurfaceModel::new(0);
    surface.submit_page(Arc::new(long_page)).unwrap();
    let layout = surface.request_reflow(4).unwrap().execute().unwrap();
    assert!(surface.submit_reflow(layout));

    assert!(surface.scroll_visual_rows(-1, 1));
    assert_eq!(
        surface.mode(),
        ScrollMode::Anchored {
            line_id: 1,
            cell_offset: 4,
        }
    );
}

#[test]
fn scroll_beyond_loaded_history_is_applied_after_the_new_page_reflows() {
    let mut first = (*page(1, 50..60, 60)).clone();
    first.anchor_line_id = 50;
    first.has_before = true;
    let mut surface = LogSurfaceModel::new(0);
    surface.submit_page(Arc::new(first)).unwrap();
    let layout = surface.request_reflow(80).unwrap().execute().unwrap();
    assert!(surface.submit_reflow(layout));
    surface.anchor(50, 0);
    assert!(surface.scroll_visual_rows(-3, 5));

    let mut expanded = (*page(2, 47..60, 60)).clone();
    expanded.anchor_line_id = 50;
    expanded.has_before = true;
    surface.submit_page(Arc::new(expanded)).unwrap();
    let layout = surface.request_reflow(80).unwrap().execute().unwrap();
    assert!(surface.submit_reflow(layout));
    assert_eq!(
        surface.mode(),
        ScrollMode::Anchored {
            line_id: 47,
            cell_offset: 0,
        }
    );
}

#[test]
fn scrollbar_jump_keeps_old_frame_until_target_page_and_layout_are_ready() {
    let mut surface = LogSurfaceModel::new(0);
    surface.submit_page(page(1, 1..11, 1_000)).unwrap();
    let layout = surface.request_reflow(80).unwrap().execute().unwrap();
    assert!(surface.submit_reflow(layout));
    let old_page = surface.prepare_frame(5).unwrap().page;

    assert!(surface.jump_to_line(900, 0));
    let request = surface.page_request(5).unwrap();
    assert!(!request.follow_tail);
    assert_eq!(request.anchor_line_id, 900);
    assert!(Arc::ptr_eq(
        &surface.prepare_frame(5).unwrap().page,
        &old_page
    ));

    let mut target = (*page(2, 895..906, 1_000)).clone();
    target.anchor_line_id = 900;
    target.has_after = true;
    surface.submit_page(Arc::new(target)).unwrap();
    assert!(Arc::ptr_eq(
        &surface.prepare_frame(5).unwrap().page,
        &old_page
    ));
    let layout = surface.request_reflow(80).unwrap().execute().unwrap();
    assert!(surface.submit_reflow(layout));
    assert_eq!(
        surface.mode(),
        ScrollMode::Anchored {
            line_id: 900,
            cell_offset: 0,
        }
    );
    let frame = surface.prepare_frame(5).unwrap();
    assert_eq!(frame.page.revision, 2);
    assert_eq!(surface.scrollbar_state(5).unwrap().top_line_id, 900);
}

#[test]
fn reflow_maps_logical_rows_to_bounded_visual_cell_ranges() {
    let rows: Vec<LogRow> = vec![
        LogRow {
            line_id: 1,
            text: "abcd中ef".to_owned(),
            style_spans: Vec::new(),
            truncated: false,
        },
        LogRow {
            line_id: 2,
            text: "\tX".to_owned(),
            style_spans: Vec::new(),
            truncated: false,
        },
    ];
    let page = Arc::new(LogPage {
        source_id: LogSourceId(7),
        revision: 1,
        anchor_line_id: 1,
        rows,
        total_line_count: 2,
        has_before: false,
        has_after: false,
    });
    let mut surface = LogSurfaceModel::default();
    surface.submit_page(page).unwrap();
    let layout = surface.request_reflow(4).unwrap().execute().unwrap();
    assert!(surface.submit_reflow(layout));
    let frame = surface.prepare_frame(10).unwrap();
    assert_eq!(
        *frame.visual_rows,
        [
            LogVisualRow {
                logical_row_index: 0,
                start_byte: 0,
                end_byte: 4,
                start_cell: 0,
                end_cell: 4,
            },
            LogVisualRow {
                logical_row_index: 0,
                start_byte: 4,
                end_byte: 9,
                start_cell: 4,
                end_cell: 8,
            },
            LogVisualRow {
                logical_row_index: 1,
                start_byte: 0,
                end_byte: 1,
                start_cell: 0,
                end_cell: 8,
            },
            LogVisualRow {
                logical_row_index: 1,
                start_byte: 1,
                end_byte: 2,
                start_cell: 8,
                end_cell: 9,
            },
        ]
    );
}

#[test]
fn resize_keeps_old_layout_until_latest_width_can_switch_atomically() {
    let mut surface = LogSurfaceModel::new(0);
    surface.submit_page(page(1, 100..103, 103)).unwrap();
    surface.anchor(101, 6);

    let first = surface.request_reflow(8).unwrap().execute().unwrap();
    assert!(surface.submit_reflow(first));
    let old_rows = surface.prepare_frame(4).unwrap().visual_rows;

    let stale = surface.request_reflow(4).unwrap().execute().unwrap();
    assert!(surface.request_reflow(12).is_none());
    assert!(Arc::ptr_eq(
        &surface.prepare_frame(4).unwrap().visual_rows,
        &old_rows
    ));
    assert!(!surface.submit_reflow(stale));
    assert!(Arc::ptr_eq(
        &surface.prepare_frame(4).unwrap().visual_rows,
        &old_rows
    ));

    let latest = surface.request_reflow(12).unwrap().execute().unwrap();
    assert!(surface.submit_reflow(latest));
    let frame = surface.prepare_frame(4).unwrap();
    assert!(!Arc::ptr_eq(&frame.visual_rows, &old_rows));
    let first_visual = frame.visual_rows[frame.visible_rows.start + frame.first_viewport_row];
    assert_eq!(
        frame.page.rows[first_visual.logical_row_index as usize].line_id,
        101
    );
    assert!(first_visual.start_cell <= 6 && 6 < first_visual.end_cell);
    assert_eq!(frame.cell_offset, 6);
}

#[test]
fn delayed_reflow_for_an_older_page_cannot_replace_newer_content() {
    let mut surface = LogSurfaceModel::default();
    surface.submit_page(page(1, 1..4, 4)).unwrap();
    let old_layout = surface.request_reflow(80).unwrap().execute().unwrap();
    surface.submit_page(page(2, 1..5, 5)).unwrap();
    assert!(!surface.submit_reflow(old_layout));
    let latest = surface.request_reflow(80).unwrap().execute().unwrap();
    assert!(surface.submit_reflow(latest));
    assert_eq!(surface.prepare_frame(10).unwrap().page.revision, 2);
}

#[test]
fn reflow_metadata_has_an_explicit_memory_bound() {
    let text: String = "x".repeat(MAX_LOG_REFLOW_ROWS + 1).into();
    let page = Arc::new(LogPage {
        source_id: LogSourceId(7),
        revision: 1,
        anchor_line_id: 1,
        rows: vec![LogRow {
            line_id: 1,
            text,
            style_spans: Vec::new(),
            truncated: false,
        }],
        total_line_count: 1,
        has_before: false,
        has_after: false,
    });
    let mut surface = LogSurfaceModel::default();
    surface.submit_page(page).unwrap();
    assert!(matches!(
        surface.request_reflow(1).unwrap().execute(),
        Err(LogSurfaceError::TooManyReflowRows(count))
            if count == MAX_LOG_REFLOW_ROWS + 1
    ));
    surface.reflow_failed();
    assert!(surface.request_reflow(1).is_none());
    assert!(surface.request_reflow(2).is_some());
}

#[test]
fn tail_page_request_loads_history_before_the_last_line() {
    let mut surface = LogSurfaceModel::new(3);
    surface
        .submit_page(page(1, 40..60, 60))
        .unwrap_or_else(|error| panic!("{error:?}"));
    let request = surface
        .page_request(20)
        .unwrap_or_else(|| panic!("loaded source should produce a request"));
    assert!(request.follow_tail);
    assert_eq!(request.anchor_line_id, 59);
    assert_eq!(request.rows_before, 23);
    assert_eq!(request.rows_after, 0);
}

#[test]
fn malformed_and_unbounded_pages_are_rejected() {
    let mut unordered = (*page(1, 1..4, 4)).clone();
    unordered.rows = vec![
        LogRow {
            line_id: 2,
            text: "two".to_owned(),
            style_spans: Vec::new(),
            truncated: false,
        },
        LogRow {
            line_id: 1,
            text: "one".to_owned(),
            style_spans: Vec::new(),
            truncated: false,
        },
    ];
    assert_eq!(
        LogSurfaceModel::default().submit_page(Arc::new(unordered)),
        Err(LogSurfaceError::UnorderedRows)
    );

    let oversized_rows: Vec<LogRow> = (0..=MAX_LOG_PAGE_ROWS)
        .map(|line_id| LogRow {
            line_id: line_id as u64,
            text: "x".to_owned(),
            style_spans: Vec::new(),
            truncated: false,
        })
        .collect();
    let oversized = Arc::new(LogPage {
        source_id: LogSourceId(1),
        revision: 1,
        anchor_line_id: 0,
        total_line_count: oversized_rows.len() as u64,
        rows: oversized_rows,
        has_before: false,
        has_after: false,
    });
    assert_eq!(
        LogSurfaceModel::default().submit_page(oversized),
        Err(LogSurfaceError::TooManyRows(MAX_LOG_PAGE_ROWS + 1))
    );

    let huge_text: String = "x".repeat(MAX_LOG_PAGE_TEXT_BYTES + 1).into();
    let text_bytes = huge_text.len();
    let oversized_text = Arc::new(LogPage {
        source_id: LogSourceId(1),
        revision: 1,
        anchor_line_id: 1,
        rows: vec![LogRow {
            line_id: 1,
            text: huge_text,
            style_spans: Vec::new(),
            truncated: false,
        }],
        total_line_count: 1,
        has_before: false,
        has_after: false,
    });
    assert_eq!(
        LogSurfaceModel::default().submit_page(oversized_text),
        Err(LogSurfaceError::TooManyTextBytes(text_bytes))
    );
}

#[test]
fn style_spans_must_be_ordered_and_end_on_grapheme_boundaries() {
    let styled = Arc::new(LogPage {
        source_id: LogSourceId(1),
        revision: 1,
        anchor_line_id: 1,
        rows: vec![LogRow {
            line_id: 1,
            text: "A中e\u{301}".to_owned(),
            style_spans: vec![
                LogStyleSpan {
                    byte_range: 0..1,
                    style: Style {
                        foreground: Color::Indexed(1),
                        ..Style::default()
                    },
                },
                LogStyleSpan {
                    byte_range: 1..4,
                    style: Style {
                        foreground: Color::Rgb(1, 2, 3),
                        ..Style::default()
                    },
                },
            ],
            truncated: false,
        }],
        total_line_count: 1,
        has_before: false,
        has_after: false,
    });
    assert!(
        LogSurfaceModel::default()
            .submit_page(styled)
            .unwrap_or_else(|error| panic!("{error:?}"))
    );

    let invalid = Arc::new(LogPage {
        source_id: LogSourceId(1),
        revision: 2,
        anchor_line_id: 1,
        rows: vec![LogRow {
            line_id: 1,
            text: "A中e\u{301}".to_owned(),
            style_spans: vec![LogStyleSpan {
                byte_range: 2..4,
                style: Style::default(),
            }],
            truncated: false,
        }],
        total_line_count: 1,
        has_before: false,
        has_after: false,
    });
    assert_eq!(
        LogSurfaceModel::default().submit_page(invalid),
        Err(LogSurfaceError::InvalidStyleSpan { line_id: 1 })
    );
}

#[test]
fn embedded_line_breaks_are_rejected_from_log_rows() {
    let invalid = Arc::new(LogPage {
        source_id: LogSourceId(1),
        revision: 1,
        anchor_line_id: 1,
        rows: vec![LogRow {
            line_id: 1,
            text: "first\nsecond".to_owned(),
            style_spans: Vec::new(),
            truncated: false,
        }],
        total_line_count: 1,
        has_before: false,
        has_after: false,
    });
    assert_eq!(
        LogSurfaceModel::default().submit_page(invalid),
        Err(LogSurfaceError::InvalidRowText { line_id: 1 })
    );
}

#[test]
fn pages_that_lie_about_themselves_are_refused() {
    let refused = |page: LogPage| LogSurfaceModel::default().submit_page(Arc::new(page));
    let mut short = (*page(1, 1..4, 4)).clone();
    short.total_line_count = 2;
    assert_eq!(refused(short), Err(LogSurfaceError::InvalidTotal { total: 2, page_rows: 3 }));

    let mut astray = (*page(1, 1..4, 4)).clone();
    astray.anchor_line_id = 9;
    assert_eq!(refused(astray), Err(LogSurfaceError::DeclaredAnchorMissing(9)));

    let mut colorful = (*page(1, 1..2, 4)).clone();
    let span = LogStyleSpan { byte_range: 0..1, style: Style::default() };
    colorful.rows[0].style_spans = vec![span; MAX_LOG_PAGE_STYLE_SPANS + 1];
    assert_eq!(
        refused(colorful),
        Err(LogSurfaceError::TooManyStyleSpans(MAX_LOG_PAGE_STYLE_SPANS + 1))
    );
}

#[test]
fn scrolling_back_returns_to_the_anchor() {
    let mut surface = LogSurfaceModel::new(0);
    surface.submit_page(page(1, 100..140, 140)).unwrap();
    let layout = surface.request_reflow(80).unwrap().execute().unwrap();
    assert!(surface.submit_reflow(layout));
    surface.anchor(120, 0);
    assert!(surface.scroll_visual_rows(-7, 5));
    assert_eq!(surface.mode(), ScrollMode::Anchored { line_id: 113, cell_offset: 0 });
    assert!(surface.scroll_visual_rows(7, 5));
    assert_eq!(surface.mode(), ScrollMode::Anchored { line_id: 120, cell_offset: 0 });
}

#[test]
fn wide_characters_take_two_cells() {
    let mut wide = (*page(1, 1..2, 1)).clone();
    wide.rows[0].text = "中中中".to_owned();
    let mut surface = LogSurfaceModel::new(0);
    surface.submit_page(Arc::new(wide)).unwrap();
    let layout = surface.request_reflow(4).unwrap().execute().unwrap();
    assert_eq!(layout.columns(), 4);
    assert_eq!(
        **layout.visual_rows(),
        [
            LogVisualRow {
                logical_row_index: 0,
                start_byte: 0,
                end_byte: 6,
                start_cell: 0,
                end_cell: 4,
            },
            LogVisualRow {
                logical_row_index: 0,
                start_byte: 6,
                end_byte: 9,
                start_cell: 4,
                end_cell: 6,
            },
        ]
    );
}

#[test]
fn a_scroll_beyond_the_page_keeps_as_many_rows_as_it_can() {
    let mut more = (*page(1, 100..120, 400)).clone();
    more.has_after = true;
    let mut surface = LogSurfaceModel::new(0);
    surface.submit_page(Arc::new(more)).unwrap();
    assert!(surface.scroll_visual_rows(i32::MAX, 0));
    assert_eq!(surface.mode(), ScrollMode::Anchored { line_id: 119, cell_offset: 0 });
    let mut later = (*page(2, 110..140, 400)).clone();
    later.has_after = true;
    surface.submit_page(Arc::new(later)).unwrap();
    let layout = surface.request_reflow(80).unwrap().execute().unwrap();
    assert!(surface.submit_reflow(layout));
    assert_eq!(surface.mode(), ScrollMode::Anchored { line_id: 139, cell_offset: 0 });
}
