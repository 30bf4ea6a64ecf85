use chrono::{Datelike, NaiveDate};
use hindsight::aggregate::DayTotals;
use hindsight::analyzer::DayStats;
use hindsight::calendar::{Date, TimeWindow};
use hindsight::ledger::Ledger;
use hindsight::tui::{
    after_poll, get_github_color, grid_place, padded_area, scale, screen_bands, shade, total,
    two_heatmaps, ui, Area, Band, Glyph, HeatmapWidget, Ink, Key, LoopAction, Metric, Shade,
    POLL_INTERVAL_MS,
};

fn day(y: i32, m: u32, d: u32) -> Date {
    let n = NaiveDate::from_ymd_opt(y, m, d).unwrap().num_days_from_ce();
    Date::from_days_from_ce(n).unwrap()
}

fn totals(entries: &[(Date, usize, usize)]) -> DayTotals {
    let mut t: DayTotals = Ledger::new();
    for (date, commits, lines_changed) in entries {
        assert!(t.credit(*date, DayStats { commits: *commits, lines_changed: *lines_changed }));
    }
    t
}

fn area(x: u16, y: u16, width: u16, height: u16) -> Area {
    Area { x, y, width, height }
}

fn label(x: u16, y: u16, text: &str) -> Glyph {
    Glyph { x, y, text: text.to_string(), ink: Ink::DarkGray }
}

const EMPTY: Ink = Ink::Rgb(22, 27, 34);
const LOW: Ink = Ink::Rgb(144, 202, 249);
const MEDIUM: Ink = Ink::Rgb(66, 165, 245);
const HIGH: Ink = Ink::Rgb(30, 136, 229);
const PEAK: Ink = Ink::Rgb(21, 101, 192);

#[test]
fn zero_is_always_the_empty_colour() {
    for max in [0usize, 1, 2, 100, usize::MAX] {
        assert_eq!(get_github_color(0, max), EMPTY);
        assert_eq!(shade(0, max), Shade::Empty);
    }
}

#[test]
fn steps_belong_to_the_shade_above() {
    // Ratios exactly on the steps.
    assert_eq!(get_github_color(25, 100), MEDIUM);
    assert_eq!(get_github_color(50, 100), HIGH);
    assert_eq!(get_github_color(75, 100), PEAK);
    assert_eq!(get_github_color(1, 4), MEDIUM);
    assert_eq!(get_github_color(2, 4), HIGH);
    assert_eq!(get_github_color(3, 4), PEAK);
    // Just below them.
    assert_eq!(get_github_color(24, 100), LOW);
    assert_eq!(get_github_color(49, 100), MEDIUM);
    assert_eq!(get_github_color(74, 100), HIGH);
    assert_eq!(get_github_color(1, 100), LOW);
    assert_eq!(get_github_color(100, 100), PEAK);
    assert_eq!(get_github_color(1, 1), PEAK);
    assert_eq!(get_github_color(5, 0), PEAK);
    assert_eq!(get_github_color(usize::MAX, usize::MAX), PEAK);
    assert_eq!(get_github_color(usize::MAX / 4, usize::MAX), LOW);
    assert_eq!(get_github_color(usize::MAX / 4 + 1, usize::MAX), MEDIUM);
}

#[test]
fn shades_agree_with_the_ratio() {
    for max in 1usize..=40 {
        for v in 0..=max {
            let ratio = v as f64 / max as f64;
            let expected = if v == 0 {
                Shade::Empty
            } else if ratio < 0.25 {
                Shade::Low
            } else if ratio < 0.5 {
                Shade::Medium
            } else if ratio < 0.75 {
                Shade::High
            } else {
                Shade::Peak
            };
            assert_eq!(shade(v, max), expected, "{} of {}", v, max);
        }
    }
}

#[test]
fn total_and_scale_read_the_metric() {
    let t = totals(&[(day(2024, 3, 1), 2, 100), (day(2024, 3, 2), 5, 7), (day(2024, 3, 9), 1, 0)]);
    assert_eq!(total(&t, Metric::Commits), 8);
    assert_eq!(total(&t, Metric::LinesChanged), 107);
    assert_eq!(scale(&t, Metric::Commits), 5);
    assert_eq!(scale(&t, Metric::LinesChanged), 100);
    let none = totals(&[]);
    assert_eq!(total(&none, Metric::Commits), 0);
    assert_eq!(scale(&none, Metric::Commits), 1);
    let idle = totals(&[(day(2024, 3, 1), 0, 0)]);
    assert_eq!(scale(&idle, Metric::LinesChanged), 1);
    let wide = totals(&[(day(2024, 3, 1), usize::MAX, 1), (day(2024, 3, 2), usize::MAX, 1)]);
    assert_eq!(total(&wide, Metric::Commits), 2 * (usize::MAX as u128));
    assert_eq!(Metric::Commits.title_text(), "Commits");
    assert_eq!(Metric::LinesChanged.title_text(), "Lines Changed");
    assert_eq!(Metric::Commits.value(&DayStats { commits: 3, lines_changed: 4 }), 3);
    assert_eq!(Metric::LinesChanged.value(&DayStats { commits: 3, lines_changed: 4 }), 4);
}

#[test]
fn grid_place_is_weekday_and_week() {
    // The window starts on Wednesday 6 March 2024; its grid starts on Sunday 3 March.
    let w = TimeWindow::ending(day(2024, 3, 31), 25).unwrap();
    assert_eq!(w.start(), day(2024, 3, 6));
    assert_eq!(grid_place(&w, &day(2024, 3, 6)), Some((3, 0)));
    assert_eq!(grid_place(&w, &day(2024, 3, 9)), Some((6, 0)));
    assert_eq!(grid_place(&w, &day(2024, 3, 10)), Some((0, 1)));
    assert_eq!(grid_place(&w, &day(2024, 3, 16)), Some((6, 1)));
    assert_eq!(grid_place(&w, &day(2024, 3, 31)), Some((0, 4)));
    assert_eq!(grid_place(&w, &day(2024, 3, 5)), None);
    assert_eq!(grid_place(&w, &day(2024, 4, 1)), None);
}

#[test]
fn grid_places_are_distinct_and_stable() {
    let w = TimeWindow::ending(day(2024, 3, 31), 400).unwrap();
    let mut seen = std::collections::HashSet::new();
    let mut d = w.start();
    loop {
        let place = grid_place(&w, &d).unwrap();
        assert_eq!(grid_place(&w, &d), Some(place));
        assert!(place.0 < 7);
        assert!(seen.insert(place));
        let sunday = w.start().days_from_ce() - w.start().weekday_from_sunday() as i32;
        assert_eq!(d.days_from_ce(), sunday + 7 * place.1 as i32 + place.0 as i32);
        if d == w.today() {
            break;
        }
        d = d.plus_days(1).unwrap();
    }
    assert_eq!(seen.len(), 401);
}

#[test]
fn heatmap_of_a_short_window() {
    // Friday 1 March to Sunday 10 March 2024.
    let today = day(2024, 3, 10);
    let w = TimeWindow::ending(today, 9).unwrap();
    let stats = totals(&[(day(2024, 3, 1), 4, 10), (day(2024, 3, 4), 1, 40), (day(2024, 2, 1), 3, 0)]);
    let widget = HeatmapWidget { stats: &stats, window: w, metric: Metric::Commits };
    let glyphs = widget.render(area(10, 20, 60, 11));
    let cell = |x: u16, y: u16, ink: Ink| Glyph { x, y, text: "\u{25a0}".to_string(), ink };
    let expected = vec![
        Glyph {
            x: 10,
            y: 20,
            text: "8 contributions in the last 9 days (Commits)".to_string(),
            ink: Ink::Plain,
        },
        label(14, 21, "Mar"),
        label(10, 23, "Mon"),
        label(10, 25, "Wed"),
        label(10, 27, "Fri"),
        cell(14, 27, PEAK),
        cell(14, 28, EMPTY),
        cell(16, 22, EMPTY),
        cell(16, 23, MEDIUM),
        cell(16, 24, EMPTY),
        cell(16, 25, EMPTY),
        cell(16, 26, EMPTY),
        cell(16, 27, EMPTY),
        cell(16, 28, EMPTY),
        cell(18, 22, EMPTY),
    ];
    assert_eq!(glyphs, expected);
    let lines = HeatmapWidget { stats: &stats, window: w, metric: Metric::LinesChanged };
    let glyphs = lines.render(area(10, 20, 60, 11));
    assert_eq!(glyphs[0].text, "50 contributions in the last 9 days (Lines Changed)");
    assert_eq!(glyphs[5], cell(14, 27, MEDIUM));
    assert_eq!(glyphs[8], cell(16, 23, PEAK));
    assert_eq!(glyphs.len(), expected.len());
}

#[test]
fn month_names_stand_where_the_month_changes() {
    // 15 January to 10 March 2024: strides on 15, 22, 29 January, 5 February, ...
    let w = TimeWindow::ending(day(2024, 3, 10), 55).unwrap();
    assert_eq!(w.start(), day(2024, 1, 15));
    let stats = totals(&[]);
    let widget = HeatmapWidget { stats: &stats, window: w, metric: Metric::Commits };
    let glyphs = widget.render(area(0, 0, 80, 11));
    let labels: Vec<&Glyph> = glyphs.iter().filter(|g| g.y == 1).collect();
    assert_eq!(labels, vec![&label(4, 1, "Jan"), &label(10, 1, "Feb"), &label(18, 1, "Mar")]);
    assert_eq!(glyphs[0].text, "0 contributions in the last 55 days (Commits)");
    let cells = glyphs.iter().filter(|g| g.text == "\u{25a0}").count();
    assert_eq!(cells, 56);
}

#[test]
fn month_names_stop_at_the_right_edge() {
    let w = TimeWindow::ending(day(2024, 3, 10), 365).unwrap();
    let stats = totals(&[]);
    let widget = HeatmapWidget { stats: &stats, window: w, metric: Metric::Commits };
    // The window starts on 11 March 2023; April starts at the fourth stride,
    // May at the ninth, June at the thirteenth, which is the last in the area.
    let glyphs = widget.render(area(0, 0, 30, 11));
    for g in &glyphs {
        if g.y == 1 {
            assert!(g.x < 30);
        }
        if g.text == "\u{25a0}" {
            assert!(g.x + 1 < 30 && g.y < 11);
        }
    }
    let labels: Vec<&Glyph> = glyphs.iter().filter(|g| g.y == 1).collect();
    assert_eq!(
        labels,
        vec![
            &label(4, 1, "Mar"),
            &label(10, 1, "Apr"),
            &label(20, 1, "May"),
            &label(28, 1, "Jun")
        ]
    );
    // No cell in a narrow area, and none in one without rows for the grid.
    let narrow = widget.render(area(0, 0, 5, 11));
    assert!(narrow.iter().all(|g| g.text != "\u{25a0}"));
    let flat = widget.render(area(0, 0, 80, 2));
    assert!(flat.iter().all(|g| g.text != "\u{25a0}"));
    assert_eq!(flat.iter().filter(|g| g.ink == Ink::DarkGray && g.y > 1).count(), 3);
}

#[test]
fn window_of_one_day_has_one_cell_and_no_month() {
    let today = day(2024, 3, 6);
    let w = TimeWindow::ending(today, 0).unwrap();
    let stats = totals(&[(today, 1, 1)]);
    let widget = HeatmapWidget { stats: &stats, window: w, metric: Metric::Commits };
    let glyphs = widget.render(area(0, 0, 80, 11));
    assert_eq!(glyphs.len(), 5);
    assert_eq!(glyphs[0].text, "1 contributions in the last 0 days (Commits)");
    assert_eq!(glyphs[4], Glyph { x: 4, y: 5, text: "\u{25a0}".to_string(), ink: PEAK });
}

#[test]
fn rows_that_cannot_be_addressed_are_left_out() {
    let w = TimeWindow::ending(day(2024, 3, 10), 9).unwrap();
    let stats = totals(&[]);
    let widget = HeatmapWidget { stats: &stats, window: w, metric: Metric::Commits };
    let glyphs = widget.render(area(0, u16::MAX, 80, 11));
    assert_eq!(glyphs.len(), 1);
    assert_eq!(glyphs[0].y, u16::MAX);
    let glyphs = widget.render(area(0, u16::MAX - 3, 80, 11));
    let labels: Vec<(u16, &str)> =
        glyphs.iter().filter(|g| g.ink == Ink::DarkGray).map(|g| (g.y, g.text.as_str())).collect();
    assert_eq!(labels, vec![(u16::MAX - 2, "Mar"), (u16::MAX, "Mon")]);
}

#[test]
fn render_into_adds_to_what_is_there() {
    let w = TimeWindow::ending(day(2024, 3, 10), 9).unwrap();
    let stats = totals(&[(day(2024, 3, 4), 1, 40)]);
    let widget = HeatmapWidget { stats: &stats, window: w, metric: Metric::Commits };
    let alone = widget.render(area(1, 2, 40, 11));
    let mut glyphs = vec![label(0, 0, "x")];
    widget.render_into(area(1, 2, 40, 11), &mut glyphs);
    assert_eq!(glyphs[0], label(0, 0, "x"));
    assert_eq!(&glyphs[1..], &alone[..]);
}

#[test]
fn screen_has_the_two_heatmaps_one_above_the_other() {
    let w = TimeWindow::ending(day(2024, 3, 10), 30).unwrap();
    let stats = totals(&[(day(2024, 3, 4), 2, 40)]);
    let top = area(4, 2, 96, 11);
    let bottom = area(4, 14, 96, 11);
    let glyphs = two_heatmaps(top, bottom, &stats, &w);
    let commits = HeatmapWidget { stats: &stats, window: w, metric: Metric::Commits }.render(top);
    let lines =
        HeatmapWidget { stats: &stats, window: w, metric: Metric::LinesChanged }.render(bottom);
    assert_eq!(glyphs.len(), commits.len() + lines.len());
    assert_eq!(&glyphs[..commits.len()], &commits[..]);
    assert_eq!(&glyphs[commits.len()..], &lines[..]);
}

#[test]
fn ui_lays_the_heatmaps_out_in_the_padded_frame() {
    let w = TimeWindow::ending(day(2024, 3, 10), 30).unwrap();
    let stats = totals(&[(day(2024, 3, 4), 2, 40)]);
    let glyphs = ui(area(0, 0, 100, 40), &stats, &w);
    let expected = two_heatmaps(area(4, 2, 96, 11), area(4, 14, 96, 11), &stats, &w);
    assert_eq!(glyphs, expected);
    assert_eq!(glyphs[0].text, "2 contributions in the last 30 days (Commits)");
    assert_eq!((glyphs[0].x, glyphs[0].y), (4, 2));
    let second = glyphs.iter().position(|g| g.text.ends_with("(Lines Changed)")).unwrap();
    assert_eq!((glyphs[second].x, glyphs[second].y), (4, 14));
    assert_eq!(glyphs[second].text, "40 contributions in the last 30 days (Lines Changed)");
}

#[test]
fn padding_takes_four_columns_and_two_rows() {
    assert_eq!(padded_area(area(0, 0, 100, 40)), area(4, 2, 96, 38));
    assert_eq!(padded_area(area(3, 5, 4, 2)), area(7, 7, 0, 0));
    assert_eq!(padded_area(area(0, 0, 3, 1)), area(4, 2, 0, 0));
    assert_eq!(padded_area(area(u16::MAX - 4, u16::MAX - 2, 9, 9)), area(u16::MAX, u16::MAX, 5, 7));
    assert_eq!(
        screen_bands(),
        vec![Band::Length(11), Band::Length(1), Band::Length(11), Band::Min(0)]
    );
}

#[test]
fn area_edges_stop_at_the_last_coordinate() {
    assert_eq!(area(10, 20, 60, 11).right(), 70);
    assert_eq!(area(10, 20, 60, 11).bottom(), 31);
    assert_eq!(area(u16::MAX, 7, 1, 0).right(), u16::MAX);
    assert_eq!(area(60000, 60000, 60000, 60000).right(), u16::MAX);
    assert_eq!(area(60000, 60000, 60000, 60000).bottom(), u16::MAX);
    assert_eq!(area(0, 0, 0, 0).right(), 0);
}

#[test]
fn glyph_lies_in_a_frame_that_holds_its_start() {
    let frame = area(2, 3, 10, 5);
    assert!(label(2, 3, "a").lies_in(&frame));
    assert!(label(11, 7, "a").lies_in(&frame));
    assert!(!label(12, 7, "a").lies_in(&frame));
    assert!(!label(11, 8, "a").lies_in(&frame));
    assert!(!label(1, 3, "a").lies_in(&frame));
    assert!(!label(2, 2, "a").lies_in(&frame));
    assert!(!label(0, 0, "a").lies_in(&area(0, 0, 0, 0)));
}

#[test]
fn q_and_escape_end_the_loop() {
    assert_eq!(after_poll(Some(Key::Char('q'))), LoopAction::Quit);
    assert_eq!(after_poll(Some(Key::Esc)), LoopAction::Quit);
    assert_eq!(after_poll(Some(Key::Char('Q'))), LoopAction::Redraw);
    assert_eq!(after_poll(Some(Key::Char('x'))), LoopAction::Redraw);
    assert_eq!(after_poll(Some(Key::Other)), LoopAction::Redraw);
    assert_eq!(after_poll(None), LoopAction::Redraw);
    assert_eq!(POLL_INTERVAL_MS, 100);
}
