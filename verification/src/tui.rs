//! The calendar heatmap: where each day of the window stands on the week
//! grid, how its value is shaded, and what is drawn where on the screen.
//! Drawing is described here as a list of glyphs; putting them on a
//! terminal is left to the caller.

use crate::aggregate::DayTotals;
use crate::analyzer::{Activity, DayStats};
use crate::calendar::{
    is_day_number, month_abbreviation, month_of_day, weekday_index, Date, TimeWindow,
};
use crate::ledger::{activity_at, rows_sum, table_of};
use crate::text::{decimal, decimal_text};
use vstd::prelude::*;
use vstd::string::StringExecFns;

verus! {

/// A rectangle of character cells on the screen.
#[derive(Clone, Copy, Debug, PartialEq, Eq, Structural)]
pub struct Area {
    pub x: u16,
    pub y: u16,
    pub width: u16,
    pub height: u16,
}

impl Area {
    /// The first column to the right of the area, which is at most the last
    /// column that can be addressed.
    pub open spec fn right_edge(self) -> int {
        if self.x + self.width > 0xffff {
            0xffff
        } else {
            self.x + self.width
        }
    }

    /// The first row below the area, which is at most the last row that can
    /// be addressed.
    pub open spec fn bottom_edge(self) -> int {
        if self.y + self.height > 0xffff {
            0xffff
        } else {
            self.y + self.height
        }
    }

    /// The first column to the right of the area.
    pub fn right(&self) -> (r: u16)
        ensures
            r == self.right_edge(),
    {
        let sum: u32 = self.x as u32 + self.width as u32;
        if sum > 0xffff {
            0xffff
        } else {
            sum as u16
        }
    }

    /// The first row below the area.
    pub fn bottom(&self) -> (b: u16)
        ensures
            b == self.bottom_edge(),
    {
        let sum: u32 = self.y as u32 + self.height as u32;
        if sum > 0xffff {
            0xffff
        } else {
            sum as u16
        }
    }
}

/// The colour in which a glyph is drawn.
#[derive(Clone, Copy, Debug, PartialEq, Eq, Structural)]
pub enum Ink {
    /// The terminal's own foreground.
    Plain,
    /// The dark gray of labels.
    DarkGray,
    /// A colour given by its red, green and blue parts.
    Rgb(u8, u8, u8),
}

/// How strongly a day is shaded, from no activity to the most.
#[derive(Clone, Copy, Debug, PartialEq, Eq, Structural)]
pub enum Shade {
    Empty,
    Low,
    Medium,
    High,
    Peak,
}

/// The shade of the value `v` on a scale whose largest value is `max_val`:
/// empty for no value at all, else by the ratio of the two, with the steps
/// at one, two and three quarters, each step belonging to the shade above
/// it.
pub open spec fn shade_of(v: nat, max_val: nat) -> Shade {
    if v == 0 {
        Shade::Empty
    } else if 4 * v < max_val {
        Shade::Low
    } else if 2 * v < max_val {
        Shade::Medium
    } else if 4 * v < 3 * max_val {
        Shade::High
    } else {
        Shade::Peak
    }
}

/// The colour of a shade.
pub open spec fn ink_of(shade: Shade) -> Ink {
    match shade {
        Shade::Empty => Ink::Rgb(22, 27, 34),
        Shade::Low => Ink::Rgb(144, 202, 249),
        Shade::Medium => Ink::Rgb(66, 165, 245),
        Shade::High => Ink::Rgb(30, 136, 229),
        Shade::Peak => Ink::Rgb(21, 101, 192),
    }
}

/// How dark a shade is, from 0 for the empty one to 4 for the darkest.
pub open spec fn darkness(shade: Shade) -> int {
    match shade {
        Shade::Empty => 0,
        Shade::Low => 1,
        Shade::Medium => 2,
        Shade::High => 3,
        Shade::Peak => 4,
    }
}

/// No value has the empty shade but 0, whatever the scale; and a value
/// that is exactly one, two or three quarters of the scale has the shade
/// above the step.
pub proof fn lemma_shade_steps(v: nat, max_val: nat)
    ensures
        shade_of(0, max_val) == Shade::Empty,
        v > 0 ==> shade_of(v, max_val) != Shade::Empty,
        v > 0 && 4 * v == max_val ==> shade_of(v, max_val) == Shade::Medium,
        v > 0 && 2 * v == max_val ==> shade_of(v, max_val) == Shade::High,
        v > 0 && 4 * v == 3 * max_val ==> shade_of(v, max_val) == Shade::Peak,
{
}

/// On one scale a larger value never has a lighter shade.
pub proof fn lemma_shade_ordered(v: nat, w: nat, max_val: nat)
    requires
        v <= w,
    ensures
        darkness(shade_of(v, max_val)) <= darkness(shade_of(w, max_val)),
{
}

/// The shade of the value `val` on a scale whose largest value is `max_val`.
pub fn shade(val: usize, max_val: usize) -> (s: Shade)
    ensures
        s == shade_of(val as nat, max_val as nat),
{
    let v: u128 = val as u128;
    let m: u128 = max_val as u128;
    if v == 0 {
        Shade::Empty
    } else if 4 * v < m {
        Shade::Low
    } else if 2 * v < m {
        Shade::Medium
    } else if 4 * v < 3 * m {
        Shade::High
    } else {
        Shade::Peak
    }
}

/// The colour of the value `val` on a scale whose largest value is
/// `max_val`.
pub fn get_github_color(val: usize, max_val: usize) -> (ink: Ink)
    ensures
        ink == ink_of(shade_of(val as nat, max_val as nat)),
        val == 0 ==> ink == Ink::Rgb(22, 27, 34),
{
    match shade(val, max_val) {
        Shade::Empty => Ink::Rgb(22, 27, 34),
        Shade::Low => Ink::Rgb(144, 202, 249),
        Shade::Medium => Ink::Rgb(66, 165, 245),
        Shade::High => Ink::Rgb(30, 136, 229),
        Shade::Peak => Ink::Rgb(21, 101, 192),
    }
}

/// Which count of a day's statistics a heatmap shows.
#[derive(Clone, Copy, Debug, PartialEq, Eq, Structural)]
pub enum Metric {
    Commits,
    LinesChanged,
}

impl Metric {
    /// The count that the metric reads from an activity.
    pub open spec fn of(self, a: Activity) -> nat {
        match self {
            Metric::Commits => a.commits,
            Metric::LinesChanged => a.lines_changed,
        }
    }

    /// The name of the metric in a heatmap's heading.
    pub open spec fn title(self) -> Seq<char> {
        match self {
            Metric::Commits => "Commits"@,
            Metric::LinesChanged => "Lines Changed"@,
        }
    }

    /// The count that the metric reads from `stats`.
    pub fn value(&self, stats: &DayStats) -> (v: usize)
        ensures
            v == self.of(stats@),
    {
        match self {
            Metric::Commits => stats.commits,
            Metric::LinesChanged => stats.lines_changed,
        }
    }

    /// The name of the metric in a heatmap's heading.
    pub fn title_text(&self) -> (t: &'static str)
        ensures
            t@ == self.title(),
    {
        match self {
            Metric::Commits => "Commits",
            Metric::LinesChanged => "Lines Changed",
        }
    }
}

/// The sum of the metric over all rows.
pub open spec fn total_of(rows: Seq<(int, Activity)>, metric: Metric) -> nat
    decreases rows.len(),
{
    if rows.len() == 0 {
        0
    } else {
        total_of(rows.drop_last(), metric) + metric.of(rows.last().1)
    }
}

/// The total of a metric is that metric of the sum of all rows.
pub proof fn lemma_total_of_rows_sum(rows: Seq<(int, Activity)>, metric: Metric)
    ensures
        total_of(rows, metric) == metric.of(rows_sum(rows)),
    decreases rows.len(),
{
    if rows.len() > 0 {
        lemma_total_of_rows_sum(rows.drop_last(), metric);
    }
}

/// The largest value of the metric in any row; 0 without rows.
pub open spec fn peak_of(rows: Seq<(int, Activity)>, metric: Metric) -> nat
    decreases rows.len(),
{
    if rows.len() == 0 {
        0
    } else {
        let before = peak_of(rows.drop_last(), metric);
        let here = metric.of(rows.last().1);
        if here > before {
            here
        } else {
            before
        }
    }
}

/// The value that the darkest shade stands for: the largest value of the
/// metric, and at least 1.
pub open spec fn scale_of(rows: Seq<(int, Activity)>, metric: Metric) -> nat {
    if peak_of(rows, metric) == 0 {
        1
    } else {
        peak_of(rows, metric)
    }
}

/// The value of the metric on day `d`, which is 0 for a day without a row.
pub open spec fn value_on(rows: Seq<(int, Activity)>, metric: Metric, d: int) -> nat {
    metric.of(activity_at(table_of(rows), d))
}

/// The sum of the metric over all days of `stats`.
pub fn total(stats: &DayTotals, metric: Metric) -> (t: u128)
    ensures
        t == total_of(stats.rows(), metric),
        t == metric.of(rows_sum(stats.rows())),
{
    proof {
        lemma_total_of_rows_sum(stats.rows(), metric);
    }
    let n = stats.len();
    let mut t: u128 = 0;
    let mut i: usize = 0;
    proof {
        assert(stats.rows().take(0) =~= Seq::<(int, Activity)>::empty());
    }
    while i < n
        invariant
            i <= n,
            n == stats.rows().len(),
            t == total_of(stats.rows().take(i as int), metric),
            t <= i * 0xffff_ffff_ffff_ffff,
        decreases n - i,
    {
        let v = metric.value(&stats.stats_at(i));
        proof {
            assert(stats.rows().take(i + 1).drop_last() =~= stats.rows().take(i as int));
            assert(stats.rows().take(i + 1).last() == stats.rows()[i as int]);
            assert((i + 1) * 0xffff_ffff_ffff_ffff == i * 0xffff_ffff_ffff_ffff
                + 0xffff_ffff_ffff_ffff) by (nonlinear_arith);
            assert(i * 0xffff_ffff_ffff_ffff <= 0xffff_ffff_ffff_ffff * 0xffff_ffff_ffff_ffff)
                by (nonlinear_arith)
                requires
                    i <= 0xffff_ffff_ffff_ffff,
            ;
        }
        t = t + v as u128;
        i += 1;
    }
    proof {
        assert(stats.rows().take(n as int) =~= stats.rows());
    }
    t
}

/// The value that the darkest shade stands for in `stats`.
pub fn scale(stats: &DayTotals, metric: Metric) -> (m: usize)
    ensures
        m == scale_of(stats.rows(), metric),
{
    let n = stats.len();
    let mut peak: usize = 0;
    let mut i: usize = 0;
    proof {
        assert(stats.rows().take(0) =~= Seq::<(int, Activity)>::empty());
    }
    while i < n
        invariant
            i <= n,
            n == stats.rows().len(),
            peak == peak_of(stats.rows().take(i as int), metric),
        decreases n - i,
    {
        let v = metric.value(&stats.stats_at(i));
        proof {
            assert(stats.rows().take(i + 1).drop_last() =~= stats.rows().take(i as int));
            assert(stats.rows().take(i + 1).last() == stats.rows()[i as int]);
        }
        if v > peak {
            peak = v;
        }
        i += 1;
    }
    proof {
        assert(stats.rows().take(n as int) =~= stats.rows());
    }
    if peak == 0 {
        1
    } else {
        peak
    }
}

/// Day number of the Sunday on or before day `first`: the day in the top
/// left corner of the grid of a window that starts on `first`.
pub open spec fn grid_origin(first: int) -> int {
    first - weekday_index(first)
}

/// The column of day `d` on the grid of a window that starts on `first`:
/// the number of whole weeks from the grid's first Sunday to `d`.
pub open spec fn grid_column(first: int, d: int) -> int {
    (d - grid_origin(first)) / 7
}

/// The row of day `d` on the grid: its weekday, Sunday at the top.
pub open spec fn grid_row(d: int) -> int {
    weekday_index(d)
}

/// Every day has one place on the grid, and no two days share a place: a
/// day is found again from its column and row.
pub proof fn lemma_grid_place(first: int, d: int)
    ensures
        0 <= grid_row(d) < 7,
        d == grid_origin(first) + 7 * grid_column(first, d) + grid_row(d),
        first <= d ==> grid_column(first, d) >= 0,
{
    let origin = grid_origin(first);
    assert(origin % 7 == 0);
    assert((d - origin) % 7 == d % 7);
}

/// Two days that stand in the same column and row of a grid are the same
/// day.
pub proof fn lemma_grid_place_unique(first: int, d1: int, d2: int)
    requires
        grid_column(first, d1) == grid_column(first, d2),
        grid_row(d1) == grid_row(d2),
    ensures
        d1 == d2,
{
    lemma_grid_place(first, d1);
    lemma_grid_place(first, d2);
}

/// The place of `date` on the grid of `window`, as row and column; `None`
/// for a day outside the window.
pub fn grid_place(window: &TimeWindow, date: &Date) -> (place: Option<(u8, u32)>)
    ensures
        place is Some <==> window.first_day() <= date@ <= window.last_day(),
        place matches Some(p) ==> p.0 == grid_row(date@) && p.1 == grid_column(
            window.first_day(),
            date@,
        ),
{
    let start = window.start();
    let today = window.today();
    if date.is_before(&start) || today.is_before(date) {
        return None;
    }
    let first: i32 = start.days_from_ce();
    let day: i32 = date.days_from_ce();
    let offset: i64 = (day as i64 - first as i64) + start.weekday_from_sunday() as i64;
    Some((date.weekday_from_sunday(), (offset / 7) as u32))
}

/// Something drawn on the screen: a text that starts at a column and row.
#[derive(Clone, Debug, PartialEq, Eq)]
pub struct Glyph {
    pub x: u16,
    pub y: u16,
    pub text: String,
    pub ink: Ink,
}

/// What a glyph stands for.
pub struct Mark {
    pub x: int,
    pub y: int,
    pub text: Seq<char>,
    pub ink: Ink,
}

impl View for Glyph {
    type V = Mark;

    open spec fn view(&self) -> Mark {
        Mark { x: self.x as int, y: self.y as int, text: self.text@, ink: self.ink }
    }
}

impl Glyph {
    /// Whether the glyph starts inside `frame`, so that it can be put on a
    /// screen of that size.
    pub fn lies_in(&self, frame: &Area) -> (b: bool)
        ensures
            b == (frame.x <= self.x < frame.right_edge() && frame.y <= self.y
                < frame.bottom_edge()),
    {
        frame.x <= self.x && self.x < frame.right() && frame.y <= self.y && self.y < frame.bottom()
    }
}

/// What a vector of glyphs stands for.
pub open spec fn marks_of(glyphs: Seq<Glyph>) -> Seq<Mark> {
    Seq::new(glyphs.len(), |i: int| glyphs[i]@)
}

/// The heading of a heatmap: the total of its metric, the number of days
/// that its window looks back, and the name of the metric.
pub open spec fn heading_text(total: nat, lookback: nat, title: Seq<char>) -> Seq<char> {
    decimal(total) + " contributions in the last "@ + decimal(lookback) + " days ("@ + title
        + ")"@
}

/// A heatmap to draw: its place on the screen, the days of its window, and
/// the values it shows.
pub struct Chart {
    pub area: Area,
    pub first_day: int,
    pub last_day: int,
    pub rows: Seq<(int, Activity)>,
    pub metric: Metric,
}

impl Chart {
    /// The number of days that the window looks back.
    pub open spec fn lookback(self) -> int {
        self.last_day - self.first_day
    }

    /// The column of the grid's first column on the screen, to the right of
    /// the weekday names.
    pub open spec fn graph_x(self) -> int {
        self.area.x + 4
    }

    /// The row of the grid's first row on the screen, below the heading and
    /// the month names.
    pub open spec fn graph_y(self) -> int {
        self.area.y + 2
    }

    /// The heading: the total, the length of the window and the metric.
    pub open spec fn heading(self) -> Seq<char> {
        heading_text(
            total_of(self.rows, self.metric),
            self.lookback() as nat,
            self.metric.title(),
        )
    }

    /// The heading in the area's top left corner.
    pub open spec fn heading_mark(self) -> Mark {
        Mark { x: self.area.x as int, y: self.area.y as int, text: self.heading(), ink: Ink::Plain }
    }

    /// Day number of the day at stride `s`: `s` weeks after the first day.
    pub open spec fn stride_day(self, s: int) -> int {
        self.first_day + 7 * s
    }

    /// The number of strides that start before the last day of the window.
    pub open spec fn strides(self) -> int {
        (self.lookback() + 6) / 7
    }

    /// Whether the month's name is drawn at stride `s`: the stride starts
    /// before the window's last day, its column lies in the area, its row
    /// can be addressed, and its month is not that of the stride before.
    pub open spec fn shows_month(self, s: int) -> bool {
        &&& 0 <= s
        &&& 7 * s < self.lookback()
        &&& self.graph_x() + 2 * s < self.area.right_edge()
        &&& self.area.y + 1 <= 0xffff
        &&& (s == 0 || month_of_day(self.stride_day(s)) != month_of_day(self.stride_day(s - 1)))
    }

    /// The month's name above the column of stride `s`.
    pub open spec fn month_mark(self, s: int) -> Mark {
        Mark {
            x: self.graph_x() + 2 * s,
            y: self.area.y + 1,
            text: month_abbreviation(month_of_day(self.stride_day(s))),
            ink: Ink::DarkGray,
        }
    }

    /// The month names of the first `n` strides, from left to right.
    pub open spec fn month_marks(self, n: int) -> Seq<Mark>
        decreases n,
    {
        if n <= 0 {
            Seq::empty()
        } else if self.shows_month(n - 1) {
            self.month_marks(n - 1).push(self.month_mark(n - 1))
        } else {
            self.month_marks(n - 1)
        }
    }

    /// The name of a weekday to the left of row `row` of the grid, if that
    /// row can be addressed.
    pub open spec fn weekday_mark(self, row: int, name: Seq<char>) -> Seq<Mark> {
        if self.graph_y() + row <= 0xffff {
            seq![
                Mark {
                    x: self.area.x as int,
                    y: self.graph_y() + row,
                    text: name,
                    ink: Ink::DarkGray,
                },
            ]
        } else {
            Seq::empty()
        }
    }

    /// The names of Monday, Wednesday and Friday to the left of their rows.
    pub open spec fn weekday_marks(self) -> Seq<Mark> {
        self.weekday_mark(1, "Mon"@) + self.weekday_mark(3, "Wed"@) + self.weekday_mark(5, "Fri"@)
    }

    /// The screen column of day `d`: two columns for each column of the
    /// grid.
    pub open spec fn cell_x(self, d: int) -> int {
        self.graph_x() + 2 * grid_column(self.first_day, d)
    }

    /// The screen row of day `d`.
    pub open spec fn cell_y(self, d: int) -> int {
        self.graph_y() + grid_row(d)
    }

    /// Whether the cell of day `d` lies in the area, with a column to spare
    /// on its right.
    pub open spec fn shows_cell(self, d: int) -> bool {
        self.cell_x(d) + 1 < self.area.right_edge() && self.cell_y(d) < self.area.bottom_edge()
    }

    /// The cell of day `d`: a square in the colour of the day's value.
    pub open spec fn cell_mark(self, d: int) -> Mark {
        Mark {
            x: self.cell_x(d),
            y: self.cell_y(d),
            text: "\u{25a0}"@,
            ink: ink_of(
                shade_of(value_on(self.rows, self.metric, d), scale_of(self.rows, self.metric)),
            ),
        }
    }

    /// The cells of the first `n` days of the window, in the order of the
    /// days.
    pub open spec fn cell_marks(self, n: int) -> Seq<Mark>
        decreases n,
    {
        if n <= 0 {
            Seq::empty()
        } else if self.shows_cell(self.first_day + n - 1) {
            self.cell_marks(n - 1).push(self.cell_mark(self.first_day + n - 1))
        } else {
            self.cell_marks(n - 1)
        }
    }

    /// All that is drawn of the heatmap, in the order of drawing: the
    /// heading, the month names, the weekday names, and a cell for every
    /// day from the first day of the window to the last.
    pub open spec fn marks(self) -> Seq<Mark> {
        seq![self.heading_mark()] + self.month_marks(self.strides()) + self.weekday_marks()
            + self.cell_marks(self.lookback() + 1)
    }
}

/// No month name is drawn from stride `from` on: the names of more strides
/// are those of the strides before it.
proof fn lemma_month_marks_end(chart: Chart, from: int, n: int)
    requires
        0 <= from <= n,
        forall|s: int| from <= s < n ==> !chart.shows_month(s),
    ensures
        chart.month_marks(n) == chart.month_marks(from),
    decreases n - from,
{
    if from < n {
        lemma_month_marks_end(chart, from, n - 1);
    }
}

/// One more glyph stands for one more mark.
proof fn lemma_push_mark(glyphs: Seq<Glyph>, g: Glyph)
    ensures
        marks_of(glyphs.push(g)) == marks_of(glyphs).push(g@),
{
    assert(marks_of(glyphs.push(g)) =~= marks_of(glyphs).push(g@));
}

/// A heatmap of one metric of the daily totals over a window.
pub struct HeatmapWidget<'a> {
    pub stats: &'a DayTotals,
    pub window: TimeWindow,
    pub metric: Metric,
}

impl<'a> HeatmapWidget<'a> {
    /// The heatmap as it is to be drawn in `area`.
    pub open spec fn chart(self, area: Area) -> Chart {
        Chart {
            area,
            first_day: self.window.first_day(),
            last_day: self.window.last_day(),
            rows: self.stats.rows(),
            metric: self.metric,
        }
    }

    /// The heading of the heatmap.
    fn heading(&self) -> (text: String)
        ensures
            text@ == heading_text(
                total_of(self.stats.rows(), self.metric),
                self.window.lookback() as nat,
                self.metric.title(),
            ),
    {
        let mut text = decimal_text(total(self.stats, self.metric));
        text.append(" contributions in the last ");
        text.append(decimal_text(self.window.lookback_days() as u128).as_str());
        text.append(" days (");
        text.append(self.metric.title_text());
        text.append(")");
        text
    }

    /// Adds the month names to `glyphs`.
    fn push_months(&self, area: Area, glyphs: &mut Vec<Glyph>)
        ensures
            marks_of(final(glyphs)@) == marks_of(old(glyphs)@) + self.chart(area).month_marks(
                self.chart(area).strides(),
            ),
    {
        let ghost chart = self.chart(area);
        let ghost before = marks_of(glyphs@);
        let lookback: i64 = self.window.lookback_days();
        let start = self.window.start();
        let right: i64 = area.right() as i64;
        let graph_x: i64 = area.x as i64 + 4;
        let first: i32 = start.days_from_ce();
        let last: i32 = self.window.today().days_from_ce();
        if area.y == 0xffff {
            proof {
                lemma_month_marks_end(chart, 0, chart.strides());
                assert(before + chart.month_marks(0) =~= before);
            }
            return ;
        }
        let mut s: i64 = 0;
        let mut previous: u32 = 0;
        proof {
            assert(before + chart.month_marks(0) =~= before);
        }
        while 7 * s < lookback
            invariant
                0 <= s,
                7 * s < lookback + 7,
                0 <= lookback == chart.lookback(),
                chart == self.chart(area),
                start@ == chart.first_day,
                first == chart.first_day,
                last == chart.last_day,
                is_day_number(first as int),
                is_day_number(last as int),
                before == marks_of(old(glyphs)@),
                right == area.right_edge(),
                graph_x == chart.graph_x(),
                area.y < 0xffff,
                s > 0 ==> previous == month_of_day(chart.stride_day(s - 1)),
                marks_of(glyphs@) == before + chart.month_marks(s as int),
            decreases lookback + 7 - 7 * s,
        {
            let x: i64 = graph_x + 2 * s;
            if x >= right {
                proof {
                    assert forall|t: int| s <= t < chart.strides() implies !chart.shows_month(t) by {
                    }
                    if s <= chart.strides() {
                        lemma_month_marks_end(chart, s as int, chart.strides());
                    } else {
                        lemma_month_marks_end(chart, chart.strides(), s as int);
                    }
                }
                return ;
            }
            let date = match start.plus_days(7 * s) {
                Some(d) => d,
                None => {
                    assert(false);
                    return ;
                },
            };
            let month = date.month();
            let ghost drawn = marks_of(glyphs@);
            if s == 0 || month != previous {
                let text = date.month_name();
                let glyph = Glyph { x: x as u16, y: area.y + 1, text, ink: Ink::DarkGray };
                proof {
                    lemma_push_mark(glyphs@, glyph);
                    assert(glyph@ == chart.month_mark(s as int));
                    assert(chart.shows_month(s as int));
                }
                glyphs.push(glyph);
                proof {
                    assert(before + chart.month_marks(s as int).push(chart.month_mark(s as int))
                        =~= (before + chart.month_marks(s as int)).push(
                        chart.month_mark(s as int),
                    ));
                }
            } else {
                proof {
                    assert(!chart.shows_month(s as int));
                }
            }
            previous = month;
            s = s + 1;
        }
        proof {
            let n = chart.strides();
            if s <= n {
                assert forall|t: int| s <= t < n implies !chart.shows_month(t) by {
                }
                lemma_month_marks_end(chart, s as int, n);
            } else {
                assert forall|t: int| n <= t < s implies !chart.shows_month(t) by {
                }
                lemma_month_marks_end(chart, n, s as int);
            }
        }
    }

    /// Adds the name of one weekday to `glyphs`.
    fn push_weekday(&self, area: Area, row: u16, name: &str, glyphs: &mut Vec<Glyph>)
        requires
            row < 7,
        ensures
            marks_of(final(glyphs)@) == marks_of(old(glyphs)@) + self.chart(area).weekday_mark(
                row as int,
                name@,
            ),
    {
        let ghost before = marks_of(glyphs@);
        let y: u32 = area.y as u32 + 2 + row as u32;
        if y <= 0xffff {
            let glyph = Glyph {
                x: area.x,
                y: y as u16,
                text: String::from_str(name),
                ink: Ink::DarkGray,
            };
            proof {
                lemma_push_mark(glyphs@, glyph);
                assert(before + seq![glyph@] =~= before.push(glyph@));
            }
            glyphs.push(glyph);
        } else {
            proof {
                assert(before + Seq::<Mark>::empty() =~= before);
            }
        }
    }

    /// Adds the cells of the days of the window to `glyphs`.
    fn push_cells(&self, area: Area, glyphs: &mut Vec<Glyph>)
        ensures
            marks_of(final(glyphs)@) == marks_of(old(glyphs)@) + self.chart(area).cell_marks(
                self.chart(area).lookback() + 1,
            ),
    {
        let ghost chart = self.chart(area);
        let ghost before = marks_of(glyphs@);
        let lookback: i64 = self.window.lookback_days();
        let start = self.window.start();
        let first: i32 = start.days_from_ce();
        let last: i32 = self.window.today().days_from_ce();
        let right: i64 = area.right() as i64;
        let bottom: i64 = area.bottom() as i64;
        let graph_x: i64 = area.x as i64 + 4;
        let graph_y: i64 = area.y as i64 + 2;
        let lead: i64 = start.weekday_from_sunday() as i64;
        let largest = scale(self.stats, self.metric);
        let mut i: i64 = 0;
        proof {
            assert(before + chart.cell_marks(0) =~= before);
        }
        while i <= lookback
            invariant
                0 <= i <= lookback + 1,
                lookback == chart.lookback(),
                chart == self.chart(area),
                start@ == chart.first_day,
                first == chart.first_day,
                last == chart.last_day,
                is_day_number(first as int),
                is_day_number(last as int),
                before == marks_of(old(glyphs)@),
                right == area.right_edge(),
                bottom == area.bottom_edge(),
                graph_x == chart.graph_x(),
                graph_y == chart.graph_y(),
                lead == weekday_index(chart.first_day),
                largest == scale_of(chart.rows, chart.metric),
                marks_of(glyphs@) == before + chart.cell_marks(i as int),
            decreases lookback + 1 - i,
        {
            let date = match start.plus_days(i) {
                Some(d) => d,
                None => {
                    assert(false);
                    return ;
                },
            };
            let ghost d = date@;
            let row: i64 = date.weekday_from_sunday() as i64;
            let column: i64 = (i + lead) / 7;
            let x: i64 = graph_x + 2 * column;
            let y: i64 = graph_y + row;
            proof {
                assert(d == chart.first_day + (i + 1) - 1);
                assert(column == grid_column(chart.first_day, d));
                assert(x == chart.cell_x(d));
                assert(y == chart.cell_y(d));
            }
            if x + 1 < right && y < bottom {
                let value = match self.stats.get(&date) {
                    Some(stats) => self.metric.value(&stats),
                    None => 0,
                };
                let glyph = Glyph {
                    x: x as u16,
                    y: y as u16,
                    text: String::from_str("\u{25a0}"),
                    ink: get_github_color(value, largest),
                };
                proof {
                    assert(value == value_on(chart.rows, chart.metric, d));
                    lemma_push_mark(glyphs@, glyph);
                    assert(glyph@ == chart.cell_mark(d));
                    assert(before + chart.cell_marks(i as int).push(chart.cell_mark(d)) =~= (before
                        + chart.cell_marks(i as int)).push(chart.cell_mark(d)));
                }
                glyphs.push(glyph);
            }
            i = i + 1;
        }
    }

    /// Adds to `glyphs` what is drawn of the heatmap in `area`, in the order
    /// of drawing.
    pub fn render_into(&self, area: Area, glyphs: &mut Vec<Glyph>)
        ensures
            marks_of(final(glyphs)@) == marks_of(old(glyphs)@) + self.chart(area).marks(),
    {
        let ghost chart = self.chart(area);
        let ghost before = marks_of(glyphs@);
        let heading = Glyph { x: area.x, y: area.y, text: self.heading(), ink: Ink::Plain };
        proof {
            assert(heading@ == chart.heading_mark());
            lemma_push_mark(glyphs@, heading);
        }
        glyphs.push(heading);
        self.push_months(area, glyphs);
        self.push_weekday(area, 1, "Mon", glyphs);
        self.push_weekday(area, 3, "Wed", glyphs);
        self.push_weekday(area, 5, "Fri", glyphs);
        self.push_cells(area, glyphs);
        proof {
            assert(before.push(chart.heading_mark()) + chart.month_marks(chart.strides())
                + chart.weekday_mark(1, "Mon"@) + chart.weekday_mark(3, "Wed"@)
                + chart.weekday_mark(5, "Fri"@) + chart.cell_marks(chart.lookback() + 1) =~= before
                + chart.marks());
        }
    }

    /// What is drawn of the heatmap in `area`, in the order of drawing.
    pub fn render(&self, area: Area) -> (glyphs: Vec<Glyph>)
        ensures
            marks_of(glyphs@) == self.chart(area).marks(),
    {
        let mut glyphs: Vec<Glyph> = Vec::new();
        self.render_into(area, &mut glyphs);
        proof {
            assert(Seq::<Mark>::empty() + self.chart(area).marks() =~= self.chart(area).marks());
            assert(marks_of(Seq::<Glyph>::empty()) =~= Seq::<Mark>::empty());
        }
        glyphs
    }
}

/// The frame without its padding: four columns on the left and two rows at
/// the top.
pub open spec fn padded(frame: Area) -> Area {
    Area {
        x: (frame.x + 4) as u16,
        y: (frame.y + 2) as u16,
        width: if frame.width >= 4 {
            (frame.width - 4) as u16
        } else {
            0
        },
        height: if frame.height >= 2 {
            (frame.height - 2) as u16
        } else {
            0
        },
    }
}

/// The frame without its padding. The padded area must start at a column
/// and row that can be addressed.
pub fn padded_area(frame: Area) -> (area: Area)
    requires
        frame.x + 4 <= u16::MAX,
        frame.y + 2 <= u16::MAX,
    ensures
        area == padded(frame),
{
    Area {
        x: frame.x + 4,
        y: frame.y + 2,
        width: if frame.width >= 4 {
            frame.width - 4
        } else {
            0
        },
        height: if frame.height >= 2 {
            frame.height - 2
        } else {
            0
        },
    }
}

/// What one band of a vertical layout asks for.
#[derive(Clone, Copy, Debug, PartialEq, Eq, Structural)]
pub enum Band {
    /// Exactly this many rows.
    Length(u16),
    /// At least this many rows.
    Min(u16),
}

/// The rows of the screen: eleven for the heatmap of commits, one left
/// free, eleven for the heatmap of lines, and the rest.
pub fn screen_bands() -> (bands: Vec<Band>)
    ensures
        bands@ == seq![Band::Length(11), Band::Length(1), Band::Length(11), Band::Min(0)],
{
    let mut bands: Vec<Band> = Vec::new();
    bands.push(Band::Length(11));
    bands.push(Band::Length(1));
    bands.push(Band::Length(11));
    bands.push(Band::Min(0));
    assert(bands@ =~= seq![Band::Length(11), Band::Length(1), Band::Length(11), Band::Min(0)]);
    bands
}

/// ratatui's `Layout::split` for a vertical layout with one constraint for
/// each band. Trusted: it gives one area for each band, and each has the
/// columns of the area that is split. At which row a band starts and how
/// many rows it has is the layout solver's choice and is not stated.
#[verifier::external_body]
fn split_vertical(area: Area, bands: &Vec<Band>) -> (rows: Vec<Area>)
    ensures
        rows.len() == bands.len(),
        forall|i: int|
            0 <= i < rows.len() ==> (#[trigger] rows[i]).x == area.x && rows[i].width
                == area.width,
{
    let constraints: Vec<ratatui::layout::Constraint> = bands.iter().map(
        |band| match band {
            Band::Length(n) => ratatui::layout::Constraint::Length(*n),
            Band::Min(n) => ratatui::layout::Constraint::Min(*n),
        },
    ).collect();
    let rect = ratatui::layout::Rect { x: area.x, y: area.y, width: area.width, height: area.height };
    ratatui::layout::Layout::default().direction(ratatui::layout::Direction::Vertical).constraints(
        constraints,
    ).split(rect).iter().map(|r| Area { x: r.x, y: r.y, width: r.width, height: r.height }).collect()
}

/// All that is drawn on the screen: the heatmap of commits in `top` and
/// below it the heatmap of changed lines in `bottom`.
pub open spec fn screen_marks(
    top: Area,
    bottom: Area,
    rows: Seq<(int, Activity)>,
    first_day: int,
    last_day: int,
) -> Seq<Mark> {
    Chart { area: top, first_day, last_day, rows, metric: Metric::Commits }.marks() + Chart {
        area: bottom,
        first_day,
        last_day,
        rows,
        metric: Metric::LinesChanged,
    }.marks()
}

/// The two heatmaps of `stats` over `window`: commits in `top`, changed
/// lines in `bottom`.
pub fn two_heatmaps(top: Area, bottom: Area, stats: &DayTotals, window: &TimeWindow) -> (glyphs:
    Vec<Glyph>)
    ensures
        marks_of(glyphs@) == screen_marks(
            top,
            bottom,
            stats.rows(),
            window.first_day(),
            window.last_day(),
        ),
{
    let commits = HeatmapWidget { stats, window: *window, metric: Metric::Commits };
    let lines = HeatmapWidget { stats, window: *window, metric: Metric::LinesChanged };
    let mut glyphs = commits.render(top);
    lines.render_into(bottom, &mut glyphs);
    glyphs
}

/// What is drawn in the frame of the terminal: inside the frame's padding,
/// the heatmap of commits in the first band of the screen and the heatmap of
/// changed lines in the third. Both bands have the columns of the padded
/// frame; at which rows they lie is the layout's choice.
pub fn ui(frame: Area, stats: &DayTotals, window: &TimeWindow) -> (glyphs: Vec<Glyph>)
    requires
        frame.x + 4 <= u16::MAX,
        frame.y + 2 <= u16::MAX,
    ensures
        exists|top: Area, bottom: Area|
            marks_of(glyphs@) == #[trigger] screen_marks(
                top,
                bottom,
                stats.rows(),
                window.first_day(),
                window.last_day(),
            ) && top.x == padded(frame).x && top.width == padded(frame).width && bottom.x
                == padded(frame).x && bottom.width == padded(frame).width,
{
    let bands = screen_bands();
    let rows = split_vertical(padded_area(frame), &bands);
    two_heatmaps(rows[0], rows[2], stats, window)
}

/// A key of the keyboard, as far as the event loop tells keys apart.
#[derive(Clone, Copy, Debug, PartialEq, Eq, Structural)]
pub enum Key {
    /// A key that gives a character.
    Char(char),
    /// The escape key.
    Esc,
    /// Any other key.
    Other,
}

/// What the event loop does next.
#[derive(Clone, Copy, Debug, PartialEq, Eq, Structural)]
pub enum LoopAction {
    /// Leave the loop and give the terminal back.
    Quit,
    /// Draw the frame again and wait for the next key.
    Redraw,
}

/// How long the event loop waits for a key before it draws again, in
/// milliseconds.
pub const POLL_INTERVAL_MS: u64 = 100;

/// Whether the key ends the event loop: `q` and escape do.
pub open spec fn is_quit_key(key: Key) -> bool {
    key == Key::Char('q') || key == Key::Esc
}

/// What the event loop does after it has waited for a key: `key` is the key
/// that was pressed, if one was.
pub fn after_poll(key: Option<Key>) -> (action: LoopAction)
    ensures
        action == LoopAction::Quit <==> (key matches Some(k) && is_quit_key(k)),
        action == LoopAction::Redraw <==> !(key matches Some(k) && is_quit_key(k)),
{
    match key {
        Some(Key::Char(c)) => if c == 'q' {
            LoopAction::Quit
        } else {
            LoopAction::Redraw
        },
        Some(Key::Esc) => LoopAction::Quit,
        _ => LoopAction::Redraw,
    }
}

} // verus!
