use vstd::prelude::*;

use crate::models::{IssueLog, IssueLogView};
use crate::renderer::{area_path_attrs, chart_doc_attrs, is_chart_markup, line_path_attrs,
    nonneg_points, spec_chart_paths, GraphStyle, Point, Renderer};
use crate::svg_doc::no_paths;

verus! {

/// One reconstructed sample of a child entity: collection time (seconds since
/// the Unix epoch) and the two effort values.
#[derive(Clone, Copy)]
pub struct TimeSpentData {
    pub date: i64,
    pub time_spent: i64,
    pub time_estimate: i64,
}

/// A failure of the render path.
#[derive(Debug)]
pub enum RenderError {
    /// A history row carried a timestamp the parser rejects; the payload is
    /// that timestamp text.
    BadTimestamp(String),
}

/// Width of the default chart drawing area, in pixels.
pub const DEFAULT_WIDTH: i32 = 150;

/// Height of the default chart drawing area, in pixels.
pub const DEFAULT_HEIGHT: i32 = 50;

/// Margin around the default chart drawing area, in pixels.
pub const DEFAULT_MARGIN: i32 = 10;

/// The time-series chart of one child entity's history.
pub struct TimeGraph {
    pub renderer: Renderer,
}

/// The nearest integer to `1000 * num / den`, half away from zero.
pub open spec fn round_milli(num: int, den: int) -> int
    recommends
        den > 0,
{
    (2000 * num + den) / (2 * den)
}

/// Chart x of one sample, in milli-pixels: the linear position of its date
/// between the first and last date, scaled to the width. A degenerate range
/// (all dates equal) puts every sample at 0 instead of dividing by zero.
pub open spec fn x_milli_of(date: int, min_date: int, max_date: int, width: int) -> int {
    if max_date == min_date {
        0
    } else {
        round_milli(width * (date - min_date), max_date - min_date)
    }
}

/// Chart y of one sample value, in milli-pixels, on the inverted axis: the
/// height minus the value's share of the maximum, scaled to the height. When
/// no effort was recorded anywhere (maximum 0) every value sits on the
/// baseline instead of dividing by zero.
pub open spec fn y_milli_of(value: int, max_value: int, height: int) -> int {
    if max_value == 0 {
        1000 * height
    } else {
        round_milli(height * (max_value - value), max_value)
    }
}

/// The greatest effort value (spent or estimated) of the series; 0 when empty.
pub open spec fn max_effort(data: Seq<TimeSpentData>) -> int
    decreases data.len(),
{
    if data.len() == 0 {
        0
    } else {
        let m = max_effort(data.drop_last());
        let c = if data.last().time_spent >= data.last().time_estimate {
            data.last().time_spent as int
        } else {
            data.last().time_estimate as int
        };
        if c > m {
            c
        } else {
            m
        }
    }
}

/// The samples stand in chronological order.
pub open spec fn sorted_by_date(data: Seq<TimeSpentData>) -> bool {
    forall|i: int, j: int| 0 <= i < j < data.len() ==> data[i].date <= data[j].date
}

/// Every effort value of the series is non-negative.
pub open spec fn nonneg_efforts(data: Seq<TimeSpentData>) -> bool {
    forall|i: int| 0 <= i < data.len() ==> data[i].time_spent >= 0 && data[i].time_estimate >= 0
}

/// Law: a degenerate time range — every sample at one date — puts every point
/// at x = 0; no division by zero arises.
pub proof fn lemma_degenerate_range_x(date: int, min_date: int, width: int)
    ensures
        x_milli_of(date, min_date, min_date, width) == 0,
{
}

/// Law: an all-zero-effort series (greatest effort 0) puts every value on the
/// baseline y = height; no division by zero arises.
pub proof fn lemma_zero_effort_y(value: int, height: int)
    ensures
        y_milli_of(value, 0, height) == 1000 * height,
{
}

fn scale_milli(num: i128, den: i128) -> (r: i64)
    requires
        0 < den,
        0 <= num <= den * 0x7fff_ffff,
        den <= 0x2_0000_0000_0000_0000,
    ensures
        r == round_milli(num as int, den as int),
        0 <= r <= 1000 * 0x7fff_ffff,
{
    proof {
        assert(2000 * num <= 2000 * (den * 0x7fff_ffff)) by (nonlinear_arith)
            requires
                num <= den * 0x7fff_ffff,
        ;
        assert(2000 * (den * 0x7fff_ffff) + den == (2 * den) * 1000 * 0x7fff_ffff + den)
            by (nonlinear_arith);
    }
    let q: i128 = (2000 * num + den) / (2 * den);
    proof {
        let x = 2000 * num + den;
        let d = 2 * den;
        vstd::arithmetic::div_mod::lemma_div_is_ordered(x as int, (2000 * (den * 0x7fff_ffff)
            + den) as int, d as int);
        vstd::arithmetic::div_mod::lemma_fundamental_div_mod_converse(
            (2000 * (den * 0x7fff_ffff) + den) as int,
            d as int,
            1000int * 0x7fff_ffff,
            den as int,
        );
        vstd::arithmetic::div_mod::lemma_div_pos_is_pos(x as int, d as int);
    }
    q as i64
}

fn x_coord(width: i32, date: i64, min_date: i64, max_date: i64) -> (r: i64)
    requires
        0 <= width,
        min_date <= date <= max_date,
    ensures
        r == x_milli_of(date as int, min_date as int, max_date as int, width as int),
        0 <= r <= 1000 * 0x7fff_ffff,
{
    if max_date == min_date {
        0
    } else {
        let den: i128 = (max_date as i128) - (min_date as i128);
        let diff: i128 = (date as i128) - (min_date as i128);
        proof {
            assert(0 <= (width as int) * (diff as int) && (width as int) * (diff as int) <= den
                * 0x7fff_ffff && den * 0x7fff_ffff < i128::MAX) by (nonlinear_arith)
                requires
                    0 < den <= 0x2_0000_0000_0000_0000,
                    0 <= width <= 0x7fff_ffff,
                    0 <= diff <= den,
            ;
        }
        let num: i128 = (width as i128) * diff;
        scale_milli(num, den)
    }
}

fn y_coord(height: i32, value: i64, max_value: i64) -> (r: i64)
    requires
        0 <= height,
        0 <= value <= max_value || (max_value == 0 && value == 0),
    ensures
        r == y_milli_of(value as int, max_value as int, height as int),
        0 <= r <= 1000 * 0x7fff_ffff,
{
    if max_value == 0 {
        proof {
            assert(1000 * (height as int) <= 1000 * 0x7fff_ffff) by (nonlinear_arith)
                requires
                    0 <= height <= 0x7fff_ffff,
            ;
        }
        1000 * (height as i64)
    } else {
        let den: i128 = max_value as i128;
        let diff: i128 = (max_value as i128) - (value as i128);
        proof {
            assert(0 <= (height as int) * (diff as int) && (height as int) * (diff as int) <= den
                * 0x7fff_ffff && den * 0x7fff_ffff < i128::MAX) by (nonlinear_arith)
                requires
                    0 < den <= 0x2_0000_0000_0000_0000,
                    0 <= height <= 0x7fff_ffff,
                    0 <= diff <= den,
            ;
        }
        let num: i128 = (height as i128) * diff;
        scale_milli(num, den)
    }
}

/// The spent-effort series of a chronological history, point for point: each
/// sample's date scaled between the first and last date, its spent effort on
/// the inverted axis against the greatest effort of the series.
pub open spec fn spec_spent_series(data: Seq<TimeSpentData>, width: int, height: int) -> Seq<
    Point,
> {
    Seq::new(
        data.len(),
        |i: int|
            (Point {
                x_milli: x_milli_of(
                    data[i].date as int,
                    data[0].date as int,
                    data[data.len() - 1].date as int,
                    width,
                ) as i64,
                y_milli: y_milli_of(data[i].time_spent as int, max_effort(data), height) as i64,
            }),
    )
}

/// The estimated-effort series of a chronological history, index-aligned to
/// the same x positions as the spent series.
pub open spec fn spec_estimate_series(data: Seq<TimeSpentData>, width: int, height: int) -> Seq<
    Point,
> {
    Seq::new(
        data.len(),
        |i: int|
            (Point {
                x_milli: x_milli_of(
                    data[i].date as int,
                    data[0].date as int,
                    data[data.len() - 1].date as int,
                    width,
                ) as i64,
                y_milli: y_milli_of(data[i].time_estimate as int, max_effort(data), height) as i64,
            }),
    )
}

/// The `<path>` children of one history's chart: nothing for an empty
/// history, else the estimate series' filled area and stroked line (drawn
/// first, beneath) followed by the spent series' area and line.
pub open spec fn chart_paths_of(data: Seq<TimeSpentData>, width: int, height: int) -> Seq<
    Map<Seq<char>, Seq<char>>,
> {
    if data.len() == 0 {
        no_paths()
    } else {
        seq![
            area_path_attrs(spec_estimate_series(data, width, height), height, "#4A90E2"@),
            line_path_attrs(spec_estimate_series(data, width, height), "#4A90E2"@),
            area_path_attrs(spec_spent_series(data, width, height), height, "#E74C3C"@),
            line_path_attrs(spec_spent_series(data, width, height), "#E74C3C"@),
        ]
    }
}

impl TimeGraph {
    /// Whether the chart dimensions are usable: non-negative, with the full
    /// canvas fitting the pixel type.
    pub open spec fn wf(&self) -> bool {
        &&& 0 <= self.renderer.width
        &&& 0 <= self.renderer.height
        &&& 0 <= self.renderer.margin
        &&& self.renderer.width + 2 * self.renderer.margin <= i32::MAX
        &&& self.renderer.height + 2 * self.renderer.margin <= i32::MAX
    }

    /// A chart of the given drawing area and margin.
    pub fn new(width: i32, height: i32, margin: i32) -> (r: Self)
        requires
            0 <= width,
            0 <= height,
            0 <= margin,
            width + 2 * margin <= i32::MAX,
            height + 2 * margin <= i32::MAX,
        ensures
            r.wf(),
            r.renderer.width == width,
            r.renderer.height == height,
            r.renderer.margin == margin,
    {
        TimeGraph { renderer: Renderer::new(width, height, margin) }
    }

    /// The two normalized coordinate series of a chronologically ordered
    /// history: spent effort and estimated effort, index-aligned on the same
    /// x positions. An empty history yields two empty series.
    pub fn normalize_time_data(&self, time_spent_data: &Vec<TimeSpentData>) -> (r: (
        Vec<Point>,
        Vec<Point>,
    ))
        requires
            self.wf(),
            sorted_by_date(time_spent_data@),
            nonneg_efforts(time_spent_data@),
        ensures
            r.0@ == spec_spent_series(
                time_spent_data@,
                self.renderer.width as int,
                self.renderer.height as int,
            ),
            r.1@ == spec_estimate_series(
                time_spent_data@,
                self.renderer.width as int,
                self.renderer.height as int,
            ),
            nonneg_points(r.0@),
            nonneg_points(r.1@),
            forall|i: int|
                0 <= i < time_spent_data@.len() ==> (#[trigger] r.0@[i]).x_milli == x_milli_of(
                    time_spent_data@[i].date as int,
                    time_spent_data@[0].date as int,
                    time_spent_data@[time_spent_data@.len() - 1].date as int,
                    self.renderer.width as int,
                ) && r.0@[i].y_milli == y_milli_of(
                    time_spent_data@[i].time_spent as int,
                    max_effort(time_spent_data@),
                    self.renderer.height as int,
                ),
            forall|i: int|
                0 <= i < time_spent_data@.len() ==> (#[trigger] r.1@[i]).x_milli == x_milli_of(
                    time_spent_data@[i].date as int,
                    time_spent_data@[0].date as int,
                    time_spent_data@[time_spent_data@.len() - 1].date as int,
                    self.renderer.width as int,
                ) && r.1@[i].y_milli == y_milli_of(
                    time_spent_data@[i].time_estimate as int,
                    max_effort(time_spent_data@),
                    self.renderer.height as int,
                ),
    {
        let n = time_spent_data.len();
        if n == 0 {
            let empty_spent: Vec<Point> = Vec::new();
            let empty_estimate: Vec<Point> = Vec::new();
            proof {
                assert(empty_spent@ =~= spec_spent_series(
                    time_spent_data@,
                    self.renderer.width as int,
                    self.renderer.height as int,
                ));
                assert(empty_estimate@ =~= spec_estimate_series(
                    time_spent_data@,
                    self.renderer.width as int,
                    self.renderer.height as int,
                ));
            }
            return (empty_spent, empty_estimate);
        }
        let min_date = time_spent_data[0].date;
        let max_date = time_spent_data[n - 1].date;

        let mut max_value: i64 = 0;
        let mut i: usize = 0;
        while i < n
            invariant
                i <= n,
                n == time_spent_data@.len(),
                nonneg_efforts(time_spent_data@),
                max_value == max_effort(time_spent_data@.take(i as int)),
                max_value >= 0,
            decreases n - i,
        {
            let ghost prev = time_spent_data@.take(i as int);
            let spent = time_spent_data[i].time_spent;
            let estimate = time_spent_data[i].time_estimate;
            if spent > max_value {
                max_value = spent;
            }
            if estimate > max_value {
                max_value = estimate;
            }
            proof {
                let s1 = time_spent_data@.take(i as int + 1);
                assert(s1.drop_last() =~= prev);
                assert(s1.last() == time_spent_data@[i as int]);
            }
            i += 1;
        }
        proof {
            assert(time_spent_data@.take(n as int) =~= time_spent_data@);
        }
        let ghost mv = max_effort(time_spent_data@);
        proof {
            lemma_max_effort_bounds(time_spent_data@);
        }

        let mut spent_points: Vec<Point> = Vec::new();
        let mut estimate_points: Vec<Point> = Vec::new();
        let mut j: usize = 0;
        while j < n
            invariant
                j <= n,
                n == time_spent_data@.len(),
                self.wf(),
                sorted_by_date(time_spent_data@),
                nonneg_efforts(time_spent_data@),
                min_date == time_spent_data@[0].date,
                max_date == time_spent_data@[n - 1].date,
                max_value == max_effort(time_spent_data@),
                max_value >= 0,
                forall|q: int|
                    0 <= q < time_spent_data@.len() ==> (#[trigger] time_spent_data@[q]).time_spent
                        <= max_value && time_spent_data@[q].time_estimate <= max_value,
                spent_points@.len() == j,
                estimate_points@.len() == j,
                nonneg_points(spent_points@),
                nonneg_points(estimate_points@),
                forall|q: int|
                    0 <= q < j ==> (#[trigger] spent_points@[q]).x_milli == x_milli_of(
                        time_spent_data@[q].date as int,
                        time_spent_data@[0].date as int,
                        time_spent_data@[n - 1].date as int,
                        self.renderer.width as int,
                    ) && spent_points@[q].y_milli == y_milli_of(
                        time_spent_data@[q].time_spent as int,
                        max_effort(time_spent_data@),
                        self.renderer.height as int,
                    ),
                forall|q: int|
                    0 <= q < j ==> (#[trigger] estimate_points@[q]).x_milli == x_milli_of(
                        time_spent_data@[q].date as int,
                        time_spent_data@[0].date as int,
                        time_spent_data@[n - 1].date as int,
                        self.renderer.width as int,
                    ) && estimate_points@[q].y_milli == y_milli_of(
                        time_spent_data@[q].time_estimate as int,
                        max_effort(time_spent_data@),
                        self.renderer.height as int,
                    ),
            decreases n - j,
        {
            let d = time_spent_data[j].date;
            let x = x_coord(self.renderer.width, d, min_date, max_date);
            let ys = y_coord(self.renderer.height, time_spent_data[j].time_spent, max_value);
            let ye = y_coord(self.renderer.height, time_spent_data[j].time_estimate, max_value);
            spent_points.push(Point { x_milli: x, y_milli: ys });
            estimate_points.push(Point { x_milli: x, y_milli: ye });
            j += 1;
        }
        proof {
            assert(spent_points@ =~= spec_spent_series(
                time_spent_data@,
                self.renderer.width as int,
                self.renderer.height as int,
            ));
            assert(estimate_points@ =~= spec_estimate_series(
                time_spent_data@,
                self.renderer.width as int,
                self.renderer.height as int,
            ));
        }
        (spent_points, estimate_points)
    }

    /// The rendered chart of a chronologically ordered history: one document
    /// of the chart's canvas attributes whose children are, for a non-empty
    /// history, exactly the estimate series' area and line (drawn first,
    /// beneath, in blue) followed by the spent series' area and line (in
    /// red), and nothing for an empty history.
    #[verifier::rlimit(50)]
    pub fn render(&self, time_spent_data: &Vec<TimeSpentData>) -> (r: String)
        requires
            self.wf(),
            sorted_by_date(time_spent_data@),
            nonneg_efforts(time_spent_data@),
        ensures
            is_chart_markup(
                r@,
                self.renderer.width as int,
                self.renderer.height as int,
                self.renderer.margin as int,
                chart_paths_of(
                    time_spent_data@,
                    self.renderer.width as int,
                    self.renderer.height as int,
                ),
            ),
    {
        let (spent_points, estimate_points) = self.normalize_time_data(time_spent_data);
        let mut graphs: Vec<(Vec<Point>, GraphStyle)> = Vec::new();
        graphs.push(
            (estimate_points, GraphStyle { stroke_color: "#4A90E2", fill_color: "#4A90E2" }),
        );
        graphs.push((spent_points, GraphStyle { stroke_color: "#E74C3C", fill_color: "#E74C3C" }));
        proof {
            assert(forall|i: int|
                0 <= i < graphs@.len() ==> nonneg_points(#[trigger] graphs@[i].0@));
        }
        let out = self.renderer.render_line_graphs(&graphs);
        proof {
            let w = self.renderer.width as int;
            let h = self.renderer.height as int;
            let gs = graphs@;
            let est = spec_estimate_series(time_spent_data@, w, h);
            let sp = spec_spent_series(time_spent_data@, w, h);
            assert(gs.len() == 2);
            assert(gs[0].0@ == est);
            assert(gs[1].0@ == sp);
            let tail1 = gs.skip(1);
            assert(tail1[0] == gs[1]);
            assert(tail1.skip(1) =~= Seq::<(Vec<Point>, GraphStyle)>::empty());
            assert(spec_chart_paths(tail1.skip(1), h) == no_paths());
            if time_spent_data@.len() == 0 {
                assert(est.len() == 0 && sp.len() == 0);
                assert(spec_chart_paths(tail1, h) == no_paths() + no_paths());
                assert(spec_chart_paths(gs, h) == no_paths() + (no_paths() + no_paths()));
                assert(spec_chart_paths(gs, h) =~= chart_paths_of(time_spent_data@, w, h));
            } else {
                assert(est.len() > 0 && sp.len() > 0);
                let a1 = area_path_attrs(est, h, "#4A90E2"@);
                let l1 = line_path_attrs(est, "#4A90E2"@);
                let a2 = area_path_attrs(sp, h, "#E74C3C"@);
                let l2 = line_path_attrs(sp, "#E74C3C"@);
                assert(spec_chart_paths(tail1, h) == seq![a2, l2] + no_paths());
                assert(spec_chart_paths(gs, h) == seq![a1, l1] + (seq![a2, l2] + no_paths()));
                assert(spec_chart_paths(gs, h) =~= chart_paths_of(time_spent_data@, w, h));
            }
            assert(spec_chart_paths(gs, h) == chart_paths_of(time_spent_data@, w, h));
        }
        out
    }
}

/// Every sample's efforts stay at or below the series maximum, which is
/// non-negative.
proof fn lemma_max_effort_bounds(data: Seq<TimeSpentData>)
    ensures
        max_effort(data) >= 0,
        forall|i: int|
            0 <= i < data.len() ==> (#[trigger] data[i]).time_spent <= max_effort(data)
                && data[i].time_estimate <= max_effort(data),
    decreases data.len(),
{
    if data.len() > 0 {
        lemma_max_effort_bounds(data.drop_last());
        assert(forall|i: int| 0 <= i < data.len() - 1 ==> data[i] == data.drop_last()[i]);
    }
}


/// What `chrono`'s RFC 3339 parser accepts and yields, reduced to seconds
/// since the Unix epoch: a function of the text alone.
pub uninterp spec fn rfc3339_epoch(s: Seq<char>) -> Option<i64>;

/// Relies on `chrono::DateTime::parse_from_rfc3339` and
/// `chrono::DateTime::timestamp`: parses an RFC 3339 timestamp and reduces it
/// to seconds since the Unix epoch; both results depend on the text alone.
#[verifier::external_body]
fn parse_timestamp(s: &str) -> (r: Option<i64>)
    ensures
        r == rfc3339_epoch(s@),
{
    match chrono::DateTime::parse_from_rfc3339(s) {
        Ok(dt) => Some(dt.timestamp()),
        Err(_) => None,
    }
}

/// The views of a sequence of history rows.
pub open spec fn log_views(logs: Seq<IssueLog>) -> Seq<IssueLogView> {
    logs.map_values(|l: IssueLog| l@)
}

/// The sample one history row reconstructs to (its timestamp already parsed;
/// an unparsable one is mapped to the epoch and never reaches a chart, since
/// reconstruction fails first).
pub open spec fn sample_of_log(l: IssueLogView) -> TimeSpentData {
    (TimeSpentData {
        date: match rfc3339_epoch(l.updated_at) {
            Option::Some(d) => d,
            Option::None => 0,
        },
        time_spent: l.time_spent,
        time_estimate: l.time_estimate,
    })
}

/// The samples of a history, row for row.
pub open spec fn samples_of(logs: Seq<IssueLogView>) -> Seq<TimeSpentData> {
    logs.map_values(|l: IssueLogView| sample_of_log(l))
}

/// The chronologically sorted samples of a history. Fails exactly when some
/// row's timestamp is not RFC 3339; the result is then the sorted
/// rearrangement of the rows' samples.
pub fn history_series(issue_logs: &Vec<IssueLog>) -> (r: Result<Vec<TimeSpentData>, RenderError>)
    ensures
        r is Ok <==> (forall|i: int|
            0 <= i < issue_logs@.len() ==> rfc3339_epoch(
                (#[trigger] issue_logs@[i])@.updated_at,
            ) is Some),
        r matches Ok(v) ==> sorted_by_date(v@) && v@.to_multiset() == samples_of(
            log_views(issue_logs@),
        ).to_multiset(),
        r matches Err(e) ==> (e matches RenderError::BadTimestamp(m) && exists|i: int|
            0 <= i < issue_logs@.len() && rfc3339_epoch(
                (#[trigger] issue_logs@[i])@.updated_at,
            ) is None && m@ == issue_logs@[i]@.updated_at),
{
    broadcast use vstd::seq_lib::to_multiset_insert;
    broadcast use vstd::seq_lib::group_to_multiset_ensures;

    let mut parsed: Vec<TimeSpentData> = Vec::new();
    let mut i: usize = 0;
    while i < issue_logs.len()
        invariant
            i <= issue_logs@.len(),
            parsed@ == samples_of(log_views(issue_logs@)).take(i as int),
            forall|q: int|
                0 <= q < i ==> rfc3339_epoch((#[trigger] issue_logs@[q])@.updated_at) is Some,
        decreases issue_logs@.len() - i,
    {
        let log = &issue_logs[i];
        match parse_timestamp(log.updated_at.as_str()) {
            Option::Some(date) => {
                parsed.push(
                    TimeSpentData {
                        date,
                        time_spent: log.time_spent,
                        time_estimate: log.time_estimate,
                    },
                );
                proof {
                    assert(samples_of(log_views(issue_logs@)).take(i as int + 1)
                        =~= samples_of(log_views(issue_logs@)).take(i as int).push(
                        sample_of_log(issue_logs@[i as int]@),
                    ));
                }
            },
            Option::None => {
                return Result::Err(RenderError::BadTimestamp(log.updated_at.clone()));
            },
        }
        i += 1;
    }
    proof {
        assert(samples_of(log_views(issue_logs@)).take(issue_logs@.len() as int) =~= samples_of(
            log_views(issue_logs@),
        ));
    }

    let mut out: Vec<TimeSpentData> = Vec::new();
    let mut k: usize = 0;
    proof {
        assert(out@.to_multiset() =~= parsed@.take(0).to_multiset());
    }
    while k < parsed.len()
        invariant
            k <= parsed@.len(),
            out@.to_multiset() == parsed@.take(k as int).to_multiset(),
            sorted_by_date(out@),
        decreases parsed@.len() - k,
    {
        let elem = parsed[k];
        let mut j: usize = 0;
        loop
            invariant_except_break
                j <= out.len(),
                forall|q: int| 0 <= q < j ==> (#[trigger] out@[q]).date <= elem.date,
            ensures
                j <= out.len(),
                forall|q: int| 0 <= q < j ==> (#[trigger] out@[q]).date <= elem.date,
                j < out.len() ==> out@[j as int].date > elem.date,
            decreases out.len() - j,
        {
            if j == out.len() {
                break;
            }
            if out[j].date > elem.date {
                break;
            }
            j += 1;
        }
        let ghost pre = out@;
        out.insert(j, elem);
        proof {
            pre.insert_ensures(j as int, elem);
            vstd::seq_lib::to_multiset_insert::<TimeSpentData>(pre, j as int, elem);
            assert(parsed@.take(k as int + 1) =~= parsed@.take(k as int).push(
                parsed@[k as int],
            ));
            vstd::seq_lib::to_multiset_build::<TimeSpentData>(
                parsed@.take(k as int),
                parsed@[k as int],
            );
            assert(out@ == pre.insert(j as int, elem));
            assert forall|q1: int, q2: int|
                0 <= q1 < q2 < out@.len() implies out@[q1].date <= out@[q2].date by {
                let jj = j as int;
                if q2 < jj {
                    assert(out@[q1] == pre[q1] && out@[q2] == pre[q2]);
                } else if q1 < jj && q2 == jj {
                    assert(out@[q1] == pre[q1] && out@[q2] == elem);
                } else if q1 < jj && q2 > jj {
                    assert(out@[q1] == pre[q1] && out@[q2] == pre[q2 - 1]);
                } else if q1 == jj {
                    assert(out@[q1] == elem && out@[q2] == pre[q2 - 1]);
                } else {
                    assert(out@[q1] == pre[q1 - 1] && out@[q2] == pre[q2 - 1]);
                }
            }
        }
        k += 1;
    }
    proof {
        assert(parsed@.take(parsed@.len() as int) =~= parsed@);
    }
    Result::Ok(out)
}

/// The rendered time-series chart of one child entity's history, at the
/// default chart dimensions, with the rows sorted chronologically first.
/// Fails exactly when some row's timestamp is not RFC 3339; the returned
/// markup is the chart of a chronologically sorted rearrangement of the
/// rows' samples — the same chart for any insertion order of the rows.
pub fn render_issue_time_graph(issue_logs: &Vec<IssueLog>) -> (r: Result<String, RenderError>)
    requires
        forall|i: int|
            0 <= i < issue_logs@.len() ==> (#[trigger] issue_logs@[i]).time_spent >= 0
                && issue_logs@[i].time_estimate >= 0,
    ensures
        r is Ok <==> (forall|i: int|
            0 <= i < issue_logs@.len() ==> rfc3339_epoch(
                (#[trigger] issue_logs@[i])@.updated_at,
            ) is Some),
        r matches Ok(m) ==> (exists|sorted: Seq<TimeSpentData>|
            #![trigger chart_paths_of(sorted, DEFAULT_WIDTH as int, DEFAULT_HEIGHT as int)]
            sorted_by_date(sorted) && sorted.to_multiset() == samples_of(
                log_views(issue_logs@),
            ).to_multiset() && is_chart_markup(
                m@,
                DEFAULT_WIDTH as int,
                DEFAULT_HEIGHT as int,
                DEFAULT_MARGIN as int,
                chart_paths_of(sorted, DEFAULT_WIDTH as int, DEFAULT_HEIGHT as int),
            )),
        r matches Err(e) ==> (e matches RenderError::BadTimestamp(m) && exists|i: int|
            0 <= i < issue_logs@.len() && rfc3339_epoch(
                (#[trigger] issue_logs@[i])@.updated_at,
            ) is None && m@ == issue_logs@[i]@.updated_at),
{
    broadcast use vstd::seq_lib::group_to_multiset_ensures;

    let data = match history_series(issue_logs) {
        Result::Ok(data) => data,
        Result::Err(e) => {
            return Result::Err(e);
        },
    };
    proof {
        let samples = samples_of(log_views(issue_logs@));
        assert forall|i: int|
            0 <= i < data@.len() implies (#[trigger] data@[i]).time_spent >= 0
            && data@[i].time_estimate >= 0 by {
            assert(data@.to_multiset().count(data@[i]) > 0);
            assert(samples.to_multiset().count(data@[i]) > 0);
            assert(samples.contains(data@[i]));
            let w = choose|w: int| 0 <= w < samples.len() && samples[w] == data@[i];
            assert(samples[w] == sample_of_log(issue_logs@[w]@));
        }
    }
    let graph = TimeGraph::new(DEFAULT_WIDTH, DEFAULT_HEIGHT, DEFAULT_MARGIN);
    let markup = graph.render(&data);
    proof {
        assert(sorted_by_date(data@) && data@.to_multiset() == samples_of(
            log_views(issue_logs@),
        ).to_multiset() && is_chart_markup(
            markup@,
            DEFAULT_WIDTH as int,
            DEFAULT_HEIGHT as int,
            DEFAULT_MARGIN as int,
            chart_paths_of(data@, DEFAULT_WIDTH as int, DEFAULT_HEIGHT as int),
        ));
    }
    Result::Ok(markup)
}

} // verus!
