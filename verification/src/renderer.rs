use vstd::prelude::*;

use crate::svg_doc::{doc_attrs, doc_paths, document_add, document_new, document_set,
    document_to_string, no_attrs, no_paths, path_attrs, path_new, path_set, svg_markup,
    xmlns_value};

verus! {

/// One chart point, in exact milli-pixel coordinates (thousandths of a
/// pixel); rendering prints them as decimal pixel values.
pub struct Point {
    pub x_milli: i64,
    pub y_milli: i64,
}

/// Visual style of one drawn series: stroke and fill colors.
pub struct GraphStyle {
    pub stroke_color: &'static str,
    pub fill_color: &'static str,
}

/// The chart renderer: drawing-area size and margin, in pixels.
pub struct Renderer {
    pub width: i32,
    pub height: i32,
    pub margin: i32,
}

/// The character of one decimal digit.
pub open spec fn digit_char(d: int) -> char {
    ((48 + d) as u8) as char
}

/// The decimal digits of a non-negative integer.
pub open spec fn spec_digits(n: int) -> Seq<char>
    decreases n,
{
    if n < 10 {
        seq![digit_char(n)]
    } else {
        spec_digits(n / 10).push(digit_char(n % 10))
    }
}

/// A non-negative milli-pixel value printed as decimal pixels: the integer
/// part, then a three-digit fraction when the value is not whole.
pub open spec fn spec_milli(v: int) -> Seq<char> {
    if v % 1000 == 0 {
        spec_digits(v / 1000)
    } else {
        spec_digits(v / 1000) + seq![
            '.',
            digit_char((v / 100) % 10),
            digit_char((v / 10) % 10),
            digit_char(v % 10),
        ]
    }
}

/// A signed pixel count in decimal.
pub open spec fn spec_int(v: int) -> Seq<char> {
    if v < 0 {
        seq!['-'] + spec_digits(-v)
    } else {
        spec_digits(v)
    }
}

/// One point as path-data text: `x,y` in decimal pixels.
pub open spec fn spec_point(p: Point) -> Seq<char> {
    spec_milli(p.x_milli as int) + seq![','] + spec_milli(p.y_milli as int)
}

/// Line commands through every point of the series, in order.
pub open spec fn spec_line_tail(pts: Seq<Point>) -> Seq<char>
    decreases pts.len(),
{
    if pts.len() == 0 {
        Seq::empty()
    } else {
        seq![' ', 'L'] + spec_point(pts[0]) + spec_line_tail(pts.skip(1))
    }
}

/// The path data of a stroked series: a move to the first point, then a line
/// through every point in order.
pub open spec fn spec_line_path(pts: Seq<Point>) -> Seq<char>
    recommends
        pts.len() > 0,
{
    seq!['M'] + spec_point(pts[0]) + spec_line_tail(pts)
}

/// The path data of a filled series: from the baseline below the first point
/// up to it, along the series, back down to the baseline below the last
/// point, closed.
pub open spec fn spec_area_path(pts: Seq<Point>, height: int) -> Seq<char>
    recommends
        pts.len() > 0,
{
    seq!['M'] + spec_milli(pts[0].x_milli as int) + seq![','] + spec_milli(1000 * height) + seq![
        ' ',
        'L',
    ] + spec_point(pts[0]) + spec_line_tail(pts) + seq![' ', 'L'] + spec_milli(
        pts.last().x_milli as int,
    ) + seq![','] + spec_milli(1000 * height) + seq![' ', 'z']
}

/// Every coordinate of the series is non-negative.
pub open spec fn nonneg_points(pts: Seq<Point>) -> bool {
    forall|i: int| 0 <= i < pts.len() ==> pts[i].x_milli >= 0 && pts[i].y_milli >= 0
}

/// Relies on `String::push`: appends exactly the one character.
#[verifier::external_body]
pub(crate) fn push_char(s: &mut String, c: char)
    ensures
        final(s)@ == old(s)@.push(c),
{
    s.push(c);
}

fn push_digits(out: &mut String, n: u64)
    ensures
        final(out)@ == old(out)@ + spec_digits(n as int),
    decreases n,
{
    if n < 10 {
        push_char(out, (48 + n as u8) as char);
        proof {
            assert(old(out)@ + spec_digits(n as int) =~= old(out)@.push(digit_char(n as int)));
        }
    } else {
        push_digits(out, n / 10);
        push_char(out, (48 + (n % 10) as u8) as char);
        proof {
            assert(old(out)@ + spec_digits(n as int) =~= (old(out)@ + spec_digits(
                n as int / 10,
            )).push(digit_char(n as int % 10)));
        }
    }
}

fn push_milli(out: &mut String, v: i64)
    requires
        0 <= v,
    ensures
        final(out)@ == old(out)@ + spec_milli(v as int),
{
    push_digits(out, (v / 1000) as u64);
    let frac = v % 1000;
    if frac != 0 {
        push_char(out, '.');
        push_char(out, (48 + (frac / 100) as u8) as char);
        push_char(out, (48 + ((frac / 10) % 10) as u8) as char);
        push_char(out, (48 + (frac % 10) as u8) as char);
        proof {
            assert(frac / 100 == (v as int / 100) % 10) by (nonlinear_arith)
                requires v >= 0 && frac == v % 1000;
            assert((frac / 10) % 10 == (v as int / 10) % 10) by (nonlinear_arith)
                requires v >= 0 && frac == v % 1000;
            assert(frac % 10 == v as int % 10) by (nonlinear_arith)
                requires v >= 0 && frac == v % 1000;
            assert(final(out)@ =~= old(out)@ + spec_milli(v as int));
        }
    } else {
        proof {
            assert(final(out)@ =~= old(out)@ + spec_milli(v as int));
        }
    }
}

fn push_int(out: &mut String, v: i64)
    requires
        i64::MIN < v,
    ensures
        final(out)@ == old(out)@ + spec_int(v as int),
{
    if v < 0 {
        push_char(out, '-');
        push_digits(out, (-v) as u64);
        proof {
            assert(final(out)@ =~= old(out)@ + spec_int(v as int));
        }
    } else {
        push_digits(out, v as u64);
    }
}

fn push_point(out: &mut String, p: &Point)
    requires
        p.x_milli >= 0,
        p.y_milli >= 0,
    ensures
        final(out)@ == old(out)@ + spec_point(*p),
{
    push_milli(out, p.x_milli);
    push_char(out, ',');
    push_milli(out, p.y_milli);
    proof {
        assert(final(out)@ =~= old(out)@ + spec_point(*p));
    }
}

/// The `d` attribute of the stroked line through a non-empty series.
pub fn line_path_data(points: &Vec<Point>) -> (r: String)
    requires
        points@.len() > 0,
        nonneg_points(points@),
    ensures
        r@ == spec_line_path(points@),
{
    let mut out = String::new();
    push_char(&mut out, 'M');
    push_point(&mut out, &points[0]);
    let ghost head = out@;
    proof {
        assert(points@.skip(0) =~= points@);
    }
    let mut i: usize = 0;
    while i < points.len()
        invariant
            i <= points@.len(),
            nonneg_points(points@),
            head + spec_line_tail(points@) == out@ + spec_line_tail(points@.skip(i as int)),
        decreases points@.len() - i,
    {
        let ghost pre = out@;
        push_char(&mut out, ' ');
        push_char(&mut out, 'L');
        push_point(&mut out, &points[i]);
        proof {
            let rest = points@.skip(i as int);
            assert(rest[0] == points@[i as int]);
            assert(rest.skip(1) =~= points@.skip(i as int + 1));
            assert(spec_line_tail(rest) == seq![' ', 'L'] + spec_point(points@[i as int])
                + spec_line_tail(points@.skip(i as int + 1)));
            assert(out@ =~= pre + (seq![' ', 'L'] + spec_point(points@[i as int])));
            assert(out@ + spec_line_tail(points@.skip(i as int + 1)) =~= pre + spec_line_tail(
                rest,
            ));
        }
        i += 1;
    }
    proof {
        assert(spec_line_tail(points@.skip(points@.len() as int)) =~= Seq::<char>::empty());
        assert(out@ + Seq::<char>::empty() =~= out@);
        assert(head + spec_line_tail(points@) =~= out@);
        assert(out@ =~= spec_line_path(points@));
    }
    out
}

/// The `d` attribute of the filled area under a non-empty series.
pub fn area_path_data(points: &Vec<Point>, height: i32) -> (r: String)
    requires
        points@.len() > 0,
        nonneg_points(points@),
        0 <= height,
    ensures
        r@ == spec_area_path(points@, height as int),
{
    let baseline: i64 = 1000 * (height as i64);
    let mut out = String::new();
    push_char(&mut out, 'M');
    push_milli(&mut out, points[0].x_milli);
    push_char(&mut out, ',');
    push_milli(&mut out, baseline);
    push_char(&mut out, ' ');
    push_char(&mut out, 'L');
    push_point(&mut out, &points[0]);
    let ghost head = out@;
    proof {
        assert(head =~= seq!['M'] + spec_milli(points@[0].x_milli as int) + seq![','] + spec_milli(
            1000 * height as int,
        ) + seq![' ', 'L'] + spec_point(points@[0]));
        assert(points@.skip(0) =~= points@);
    }
    let mut i: usize = 0;
    while i < points.len()
        invariant
            i <= points@.len(),
            nonneg_points(points@),
            head + spec_line_tail(points@) == out@ + spec_line_tail(points@.skip(i as int)),
        decreases points@.len() - i,
    {
        let ghost pre = out@;
        push_char(&mut out, ' ');
        push_char(&mut out, 'L');
        push_point(&mut out, &points[i]);
        proof {
            let rest = points@.skip(i as int);
            assert(rest[0] == points@[i as int]);
            assert(rest.skip(1) =~= points@.skip(i as int + 1));
            assert(spec_line_tail(rest) == seq![' ', 'L'] + spec_point(points@[i as int])
                + spec_line_tail(points@.skip(i as int + 1)));
            assert(out@ =~= pre + (seq![' ', 'L'] + spec_point(points@[i as int])));
            assert(out@ + spec_line_tail(points@.skip(i as int + 1)) =~= pre + spec_line_tail(
                rest,
            ));
        }
        i += 1;
    }
    proof {
        assert(spec_line_tail(points@.skip(points@.len() as int)) =~= Seq::<char>::empty());
        assert(out@ + Seq::<char>::empty() =~= out@);
        assert(out@ =~= head + spec_line_tail(points@));
    }
    let last = points.len() - 1;
    push_char(&mut out, ' ');
    push_char(&mut out, 'L');
    push_milli(&mut out, points[last].x_milli);
    push_char(&mut out, ',');
    push_milli(&mut out, baseline);
    push_char(&mut out, ' ');
    push_char(&mut out, 'z');
    proof {
        assert(points@[points@.len() - 1] == points@.last());
        assert(out@ =~= spec_area_path(points@, height as int));
    }
    out
}

/// The attributes of the stroked-line `<path>` of one series.
pub open spec fn line_path_attrs(pts: Seq<Point>, stroke: Seq<char>) -> Map<Seq<char>, Seq<char>> {
    no_attrs().insert("d"@, spec_line_path(pts)).insert("stroke"@, stroke).insert(
        "stroke-width"@,
        "2"@,
    ).insert("fill"@, "none"@)
}

/// The attributes of the filled-area `<path>` of one series.
pub open spec fn area_path_attrs(pts: Seq<Point>, height: int, fill: Seq<char>) -> Map<
    Seq<char>,
    Seq<char>,
> {
    no_attrs().insert("d"@, spec_area_path(pts, height)).insert("fill"@, fill).insert(
        "fill-opacity"@,
        "0.5"@,
    ).insert("stroke"@, "none"@)
}

/// The viewBox text of a chart canvas: origin shifted back by the margin, the
/// size the drawing area plus the margin on every side.
pub open spec fn spec_view_box(width: int, height: int, margin: int) -> Seq<char> {
    spec_int(-margin) + seq![' '] + spec_int(-margin) + seq![' '] + spec_int(width + 2 * margin)
        + seq![' '] + spec_int(height + 2 * margin)
}

/// The attributes of the chart's `<svg>` element: the namespace, the shifted
/// viewBox, and the full canvas width and height.
pub open spec fn chart_doc_attrs(width: int, height: int, margin: int) -> Map<
    Seq<char>,
    Seq<char>,
> {
    no_attrs().insert("xmlns"@, xmlns_value()).insert(
        "viewBox"@,
        spec_view_box(width, height, margin),
    ).insert("width"@, spec_int(width + 2 * margin)).insert(
        "height"@,
        spec_int(height + 2 * margin),
    )
}

/// The `<path>` children a list of styled series contributes: an empty series
/// contributes nothing, a non-empty one its filled area followed by its
/// stroked line, in list order.
pub open spec fn spec_chart_paths(graphs: Seq<(Vec<Point>, GraphStyle)>, height: int) -> Seq<
    Map<Seq<char>, Seq<char>>,
>
    decreases graphs.len(),
{
    if graphs.len() == 0 {
        no_paths()
    } else {
        let head = if graphs[0].0@.len() == 0 {
            no_paths()
        } else {
            seq![
                area_path_attrs(graphs[0].0@, height, graphs[0].1.fill_color@),
                line_path_attrs(graphs[0].0@, graphs[0].1.stroke_color@),
            ]
        };
        head + spec_chart_paths(graphs.skip(1), height)
    }
}

/// Whether `markup` is the serialization of a chart document carrying exactly
/// the given canvas attributes and the given `<path>` children.
pub open spec fn is_chart_markup(
    markup: Seq<char>,
    width: int,
    height: int,
    margin: int,
    paths: Seq<Map<Seq<char>, Seq<char>>>,
) -> bool {
    exists|doc: svg::node::element::SVG|
        #![trigger svg_markup(doc)]
        doc_attrs(doc) == chart_doc_attrs(width, height, margin) && doc_paths(doc) == paths
            && svg_markup(doc) == markup
}

impl Renderer {
    /// A renderer for the given drawing area and margin.
    pub fn new(width: i32, height: i32, margin: i32) -> (r: Self)
        ensures
            r.width == width,
            r.height == height,
            r.margin == margin,
    {
        Renderer { width, height, margin }
    }

    fn get_path(&self, points: &Vec<Point>, color: &str) -> (r: svg::node::element::Path)
        requires
            points@.len() > 0,
            nonneg_points(points@),
        ensures
            path_attrs(r) == line_path_attrs(points@, color@),
    {
        let data = line_path_data(points);
        let path = path_new();
        let path = path_set(path, "d", data.as_str());
        let path = path_set(path, "stroke", color);
        let path = path_set(path, "stroke-width", "2");
        path_set(path, "fill", "none")
    }

    fn get_filled_area(&self, points: &Vec<Point>, color: &str) -> (r: svg::node::element::Path)
        requires
            points@.len() > 0,
            nonneg_points(points@),
            0 <= self.height,
        ensures
            path_attrs(r) == area_path_attrs(points@, self.height as int, color@),
    {
        let data = area_path_data(points, self.height);
        let path = path_new();
        let path = path_set(path, "d", data.as_str());
        let path = path_set(path, "fill", color);
        let path = path_set(path, "fill-opacity", "0.5");
        path_set(path, "stroke", "none")
    }

    /// One vector-image document, sized to the drawing area plus the margin on
    /// every side, its origin shifted so that content at `(0,0)` to
    /// `(width,height)` sits centered inside the margin border. Each non-empty
    /// series contributes a filled area beneath a stroked line, in draw order;
    /// empty series contribute nothing.
    #[verifier::loop_isolation(false)]
    pub fn render_line_graphs(&self, graphs: &Vec<(Vec<Point>, GraphStyle)>) -> (r: String)
        requires
            0 <= self.width,
            0 <= self.height,
            0 <= self.margin,
            self.width + 2 * self.margin <= i32::MAX,
            self.height + 2 * self.margin <= i32::MAX,
            forall|i: int| 0 <= i < graphs@.len() ==> nonneg_points(#[trigger] graphs@[i].0@),
        ensures
            is_chart_markup(
                r@,
                self.width as int,
                self.height as int,
                self.margin as int,
                spec_chart_paths(graphs@, self.height as int),
            ),
    {
        let side: i64 = 2 * (self.margin as i64);
        let full_width: i64 = self.width as i64 + side;
        let full_height: i64 = self.height as i64 + side;

        let mut view_box = String::new();
        push_int(&mut view_box, -(self.margin as i64));
        push_char(&mut view_box, ' ');
        push_int(&mut view_box, -(self.margin as i64));
        push_char(&mut view_box, ' ');
        push_int(&mut view_box, full_width);
        push_char(&mut view_box, ' ');
        push_int(&mut view_box, full_height);
        proof {
            assert(view_box@ =~= spec_view_box(
                self.width as int,
                self.height as int,
                self.margin as int,
            ));
        }

        let mut width_attr = String::new();
        push_int(&mut width_attr, full_width);
        let mut height_attr = String::new();
        push_int(&mut height_attr, full_height);
        proof {
            assert(width_attr@ =~= spec_int(self.width + 2 * self.margin as int));
            assert(height_attr@ =~= spec_int(self.height + 2 * self.margin as int));
        }

        let mut document = document_new();
        document = document_set(document, "viewBox", view_box.as_str());
        document = document_set(document, "width", width_attr.as_str());
        document = document_set(document, "height", height_attr.as_str());
        proof {
            assert(doc_attrs(document) == chart_doc_attrs(
                self.width as int,
                self.height as int,
                self.margin as int,
            ));
            assert(graphs@.skip(0) =~= graphs@);
            assert(no_paths() + spec_chart_paths(graphs@, self.height as int) =~= spec_chart_paths(
                graphs@,
                self.height as int,
            ));
        }

        let mut i: usize = 0;
        while i < graphs.len()
            invariant
                i <= graphs@.len(),
                doc_attrs(document) == chart_doc_attrs(
                    self.width as int,
                    self.height as int,
                    self.margin as int,
                ),
                doc_paths(document) + spec_chart_paths(
                    graphs@.skip(i as int),
                    self.height as int,
                ) == spec_chart_paths(graphs@, self.height as int),
            decreases graphs@.len() - i,
        {
            let ghost pre = doc_paths(document);
            let ghost rest = graphs@.skip(i as int);
            proof {
                assert(rest[0] == graphs@[i as int]);
                assert(rest.skip(1) =~= graphs@.skip(i as int + 1));
            }
            if graphs[i].0.len() > 0 {
                let area = self.get_filled_area(&graphs[i].0, graphs[i].1.fill_color);
                document = document_add(document, area);
                let line = self.get_path(&graphs[i].0, graphs[i].1.stroke_color);
                document = document_add(document, line);
                proof {
                    let a = area_path_attrs(
                        graphs@[i as int].0@,
                        self.height as int,
                        graphs@[i as int].1.fill_color@,
                    );
                    let l = line_path_attrs(
                        graphs@[i as int].0@,
                        graphs@[i as int].1.stroke_color@,
                    );
                    assert(doc_paths(document) =~= pre + seq![a, l]);
                    assert(spec_chart_paths(rest, self.height as int) == seq![a, l]
                        + spec_chart_paths(rest.skip(1), self.height as int));
                    assert(doc_paths(document) + spec_chart_paths(
                        graphs@.skip(i as int + 1),
                        self.height as int,
                    ) =~= pre + spec_chart_paths(rest, self.height as int));
                }
            } else {
                proof {
                    assert(spec_chart_paths(rest, self.height as int) =~= no_paths()
                        + spec_chart_paths(rest.skip(1), self.height as int));
                    assert(spec_chart_paths(rest, self.height as int) =~= spec_chart_paths(
                        graphs@.skip(i as int + 1),
                        self.height as int,
                    ));
                }
            }
            i += 1;
        }
        proof {
            assert(graphs@.skip(graphs@.len() as int) =~= Seq::<(Vec<Point>, GraphStyle)>::empty());
            assert(doc_paths(document) + no_paths() =~= doc_paths(document));
            assert(doc_paths(document) == spec_chart_paths(graphs@, self.height as int));
        }
        let out = document_to_string(&document);
        proof {
            assert(svg_markup(document) == out@);
            assert(is_chart_markup(
                out@,
                self.width as int,
                self.height as int,
                self.margin as int,
                spec_chart_paths(graphs@, self.height as int),
            ));
        }
        out
    }
}

} // verus!
