//! Throughput-versus-latency curves, drawn as SVG, byte for byte.
//!
//! A curve has to be a file somebody can look at, and one that regenerates
//! identical to the committed one, so that a difference in the picture means a
//! difference in the measurement rather than a font substitution or a tie broken
//! the other way. So everything here is integer arithmetic on a fixed grid, with
//! no font metrics and no locale. Coordinates are rounded once, in one place, to
//! a hundredth of a pixel.
//!
//! **Why a single point is never plotted alone.** A throughput number with no
//! latency beside it invites a claim that is true only at a saturation the tail
//! makes unusable. Every series carries both axes, and a series with fewer than
//! two points is refused.

use vstd::prelude::*;
use vstd::string::*;

use crate::order::{law_sorted_pairs_do_not_depend_on_their_order, pairs_sorted, sort_pairs};
use crate::text::{debug_text, decimal, push_decimal, push_wide_decimal, push_zero_padded, quoted, zero_padded};

verus! {

/// One measurement: what was achieved, and the tail.
#[derive(Debug, Clone, Copy, PartialEq, Eq, Structural)]
pub struct Point {
    /// Achieved throughput, operations per second.
    pub throughput: u64,
    /// The latency this plot's y-axis shows, in nanoseconds.
    pub latency_ns: u64,
}

/// A named curve.
#[derive(Debug, Clone, PartialEq, Eq)]
pub struct Series {
    pub name: String,
    pub points: Vec<Point>,
}

/// What a [`Series`] stands for.
pub struct SeriesView {
    pub name: Seq<char>,
    pub points: Seq<Point>,
}

impl View for Series {
    type V = SeriesView;

    open spec fn view(&self) -> SeriesView {
        SeriesView { name: self.name@, points: self.points@ }
    }
}

/// What the views of some series are.
pub open spec fn series_views(series: Seq<Series>) -> Seq<SeriesView> {
    series.map_values(|s: Series| s@)
}

#[derive(Debug, Clone, PartialEq, Eq)]
pub enum PlotError {
    /// A series, and how many points it has.
    NotACurve(String, usize),
    Empty,
}

/// What a plot error says.
pub open spec fn plot_error_text(e: PlotError) -> Seq<char> {
    match e {
        PlotError::NotACurve(name, points) => "series "@ + debug_text(name@) + " has "@ + decimal(points as nat) + " point(s); a curve needs at least two"@,
        PlotError::Empty => "nothing to plot"@,
    }
}

impl PlotError {
    /// What went wrong, for a person.
    pub fn message(&self) -> (r: String)
        ensures
            r@ == plot_error_text(*self),
    {
        let mut out = String::new();
        match self {
            PlotError::NotACurve(name, points) => {
                out.append("series ");
                out.append(quoted(name.as_str()).as_str());
                out.append(" has ");
                push_decimal(&mut out, *points as u64);
                out.append(" point(s); a curve needs at least two");
            },
            PlotError::Empty => {
                out.append("nothing to plot");
            },
        }
        proof {
            assert(out@ =~= plot_error_text(*self));
        }
        out
    }
}

/// The largest value that an axis can show: the largest power of ten there is.
pub const AXIS_LIMIT: u64 = 10_000_000_000_000_000_000;

// ----------------------------------------------------------------- numbers

/// A quotient to the nearest whole number, and up from halfway.
pub open spec fn nearest(num: int, den: nat) -> int {
    (2 * num + den) / (2 * den as int)
}

/// A number of hundredths, with its point.
pub open spec fn hundredths_text(scaled: nat) -> Seq<char> {
    decimal(scaled / 100) + "."@ + zero_padded(scaled % 100, 2)
}

/// Append a number of hundredths, with its point.
pub fn push_hundredths(out: &mut String, scaled: u64)
    ensures
        final(out)@ == old(out)@ + hundredths_text(scaled as nat),
{
    push_decimal(out, scaled / 100);
    out.append(".");
    push_zero_padded(out, scaled % 100, 2);
    proof {
        assert(out@ =~= old(out)@ + hundredths_text(scaled as nat));
    }
}

/// A number of hundredths, with its point: integers throughout, so that
/// formatting cannot vary.
pub fn hundredths(scaled: u64) -> (r: String)
    ensures
        r@ == hundredths_text(scaled as nat),
{
    let mut out = String::new();
    push_hundredths(&mut out, scaled);
    proof {
        assert(out@ =~= hundredths_text(scaled as nat));
    }
    out
}

/// A number with a space before every three digits.
pub open spec fn grouped(n: nat) -> Seq<char>
    decreases n,
{
    if n < 1000 {
        decimal(n)
    } else {
        grouped(n / 1000) + " "@ + zero_padded(n % 1000, 3)
    }
}

/// Append a number with a space before every three digits.
fn push_thousands(out: &mut String, n: u64)
    ensures
        final(out)@ == old(out)@ + grouped(n as nat),
    decreases n,
{
    if n < 1000 {
        push_decimal(out, n);
    } else {
        push_thousands(out, n / 1000);
        out.append(" ");
        push_zero_padded(out, n % 1000, 3);
        proof {
            assert(out@ =~= old(out)@ + grouped(n as nat));
        }
    }
}

/// A number with a space before every three digits.
pub fn thousands(n: u64) -> (r: String)
    ensures
        r@ == grouped(n as nat),
{
    let mut out = String::new();
    push_thousands(&mut out, n);
    proof {
        assert(out@ =~= grouped(n as nat));
    }
    out
}

/// Nanoseconds as hundredths of a millisecond.
fn rounded_ms(nanos: u64) -> (r: u64)
    ensures
        r == nearest(nanos as int, 10_000),
{
    assert(nearest(nanos as int, 10_000) == (2 * nanos + 10_000) / 20_000);
    if nanos % 10_000 >= 5_000 {
        nanos / 10_000 + 1
    } else {
        nanos / 10_000
    }
}

/// The largest power of ten that is not above a number.
pub open spec fn magnitude_of(value: nat) -> nat
    decreases value,
{
    if value < 10 {
        1
    } else {
        10 * magnitude_of(value / 10)
    }
}

/// One, two, five or ten times a power of ten: the first of them that is not
/// below the value, counted from its own magnitude.
pub open spec fn rounded_up(value: nat) -> nat {
    let m = magnitude_of(value);
    if value == 0 {
        1
    } else if value <= m {
        m
    } else if value <= 2 * m {
        2 * m
    } else if value <= 5 * m {
        5 * m
    } else {
        10 * m
    }
}

proof fn lemma_magnitude(value: nat)
    requires
        value > 0,
    ensures
        0 < magnitude_of(value) <= value,
        value < 10 * magnitude_of(value),
    decreases value,
{
    if value >= 10 {
        lemma_magnitude(value / 10);
    }
}

fn magnitude(value: u64) -> (r: u64)
    requires
        value > 0,
    ensures
        r == magnitude_of(value as nat),
    decreases value,
{
    proof {
        lemma_magnitude(value as nat);
    }
    if value < 10 {
        1
    } else {
        10 * magnitude(value / 10)
    }
}

/// Round up to one, two or five times a power of ten.
pub fn round_up(value: u64) -> (r: u64)
    requires
        value <= AXIS_LIMIT,
    ensures
        r == rounded_up(value as nat),
        value <= r,
        0 < r <= AXIS_LIMIT,
{
    if value == 0 {
        return 1;
    }
    proof {
        lemma_magnitude(value as nat);
        lemma_limit_magnitude(value as nat);
    }
    let m: u64 = magnitude(value);
    if value <= m {
        m
    } else if value <= 2 * m {
        2 * m
    } else if value <= 5 * m {
        5 * m
    } else {
        10 * m
    }
}

/// A value below the limit rounds up to one that is.
proof fn lemma_limit_magnitude(value: nat)
    requires
        0 < value <= AXIS_LIMIT,
    ensures
        rounded_up(value) <= AXIS_LIMIT,
{
    lemma_magnitude(value);
    lemma_tens_19();
    if value < AXIS_LIMIT {
        lemma_magnitude_below(value, 19);
    } else {
        lemma_magnitude_of_power(value, 19);
    }
}

/// So many factors of ten.
pub open spec fn tens(k: nat) -> nat
    decreases k,
{
    if k == 0 {
        1
    } else {
        10 * tens((k - 1) as nat)
    }
}

proof fn lemma_tens_19()
    ensures
        tens(19) == AXIS_LIMIT,
{
    reveal_with_fuel(tens, 20);
}

proof fn lemma_tens_positive(k: nat)
    ensures
        tens(k) > 0,
    decreases k,
{
    if k > 0 {
        lemma_tens_positive((k - 1) as nat);
    }
}

proof fn lemma_magnitude_of_power(value: nat, k: nat)
    requires
        tens(k) <= value < 10 * tens(k),
    ensures
        magnitude_of(value) == tens(k),
    decreases k,
{
    lemma_tens_positive(k);
    if k > 0 {
        let t = tens((k - 1) as nat);
        assert(value / 10 >= t && value / 10 < 10 * t) by (nonlinear_arith)
            requires
                10 * t <= value,
                value < 10 * (10 * t),
        ;
        lemma_tens_positive((k - 1) as nat);
        lemma_magnitude_of_power(value / 10, (k - 1) as nat);
    }
}

/// A value below a power of ten has a magnitude of at most the one before it.
proof fn lemma_magnitude_below(value: nat, k: nat)
    requires
        0 < value < tens(k),
        k > 0,
    ensures
        10 * magnitude_of(value) <= tens(k),
    decreases k,
{
    if value >= 10 {
        if k == 1 {
            reveal_with_fuel(tens, 2);
        } else {
            let t = tens((k - 1) as nat);
            assert(value / 10 < t) by (nonlinear_arith)
                requires
                    value < 10 * t,
            ;
            lemma_magnitude_below(value / 10, (k - 1) as nat);
        }
    } else {
        lemma_tens_positive((k - 1) as nat);
    }
}

// -------------------------------------------------------------------- text

/// A character as it stands in markup.
pub open spec fn escaped_char(c: char) -> Seq<char> {
    if c == '&' {
        "&amp;"@
    } else if c == '<' {
        "&lt;"@
    } else if c == '>' {
        "&gt;"@
    } else {
        seq![c]
    }
}

/// Text as it stands in markup.
pub open spec fn escaped(text: Seq<char>) -> Seq<char>
    decreases text.len(),
{
    if text.len() == 0 {
        Seq::empty()
    } else {
        escaped(text.drop_last()) + escaped_char(text.last())
    }
}

/// Append text as it stands in markup.
fn push_escaped(out: &mut String, text: &str)
    ensures
        final(out)@ == old(out)@ + escaped(text@),
{
    let ghost before = out@;
    proof {
        assert(text@.take(0) =~= Seq::empty());
        assert(before + escaped(text@.take(0)) =~= before);
    }
    for c in it: text.chars()
        invariant
            it.seq() == text@,
            out@ == before + escaped(text@.take(it.index() as int)),
    {
        proof {
            let next = text@.take(it.index() + 1);
            assert(next.drop_last() =~= text@.take(it.index() as int));
            assert(next.last() == c);
            let done = escaped(text@.take(it.index() as int));
            assert(before + done + escaped_char(c) =~= before + (done + escaped_char(c)));
        }
        if c == '&' {
            out.append("&amp;");
        } else if c == '<' {
            out.append("&lt;");
        } else if c == '>' {
            out.append("&gt;");
        } else {
            let ghost held = out@;
            out.push(c);
            proof {
                assert(out@ =~= held + escaped_char(c));
            }
        }
    }
    proof {
        assert(text@.take(text@.len() as int) =~= text@);
    }
}

/// The colour of a series. Fixed and few: a palette generated from the data
/// would change when the data changed.
pub open spec fn colour_of(i: nat) -> Seq<char> {
    if i % 5 == 0 {
        "#1b6ca8"@
    } else if i % 5 == 1 {
        "#c1121f"@
    } else if i % 5 == 2 {
        "#2a9d3f"@
    } else if i % 5 == 3 {
        "#7b4fa8"@
    } else {
        "#b8860b"@
    }
}

fn colour(i: usize) -> (r: &'static str)
    ensures
        r@ == colour_of(i as nat),
{
    match i % 5 {
        0 => "#1b6ca8",
        1 => "#c1121f",
        2 => "#2a9d3f",
        3 => "#7b4fa8",
        _ => "#b8860b",
    }
}

// ----------------------------------------------------------------- geometry

/// Where a throughput stands, in hundredths of a pixel from the left.
pub open spec fn x_at(v: nat, x_top: nat) -> int {
    nearest((7_800 * x_top + 61_800 * v) as int, x_top)
}

/// Where a latency stands, in hundredths of a pixel from the top.
pub open spec fn y_at(v: nat, y_top: nat) -> int {
    nearest(38_400 * y_top - 35_600 * v, y_top)
}

fn x_of(v: u64, x_top: u64) -> (r: u64)
    requires
        v <= x_top,
        0 < x_top <= AXIS_LIMIT,
    ensures
        r == x_at(v as nat, x_top as nat),
        r <= 69_600,
{
    let num: u128 = 2 * (7_800 * x_top as u128 + 61_800 * v as u128) + x_top as u128;
    let den: u128 = 2 * x_top as u128;
    let q: u128 = num / den;
    proof {
        assert(num / den <= 69_600) by (nonlinear_arith)
            requires
                num <= 69_600 * den + x_top as u128,
                den == 2 * x_top as u128,
                x_top > 0,
        ;
    }
    q as u64
}

fn y_of(v: u64, y_top: u64) -> (r: u64)
    requires
        v <= y_top,
        0 < y_top <= AXIS_LIMIT,
    ensures
        r == y_at(v as nat, y_top as nat),
        r <= 38_400,
{
    let num: u128 = 2 * (38_400 * y_top as u128 - 35_600 * v as u128) + y_top as u128;
    let den: u128 = 2 * y_top as u128;
    let q: u128 = num / den;
    proof {
        assert(num / den <= 38_400) by (nonlinear_arith)
            requires
                num <= 38_400 * den + y_top as u128,
                den == 2 * y_top as u128,
                y_top > 0,
        ;
    }
    q as u64
}

/// The throughput and latency of some points, as pairs.
pub open spec fn pairs_of(points: Seq<Point>) -> Seq<(u64, u64)> {
    points.map_values(|p: Point| (p.throughput, p.latency_ns))
}

/// The largest of some numbers, and one at least.
pub open spec fn largest(values: Seq<u64>) -> u64
    decreases values.len(),
{
    if values.len() == 0 {
        1
    } else {
        let before = largest(values.drop_last());
        if values.last() > before {
            values.last()
        } else {
            before
        }
    }
}

/// The throughputs of all the points of some series.
pub open spec fn throughputs(series: Seq<SeriesView>) -> Seq<u64>
    decreases series.len(),
{
    if series.len() == 0 {
        Seq::empty()
    } else {
        throughputs(series.drop_last()) + series.last().points.map_values(
            |p: Point| p.throughput,
        )
    }
}

/// The latencies of all the points of some series.
pub open spec fn latencies(series: Seq<SeriesView>) -> Seq<u64>
    decreases series.len(),
{
    if series.len() == 0 {
        Seq::empty()
    } else {
        latencies(series.drop_last()) + series.last().points.map_values(|p: Point| p.latency_ns)
    }
}

proof fn lemma_largest_concat(a: Seq<u64>, b: Seq<u64>)
    ensures
        largest(a + b) == (if largest(b) > largest(a) {
            largest(b)
        } else {
            largest(a)
        }),
    decreases b.len(),
{
    if b.len() == 0 {
        assert(a + b =~= a);
        lemma_largest(a);
    } else {
        assert((a + b).drop_last() =~= a + b.drop_last());
        lemma_largest_concat(a, b.drop_last());
    }
}

proof fn lemma_largest(values: Seq<u64>)
    ensures
        largest(values) >= 1,
        forall|i: int| 0 <= i < values.len() ==> values[i] <= largest(values),
        largest(values) == 1 || values.contains(largest(values)),
    decreases values.len(),
{
    if values.len() > 0 {
        let head = values.drop_last();
        lemma_largest(head);
        assert forall|i: int| 0 <= i < values.len() implies values[i] <= largest(values) by {
            if i < head.len() {
                assert(head[i] == values[i]);
            }
        }
        if largest(values) == values.last() {
            assert(values[values.len() - 1] == largest(values));
        } else if largest(values) != 1 {
            let k = choose|k: int| 0 <= k < head.len() && head[k] == largest(values);
            assert(values[k] == largest(values));
        }
    }
}

// ------------------------------------------------------------------ drawing

/// What the picture starts with.
pub open spec fn head(title: Seq<char>) -> Seq<char> {
    "<svg xmlns=\"http://www.w3.org/2000/svg\" width=\"720\" height=\"440\" viewBox=\"0 0 720 440\" font-family=\"monospace\" font-size=\"11\">\n<rect width=\"720\" height=\"440\" fill=\"#ffffff\"/>\n<text x=\"78\" y=\"18\" font-size=\"13\" fill=\"#111111\">"@
        + escaped(title)
        + "</text>\n"@
}

fn push_head(out: &mut String, title: &str)
    ensures
        final(out)@ == old(out)@ + head(title@),
{
    out.append("<svg xmlns=\"http://www.w3.org/2000/svg\" width=\"720\" height=\"440\" viewBox=\"0 0 720 440\" font-family=\"monospace\" font-size=\"11\">\n<rect width=\"720\" height=\"440\" fill=\"#ffffff\"/>\n<text x=\"78\" y=\"18\" font-size=\"13\" fill=\"#111111\">");
    push_escaped(out, title);
    out.append("</text>\n");
    proof {
        assert(out@ =~= old(out)@ + head(title@));
    }
}

/// A line across the grid, and the latency it stands for.
pub open spec fn y_line(v: nat, y_top: nat) -> Seq<char> {
    "<line x1=\"78\" y1=\""@
        + hundredths_text(y_at(v, y_top) as nat)
        + "\" x2=\"696\" y2=\""@
        + hundredths_text(y_at(v, y_top) as nat)
        + "\" stroke=\"#e4e4e4\"/>\n<text x=\"70\" y=\""@
        + hundredths_text((y_at(v, y_top) + 350) as nat)
        + "\" text-anchor=\"end\" fill=\"#555555\">"@
        + hundredths_text(nearest(v as int, 10_000) as nat)
        + "</text>\n"@
}

fn push_y_line(out: &mut String, v: u64, y_top: u64)
    requires
        v <= y_top,
        0 < y_top <= AXIS_LIMIT,
    ensures
        final(out)@ == old(out)@ + y_line(v as nat, y_top as nat),
{
    let y: u64 = y_of(v, y_top);
    out.append("<line x1=\"78\" y1=\"");
    push_hundredths(out, y);
    out.append("\" x2=\"696\" y2=\"");
    push_hundredths(out, y);
    out.append("\" stroke=\"#e4e4e4\"/>\n<text x=\"70\" y=\"");
    push_hundredths(out, y + 350);
    out.append("\" text-anchor=\"end\" fill=\"#555555\">");
    push_hundredths(out, rounded_ms(v));
    out.append("</text>\n");
    proof {
        assert(out@ =~= old(out)@ + y_line(v as nat, y_top as nat));
    }
}

/// A line down the grid, and the throughput it stands for.
pub open spec fn x_line(v: nat, x_top: nat) -> Seq<char> {
    "<line x1=\""@
        + hundredths_text(x_at(v, x_top) as nat)
        + "\" y1=\"28\" x2=\""@
        + hundredths_text(x_at(v, x_top) as nat)
        + "\" y2=\"384\" stroke=\"#e4e4e4\"/>\n<text x=\""@
        + hundredths_text(x_at(v, x_top) as nat)
        + "\" y=\"400\" text-anchor=\"middle\" fill=\"#555555\">"@
        + grouped(v)
        + "</text>\n"@
}

fn push_x_line(out: &mut String, v: u64, x_top: u64)
    requires
        v <= x_top,
        0 < x_top <= AXIS_LIMIT,
    ensures
        final(out)@ == old(out)@ + x_line(v as nat, x_top as nat),
{
    let x: u64 = x_of(v, x_top);
    out.append("<line x1=\"");
    push_hundredths(out, x);
    out.append("\" y1=\"28\" x2=\"");
    push_hundredths(out, x);
    out.append("\" y2=\"384\" stroke=\"#e4e4e4\"/>\n<text x=\"");
    push_hundredths(out, x);
    out.append("\" y=\"400\" text-anchor=\"middle\" fill=\"#555555\">");
    push_thousands(out, v);
    out.append("</text>\n");
    proof {
        assert(out@ =~= old(out)@ + x_line(v as nat, x_top as nat));
    }
}

/// The first so many lines across the grid.
pub open spec fn y_lines(y_top: nat, n: nat) -> Seq<char>
    decreases n,
{
    if n == 0 {
        Seq::empty()
    } else {
        y_lines(y_top, (n - 1) as nat) + y_line((y_top * (n - 1) / 5) as nat, y_top)
    }
}

/// The first so many lines down the grid.
pub open spec fn x_lines(x_top: nat, n: nat) -> Seq<char>
    decreases n,
{
    if n == 0 {
        Seq::empty()
    } else {
        x_lines(x_top, (n - 1) as nat) + x_line((x_top * (n - 1) / 5) as nat, x_top)
    }
}

/// A step of an axis.
fn fifths(top: u64, i: u64) -> (r: u64)
    requires
        top <= AXIS_LIMIT,
        i <= 5,
    ensures
        r == top * i / 5,
        r <= top,
{
    assert(top * i <= top * 5) by (nonlinear_arith)
        requires
            i <= 5,
    ;
    assert((top * i) / 5 <= top) by (nonlinear_arith)
        requires
            top * i <= top * 5,
    ;
    let r: u64 = (top as u128 * i as u128 / 5) as u64;
    assert(r <= top) by (nonlinear_arith)
        requires
            r == (top * i) / 5,
            top * i <= top * 5,
    ;
    r
}

fn push_grid(out: &mut String, x_top: u64, y_top: u64)
    requires
        0 < x_top <= AXIS_LIMIT,
        0 < y_top <= AXIS_LIMIT,
    ensures
        final(out)@ == old(out)@ + y_lines(y_top as nat, 6) + x_lines(x_top as nat, 6),
{
    let ghost before = out@;
    let mut i: u64 = 0;
    proof {
        assert(before + y_lines(y_top as nat, 0) =~= before);
    }
    while i < 6
        invariant
            i <= 6,
            0 < y_top <= AXIS_LIMIT,
            out@ == before + y_lines(y_top as nat, i as nat),
        decreases 6 - i,
    {
        let v: u64 = fifths(y_top, i);
        push_y_line(out, v, y_top);
        proof {
            let next = y_lines(y_top as nat, (i + 1) as nat);
            let line = y_line(v as nat, y_top as nat);
            assert(next == y_lines(y_top as nat, i as nat) + line);
            assert(out@ =~= before + next);
        }
        i += 1;
    }
    let ghost middle = out@;
    let mut j: u64 = 0;
    proof {
        assert(middle + x_lines(x_top as nat, 0) =~= middle);
    }
    while j < 6
        invariant
            j <= 6,
            0 < x_top <= AXIS_LIMIT,
            out@ == middle + x_lines(x_top as nat, j as nat),
        decreases 6 - j,
    {
        let v: u64 = fifths(x_top, j);
        push_x_line(out, v, x_top);
        proof {
            let next = x_lines(x_top as nat, (j + 1) as nat);
            let line = x_line(v as nat, x_top as nat);
            assert(next == x_lines(x_top as nat, j as nat) + line);
            assert(out@ =~= middle + next);
        }
        j += 1;
    }
}

/// The axes and what they measure.
pub open spec fn axes() -> Seq<char> {
    "<line x1=\"78\" y1=\"384\" x2=\"696\" y2=\"384\" stroke=\"#111111\"/>\n<line x1=\"78\" y1=\"28\" x2=\"78\" y2=\"384\" stroke=\"#111111\"/>\n<text x=\"387\" y=\"418\" text-anchor=\"middle\" fill=\"#111111\">throughput (ops/s)</text>\n<text x=\"14\" y=\"206\" text-anchor=\"middle\" transform=\"rotate(-90 14 206)\" fill=\"#111111\">latency (ms)</text>\n"@
}

/// The corners of a curve, from its first so many points.
pub open spec fn path(points: Seq<(u64, u64)>, n: int, x_top: nat, y_top: nat) -> Seq<char>
    decreases n,
{
    if n <= 0 {
        Seq::empty()
    } else {
        let before = path(points, n - 1, x_top, y_top);
        let gap = if n == 1 {
            before
        } else {
            before + " "@
        };
        gap + corner(points[n - 1], x_top, y_top)
    }
}

/// One corner of a curve.
pub open spec fn corner(p: (u64, u64), x_top: nat, y_top: nat) -> Seq<char> {
    hundredths_text(x_at(p.0 as nat, x_top) as nat)
        + ","@
        + hundredths_text(y_at(p.1 as nat, y_top) as nat)
}

fn push_corner(out: &mut String, p: (u64, u64), x_top: u64, y_top: u64)
    requires
        p.0 <= x_top <= AXIS_LIMIT,
        p.1 <= y_top <= AXIS_LIMIT,
        0 < x_top,
        0 < y_top,
    ensures
        final(out)@ == old(out)@ + corner(p, x_top as nat, y_top as nat),
{
    push_hundredths(out, x_of(p.0, x_top));
    out.append(",");
    push_hundredths(out, y_of(p.1, y_top));
    proof {
        assert(out@ =~= old(out)@ + corner(p, x_top as nat, y_top as nat));
    }
}

fn push_path(out: &mut String, points: &[(u64, u64)], x_top: u64, y_top: u64)
    requires
        0 < x_top <= AXIS_LIMIT,
        0 < y_top <= AXIS_LIMIT,
        within(points@, x_top, y_top),
    ensures
        final(out)@ == old(out)@ + path(
            points@,
            points@.len() as int,
            x_top as nat,
            y_top as nat,
        ),
{
    let ghost before = out@;
    let mut i: usize = 0;
    proof {
        assert(before + path(points@, 0, x_top as nat, y_top as nat) =~= before);
    }
    while i < points.len()
        invariant
            i <= points@.len(),
            0 < x_top <= AXIS_LIMIT,
            0 < y_top <= AXIS_LIMIT,
            within(points@, x_top, y_top),
            out@ == before + path(points@, i as int, x_top as nat, y_top as nat),
        decreases points@.len() - i,
    {
        if i > 0 {
            out.append(" ");
        }
        push_corner(out, points[i], x_top, y_top);
        proof {
            assert(out@ =~= before + path(points@, i + 1, x_top as nat, y_top as nat));
        }
        i += 1;
    }
}

/// Whether points are within the axes.
pub open spec fn within(points: Seq<(u64, u64)>, x_top: u64, y_top: u64) -> bool {
    forall|i: int|
        0 <= i < points.len() ==> (#[trigger] points[i]).0 <= x_top && points[i].1 <= y_top
}

/// One point of a curve.
pub open spec fn circle(p: (u64, u64), hue: Seq<char>, x_top: nat, y_top: nat) -> Seq<char> {
    "<circle cx=\""@
        + hundredths_text(x_at(p.0 as nat, x_top) as nat)
        + "\" cy=\""@
        + hundredths_text(y_at(p.1 as nat, y_top) as nat)
        + "\" r=\"3\" fill=\""@
        + hue
        + "\"/>\n"@
}

/// The first so many points of a curve.
pub open spec fn circles(
    points: Seq<(u64, u64)>,
    n: int,
    hue: Seq<char>,
    x_top: nat,
    y_top: nat,
) -> Seq<char>
    decreases n,
{
    if n <= 0 {
        Seq::empty()
    } else {
        circles(points, n - 1, hue, x_top, y_top) + circle(points[n - 1], hue, x_top, y_top)
    }
}

fn push_circle(out: &mut String, p: (u64, u64), hue: &str, x_top: u64, y_top: u64)
    requires
        p.0 <= x_top <= AXIS_LIMIT,
        p.1 <= y_top <= AXIS_LIMIT,
        0 < x_top,
        0 < y_top,
    ensures
        final(out)@ == old(out)@ + circle(p, hue@, x_top as nat, y_top as nat),
{
    out.append("<circle cx=\"");
    push_hundredths(out, x_of(p.0, x_top));
    out.append("\" cy=\"");
    push_hundredths(out, y_of(p.1, y_top));
    out.append("\" r=\"3\" fill=\"");
    out.append(hue);
    out.append("\"/>\n");
    proof {
        assert(out@ =~= old(out)@ + circle(p, hue@, x_top as nat, y_top as nat));
    }
}

fn push_circles(out: &mut String, points: &[(u64, u64)], hue: &str, x_top: u64, y_top: u64)
    requires
        0 < x_top <= AXIS_LIMIT,
        0 < y_top <= AXIS_LIMIT,
        within(points@, x_top, y_top),
    ensures
        final(out)@ == old(out)@ + circles(
            points@,
            points@.len() as int,
            hue@,
            x_top as nat,
            y_top as nat,
        ),
{
    let ghost before = out@;
    let mut i: usize = 0;
    proof {
        assert(before + circles(points@, 0, hue@, x_top as nat, y_top as nat) =~= before);
    }
    while i < points.len()
        invariant
            i <= points@.len(),
            0 < x_top <= AXIS_LIMIT,
            0 < y_top <= AXIS_LIMIT,
            within(points@, x_top, y_top),
            out@ == before + circles(points@, i as int, hue@, x_top as nat, y_top as nat),
        decreases points@.len() - i,
    {
        push_circle(out, points[i], hue, x_top, y_top);
        proof {
            assert(out@ =~= before + circles(points@, i + 1, hue@, x_top as nat, y_top as nat));
        }
        i += 1;
    }
}

/// One curve: its line, its points, and its name in the legend. The points are
/// drawn in the order of their throughput, so that a series recorded out of
/// order draws the same picture as one recorded in order.
pub open spec fn curve(series: SeriesView, i: nat, x_top: nat, y_top: nat) -> Seq<char> {
    let hue = colour_of(i);
    let points = pairs_sorted(pairs_of(series.points));
    "<polyline fill=\"none\" stroke=\""@
        + hue
        + "\" stroke-width=\"2\" points=\""@
        + path(points, points.len() as int, x_top, y_top)
        + "\"/>\n"@
        + circles(points, points.len() as int, hue, x_top, y_top)
        + "<text x=\"556\" y=\""@
        + decimal((42 + i * 15) as nat)
        + "\" fill=\""@
        + hue
        + "\">"@
        + escaped(series.name)
        + "</text>\n"@
}

fn push_curve(out: &mut String, series: &Series, i: usize, x_top: u64, y_top: u64)
    requires
        0 < x_top <= AXIS_LIMIT,
        0 < y_top <= AXIS_LIMIT,
        within(pairs_of(series.points@), x_top, y_top),
    ensures
        final(out)@ == old(out)@ + curve(series@, i as nat, x_top as nat, y_top as nat),
{
    let hue = colour(i);
    let mut pairs: Vec<(u64, u64)> = Vec::new();
    let mut k: usize = 0;
    while k < series.points.len()
        invariant
            k <= series.points@.len(),
            pairs@ =~= pairs_of(series.points@).take(k as int),
        decreases series.points@.len() - k,
    {
        pairs.push((series.points[k].throughput, series.points[k].latency_ns));
        k += 1;
    }
    proof {
        assert(pairs@ =~= pairs_of(series.points@));
    }
    let points = sort_pairs(pairs.as_slice());
    proof {
        lemma_sorted_stays_within(pairs@, x_top, y_top);
    }
    let ghost ordered = points@;
    out.append("<polyline fill=\"none\" stroke=\"");
    out.append(hue);
    out.append("\" stroke-width=\"2\" points=\"");
    push_path(out, points.as_slice(), x_top, y_top);
    out.append("\"/>\n");
    push_circles(out, points.as_slice(), hue, x_top, y_top);
    out.append("<text x=\"556\" y=\"");
    push_wide_decimal(out, 42 + i as u128 * 15);
    out.append("\" fill=\"");
    out.append(hue);
    out.append("\">");
    push_escaped(out, series.name.as_str());
    out.append("</text>\n");
    proof {
        let points = ordered;
        assert(out@ =~= old(out)@ + curve(series@, i as nat, x_top as nat, y_top as nat));
    }
}

/// Points that are within the axes still are when they are sorted.
proof fn lemma_sorted_stays_within(points: Seq<(u64, u64)>, x_top: u64, y_top: u64)
    requires
        within(points, x_top, y_top),
    ensures
        within(pairs_sorted(points), x_top, y_top),
{
    broadcast use vstd::seq_lib::group_to_multiset_ensures;

    crate::order::law_sorting_keeps_the_pairs(points);
    let ordered = pairs_sorted(points);
    assert forall|i: int| 0 <= i < ordered.len() implies (#[trigger] ordered[i]).0 <= x_top
        && ordered[i].1 <= y_top by {
        assert(ordered.contains(ordered[i]));
        assert(ordered.to_multiset().count(ordered[i]) > 0);
        assert(points.to_multiset().count(ordered[i]) > 0);
        assert(points.contains(ordered[i]));
    }
}

/// The first so many curves.
pub open spec fn curves(series: Seq<SeriesView>, n: nat, x_top: nat, y_top: nat) -> Seq<char>
    decreases n,
{
    if n == 0 {
        Seq::empty()
    } else {
        curves(series, (n - 1) as nat, x_top, y_top) + curve(
            series[n - 1],
            (n - 1) as nat,
            x_top,
            y_top,
        )
    }
}

/// What the picture ends with.
pub open spec fn foot(caption: Seq<char>) -> Seq<char> {
    "<text x=\"78\" y=\"430\" fill=\"#777777\">"@
        + escaped(caption)
        + "</text>\n</svg>\n"@
}

fn push_foot(out: &mut String, caption: &str)
    ensures
        final(out)@ == old(out)@ + foot(caption@),
{
    out.append("<text x=\"78\" y=\"430\" fill=\"#777777\">");
    push_escaped(out, caption);
    out.append("</text>\n</svg>\n");
    proof {
        assert(out@ =~= old(out)@ + foot(caption@));
    }
}

/// The whole picture. The axes end on a round number above the data, so that the
/// grid is readable and two campaigns with slightly different maxima still line
/// up.
pub open spec fn picture(title: Seq<char>, caption: Seq<char>, series: Seq<SeriesView>) -> Seq<
    char,
> {
    let x_top = rounded_up(largest(throughputs(series)) as nat);
    let y_top = rounded_up(largest(latencies(series)) as nat);
    head(title) + y_lines(y_top, 6) + x_lines(x_top, 6) + axes() + curves(
        series,
        series.len(),
        x_top,
        y_top,
    ) + foot(caption)
}

/// Whether every point is one that an axis can show.
pub open spec fn drawable(series: Seq<SeriesView>) -> bool {
    &&& largest(throughputs(series)) <= AXIS_LIMIT
    &&& largest(latencies(series)) <= AXIS_LIMIT
}

/// A curve whose points an axis can show is drawable on its own.
pub proof fn lemma_one_curve_is_drawable(one: SeriesView)
    requires
        forall|i: int|
            0 <= i < one.points.len() ==> (#[trigger] one.points[i]).throughput <= AXIS_LIMIT
                && one.points[i].latency_ns <= AXIS_LIMIT,
    ensures
        drawable(seq![one]),
{
    let all = seq![one];
    let xs = one.points.map_values(|p: Point| p.throughput);
    let ys = one.points.map_values(|p: Point| p.latency_ns);
    assert(all.drop_last() =~= Seq::empty());
    reveal_with_fuel(throughputs, 2);
    reveal_with_fuel(latencies, 2);
    assert(throughputs(all) =~= xs);
    assert(latencies(all) =~= ys);
    lemma_largest(xs);
    lemma_largest(ys);
    if largest(xs) != 1 {
        let k = choose|k: int| 0 <= k < xs.len() && xs[k] == largest(xs);
        assert(one.points[k].throughput <= AXIS_LIMIT);
    }
    if largest(ys) != 1 {
        let k = choose|k: int| 0 <= k < ys.len() && ys[k] == largest(ys);
        assert(one.points[k].latency_ns <= AXIS_LIMIT);
    }
}

/// The first series that is not a curve.
pub open spec fn first_short(series: Seq<SeriesView>) -> Option<SeriesView>
    decreases series.len(),
{
    if series.len() == 0 {
        None
    } else if series[0].points.len() < 2 {
        Some(series[0])
    } else {
        first_short(series.skip(1))
    }
}

/// The largest throughput and latency of all the points.
fn extremes(series: &[Series]) -> (r: (u64, u64))
    ensures
        r.0 == largest(throughputs(series_views(series@))),
        r.1 == largest(latencies(series_views(series@))),
{
    let ghost views = series_views(series@);
    let mut x: u64 = 1;
    let mut y: u64 = 1;
    let mut i: usize = 0;
    proof {
        assert(views.take(0) =~= Seq::empty());
    }
    while i < series.len()
        invariant
            i <= series@.len(),
            views == series_views(series@),
            x == largest(throughputs(views.take(i as int))),
            y == largest(latencies(views.take(i as int))),
        decreases series@.len() - i,
    {
        let points = &series[i].points;
        let ghost xs = points@.map_values(|p: Point| p.throughput);
        let ghost ys = points@.map_values(|p: Point| p.latency_ns);
        let mut px: u64 = 1;
        let mut py: u64 = 1;
        let mut k: usize = 0;
        while k < points.len()
            invariant
                k <= points@.len(),
                xs == points@.map_values(|p: Point| p.throughput),
                ys == points@.map_values(|p: Point| p.latency_ns),
                px == largest(xs.take(k as int)),
                py == largest(ys.take(k as int)),
            decreases points@.len() - k,
        {
            proof {
                assert(xs.take(k + 1).drop_last() =~= xs.take(k as int));
                assert(ys.take(k + 1).drop_last() =~= ys.take(k as int));
            }
            if points[k].throughput > px {
                px = points[k].throughput;
            }
            if points[k].latency_ns > py {
                py = points[k].latency_ns;
            }
            k += 1;
        }
        proof {
            assert(xs.take(points@.len() as int) =~= xs);
            assert(ys.take(points@.len() as int) =~= ys);
            let next = views.take(i + 1);
            assert(next.drop_last() =~= views.take(i as int));
            assert(next.last() == series@[i as int]@);
            lemma_largest_concat(throughputs(views.take(i as int)), xs);
            lemma_largest_concat(latencies(views.take(i as int)), ys);
        }
        if px > x {
            x = px;
        }
        if py > y {
            y = py;
        }
        i += 1;
    }
    proof {
        assert(views.take(views.len() as int) =~= views);
    }
    (x, y)
}

/// Every point is within the axes.
proof fn lemma_points_are_within(series: Seq<SeriesView>, i: int, x_top: u64, y_top: u64)
    requires
        0 <= i < series.len(),
        largest(throughputs(series)) <= x_top,
        largest(latencies(series)) <= y_top,
    ensures
        within(pairs_of(series[i].points), x_top, y_top),
    decreases series.len(),
{
    let last = series.last();
    let xs = last.points.map_values(|p: Point| p.throughput);
    let ys = last.points.map_values(|p: Point| p.latency_ns);
    lemma_largest_concat(throughputs(series.drop_last()), xs);
    lemma_largest_concat(latencies(series.drop_last()), ys);
    if i < series.len() - 1 {
        lemma_points_are_within(series.drop_last(), i, x_top, y_top);
    } else {
        lemma_largest(xs);
        lemma_largest(ys);
        let pairs = pairs_of(last.points);
        assert forall|k: int| 0 <= k < pairs.len() implies (#[trigger] pairs[k]).0 <= x_top
            && pairs[k].1 <= y_top by {
            assert(pairs[k].0 == xs[k]);
            assert(pairs[k].1 == ys[k]);
        }
    }
}

/// Render the curves.
///
/// `caption` goes under the axes and is where the tier qualifier belongs: a
/// picture travels further than the file it came from, and an Exploratory number
/// in a screenshot with no caption is exactly how a laptop measurement becomes a
/// claim.
pub fn throughput_vs_latency(title: &str, caption: &str, series: &[Series]) -> (r: Result<
    String,
    PlotError,
>)
    requires
        drawable(series_views(series@)),
    ensures
        ({
            let views = series_views(series@);
            match r {
                Ok(svg) => {
                    &&& views.len() > 0
                    &&& first_short(views) is None
                    &&& svg@ == picture(title@, caption@, views)
                },
                Err(PlotError::Empty) => views.len() == 0,
                Err(PlotError::NotACurve(name, points)) => {
                    &&& first_short(views) is Some
                    &&& name@ == first_short(views)->0.name
                    &&& points == first_short(views)->0.points.len()
                },
            }
        }),
{
    let ghost views = series_views(series@);
    if series.len() == 0 {
        return Err(PlotError::Empty);
    }
    let mut i: usize = 0;
    proof {
        assert(views.skip(0) =~= views);
    }
    while i < series.len()
        invariant
            i <= series@.len(),
            views == series_views(series@),
            first_short(views) == first_short(views.skip(i as int)),
        decreases series@.len() - i,
    {
        proof {
            assert(views.skip(i as int)[0] == series@[i as int]@);
            assert(views.skip(i as int).skip(1) =~= views.skip(i + 1));
        }
        if series[i].points.len() < 2 {
            return Err(PlotError::NotACurve(series[i].name.clone(), series[i].points.len()));
        }
        i += 1;
    }
    let (max_x, max_y) = extremes(series);
    let x_top: u64 = round_up(max_x);
    let y_top: u64 = round_up(max_y);
    let mut out = String::new();
    push_head(&mut out, title);
    push_grid(&mut out, x_top, y_top);
    out.append("<line x1=\"78\" y1=\"384\" x2=\"696\" y2=\"384\" stroke=\"#111111\"/>\n<line x1=\"78\" y1=\"28\" x2=\"78\" y2=\"384\" stroke=\"#111111\"/>\n<text x=\"387\" y=\"418\" text-anchor=\"middle\" fill=\"#111111\">throughput (ops/s)</text>\n<text x=\"14\" y=\"206\" text-anchor=\"middle\" transform=\"rotate(-90 14 206)\" fill=\"#111111\">latency (ms)</text>\n");
    let ghost before = out@;
    proof {
        assert(before =~= head(title@) + y_lines(y_top as nat, 6) + x_lines(x_top as nat, 6)
            + axes());
        assert(before + curves(views, 0, x_top as nat, y_top as nat) =~= before);
    }
    let mut k: usize = 0;
    while k < series.len()
        invariant
            k <= series@.len(),
            views == series_views(series@),
            0 < x_top <= AXIS_LIMIT,
            0 < y_top <= AXIS_LIMIT,
            largest(throughputs(views)) <= x_top,
            largest(latencies(views)) <= y_top,
            out@ == before + curves(views, k as nat, x_top as nat, y_top as nat),
        decreases series@.len() - k,
    {
        proof {
            lemma_points_are_within(views, k as int, x_top, y_top);
            assert(views[k as int] == series@[k as int]@);
        }
        push_curve(&mut out, &series[k], k, x_top, y_top);
        proof {
            assert(out@ =~= before + curves(views, (k + 1) as nat, x_top as nat, y_top as nat));
        }
        k += 1;
    }
    push_foot(&mut out, caption);
    proof {
        assert(out@ =~= picture(title@, caption@, views));
    }
    Ok(out)
}

// -------------------------------------------------------------------- laws

/// Whether a number is one, two or five times a power of ten.
pub open spec fn is_round(n: nat) -> bool {
    exists|k: nat| n == #[trigger] tens(k) || n == 2 * tens(k) || n == 5 * tens(k)
}

/// A magnitude is a power of ten.
proof fn lemma_magnitude_is_a_power(value: nat) -> (k: nat)
    ensures
        magnitude_of(value) == tens(k),
    decreases value,
{
    if value < 10 {
        0
    } else {
        lemma_magnitude_is_a_power(value / 10) + 1
    }
}

/// A smaller power of ten is at most a tenth of a larger one.
proof fn lemma_tens_grow(j: nat, k: nat)
    requires
        j < k,
    ensures
        10 * tens(j) <= tens(k),
    decreases k,
{
    lemma_tens_positive(j);
    if j + 1 < k {
        lemma_tens_grow(j, (k - 1) as nat);
    }
}

/// An axis ends on a round number that is not below the data, and on the least one
/// there is.
pub proof fn law_axes_end_on_round_numbers(value: nat)
    ensures
        value <= rounded_up(value),
        is_round(rounded_up(value)),
        forall|n: nat| #[trigger] is_round(n) && n >= value ==> rounded_up(value) <= n,
{
    let j = lemma_magnitude_is_a_power(value);
    let m = tens(j);
    lemma_tens_positive(j);
    if value > 0 {
        lemma_magnitude(value);
    }
    assert(tens(j + 1) == 10 * m);
    assert(tens(0) == 1);
    assert forall|n: nat| #[trigger] is_round(n) && n >= value implies rounded_up(value) <= n by {
        let k = choose|k: nat| n == #[trigger] tens(k) || n == 2 * tens(k) || n == 5 * tens(k);
        lemma_tens_positive(k);
        if k < j {
            lemma_tens_grow(k, j);
        } else if k > j {
            lemma_tens_grow(j, k);
        }
    }
}

/// Whether two lists of series hold the same data: the same names, in order, and
/// the same points, in whatever order.
pub open spec fn same_data(a: Seq<SeriesView>, b: Seq<SeriesView>) -> bool {
    &&& a.len() == b.len()
    &&& forall|i: int|
        0 <= i < a.len() ==> {
            &&& (#[trigger] a[i]).name == b[i].name
            &&& pairs_of(a[i].points).to_multiset() == pairs_of(b[i].points).to_multiset()
        }
}

/// The order that points were recorded in is not part of the data: the same
/// points draw the same picture.
pub proof fn law_the_order_of_points_is_not_part_of_the_picture(
    title: Seq<char>,
    caption: Seq<char>,
    a: Seq<SeriesView>,
    b: Seq<SeriesView>,
)
    requires
        same_data(a, b),
    ensures
        picture(title, caption, a) == picture(title, caption, b),
{
    lemma_same_extremes(a, b);
    let x_top = rounded_up(largest(throughputs(a)) as nat);
    let y_top = rounded_up(largest(latencies(a)) as nat);
    lemma_same_curves(a, b, a.len(), x_top, y_top);
}

proof fn lemma_same_curves(
    a: Seq<SeriesView>,
    b: Seq<SeriesView>,
    n: nat,
    x_top: nat,
    y_top: nat,
)
    requires
        same_data(a, b),
        n <= a.len(),
    ensures
        curves(a, n, x_top, y_top) == curves(b, n, x_top, y_top),
    decreases n,
{
    if n > 0 {
        lemma_same_curves(a, b, (n - 1) as nat, x_top, y_top);
        assert(a[n - 1].name == b[n - 1].name);
        law_sorted_pairs_do_not_depend_on_their_order(
            pairs_of(a[n - 1].points),
            pairs_of(b[n - 1].points),
        );
    }
}

proof fn lemma_same_extremes(a: Seq<SeriesView>, b: Seq<SeriesView>)
    requires
        same_data(a, b),
    ensures
        largest(throughputs(a)) == largest(throughputs(b)),
        largest(latencies(a)) == largest(latencies(b)),
    decreases a.len(),
{
    if a.len() > 0 {
        let (ha, hb) = (a.drop_last(), b.drop_last());
        assert forall|i: int| 0 <= i < ha.len() implies {
            &&& (#[trigger] ha[i]).name == hb[i].name
            &&& pairs_of(ha[i].points).to_multiset() == pairs_of(hb[i].points).to_multiset()
        } by {
            assert(ha[i] == a[i] && hb[i] == b[i]);
        }
        lemma_same_extremes(ha, hb);
        let (pa, pb) = (a.last().points, b.last().points);
        assert(a[a.len() - 1] == a.last());
        let (xa, xb) = (
            pa.map_values(|p: Point| p.throughput),
            pb.map_values(|p: Point| p.throughput),
        );
        let (ya, yb) = (
            pa.map_values(|p: Point| p.latency_ns),
            pb.map_values(|p: Point| p.latency_ns),
        );
        lemma_largest_concat(throughputs(ha), xa);
        lemma_largest_concat(throughputs(hb), xb);
        lemma_largest_concat(latencies(ha), ya);
        lemma_largest_concat(latencies(hb), yb);
        lemma_none_larger(pa, pb);
        lemma_none_larger(pb, pa);
    }
}

/// Nothing among the same points is larger.
proof fn lemma_none_larger(a: Seq<Point>, b: Seq<Point>)
    requires
        pairs_of(a).to_multiset() == pairs_of(b).to_multiset(),
    ensures
        largest(a.map_values(|p: Point| p.throughput)) <= largest(
            b.map_values(|p: Point| p.throughput),
        ),
        largest(a.map_values(|p: Point| p.latency_ns)) <= largest(
            b.map_values(|p: Point| p.latency_ns),
        ),
{
    broadcast use vstd::seq_lib::group_to_multiset_ensures;

    let (xa, xb) = (a.map_values(|p: Point| p.throughput), b.map_values(|p: Point| p.throughput));
    let (ya, yb) = (a.map_values(|p: Point| p.latency_ns), b.map_values(|p: Point| p.latency_ns));
    lemma_largest(xa);
    lemma_largest(xb);
    lemma_largest(ya);
    lemma_largest(yb);
    let (pa, pb) = (pairs_of(a), pairs_of(b));
    if largest(xa) != 1 {
        let k = choose|k: int| 0 <= k < xa.len() && xa[k] == largest(xa);
        assert(pa.contains(pa[k]));
        assert(pb.to_multiset().count(pa[k]) > 0);
        assert(pb.contains(pa[k]));
        let j = choose|j: int| 0 <= j < pb.len() && pb[j] == pa[k];
        assert(xb[j] == xa[k]);
    }
    if largest(ya) != 1 {
        let k = choose|k: int| 0 <= k < ya.len() && ya[k] == largest(ya);
        assert(pa.contains(pa[k]));
        assert(pb.to_multiset().count(pa[k]) > 0);
        assert(pb.contains(pa[k]));
        let j = choose|j: int| 0 <= j < pb.len() && pb[j] == pa[k];
        assert(yb[j] == ya[k]);
    }
}

} // verus!
