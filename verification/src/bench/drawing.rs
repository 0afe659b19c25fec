//! What a picture promises.
//!
//! That more is further along, that every point that was measured is in it, and that
//! nothing is drawn that is no curve.

use vstd::prelude::*;

use crate::bench::plot::{
    axes, circle, circles, colour_of, curve, curves, escaped, first_short, foot, head,
    hundredths_text, largest, latencies, nearest, pairs_of, path, picture, rounded_up,
    series_views, throughput_vs_latency, throughputs, x_at, x_lines, y_at, y_lines, PlotError,
    Series, SeriesView,
};
use crate::bench::promises::{lemma_says_behind, lemma_says_itself, lemma_says_on, says};
use crate::order::{law_sorting_keeps_the_pairs, pairs_sorted};
use crate::text::decimal;

verus! {

/// More throughput is never further left, nothing is at the left edge, and the top of
/// the axis is at the right one.
pub proof fn law_more_throughput_is_further_right(a: nat, b: nat, top: nat)
    requires
        a <= b <= top,
        top > 0,
    ensures
        x_at(0, top) == 7_800,
        x_at(top, top) == 69_600,
        x_at(a, top) <= x_at(b, top),
        7_800 <= x_at(a, top) <= 69_600,
        2 * top * (x_at(a, top) - 7_800) <= 2 * 61_800 * a + top < 2 * top * (x_at(a, top) - 7_800)
            + 2 * top,
{
    lemma_nearest((7_800 * top) as int, top);
    lemma_nearest((7_800 * top + 61_800 * top) as int, top);
    lemma_nearest((7_800 * top + 61_800 * a) as int, top);
    lemma_nearest((7_800 * top + 61_800 * b) as int, top);
    let (zero, full, x, y) = (x_at(0, top), x_at(top, top), x_at(a, top), x_at(b, top));
    assert(2 * top * (x - 7_800) <= 2 * 61_800 * a + top < 2 * top * (x - 7_800) + 2 * top)
        by (nonlinear_arith)
        requires
            2 * top * x <= 2 * (7_800 * top + 61_800 * a) + top < 2 * top * x + 2 * top,
    ;
    assert(zero == 7_800) by (nonlinear_arith)
        requires
            top > 0,
            2 * top * zero <= 2 * (7_800 * top) + top < 2 * top * zero + 2 * top,
    ;
    assert(full == 69_600) by (nonlinear_arith)
        requires
            top > 0,
            2 * top * full <= 2 * (69_600 * top) + top < 2 * top * full + 2 * top,
    ;
    assert(x <= y && 7_800 <= x <= 69_600) by (nonlinear_arith)
        requires
            top > 0,
            a <= b <= top,
            2 * top * x <= 2 * (7_800 * top + 61_800 * a) + top < 2 * top * x + 2 * top,
            2 * top * y <= 2 * (7_800 * top + 61_800 * b) + top < 2 * top * y + 2 * top,
    ;
}

/// More latency is never lower, none is at the bottom, and the top of the axis is at
/// the top of the picture.
pub proof fn law_more_latency_is_higher(a: nat, b: nat, top: nat)
    requires
        a <= b <= top,
        top > 0,
    ensures
        y_at(0, top) == 38_400,
        y_at(top, top) == 2_800,
        y_at(b, top) <= y_at(a, top),
        2_800 <= y_at(a, top) <= 38_400,
{
    lemma_nearest((38_400 * top) as int, top);
    lemma_nearest(38_400 * top - 35_600 * top, top);
    lemma_nearest(38_400 * top - 35_600 * a, top);
    lemma_nearest(38_400 * top - 35_600 * b, top);
    let (zero, full, x, y) = (y_at(0, top), y_at(top, top), y_at(a, top), y_at(b, top));
    assert(zero == 38_400) by (nonlinear_arith)
        requires
            top > 0,
            2 * top * zero <= 2 * (38_400 * top) + top < 2 * top * zero + 2 * top,
    ;
    assert(full == 2_800) by (nonlinear_arith)
        requires
            top > 0,
            2 * top * full <= 2 * (2_800 * top) + top < 2 * top * full + 2 * top,
    ;
    assert(y <= x && 2_800 <= x <= 38_400) by (nonlinear_arith)
        requires
            top > 0,
            a <= b <= top,
            2 * top * x <= 2 * (38_400 * top - 35_600 * a) + top < 2 * top * x + 2 * top,
            2 * top * y <= 2 * (38_400 * top - 35_600 * b) + top < 2 * top * y + 2 * top,
    ;
}

proof fn lemma_nearest(num: int, den: nat)
    requires
        den > 0,
    ensures
        2 * den * nearest(num, den) <= 2 * num + den < 2 * den * nearest(num, den) + 2 * den,
{
    let q = nearest(num, den);
    assert(2 * den * q <= 2 * num + den < 2 * den * q + 2 * den) by (nonlinear_arith)
        requires
            q == (2 * num + den) / (2 * den as int),
            den > 0,
    ;
}

/// The largest of some numbers is one of them, or one, and none is larger.
pub proof fn law_an_axis_covers_every_point(values: Seq<u64>)
    ensures
        forall|i: int| 0 <= i < values.len() ==> #[trigger] values[i] <= largest(values),
        largest(values) == 1 || values.contains(largest(values)),
        largest(values) >= 1,
    decreases values.len(),
{
    if values.len() > 0 {
        let others = values.drop_last();
        law_an_axis_covers_every_point(others);
        assert forall|i: int| 0 <= i < values.len() implies #[trigger] values[i] <= largest(
            values,
        ) by {
            if i < others.len() {
                assert(others[i] == values[i]);
            }
        }
        if values.last() > largest(others) {
            assert(values[values.len() - 1] == largest(values));
        } else if others.contains(largest(others)) {
            let k = choose|k: int| 0 <= k < others.len() && others[k] == largest(others);
            assert(values[k] == largest(values));
        }
    }
}

/// A picture is drawn of curves only: each series has two points at least, and the
/// first that has not is named.
pub proof fn law_only_curves_are_drawn(
    title: &str,
    caption: &str,
    series: &[Series],
    r: Result<String, PlotError>,
)
    requires
        call_ensures(throughput_vs_latency, (title, caption, series), r),
    ensures
        r is Ok <==> series@.len() > 0 && forall|i: int|
            0 <= i < series@.len() ==> (#[trigger] series@[i]).points@.len() >= 2,
        series@.len() == 0 ==> r == Err::<String, PlotError>(PlotError::Empty),
        r matches Err(PlotError::NotACurve(name, points)) ==> exists|i: int|
            {
                &&& 0 <= i < series@.len()
                &&& (#[trigger] series@[i]).name@ == name@
                &&& series@[i].points@.len() == points
                &&& points < 2
                &&& forall|j: int| 0 <= j < i ==> (#[trigger] series@[j]).points@.len() >= 2
            },
{
    let views = series_views(series@);
    lemma_first_short(views);
    assert forall|i: int| 0 <= i < series@.len() implies #[trigger] views[i] == series@[i]@ by {}
    if first_short(views) is Some {
        let i = choose|i: int|
            {
                &&& 0 <= i < views.len()
                &&& first_short(views) == Some(#[trigger] views[i])
                &&& views[i].points.len() < 2
                &&& forall|j: int| 0 <= j < i ==> (#[trigger] views[j]).points.len() >= 2
            };
        assert(series@[i]@ == views[i]);
        assert forall|j: int| 0 <= j < i implies (#[trigger] series@[j]).points@.len() >= 2 by {
            assert(views[j] == series@[j]@);
        }
    } else {
        assert forall|i: int| 0 <= i < series@.len() implies (#[trigger] series@[i]).points@.len()
            >= 2 by {
            assert(views[i] == series@[i]@);
        }
    }
}

proof fn lemma_first_short(series: Seq<SeriesView>)
    ensures
        first_short(series) is None <==> forall|i: int|
            0 <= i < series.len() ==> (#[trigger] series[i]).points.len() >= 2,
        first_short(series) is Some ==> exists|i: int|
            {
                &&& 0 <= i < series.len()
                &&& first_short(series) == Some(#[trigger] series[i])
                &&& series[i].points.len() < 2
                &&& forall|j: int| 0 <= j < i ==> (#[trigger] series[j]).points.len() >= 2
            },
    decreases series.len(),
{
    if series.len() > 0 && series[0].points.len() >= 2 {
        let rest = series.skip(1);
        lemma_first_short(rest);
        assert forall|i: int| 0 < i < series.len() implies #[trigger] series[i] == rest[i - 1] by {}
        if first_short(rest) is Some {
            let i = choose|i: int|
                {
                    &&& 0 <= i < rest.len()
                    &&& first_short(rest) == Some(#[trigger] rest[i])
                    &&& rest[i].points.len() < 2
                    &&& forall|j: int| 0 <= j < i ==> (#[trigger] rest[j]).points.len() >= 2
                };
            assert(series[i + 1] == rest[i]);
        } else {
            assert forall|i: int| 0 <= i < series.len() implies (#[trigger] series[i]).points.len()
                >= 2 by {
                if i > 0 {
                    assert(series[i] == rest[i - 1]);
                }
            }
        }
    }
}

/// Every point that was measured is in the picture, where its throughput and its
/// latency put it.
pub proof fn law_every_point_is_drawn(
    title: Seq<char>,
    caption: Seq<char>,
    series: Seq<SeriesView>,
    i: int,
    j: int,
)
    requires
        0 <= i < series.len(),
        0 <= j < series[i].points.len(),
    ensures
        ({
            let point = series[i].points[j];
            let x_top = rounded_up(largest(throughputs(series)) as nat);
            let y_top = rounded_up(largest(latencies(series)) as nat);
            says(
                picture(title, caption, series),
                "<circle cx=\""@ + hundredths_text(x_at(point.throughput as nat, x_top) as nat)
                    + "\" cy=\""@ + hundredths_text(y_at(point.latency_ns as nat, y_top) as nat),
            )
        }),
{
    let x_top = rounded_up(largest(throughputs(series)) as nat);
    let y_top = rounded_up(largest(latencies(series)) as nat);
    let point = series[i].points[j];
    let part = "<circle cx=\""@ + hundredths_text(x_at(point.throughput as nat, x_top) as nat)
        + "\" cy=\""@ + hundredths_text(y_at(point.latency_ns as nat, y_top) as nat);
    let pairs = pairs_of(series[i].points);
    let ordered = pairs_sorted(pairs);
    law_sorting_keeps_the_pairs(pairs);
    assert(pairs[j] == (point.throughput, point.latency_ns));
    assert(ordered.contains(pairs[j])) by {
        assert(pairs.contains(pairs[j]));
        pairs.to_multiset_ensures();
        ordered.to_multiset_ensures();
        assert(pairs.to_multiset().count(pairs[j]) > 0);
        assert(ordered.to_multiset().count(pairs[j]) > 0);
    }
    let k = choose|k: int| 0 <= k < ordered.len() && ordered[k] == pairs[j];
    let hue = colour_of(i as nat);
    lemma_circle(ordered, ordered.len() as int, k, hue, x_top, y_top, part);
    lemma_curve(series[i], i as nat, x_top, y_top, part);
    lemma_curves(series, series.len(), i, x_top, y_top, part);
    let before = head(title) + y_lines(y_top, 6)
        + x_lines(x_top, 6) + axes();
    lemma_says_behind(before, curves(series, series.len(), x_top, y_top), part);
    lemma_says_on(
        before + curves(series, series.len(), x_top, y_top),
        part,
        foot(caption),
    );
}

proof fn lemma_circle(
    points: Seq<(u64, u64)>,
    n: int,
    k: int,
    hue: Seq<char>,
    x_top: nat,
    y_top: nat,
    part: Seq<char>,
)
    requires
        0 <= k < n <= points.len(),
        part == "<circle cx=\""@ + hundredths_text(x_at(points[k].0 as nat, x_top) as nat)
            + "\" cy=\""@ + hundredths_text(y_at(points[k].1 as nat, y_top) as nat),
    ensures
        says(circles(points, n, hue, x_top, y_top), part),
    decreases n,
{
    let before = circles(points, n - 1, hue, x_top, y_top);
    if k == n - 1 {
        lemma_says_itself(part);
        lemma_says_on(part, part, "\" r=\"3\" fill=\""@);
        lemma_says_on(part + "\" r=\"3\" fill=\""@, part, hue);
        lemma_says_on(part + "\" r=\"3\" fill=\""@ + hue, part, "\"/>\n"@);
        lemma_says_behind(before, circle(points[k], hue, x_top, y_top), part);
    } else {
        lemma_circle(points, n - 1, k, hue, x_top, y_top, part);
        lemma_says_on(before, part, circle(points[n - 1], hue, x_top, y_top));
    }
}

proof fn lemma_curve(series: SeriesView, i: nat, x_top: nat, y_top: nat, part: Seq<char>)
    requires
        ({
            let points = pairs_sorted(pairs_of(series.points));
            says(circles(points, points.len() as int, colour_of(i), x_top, y_top), part)
        }),
    ensures
        says(curve(series, i, x_top, y_top), part),
{
    let hue = colour_of(i);
    let points = pairs_sorted(pairs_of(series.points));
    let dots = circles(points, points.len() as int, hue, x_top, y_top);
    let line = "<polyline fill=\"none\" stroke=\""@ + hue + "\" stroke-width=\"2\" points=\""@
        + path(points, points.len() as int, x_top, y_top) + "\"/>\n"@;
    lemma_says_behind(line, dots, part);
    let a = line + dots;
    let b = a + "<text x=\"556\" y=\""@;
    let c = b + decimal((42 + i * 15) as nat);
    let d = c + "\" fill=\""@;
    let e = d + hue;
    let f = e + "\">"@;
    let g = f + escaped(series.name);
    lemma_says_on(a, part, "<text x=\"556\" y=\""@);
    lemma_says_on(b, part, decimal((42 + i * 15) as nat));
    lemma_says_on(c, part, "\" fill=\""@);
    lemma_says_on(d, part, hue);
    lemma_says_on(e, part, "\">"@);
    lemma_says_on(f, part, escaped(series.name));
    lemma_says_on(g, part, "</text>\n"@);
}

proof fn lemma_curves(
    series: Seq<SeriesView>,
    n: nat,
    i: int,
    x_top: nat,
    y_top: nat,
    part: Seq<char>,
)
    requires
        0 <= i < n <= series.len(),
        says(curve(series[i], i as nat, x_top, y_top), part),
    ensures
        says(curves(series, n, x_top, y_top), part),
    decreases n,
{
    let before = curves(series, (n - 1) as nat, x_top, y_top);
    let last = curve(series[n - 1], (n - 1) as nat, x_top, y_top);
    if i == n - 1 {
        lemma_says_behind(before, last, part);
    } else {
        lemma_curves(series, (n - 1) as nat, i, x_top, y_top, part);
        lemma_says_on(before, part, last);
    }
}

} // verus!
