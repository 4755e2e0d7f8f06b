//! What holds of whole plots.

use vstd::prelude::*;
use crate::canvas::Plane;
use crate::canvas::keeps_frame;
use crate::canvas::lemma_each_drawn_frame;
use crate::canvas::same_frame;
use crate::cdf::Stairs;
use crate::cdf::lemma_stairs_drawn_frame;
use crate::dataset::Line;
use crate::dataset::PlotKind;
use crate::dataset::all_xs;
use crate::dataset::all_ys;
use crate::dataset::bars_step;
use crate::dataset::box_step;
use crate::dataset::cdf_frame;
use crate::dataset::dot_step;
use crate::dataset::dots_step;
use crate::dataset::histogram_frame;
use crate::dataset::marker_of;
use crate::dataset::peak_joined;
use crate::dataset::plot;
use crate::dataset::point_frame;
use crate::dataset::spans_joined;
use crate::dataset::stairs_step;
use crate::dataset::ys;
use crate::histogram::Tally;
use crate::histogram::lemma_tally_drawn_frame;
use crate::quantiles::Summary;
use crate::quantiles::lemma_summary_drawn_frame;
use crate::ratio::Frac;
use crate::samples::largest;
use crate::samples::least;
use crate::samples::present;

verus! {

/// No plot changes the size of the canvas or its margin, and each leaves an axis
/// interval that it does not set as it was: points and histograms set both
/// intervals, distributions that of the y-axis, box plots none.
pub proof fn lemma_plot_frame(plane: Plane, store: Seq<Line>, kind: PlotKind)
    ensures
        plot(plane, store, kind).plane.height == plane.height,
        plot(plane, store, kind).plane.width == plane.width,
        plot(plane, store, kind).plane.margin == plane.margin,
        kind == PlotKind::Boxplot ==> same_frame(plot(plane, store, kind).plane, plane),
        kind == PlotKind::CDF ==> same_frame(plot(plane, store, kind).plane, cdf_frame(plane)),
        kind == PlotKind::Point && all_xs(store).len() > 0 ==> same_frame(
            plot(plane, store, kind).plane,
            point_frame(plane, store),
        ),
{
    let count = store.len() as int;
    match kind {
        PlotKind::Point => {
            let step = dots_step(store);
            assert(keeps_frame(step)) by {
                assert forall|p: Plane, i: int| same_frame(#[trigger] step(p, i).plane, p) by {
                    let inner = dot_step(store[i].points, marker_of(store[i].label));
                    assert(keeps_frame(inner)) by {
                        assert forall|q: Plane, j: int| same_frame(
                            #[trigger] inner(q, j).plane,
                            q,
                        ) by {}
                    }
                    lemma_each_drawn_frame(p, inner, store[i].points.len() as int);
                }
            }
            lemma_each_drawn_frame(point_frame(plane, store), step, count);
        },
        PlotKind::Boxplot => {
            let step = box_step(store);
            assert(keeps_frame(step)) by {
                assert forall|p: Plane, i: int| same_frame(#[trigger] step(p, i).plane, p) by {
                    lemma_summary_drawn_frame(Summary::of(ys(store[i].points)), p, 4 * i);
                }
            }
            lemma_each_drawn_frame(plane, step, count);
        },
        PlotKind::CDF => {
            let step = stairs_step(store);
            assert(keeps_frame(step)) by {
                assert forall|p: Plane, i: int| same_frame(#[trigger] step(p, i).plane, p) by {
                    lemma_stairs_drawn_frame(
                        Stairs::of(ys(store[i].points)),
                        p,
                        marker_of(store[i].label),
                    );
                }
            }
            lemma_each_drawn_frame(cdf_frame(plane), step, count);
        },
        PlotKind::Histogram => {
            let step = bars_step(store);
            assert(keeps_frame(step)) by {
                assert forall|p: Plane, i: int| same_frame(#[trigger] step(p, i).plane, p) by {
                    lemma_tally_drawn_frame(
                        Tally::of(ys(store[i].points)),
                        p,
                        marker_of(store[i].label),
                    );
                }
            }
            match spans_joined(store, count) {
                None => {},
                Some((lo, hi)) => {
                    lemma_each_drawn_frame(
                        histogram_frame(
                            plane,
                            lo,
                            hi,
                            peak_joined(store, count),
                        ),
                        step,
                        count,
                    );
                },
            }
        },
    }
}

/// Drawing is repeatable from a fresh canvas: once a store is drawn on a canvas
/// fresh from its construction, clearing the canvas and drawing the same store as
/// the same kind of plot again gives the same canvas and the same outcome as the
/// first drawing.
pub proof fn lemma_redraw_fresh(height: int, width: int, store: Seq<Line>, kind: PlotKind)
    ensures
        plot(plot(Plane::fresh(height, width), store, kind).plane.cleared(), store, kind) == plot(
            Plane::fresh(height, width),
            store,
            kind,
        ),
{
    let fresh = Plane::fresh(height, width);
    assert(fresh.cleared() == fresh);
    lemma_redraw_after_clear(fresh, store, kind);
}

/// Drawing is repeatable from any blank canvas: once a store is drawn on a cleared
/// canvas, clearing the canvas and drawing the same store as the same kind of plot
/// again gives the same canvas and the same outcome as the first drawing.
pub proof fn lemma_redraw_after_clear(plane: Plane, store: Seq<Line>, kind: PlotKind)
    ensures
        plot(plot(plane.cleared(), store, kind).plane.cleared(), store, kind) == plot(
            plane.cleared(),
            store,
            kind,
        ),
{
    let blank = plane.cleared();
    let first = plot(blank, store, kind);
    let again = first.plane.cleared();
    lemma_plot_frame(blank, store, kind);
    match kind {
        PlotKind::Point => {
            if all_xs(store).len() == 0 {
                assert(again == blank);
            } else {
                let x = present(all_xs(store));
                let y = present(all_ys(store));
                let (x0, x1) = (least(x), largest(x));
                let (y0, y1) = (least(y), largest(y));
                assert(again.with_x_range(x0, x1).with_y_range(y0, y1) == blank.with_x_range(
                    x0,
                    x1,
                ).with_y_range(y0, y1));
            }
        },
        PlotKind::Boxplot => {
            assert(again == blank);
        },
        PlotKind::CDF => {
            let range = (
                Frac { num: -1, den: 10 },
                Frac { num: 11, den: 10 },
            );
            assert((Plane { y_range: range, ..again }) == (Plane { y_range: range, ..blank }));
        },
        PlotKind::Histogram => {
            let count = store.len() as int;
            match spans_joined(store, count) {
                None => {
                    assert(again == blank);
                },
                Some((lo, hi)) => {
                    let most = peak_joined(store, count);
                    assert(histogram_frame(again, lo, hi, most)
                        == histogram_frame(blank, lo, hi, most));
                },
            }
        },
    }
}

} // verus!
