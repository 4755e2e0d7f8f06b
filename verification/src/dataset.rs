//! The store of labelled series, and the four kinds of plot that draw it.

use vstd::prelude::*;
use vstd::string::*;
use vstd::utf8::encode_utf8;
use crate::canvas::Canvas;
use crate::canvas::Drawn;
use crate::canvas::Plane;
use crate::canvas::bound_fits;
use crate::canvas::each_drawn;
use crate::canvas::lemma_each_drawn_stops;
use crate::cdf::CDF;
use crate::cdf::Stairs;
use crate::error::CanvasError;
use crate::error::Fault;
use crate::error::agrees;
use crate::histogram::Histogram;
use crate::histogram::Tally;
use crate::histogram::peak;
use crate::quantiles::Quantiles;
use crate::quantiles::Summary;
use crate::quantiles::lemma_summary_drawn_frame;
use crate::ratio::Frac;
use crate::ratio::Ratio;
use crate::samples::MAX_SAMPLES;
use crate::samples::extremes;
use crate::samples::largest;
use crate::samples::least;
use crate::samples::present;
use crate::samples::present_values;

verus! {

/// The kind of plot to draw.
#[derive(Debug, Clone, Copy, PartialEq, Eq, Structural)]
pub enum PlotKind {
    /// One marker per point.
    Point,
    /// A box plot of each series: its quartiles, whiskers and outliers.
    Boxplot,
    /// The empirical cumulative distribution of each series.
    CDF,
    /// The histogram of each series.
    Histogram,
}

impl Default for PlotKind {
    /// Points are what is drawn unless another kind is asked for.
    fn default() -> (kind: PlotKind)
        ensures
            kind == PlotKind::Point,
    {
        PlotKind::Point
    }
}

impl PlotKind {
    /// The name of the kind, in lower case.
    pub fn to_string(&self) -> (name: String)
        ensures
            name@ == match self {
                PlotKind::Point => "point"@,
                PlotKind::Boxplot => "boxplot"@,
                PlotKind::CDF => "cdf"@,
                PlotKind::Histogram => "histogram"@,
            },
    {
        match self {
            PlotKind::Point => String::from_str("point"),
            PlotKind::Boxplot => String::from_str("boxplot"),
            PlotKind::CDF => String::from_str("cdf"),
            PlotKind::Histogram => String::from_str("histogram"),
        }
    }
}

/// A series as contracts see it: its label and its points in order. A coordinate
/// that is missing is `None`.
pub struct Line {
    pub label: Seq<char>,
    pub points: Seq<(Option<i32>, Option<i32>)>,
}

/// A labelled series of points. A coordinate that is missing is `None`.
#[derive(Debug)]
pub struct Series {
    pub label: String,
    pub points: Vec<(Option<i32>, Option<i32>)>,
}

impl View for Series {
    type V = Line;

    open spec fn view(&self) -> Line {
        Line { label: self.label@, points: self.points@ }
    }
}

/// The index, from `from` on, of the series labelled `label`; the number of series if
/// there is none.
pub open spec fn position(store: Seq<Line>, label: Seq<char>, from: int) -> int
    decreases store.len() - from,
{
    if from >= store.len() {
        store.len() as int
    } else if store[from].label == label {
        from
    } else {
        position(store, label, from + 1)
    }
}

/// No two series share a label.
pub open spec fn store_wf(store: Seq<Line>) -> bool {
    forall|i: int, j: int| 0 <= i < j < store.len() ==> store[i].label != store[j].label
}

/// The store after `points` are added under `label`: appended to the series of that
/// label if there is one, else a new series after all others.
pub open spec fn with_points(
    store: Seq<Line>,
    label: Seq<char>,
    points: Seq<(Option<i32>, Option<i32>)>,
) -> Seq<Line> {
    let at = position(store, label, 0);
    if at < store.len() {
        store.update(at, Line { label, points: store[at].points + points })
    } else {
        store.push(Line { label, points })
    }
}

/// The marker of a series: the first byte of its label.
pub open spec fn marker_of(label: Seq<char>) -> u8 {
    encode_utf8(label)[0]
}

/// The label holds at least one character, so that the series has a marker.
pub open spec fn has_marker(label: Seq<char>) -> bool {
    encode_utf8(label).len() > 0
}

/// The x-coordinates of the points, in their order.
pub open spec fn xs(points: Seq<(Option<i32>, Option<i32>)>) -> Seq<Option<i32>> {
    Seq::new(points.len(), |i: int| points[i].0)
}

/// The y-coordinates of the points, in their order.
pub open spec fn ys(points: Seq<(Option<i32>, Option<i32>)>) -> Seq<Option<i32>> {
    Seq::new(points.len(), |i: int| points[i].1)
}

/// The x-coordinates of all points of the store, series after series.
pub open spec fn all_xs(store: Seq<Line>) -> Seq<Option<i32>>
    decreases store.len(),
{
    if store.len() == 0 {
        Seq::empty()
    } else {
        all_xs(store.drop_last()) + xs(store.last().points)
    }
}

/// The y-coordinates of all points of the store, series after series.
pub open spec fn all_ys(store: Seq<Line>) -> Seq<Option<i32>>
    decreases store.len(),
{
    if store.len() == 0 {
        Seq::empty()
    } else {
        all_ys(store.drop_last()) + ys(store.last().points)
    }
}

/// Every series has a marker.
pub open spec fn all_marked(store: Seq<Line>) -> bool {
    forall|i: int| 0 <= i < store.len() ==> has_marker((#[trigger] store[i]).label)
}

/// No series holds more points than a distribution or a histogram can count.
pub open spec fn all_sized(store: Seq<Line>) -> bool {
    forall|i: int| 0 <= i < store.len() ==> (#[trigger] store[i]).points.len() <= MAX_SAMPLES
}

/// The points of a store that holds any span an interval along each axis: some x and
/// some y is there, and neither the x nor the y are all equal.
pub open spec fn spread_out(store: Seq<Line>) -> bool {
    let x = present(all_xs(store));
    let y = present(all_ys(store));
    all_xs(store).len() > 0 ==> x.len() > 0 && y.len() > 0 && least(x) < largest(x) && least(y)
        < largest(y)
}

/// Every series has a summary, and a canvas of `height` rows has three rows for the
/// box plot of each, every fourth row from the top on.
pub open spec fn all_summarized(store: Seq<Line>, height: int) -> bool {
    forall|i: int|
        0 <= i < store.len() ==> Summary::exists_of(ys((#[trigger] store[i]).points)) && 4 * i + 3
            <= height
}

/// What drawing one point makes of a canvas: the marker at the point, and nothing
/// for a point of which a coordinate is missing.
pub open spec fn dot_step(points: Seq<(Option<i32>, Option<i32>)>, marker: u8) -> spec_fn(
    Plane,
    int,
) -> Drawn {
    |plane: Plane, i: int|
        match points[i] {
            (Some(x), Some(y)) => plane.mark(Frac::whole(x as int), Frac::whole(y as int), marker),
            _ => Drawn { plane, fault: None },
        }
}

/// What drawing the points of one series makes of a canvas: each point in turn,
/// marked with the first byte of the label.
pub open spec fn dots_step(store: Seq<Line>) -> spec_fn(Plane, int) -> Drawn {
    |plane: Plane, i: int|
        each_drawn(
            plane,
            dot_step(store[i].points, marker_of(store[i].label)),
            store[i].points.len() as int,
        )
}

/// What drawing the box plot of one series makes of a canvas: the summary of its
/// y-coordinates, on the three rows from four times its index on.
pub open spec fn box_step(store: Seq<Line>) -> spec_fn(Plane, int) -> Drawn {
    |plane: Plane, i: int| Summary::of(ys(store[i].points)).drawn(plane, 4 * i)
}

/// What drawing the distribution of one series makes of a canvas: that of its
/// y-coordinates, marked with the first byte of the label.
pub open spec fn stairs_step(store: Seq<Line>) -> spec_fn(Plane, int) -> Drawn {
    |plane: Plane, i: int| Stairs::of(ys(store[i].points)).drawn(plane, marker_of(store[i].label))
}

/// What drawing the histogram of one series makes of a canvas: that of its
/// y-coordinates, marked with the first byte of the label.
pub open spec fn bars_step(store: Seq<Line>) -> spec_fn(Plane, int) -> Drawn {
    |plane: Plane, i: int| Tally::of(ys(store[i].points)).drawn(plane, marker_of(store[i].label))
}

/// The interval from the least first boundary to the largest last boundary of the
/// histograms of the first `upto` series; none if none of them has bins.
pub open spec fn spans_joined(store: Seq<Line>, upto: int) -> Option<(Frac, Frac)>
    decreases upto,
{
    if upto <= 0 {
        None
    } else {
        let before = spans_joined(store, upto - 1);
        let bins = Tally::of(ys(store[upto - 1].points)).bins;
        if bins.len() == 0 {
            before
        } else {
            match before {
                None => Some((bins.first(), bins.last())),
                Some((lo, hi)) => Some(
                    (
                        if bins.first().lt(lo) {
                            bins.first()
                        } else {
                            lo
                        },
                        if hi.lt(bins.last()) {
                            bins.last()
                        } else {
                            hi
                        },
                    ),
                ),
            }
        }
    }
}

/// The largest count of any bin of the histograms of the first `upto` series.
pub open spec fn peak_joined(store: Seq<Line>, upto: int) -> int
    decreases upto,
{
    if upto <= 0 {
        0
    } else {
        let before = peak_joined(store, upto - 1);
        let most = peak(Tally::of(ys(store[upto - 1].points)).counts);
        if most > before {
            most
        } else {
            before
        }
    }
}

/// The canvas made ready for points: both axis intervals set from the least and the
/// largest coordinate of all points, and the axes drawn.
pub open spec fn point_frame(plane: Plane, store: Seq<Line>) -> Plane {
    let x = present(all_xs(store));
    let y = present(all_ys(store));
    plane.with_x_range(least(x), largest(x)).with_y_range(least(y), largest(y)).with_axes()
}

/// The plot of points: a store without any point is a fault; else the canvas is made
/// ready and the series are drawn in their order.
pub open spec fn point_plot(plane: Plane, store: Seq<Line>) -> Drawn {
    if all_xs(store).len() == 0 {
        Drawn { plane, fault: Some(Fault::NoData) }
    } else {
        each_drawn(point_frame(plane, store), dots_step(store), store.len() as int)
    }
}

/// The box plots of the series in their order, on the canvas as it is.
pub open spec fn box_plot(plane: Plane, store: Seq<Line>) -> Drawn {
    each_drawn(plane, box_step(store), store.len() as int)
}

/// The canvas made ready for distributions: the y-axis runs from `-0.1` to `1.1`,
/// and the axes are drawn.
pub open spec fn cdf_frame(plane: Plane) -> Plane {
    (Plane { y_range: (Frac { num: -1, den: 10 }, Frac { num: 11, den: 10 }), ..plane }).with_axes()
}

/// The plot of distributions: the canvas is made ready and the distribution of
/// each series is drawn, in their order.
pub open spec fn cdf_plot(plane: Plane, store: Seq<Line>) -> Drawn {
    each_drawn(cdf_frame(plane), stairs_step(store), store.len() as int)
}

/// The canvas made ready for histograms whose bins span `lo` to `hi` and whose
/// largest count is `most`: the x-axis runs from `lo` to `hi`, the y-axis from a
/// twentieth of `most` below zero to `most`.
pub open spec fn histogram_frame(plane: Plane, lo: Frac, hi: Frac, most: int) -> Plane {
    Plane {
        x_range: (lo, hi),
        y_range: (Frac { num: -most, den: 20 }, Frac { num: most, den: 1 }),
        ..plane
    }
}

/// The plot of histograms: a store of which no series has a value is a fault; else
/// the canvas is made ready and the histogram of each series is drawn, in their
/// order.
pub open spec fn histogram_plot(plane: Plane, store: Seq<Line>) -> Drawn {
    match spans_joined(store, store.len() as int) {
        None => Drawn { plane, fault: Some(Fault::NoData) },
        Some((lo, hi)) => each_drawn(
            histogram_frame(plane, lo, hi, peak_joined(store, store.len() as int)),
            bars_step(store),
            store.len() as int,
        ),
    }
}

/// The plot of the given kind.
pub open spec fn plot(plane: Plane, store: Seq<Line>, kind: PlotKind) -> Drawn {
    match kind {
        PlotKind::Point => point_plot(plane, store),
        PlotKind::Boxplot => box_plot(plane, store),
        PlotKind::CDF => cdf_plot(plane, store),
        PlotKind::Histogram => histogram_plot(plane, store),
    }
}

/// The store can be drawn as a plot of the given kind on a canvas of `height` rows.
/// Points need a store whose points, if it has any, span an interval along each
/// axis; box plots need a summary of every series and three rows for each; all
/// kinds but box plots need a marker for every series; and distributions and
/// histograms need series that are not too long to count.
pub open spec fn drawable(store: Seq<Line>, height: int, kind: PlotKind) -> bool {
    match kind {
        PlotKind::Point => all_marked(store) && spread_out(store),
        PlotKind::Boxplot => all_summarized(store, height),
        PlotKind::CDF => all_marked(store) && all_sized(store),
        PlotKind::Histogram => all_marked(store) && all_sized(store),
    }
}

/// The labelled series to plot, in the order in which their labels were first seen.
#[derive(Debug)]
pub struct DataSet {
    dataset: Vec<Series>,
}

impl View for DataSet {
    type V = Seq<Line>;

    closed spec fn view(&self) -> Seq<Line> {
        Seq::new(self.dataset@.len(), |i: int| self.dataset@[i]@)
    }
}

impl Default for DataSet {
    /// The store without series.
    fn default() -> (store: DataSet)
        ensures
            store.wf(),
            store@ == Seq::<Line>::empty(),
    {
        let store = DataSet { dataset: Vec::new() };
        assert(store@ =~= Seq::<Line>::empty());
        store
    }
}

impl DataSet {
    /// The store is well formed: see [`store_wf`].
    pub open spec fn wf(&self) -> bool {
        store_wf(self@)
    }

    /// The number of series.
    pub fn len(&self) -> (count: usize)
        ensures
            count == self@.len(),
    {
        self.dataset.len()
    }

    /// The series in their order.
    pub fn series(&self) -> (all: &Vec<Series>)
        ensures
            all@.len() == self@.len(),
            forall|i: int| 0 <= i < all@.len() ==> (#[trigger] all@[i])@ == self@[i],
    {
        &self.dataset
    }

    /// Adds `points` to the series labelled `dataset`, which is created after all
    /// others if there is none yet.
    pub fn add_points(&mut self, dataset: String, points: Vec<(Option<i32>, Option<i32>)>)
        requires
            old(self).wf(),
        ensures
            final(self).wf(),
            final(self)@ == with_points(old(self)@, dataset@, points@),
    {
        let ghost before = self@;
        let ghost given = points@;
        let mut rest = points;
        let mut i: usize = 0;
        proof {
            lemma_position(before, dataset@, 0);
        }
        while i < self.dataset.len()
            invariant
                i <= self.dataset@.len(),
                self@ == before,
                before == old(self)@,
                store_wf(before),
                rest@ == given,
                given == points@,
                position(before, dataset@, 0) == position(before, dataset@, i as int),
            decreases self.dataset@.len() - i,
        {
            assert(self@[i as int] == self.dataset@[i as int]@);
            if self.dataset[i].label == dataset {
                self.dataset[i].points.append(&mut rest);
                assert(self@ =~= with_points(before, dataset@, given));
                assert(store_wf(self@));
                return ;
            }
            i = i + 1;
        }
        proof {
            lemma_position(before, dataset@, 0);
        }
        self.dataset.push(Series { label: dataset, points: rest });
        assert(self@ =~= with_points(before, dataset@, given));
        assert(store_wf(self@)) by {
            assert forall|a: int, b: int| 0 <= a < b < self@.len() implies self@[a].label
                != self@[b].label by {
                if b == before.len() {
                    assert(before[a].label != dataset@);
                }
            }
        }
    }

    /// Draws the store as a plot of the given kind: see [`plot`]. A store with
    /// nothing to show is reported as without data, and what does not fit the canvas
    /// as out of range; either ends the drawing.
    pub fn draw_into(&self, canvas: &mut Canvas, kind: PlotKind) -> (r: Result<(), CanvasError>)
        requires
            self.wf(),
            old(canvas).wf(),
            drawable(self@, old(canvas)@.height, kind),
        ensures
            final(canvas).wf(),
            final(canvas)@ == plot(old(canvas)@, self@, kind).plane,
            agrees(r, plot(old(canvas)@, self@, kind).fault),
    {
        match kind {
            PlotKind::Point => self.draw_point(canvas),
            PlotKind::Boxplot => self.draw_boxplot(canvas),
            PlotKind::CDF => self.draw_cdf(canvas),
            PlotKind::Histogram => self.draw_histogram(canvas),
        }
    }

    /// Whether the store can be drawn as a plot of the given kind on a canvas of
    /// `height` rows: see [`drawable`].
    pub fn can_draw(&self, height: usize, kind: PlotKind) -> (b: bool)
        requires
            self.wf(),
        ensures
            b == drawable(self@, height as int, kind),
    {
        match kind {
            PlotKind::Point => self.is_marked() && self.is_spread_out(),
            PlotKind::Boxplot => self.is_summarized(height),
            PlotKind::CDF => self.is_marked() && self.is_sized(),
            PlotKind::Histogram => self.is_marked() && self.is_sized(),
        }
    }

    /// Whether no series is too long to count.
    fn is_sized(&self) -> (b: bool)
        ensures
            b == all_sized(self@),
    {
        let mut i: usize = 0;
        while i < self.dataset.len()
            invariant
                i <= self.dataset@.len(),
                forall|k: int| 0 <= k < i ==> (#[trigger] self@[k]).points.len() <= MAX_SAMPLES,
            decreases self.dataset@.len() - i,
        {
            assert(self@[i as int] == self.dataset@[i as int]@);
            if self.dataset[i].points.len() > MAX_SAMPLES {
                return false;
            }
            i = i + 1;
        }
        true
    }

    /// Whether every series has a marker.
    fn is_marked(&self) -> (b: bool)
        ensures
            b == all_marked(self@),
    {
        let mut i: usize = 0;
        while i < self.dataset.len()
            invariant
                i <= self.dataset@.len(),
                forall|k: int| 0 <= k < i ==> has_marker((#[trigger] self@[k]).label),
            decreases self.dataset@.len() - i,
        {
            assert(self@[i as int] == self.dataset@[i as int]@);
            if self.dataset[i].label.as_str().as_bytes().len() == 0 {
                return false;
            }
            i = i + 1;
        }
        true
    }

    /// Whether the points, if there are any, span an interval along each axis.
    fn is_spread_out(&self) -> (b: bool)
        ensures
            b == spread_out(self@),
    {
        let both = self.coordinates();
        if both.0.len() == 0 {
            return true;
        }
        let x: Vec<i32> = present_values(both.0.as_slice());
        let y: Vec<i32> = present_values(both.1.as_slice());
        if x.len() == 0 || y.len() == 0 {
            return false;
        }
        let x_ends: (i32, i32) = extremes(x.as_slice());
        let y_ends: (i32, i32) = extremes(y.as_slice());
        x_ends.0 < x_ends.1 && y_ends.0 < y_ends.1
    }

    /// Whether every series has a summary and three rows for its box plot.
    fn is_summarized(&self, height: usize) -> (b: bool)
        ensures
            b == all_summarized(self@, height as int),
    {
        let mut i: usize = 0;
        while i < self.dataset.len()
            invariant
                i <= self.dataset@.len(),
                forall|k: int|
                    0 <= k < i ==> Summary::exists_of(ys((#[trigger] self@[k]).points)) && 4 * k + 3
                        <= height,
            decreases self.dataset@.len() - i,
        {
            assert(self@[i as int] == self.dataset@[i as int]@);
            if height < 3 || i > (height - 3) / 4 {
                return false;
            }
            let values: Vec<Option<i32>> = ys_of(&self.dataset[i].points);
            if Quantiles::try_from_slice(values.as_slice()).is_none() {
                return false;
            }
            i = i + 1;
        }
        true
    }

    /// The coordinates of all points, series after series: the x first, then the y.
    fn coordinates(&self) -> (both: (Vec<Option<i32>>, Vec<Option<i32>>))
        ensures
            both.0@ == all_xs(self@),
            both.1@ == all_ys(self@),
    {
        let mut x: Vec<Option<i32>> = Vec::new();
        let mut y: Vec<Option<i32>> = Vec::new();
        let mut i: usize = 0;
        assert(self@.take(0) =~= Seq::empty());
        while i < self.dataset.len()
            invariant
                i <= self.dataset@.len(),
                x@ == all_xs(self@.take(i as int)),
                y@ == all_ys(self@.take(i as int)),
            decreases self.dataset@.len() - i,
        {
            let points = &self.dataset[i].points;
            let ghost x_before = x@;
            let ghost y_before = y@;
            let mut j: usize = 0;
            while j < points.len()
                invariant
                    j <= points@.len(),
                    x@ == x_before + xs(points@).take(j as int),
                    y@ == y_before + ys(points@).take(j as int),
                decreases points@.len() - j,
            {
                x.push(points[j].0);
                y.push(points[j].1);
                assert(xs(points@).take(j + 1) =~= xs(points@).take(j as int).push(points@[j as int].0));
                assert(ys(points@).take(j + 1) =~= ys(points@).take(j as int).push(points@[j as int].1));
                j = j + 1;
            }
            proof {
                assert(xs(points@).take(points@.len() as int) =~= xs(points@));
                assert(ys(points@).take(points@.len() as int) =~= ys(points@));
                assert(self@.take(i + 1).drop_last() =~= self@.take(i as int));
                assert(self@.take(i + 1).last() == self.dataset@[i as int]@);
            }
            i = i + 1;
        }
        assert(self@.take(self.dataset@.len() as int) =~= self@);
        (x, y)
    }

    /// Sets both axis intervals of the canvas from the least and the largest
    /// coordinate of all points. A store without any point is reported as without
    /// data, and leaves the canvas as it is.
    fn reset_canvas_range(&self, canvas: &mut Canvas) -> (r: Result<(), CanvasError>)
        requires
            old(canvas).wf(),
            spread_out(self@),
        ensures
            final(canvas).wf(),
            all_xs(self@).len() == 0 ==> (r matches Err(CanvasError::NoData)) && final(canvas)@
                == old(canvas)@,
            all_xs(self@).len() > 0 ==> r is Ok && final(canvas)@ == old(canvas)@.with_x_range(
                least(present(all_xs(self@))),
                largest(present(all_xs(self@))),
            ).with_y_range(least(present(all_ys(self@))), largest(present(all_ys(self@)))),
    {
        let both = self.coordinates();
        if both.0.len() == 0 {
            return Err(CanvasError::NoData);
        }
        let x: Vec<i32> = present_values(both.0.as_slice());
        let y: Vec<i32> = present_values(both.1.as_slice());
        let x_ends: (i32, i32) = extremes(x.as_slice());
        let y_ends: (i32, i32) = extremes(y.as_slice());
        canvas.set_x_range(x_ends.0, x_ends.1);
        canvas.set_y_range(y_ends.0, y_ends.1);
        Ok(())
    }

    /// Draws every point of every series: see [`point_plot`].
    fn draw_point(&self, canvas: &mut Canvas) -> (r: Result<(), CanvasError>)
        requires
            self.wf(),
            old(canvas).wf(),
            all_marked(self@),
            spread_out(self@),
        ensures
            final(canvas).wf(),
            final(canvas)@ == point_plot(old(canvas)@, self@).plane,
            agrees(r, point_plot(old(canvas)@, self@).fault),
    {
        match self.reset_canvas_range(canvas) {
            Ok(_) => {},
            Err(e) => {
                return Err(e);
            },
        }
        match canvas.draw_axes() {
            Ok(_) => {},
            Err(e) => {
                return Err(e);
            },
        }
        let ghost framed = canvas@;
        let ghost step = dots_step(self@);
        let mut i: usize = 0;
        while i < self.dataset.len()
            invariant
                i <= self.dataset@.len(),
                canvas.wf(),
                all_marked(self@),
                step == dots_step(self@),
                framed == point_frame(old(canvas)@, self@),
                all_xs(self@).len() > 0,
                each_drawn(framed, step, i as int) == (Drawn { plane: canvas@, fault: None }),
            decreases self.dataset@.len() - i,
        {
            assert(self@[i as int] == self.dataset@[i as int]@);
            let ghost now = canvas@;
            assert(each_drawn(framed, step, i + 1) == step(now, i as int));
            let marker: u8 = first_byte(&self.dataset[i].label);
            match draw_dots(canvas, &self.dataset[i].points, marker) {
                Ok(_) => {},
                Err(e) => {
                    proof {
                        lemma_each_drawn_stops(framed, step, i + 1, self@.len() as int);
                    }
                    return Err(e);
                },
            }
            i = i + 1;
        }
        Ok(())
    }

    /// Draws the box plot of every series: see [`box_plot`].
    fn draw_boxplot(&self, canvas: &mut Canvas) -> (r: Result<(), CanvasError>)
        requires
            self.wf(),
            old(canvas).wf(),
            all_summarized(self@, old(canvas)@.height),
        ensures
            final(canvas).wf(),
            final(canvas)@ == box_plot(old(canvas)@, self@).plane,
            agrees(r, box_plot(old(canvas)@, self@).fault),
    {
        let ghost start = canvas@;
        let ghost step = box_step(self@);
        let mut height: usize = 0;
        let mut i: usize = 0;
        while i < self.dataset.len()
            invariant
                i <= self.dataset@.len(),
                height == 4 * i,
                canvas.wf(),
                canvas@.height == start.height,
                start == old(canvas)@,
                all_summarized(self@, start.height),
                step == box_step(self@),
                each_drawn(start, step, i as int) == (Drawn { plane: canvas@, fault: None }),
            decreases self.dataset@.len() - i,
        {
            assert(self@[i as int] == self.dataset@[i as int]@);
            let ghost now = canvas@;
            assert(each_drawn(start, step, i + 1) == step(now, i as int));
            let values: Vec<Option<i32>> = ys_of(&self.dataset[i].points);
            let q: Quantiles = Quantiles::from_slice(values.as_slice());
            proof {
                lemma_summary_drawn_frame(q@, now, height as int);
            }
            match q.draw_into(canvas, height) {
                Ok(_) => {},
                Err(e) => {
                    proof {
                        lemma_each_drawn_stops(start, step, i + 1, self@.len() as int);
                    }
                    return Err(e);
                },
            }
            height = height + 4;
            i = i + 1;
        }
        Ok(())
    }

    /// Draws the distribution of every series: see [`cdf_plot`].
    fn draw_cdf(&self, canvas: &mut Canvas) -> (r: Result<(), CanvasError>)
        requires
            self.wf(),
            old(canvas).wf(),
            all_marked(self@),
            all_sized(self@),
        ensures
            final(canvas).wf(),
            final(canvas)@ == cdf_plot(old(canvas)@, self@).plane,
            agrees(r, cdf_plot(old(canvas)@, self@).fault),
    {
        canvas.set_y_bounds(Ratio { num: -1, den: 10 }, Ratio { num: 11, den: 10 });
        match canvas.draw_axes() {
            Ok(_) => {},
            Err(e) => {
                return Err(e);
            },
        }
        let ghost framed = canvas@;
        let ghost step = stairs_step(self@);
        let mut i: usize = 0;
        while i < self.dataset.len()
            invariant
                i <= self.dataset@.len(),
                self.wf(),
                canvas.wf(),
                all_marked(self@),
                all_sized(self@),
                step == stairs_step(self@),
                framed == cdf_frame(old(canvas)@),
                each_drawn(framed, step, i as int) == (Drawn { plane: canvas@, fault: None }),
            decreases self.dataset@.len() - i,
        {
            assert(self@[i as int] == self.dataset@[i as int]@);
            let ghost now = canvas@;
            assert(each_drawn(framed, step, i + 1) == step(now, i as int));
            let marker: u8 = first_byte(&self.dataset[i].label);
            let cdf: CDF = CDF::from_vec(ys_of(&self.dataset[i].points));
            match cdf.draw_into(canvas, marker) {
                Ok(_) => {},
                Err(e) => {
                    proof {
                        lemma_each_drawn_stops(framed, step, i + 1, self@.len() as int);
                    }
                    return Err(e);
                },
            }
            i = i + 1;
        }
        Ok(())
    }

    /// Draws the histogram of every series: see [`histogram_plot`].
    fn draw_histogram(&self, canvas: &mut Canvas) -> (r: Result<(), CanvasError>)
        requires
            self.wf(),
            old(canvas).wf(),
            all_marked(self@),
            all_sized(self@),
        ensures
            final(canvas).wf(),
            final(canvas)@ == histogram_plot(old(canvas)@, self@).plane,
            agrees(r, histogram_plot(old(canvas)@, self@).fault),
    {
        let mut hists: Vec<Histogram> = Vec::new();
        let mut span: Option<(Ratio, Ratio)> = None;
        let mut most: usize = 0;
        let mut i: usize = 0;
        while i < self.dataset.len()
            invariant
                i <= self.dataset@.len(),
                self.wf(),
                all_sized(self@),
                hists@.len() == i,
                forall|k: int|
                    0 <= k < i ==> (#[trigger] hists@[k]).wf() && hists@[k]@ == Tally::of(
                        ys(self@[k].points),
                    ),
                most == peak_joined(self@, i as int),
                most <= MAX_SAMPLES,
                same_span(span, spans_joined(self@, i as int)),
            decreases self.dataset@.len() - i,
        {
            assert(self@[i as int] == self.dataset@[i as int]@);
            let hist: Histogram = Histogram::from_vec(ys_of(&self.dataset[i].points));
            let top: usize = hist.peak();
            if top > most {
                most = top;
            }
            match hist.span() {
                None => {},
                Some(ends) => {
                    span = match span {
                        None => Some(ends),
                        Some(so_far) => Some(
                            (
                                if ends.0.lt(so_far.0) {
                                    ends.0
                                } else {
                                    so_far.0
                                },
                                if so_far.1.lt(ends.1) {
                                    ends.1
                                } else {
                                    so_far.1
                                },
                            ),
                        ),
                    };
                },
            }
            hists.push(hist);
            i = i + 1;
        }
        let ends: (Ratio, Ratio) = match span {
            None => {
                return Err(CanvasError::NoData);
            },
            Some(ends) => ends,
        };
        canvas.set_x_bounds(ends.0, ends.1);
        canvas.set_y_bounds(Ratio { num: -(most as i64), den: 20 }, Ratio { num: most as i64, den: 1 });
        let ghost framed = canvas@;
        let ghost step = bars_step(self@);
        let mut i: usize = 0;
        while i < self.dataset.len()
            invariant
                i <= self.dataset@.len(),
                canvas.wf(),
                all_marked(self@),
                hists@.len() == self.dataset@.len(),
                forall|k: int|
                    0 <= k < hists@.len() ==> (#[trigger] hists@[k]).wf() && hists@[k]@ == Tally::of(
                        ys(self@[k].points),
                    ),
                step == bars_step(self@),
                spans_joined(self@, self@.len() as int) == Some((ends.0@, ends.1@)),
                framed == histogram_frame(
                    old(canvas)@,
                    ends.0@,
                    ends.1@,
                    peak_joined(self@, self@.len() as int),
                ),
                each_drawn(framed, step, i as int) == (Drawn { plane: canvas@, fault: None }),
            decreases self.dataset@.len() - i,
        {
            assert(self@[i as int] == self.dataset@[i as int]@);
            let ghost now = canvas@;
            assert(each_drawn(framed, step, i + 1) == step(now, i as int));
            let marker: u8 = first_byte(&self.dataset[i].label);
            match hists[i].draw_into(canvas, marker) {
                Ok(_) => {},
                Err(e) => {
                    proof {
                        lemma_each_drawn_stops(framed, step, i + 1, self@.len() as int);
                    }
                    return Err(e);
                },
            }
            i = i + 1;
        }
        Ok(())
    }
}

/// The interval, if there is one, is the same on both sides.
pub open spec fn same_span(found: Option<(Ratio, Ratio)>, span: Option<(Frac, Frac)>) -> bool {
    match found {
        Some(ends) => span == Some((ends.0@, ends.1@)) && bound_fits(ends.0@)
            && bound_fits(ends.1@),
        None => span is None,
    }
}

/// The first byte of the label.
fn first_byte(label: &String) -> (marker: u8)
    requires
        has_marker(label@),
    ensures
        marker == marker_of(label@),
{
    let bytes: &[u8] = label.as_str().as_bytes();
    bytes[0]
}

/// The y-coordinates of the points, in their order.
fn ys_of(points: &Vec<(Option<i32>, Option<i32>)>) -> (values: Vec<Option<i32>>)
    ensures
        values@ == ys(points@),
{
    let mut values: Vec<Option<i32>> = Vec::new();
    let mut j: usize = 0;
    while j < points.len()
        invariant
            j <= points@.len(),
            values@ == ys(points@).take(j as int),
        decreases points@.len() - j,
    {
        values.push(points[j].1);
        assert(ys(points@).take(j + 1) =~= ys(points@).take(j as int).push(points@[j as int].1));
        j = j + 1;
    }
    assert(ys(points@).take(points@.len() as int) =~= ys(points@));
    values
}

/// Draws each of the points in turn with `marker`; a point of which a coordinate is
/// missing is passed over.
fn draw_dots(canvas: &mut Canvas, points: &Vec<(Option<i32>, Option<i32>)>, marker: u8) -> (r:
    Result<(), CanvasError>)
    requires
        old(canvas).wf(),
    ensures
        final(canvas).wf(),
        final(canvas)@ == each_drawn(
            old(canvas)@,
            dot_step(points@, marker),
            points@.len() as int,
        ).plane,
        agrees(r, each_drawn(old(canvas)@, dot_step(points@, marker), points@.len() as int).fault),
{
    let ghost start = canvas@;
    let ghost step = dot_step(points@, marker);
    let mut j: usize = 0;
    while j < points.len()
        invariant
            j <= points@.len(),
            canvas.wf(),
            start == old(canvas)@,
            step == dot_step(points@, marker),
            each_drawn(start, step, j as int) == (Drawn { plane: canvas@, fault: None }),
        decreases points@.len() - j,
    {
        let ghost now = canvas@;
        assert(each_drawn(start, step, j + 1) == step(now, j as int));
        match points[j] {
            (Some(x), Some(y)) => {
                match canvas.draw_value(Ratio::whole(x as i64), Ratio::whole(y as i64), marker) {
                    Ok(_) => {},
                    Err(e) => {
                        proof {
                            lemma_each_drawn_stops(start, step, j + 1, points@.len() as int);
                        }
                        return Err(e);
                    },
                }
            },
            _ => {},
        }
        j = j + 1;
    }
    Ok(())
}

/// The position of a label is the first index that holds it: no series before it
/// has the label, and the series there has it unless the position is past the end.
pub proof fn lemma_position(store: Seq<Line>, label: Seq<char>, from: int)
    requires
        0 <= from,
    ensures
        from <= position(store, label, from) || store.len() < from,
        position(store, label, from) <= store.len() || store.len() < from,
        position(store, label, from) < store.len() ==> store[position(store, label, from)].label
            == label,
        forall|j: int|
            from <= j < position(store, label, from) && j < store.len() ==> (#[trigger] store[j]).label
                != label,
    decreases store.len() - from,
{
    if from < store.len() && store[from].label != label {
        lemma_position(store, label, from + 1);
    }
}

} // verus!
