//! Quartiles, whiskers and outliers of a sample, and the box plot that shows them.

use vstd::prelude::*;
use crate::canvas::BAR;
use crate::canvas::Canvas;
use crate::canvas::DASH;
use crate::canvas::Drawn;
use crate::canvas::PLUS;
use crate::canvas::Plane;
use crate::canvas::each_drawn;
use crate::canvas::keeps_frame;
use crate::canvas::lemma_each_drawn_frame;
use crate::canvas::same_frame;
use crate::canvas::lemma_each_drawn_stops;
use crate::error::CanvasError;
use crate::error::Fault;
use crate::error::agrees;
use crate::ratio::Frac;
use crate::ratio::Ratio;
use crate::samples::ascending;
use crate::samples::in_order;
use crate::samples::lemma_in_order;
use crate::samples::present;
use crate::samples::present_values;
use crate::samples::sorted_values;

verus! {

/// The value at the index `idx`, which need not be whole, of `values`: between two
/// neighbours, their mean weighted towards the nearer one; at a whole index, the
/// value there. There is none where `idx` is negative or `idx + 1` exceeds the number
/// of values. The result has the denominator of `idx`.
pub open spec fn interpolate(values: Seq<i32>, idx: Frac) -> Option<Frac> {
    if idx.num < 0 || idx.num + idx.den > values.len() * idx.den {
        None
    } else {
        let i = idx.num / idx.den;
        let r = idx.num % idx.den;
        if r == 0 {
            Some(Frac { num: idx.den * values[i], den: idx.den })
        } else {
            Some(Frac { num: (idx.den - r) * values[i] + r * values[i + 1], den: idx.den })
        }
    }
}

/// The `k`-th quartile of values in ascending order: the value at the index
/// `k / 4` times their number, or the last value where there is none at that index.
pub open spec fn quartile(sorted: Seq<i32>, k: int) -> Frac {
    match interpolate(sorted, Frac { num: k * sorted.len(), den: 4 }) {
        Some(q) => q,
        None => Frac { num: 4 * sorted.last(), den: 4 },
    }
}

/// Eight times the lower fence, `q2 - 1.5 * (q3 - q1)`, of quartiles over 4.
pub open spec fn lower_fence(q1: Frac, q2: Frac, q3: Frac) -> int {
    2 * q2.num - 3 * (q3.num - q1.num)
}

/// Eight times the upper fence, `q2 + 1.5 * (q3 - q1)`, of quartiles over 4.
pub open spec fn upper_fence(q1: Frac, q2: Frac, q3: Frac) -> int {
    2 * q2.num + 3 * (q3.num - q1.num)
}

/// The index, from `from` on, of the first value strictly above the fence; the number
/// of values if there is none.
pub open spec fn first_above(sorted: Seq<i32>, fence: int, from: int) -> int
    decreases sorted.len() - from,
{
    if from >= sorted.len() {
        sorted.len() as int
    } else if 8 * sorted[from] > fence {
        from
    } else {
        first_above(sorted, fence, from + 1)
    }
}

/// The index, before `upto`, of the last value strictly below the fence; `-1` if
/// there is none.
pub open spec fn last_below(sorted: Seq<i32>, fence: int, upto: int) -> int
    decreases upto,
{
    if upto <= 0 {
        -1
    } else if 8 * sorted[upto - 1] < fence {
        upto - 1
    } else {
        last_below(sorted, fence, upto - 1)
    }
}

/// The values strictly below the lower fence or strictly above the upper one, in
/// their order.
pub open spec fn outside(sorted: Seq<i32>, lower: int, upper: int) -> Seq<i32>
    decreases sorted.len(),
{
    if sorted.len() == 0 {
        Seq::empty()
    } else if 8 * sorted.last() < lower || 8 * sorted.last() > upper {
        outside(sorted.drop_last(), lower, upper).push(sorted.last())
    } else {
        outside(sorted.drop_last(), lower, upper)
    }
}

/// The five-number summary of a sample, and its outliers, as contracts see them.
pub struct Summary {
    pub min: Frac,
    pub q1: Frac,
    pub q2: Frac,
    pub q3: Frac,
    pub max: Frac,
    pub outliers: Seq<i32>,
}

impl Summary {
    /// Whether the samples have a summary: one of them at least is there, one lies
    /// strictly above the lower fence, and one strictly below the upper fence.
    pub open spec fn exists_of(samples: Seq<Option<i32>>) -> bool {
        let sorted = in_order(present(samples));
        let q1 = quartile(sorted, 1);
        let q2 = quartile(sorted, 2);
        let q3 = quartile(sorted, 3);
        &&& sorted.len() > 0
        &&& first_above(sorted, lower_fence(q1, q2, q3), 0) < sorted.len()
        &&& last_below(sorted, upper_fence(q1, q2, q3), sorted.len() as int) >= 0
    }

    /// The summary of the samples that are there: the three quartiles; as `min`
    /// the least sample strictly above the lower fence and as `max` the largest
    /// strictly below the upper fence; and the samples outside the fences, in
    /// ascending order.
    pub open spec fn of(samples: Seq<Option<i32>>) -> Summary {
        let sorted = in_order(present(samples));
        let q1 = quartile(sorted, 1);
        let q2 = quartile(sorted, 2);
        let q3 = quartile(sorted, 3);
        let lower = lower_fence(q1, q2, q3);
        let upper = upper_fence(q1, q2, q3);
        Summary {
            min: Frac::whole(sorted[first_above(sorted, lower, 0)] as int),
            q1,
            q2,
            q3,
            max: Frac::whole(sorted[last_below(sorted, upper, sorted.len() as int)] as int),
            outliers: outside(sorted, lower, upper),
        }
    }

    /// The columns of the first quartile, the median, the third quartile, `min` and
    /// `max`, looked up in this order; the first that the x-axis does not hold is the
    /// fault.
    pub open spec fn columns(self, plane: Plane) -> Result<(int, int, int, int, int), Fault> {
        match plane.column_of(self.q1) {
            Err(fault) => Err(fault),
            Ok(q1) => match plane.column_of(self.q2) {
                Err(fault) => Err(fault),
                Ok(q2) => match plane.column_of(self.q3) {
                    Err(fault) => Err(fault),
                    Ok(q3) => match plane.column_of(self.min) {
                        Err(fault) => Err(fault),
                        Ok(min) => match plane.column_of(self.max) {
                            Err(fault) => Err(fault),
                            Ok(max) => Ok((q1, q2, q3, min, max)),
                        },
                    },
                },
            },
        }
    }

    /// The box plot drawn on the three rows from `offset` on. On the middle row:
    /// dashes from `min` to the first quartile and from the third quartile to `max`,
    /// then a `+` for each outlier, the first that the x-axis does not hold being a
    /// fault that ends the drawing. Then dashes on the rows above and below, from the
    /// first quartile to the third; and last, on the middle row, a bar at `min`, at
    /// each quartile and at `max`.
    pub open spec fn drawn(self, plane: Plane, offset: int) -> Drawn {
        match self.columns(plane) {
            Err(fault) => Drawn { plane, fault: Some(fault) },
            Ok((q1, q2, q3, min, max)) => {
                let low = filled(plane, offset + 1, min + 1, q1, DASH);
                let high = filled(low, offset + 1, q3 + 1, max, DASH);
                let marked = each_drawn(
                    high,
                    outlier_step(offset + 1, self.outliers),
                    self.outliers.len() as int,
                );
                if marked.fault is Some {
                    marked
                } else {
                    let top = filled(marked.plane, offset, q1, q3, DASH);
                    let boxed = filled(top, offset + 2, q1, q3, DASH);
                    let line = offset + 1;
                    boxed.put(line, min, BAR).plane.put(line, q1, BAR).plane.put(line, q2, BAR).plane.put(
                        line,
                        q3,
                        BAR,
                    ).plane.put(line, max, BAR)
                }
            },
        }
    }
}

/// The canvas with `value` in the cells of the row `line` from the column `from` up
/// to, not including, the column `to`.
pub open spec fn filled(plane: Plane, line: int, from: int, to: int, value: u8) -> Plane {
    Plane {
        cells: Seq::new(
            plane.height as nat,
            |i: int|
                Seq::new(
                    plane.width as nat,
                    |j: int|
                        if i == line && from <= j < to {
                            value
                        } else {
                            plane.cells[i][j]
                        },
                ),
        ),
        ..plane
    }
}

/// What marking one outlier makes of a canvas: a `+` on the row `line`, in the column
/// of the `i`-th outlier; an outlier that the x-axis does not hold is a fault.
pub open spec fn outlier_step(line: int, outliers: Seq<i32>) -> spec_fn(Plane, int) -> Drawn {
    |plane: Plane, i: int|
        match plane.column_of(Frac::whole(outliers[i] as int)) {
            Err(fault) => Drawn { plane, fault: Some(fault) },
            Ok(column) => plane.put(line, column, PLUS),
        }
}

/// What the lower whisker is: the first value strictly above the fence is the least
/// of all values strictly above it, and there is none exactly where no value lies
/// strictly above the fence.
pub proof fn lemma_first_above(sorted: Seq<i32>, fence: int, from: int)
    requires
        ascending(sorted),
        0 <= from <= sorted.len(),
    ensures
        from <= first_above(sorted, fence, from) <= sorted.len(),
        first_above(sorted, fence, from) < sorted.len() ==> 8 * sorted[first_above(
            sorted,
            fence,
            from,
        )] > fence,
        forall|i: int|
            from <= i < sorted.len() && 8 * sorted[i] > fence ==> first_above(sorted, fence, from)
                <= i && sorted[first_above(sorted, fence, from)] <= #[trigger] sorted[i],
    decreases sorted.len() - from,
{
    if from < sorted.len() && 8 * sorted[from] <= fence {
        lemma_first_above(sorted, fence, from + 1);
    }
}

/// What the upper whisker is: the last value strictly below the fence is the
/// largest of all values strictly below it, and there is none exactly where no value
/// lies strictly below the fence.
pub proof fn lemma_last_below(sorted: Seq<i32>, fence: int, upto: int)
    requires
        ascending(sorted),
        0 <= upto <= sorted.len(),
    ensures
        -1 <= last_below(sorted, fence, upto) < upto,
        last_below(sorted, fence, upto) >= 0 ==> 8 * sorted[last_below(sorted, fence, upto)]
            < fence,
        forall|i: int|
            0 <= i < upto && 8 * sorted[i] < fence ==> i <= last_below(sorted, fence, upto)
                && #[trigger] sorted[i] <= sorted[last_below(sorted, fence, upto)],
    decreases upto,
{
    if upto > 0 && 8 * sorted[upto - 1] >= fence {
        lemma_last_below(sorted, fence, upto - 1);
    }
}

/// What the outliers are: the values strictly below the lower fence or strictly
/// above the upper one, and no others.
pub proof fn lemma_outside(sorted: Seq<i32>, lower: int, upper: int)
    ensures
        forall|v: i32|
            #![trigger outside(sorted, lower, upper).contains(v)]
            #![trigger sorted.contains(v)]
            outside(sorted, lower, upper).contains(v) <==> sorted.contains(v) && (8 * v < lower || 8
                * v > upper),
        outside(sorted, lower, upper).len() <= sorted.len(),
    decreases sorted.len(),
{
    let kept = outside(sorted, lower, upper);
    if sorted.len() > 0 {
        let front = sorted.drop_last();
        let last = sorted.last();
        lemma_outside(front, lower, upper);
        let before = outside(front, lower, upper);
        assert forall|v: i32|
            #![trigger kept.contains(v)]
            #![trigger sorted.contains(v)]
            kept.contains(v) <==> sorted.contains(v) && (8 * v < lower || 8 * v > upper) by {
            if kept.contains(v) {
                let i = choose|i: int| 0 <= i < kept.len() && kept[i] == v;
                if i < before.len() {
                    assert(before[i] == v);
                    assert(before.contains(v));
                    assert(front.contains(v) && (8 * v < lower || 8 * v > upper));
                    let j = choose|j: int| 0 <= j < front.len() && front[j] == v;
                    assert(sorted[j] == v);
                } else {
                    assert(v == last);
                    assert(sorted[sorted.len() - 1] == v);
                }
            }
            if sorted.contains(v) && (8 * v < lower || 8 * v > upper) {
                let j = choose|j: int| 0 <= j < sorted.len() && sorted[j] == v;
                if j < front.len() {
                    assert(front[j] == v);
                    assert(front.contains(v));
                    assert(before.contains(v));
                    let i = choose|i: int| 0 <= i < before.len() && before[i] == v;
                    assert(kept[i] == v);
                } else {
                    assert(kept[kept.len() - 1] == v);
                }
            }
        }
    }
}

/// Drawing a box plot changes neither the size of the canvas nor its axes.
pub proof fn lemma_summary_drawn_frame(summary: Summary, plane: Plane, offset: int)
    ensures
        same_frame(summary.drawn(plane, offset).plane, plane),
{
    match summary.columns(plane) {
        Err(_) => {},
        Ok((q1, q2, q3, min, max)) => {
            let low = filled(plane, offset + 1, min + 1, q1, DASH);
            let high = filled(low, offset + 1, q3 + 1, max, DASH);
            let step = outlier_step(offset + 1, summary.outliers);
            assert(keeps_frame(step)) by {
                assert forall|p: Plane, i: int| same_frame(#[trigger] step(p, i).plane, p) by {}
            }
            lemma_each_drawn_frame(high, step, summary.outliers.len() as int);
        },
    }
}

/// The five-number summary of a sample, and its outliers.
#[derive(Debug, Clone, PartialEq)]
pub struct Quantiles {
    /// The least sample strictly above the lower fence.
    pub min: Ratio,
    /// The first quartile.
    pub q1: Ratio,
    /// The median.
    pub q2: Ratio,
    /// The third quartile.
    pub q3: Ratio,
    /// The largest sample strictly below the upper fence.
    pub max: Ratio,
    /// The samples outside the fences, in ascending order.
    pub outliers: Vec<i32>,
}

impl View for Quantiles {
    type V = Summary;

    open spec fn view(&self) -> Summary {
        Summary {
            min: self.min@,
            q1: self.q1@,
            q2: self.q2@,
            q3: self.q3@,
            max: self.max@,
            outliers: self.outliers@,
        }
    }
}

impl Default for Quantiles {
    /// The summary whose five numbers are zero, without outliers.
    fn default() -> (q: Quantiles)
        ensures
            q.wf(),
            q@ == (Summary {
                min: Frac::whole(0),
                q1: Frac::whole(0),
                q2: Frac::whole(0),
                q3: Frac::whole(0),
                max: Frac::whole(0),
                outliers: Seq::empty(),
            }),
    {
        Quantiles {
            min: Ratio::whole(0),
            q1: Ratio::whole(0),
            q2: Ratio::whole(0),
            q3: Ratio::whole(0),
            max: Ratio::whole(0),
            outliers: Vec::new(),
        }
    }
}

impl Quantiles {
    /// Each of the five numbers has a positive denominator.
    pub open spec fn wf(&self) -> bool {
        &&& self.min.wf()
        &&& self.q1.wf()
        &&& self.q2.wf()
        &&& self.q3.wf()
        &&& self.max.wf()
    }

    /// The summary of the samples that are there. The samples must have one: see
    /// [`Summary::exists_of`].
    pub fn from_slice(input: &[Option<i32>]) -> (q: Quantiles)
        requires
            Summary::exists_of(input@),
        ensures
            q.wf(),
            q@ == Summary::of(input@),
    {
        match Quantiles::try_from_slice(input) {
            Some(q) => q,
            None => Quantiles::default(),
        }
    }

    /// The summary of the samples that are there, if they have one.
    pub fn try_from_slice(input: &[Option<i32>]) -> (found: Option<Quantiles>)
        ensures
            found is Some <==> Summary::exists_of(input@),
            found matches Some(q) ==> q.wf() && q@ == Summary::of(input@),
    {
        let values: Vec<i32> = present_values(input);
        if values.len() == 0 {
            proof {
                lemma_in_order(present(input@));
            }
            return None;
        }
        let sorted: Vec<i32> = sorted_values(values);
        proof {
            lemma_in_order(present(input@));
        }
        let q1: Ratio = quartile_of(sorted.as_slice(), 1);
        let q2: Ratio = quartile_of(sorted.as_slice(), 2);
        let q3: Ratio = quartile_of(sorted.as_slice(), 3);
        let spread: i64 = 3 * (q3.num - q1.num);
        let lower: i64 = 2 * q2.num - spread;
        let upper: i64 = 2 * q2.num + spread;
        let low: usize = first_inside(sorted.as_slice(), lower);
        if low == sorted.len() {
            return None;
        }
        let high: usize = last_inside(sorted.as_slice(), upper);
        if high == 0 {
            return None;
        }
        let outliers: Vec<i32> = outliers_of(sorted.as_slice(), lower, upper);
        Some(
            Quantiles {
                min: Ratio::whole(sorted[low] as i64),
                q1,
                q2,
                q3,
                max: Ratio::whole(sorted[high - 1] as i64),
                outliers,
            },
        )
    }

    /// Draws the summary as a horizontal box plot on the three rows from `height`
    /// on: see [`Summary::drawn`]. The x-axis of the canvas must have been set
    /// before; a number that it does not hold is reported as out of range.
    #[verifier::loop_isolation(false)]
    pub fn draw_into(&self, canvas: &mut Canvas, height: usize) -> (r: Result<(), CanvasError>)
        requires
            self.wf(),
            old(canvas).wf(),
            height + 3 <= old(canvas)@.height,
        ensures
            final(canvas).wf(),
            final(canvas)@ == self@.drawn(old(canvas)@, height as int).plane,
            agrees(r, self@.drawn(old(canvas)@, height as int).fault),
    {
        let ghost start = canvas@;
        let q1: usize = match canvas.column_of(self.q1) {
            Ok(column) => column,
            Err(e) => {
                return Err(e);
            },
        };
        let q2: usize = match canvas.column_of(self.q2) {
            Ok(column) => column,
            Err(e) => {
                return Err(e);
            },
        };
        let q3: usize = match canvas.column_of(self.q3) {
            Ok(column) => column,
            Err(e) => {
                return Err(e);
            },
        };
        let min: usize = match canvas.column_of(self.min) {
            Ok(column) => column,
            Err(e) => {
                return Err(e);
            },
        };
        let max: usize = match canvas.column_of(self.max) {
            Ok(column) => column,
            Err(e) => {
                return Err(e);
            },
        };
        assert(self@.columns(start) == Ok::<(int, int, int, int, int), Fault>(
            (q1 as int, q2 as int, q3 as int, min as int, max as int),
        ));
        let line: usize = height + 1;
        fill_row(canvas, line, min + 1, q1, DASH);
        fill_row(canvas, line, q3 + 1, max, DASH);
        let ghost high = canvas@;
        let mut k: usize = 0;
        while k < self.outliers.len()
            invariant
                k <= self.outliers.len(),
                canvas.wf(),
                canvas@.height == start.height,
                canvas@.width == start.width,
                canvas@.x_range == start.x_range,
                each_drawn(high, outlier_step(line as int, self.outliers@), k as int) == (Drawn {
                    plane: canvas@,
                    fault: None,
                }),
            decreases self.outliers.len() - k,
        {
            let ghost now = canvas@;
            assert(each_drawn(high, outlier_step(line as int, self.outliers@), k + 1)
                == outlier_step(line as int, self.outliers@)(now, k as int));
            let column: usize = match canvas.column_of(Ratio::whole(self.outliers[k] as i64)) {
                Ok(column) => column,
                Err(e) => {
                    proof {
                        lemma_each_drawn_stops(
                            high,
                            outlier_step(line as int, self.outliers@),
                            k + 1,
                            self.outliers@.len() as int,
                        );
                    }
                    return Err(e);
                },
            };
            match canvas.set_cell(line, column, PLUS) {
                Ok(_) => {},
                Err(e) => {
                    return Err(e);
                },
            }
            k = k + 1;
        }
        fill_row(canvas, height, q1, q3, DASH);
        fill_row(canvas, height + 2, q1, q3, DASH);
        match canvas.set_cell(line, min, BAR) {
            Ok(_) => {},
            Err(e) => {
                return Err(e);
            },
        }
        match canvas.set_cell(line, q1, BAR) {
            Ok(_) => {},
            Err(e) => {
                return Err(e);
            },
        }
        match canvas.set_cell(line, q2, BAR) {
            Ok(_) => {},
            Err(e) => {
                return Err(e);
            },
        }
        match canvas.set_cell(line, q3, BAR) {
            Ok(_) => {},
            Err(e) => {
                return Err(e);
            },
        }
        canvas.set_cell(line, max, BAR)
    }
}

/// The index of the first of `sorted` that lies strictly above the fence, of which
/// `fence` is eight times; the number of values if none does.
fn first_inside(sorted: &[i32], fence: i64) -> (low: usize)
    ensures
        low == first_above(sorted@, fence as int, 0),
        low <= sorted@.len(),
{
    let count: usize = sorted.len();
    let mut low: usize = 0;
    while low < count && 8 * (sorted[low] as i64) <= fence
        invariant
            low <= count,
            count == sorted@.len(),
            first_above(sorted@, fence as int, 0) == first_above(sorted@, fence as int, low as int),
        decreases count - low,
    {
        low = low + 1;
    }
    low
}

/// One more than the index of the last of `sorted` that lies strictly below the
/// fence, of which `fence` is eight times; zero if none does.
fn last_inside(sorted: &[i32], fence: i64) -> (high: usize)
    ensures
        high == last_below(sorted@, fence as int, sorted@.len() as int) + 1,
        high <= sorted@.len(),
{
    let count: usize = sorted.len();
    let mut high: usize = count;
    while high > 0 && 8 * (sorted[high - 1] as i64) >= fence
        invariant
            high <= count,
            count == sorted@.len(),
            last_below(sorted@, fence as int, count as int) == last_below(
                sorted@,
                fence as int,
                high as int,
            ),
        decreases high,
    {
        high = high - 1;
    }
    high
}

/// The values of `sorted` outside the fences, of which `lower` and `upper` are eight
/// times, in their order.
fn outliers_of(sorted: &[i32], lower: i64, upper: i64) -> (outliers: Vec<i32>)
    ensures
        outliers@ == outside(sorted@, lower as int, upper as int),
{
    let count: usize = sorted.len();
    let mut outliers: Vec<i32> = Vec::new();
    let mut i: usize = 0;
    assert(sorted@.take(0) =~= Seq::empty());
    while i < count
        invariant
            i <= count,
            count == sorted@.len(),
            outliers@ == outside(sorted@.take(i as int), lower as int, upper as int),
        decreases count - i,
    {
        assert(sorted@.take(i + 1).drop_last() =~= sorted@.take(i as int));
        let v: i64 = sorted[i] as i64;
        if 8 * v < lower || 8 * v > upper {
            outliers.push(sorted[i]);
        }
        i = i + 1;
    }
    assert(sorted@.take(count as int) =~= sorted@);
    outliers
}

/// Writes `value` to the cells of the row `line` from the column `from` up to, not
/// including, the column `to`.
fn fill_row(canvas: &mut Canvas, line: usize, from: usize, to: usize, value: u8)
    requires
        old(canvas).wf(),
        line < old(canvas)@.height,
        to <= old(canvas)@.width,
    ensures
        final(canvas).wf(),
        final(canvas)@ == filled(old(canvas)@, line as int, from as int, to as int, value),
{
    let ghost start = canvas@;
    let mut x: usize = from;
    assert(canvas@.cells =~~= filled(start, line as int, from as int, from as int, value).cells);
    if from >= to {
        assert(canvas@.cells =~~= filled(start, line as int, from as int, to as int, value).cells);
        return ;
    }
    while x < to
        invariant
            from <= x <= to,
            start.wf(),
            canvas.wf(),
            line < start.height,
            to <= start.width,
            canvas@ == filled(start, line as int, from as int, x as int, value),
        decreases to - x,
    {
        let _ = canvas.set_cell(line, x, value);
        assert(canvas@.cells =~~= filled(start, line as int, from as int, x + 1, value).cells);
        x = x + 1;
    }
}

/// The value at the index `idx`, which need not be whole, of `x`: see
/// [`interpolate`].
pub fn get_value(x: &[i32], idx: Ratio) -> (value: Option<Ratio>)
    requires
        idx.wf(),
    ensures
        match value {
            Some(v) => interpolate(x@, idx@) == Some(v@) && v.wf(),
            None => interpolate(x@, idx@) is None,
        },
{
    if idx.num < 0 {
        return None;
    }
    let den: u128 = idx.den as u128;
    let num: u128 = idx.num as u128;
    let count: u128 = x.len() as u128;
    assert(count * den <= 0xffff_ffff_ffff_ffff * 0xffff_ffff) by (nonlinear_arith)
        requires
            0 <= count <= 0xffff_ffff_ffff_ffff,
            0 <= den <= 0xffff_ffff,
    ;
    if num + den > count * den {
        return None;
    }
    let i: u128 = num / den;
    let r: u128 = num % den;
    proof {
        lemma_index_inside(num as int, den as int, x@.len() as int);
    }
    let here: i32 = x[i as usize];
    let there: i32 = if r == 0 {
        here
    } else {
        x[(i + 1) as usize]
    };
    Some(Ratio { num: blend(here, there, r as u32, idx.den), den: idx.den })
}

/// The `k`-th quartile of values in ascending order: see [`quartile`].
pub fn quartile_of(sorted: &[i32], k: u8) -> (q: Ratio)
    requires
        sorted@.len() > 0,
        1 <= k <= 3,
    ensures
        q@ == quartile(sorted@, k as int),
        q.den == 4,
        -0x2_0000_0000 <= q.num <= 0x2_0000_0000,
{
    let count: u128 = sorted.len() as u128;
    assert(k * count <= 3 * count) by (nonlinear_arith)
        requires
            0 <= k <= 3,
            0 <= count,
    ;
    let num: u128 = (k as u128) * count;
    if num + 4 > count * 4 {
        return Ratio { num: 4 * (sorted[sorted.len() - 1] as i64), den: 4 };
    }
    let i: u128 = num / 4;
    let r: u128 = num % 4;
    proof {
        lemma_index_inside(num as int, 4, count as int);
    }
    let here: i32 = sorted[i as usize];
    let there: i32 = if r == 0 {
        here
    } else {
        sorted[(i + 1) as usize]
    };
    Ratio { num: blend(here, there, r as u32, 4), den: 4 }
}

/// The weighted sum `(den - r) * here + r * there`.
fn blend(here: i32, there: i32, r: u32, den: u32) -> (sum: i64)
    requires
        r < den,
    ensures
        sum == (den - r) * here + r * there,
        -0x8000_0000 * den <= sum <= 0x8000_0000 * den,
{
    let left: i64 = (den - r) as i64;
    let right: i64 = r as i64;
    assert(-0x8000_0000 * left <= left * here <= 0x7fff_ffff * left) by (nonlinear_arith)
        requires
            0 <= left,
            -0x8000_0000 <= here <= 0x7fff_ffff,
    ;
    assert(-0x8000_0000 * right <= right * there <= 0x7fff_ffff * right) by (nonlinear_arith)
        requires
            0 <= right,
            -0x8000_0000 <= there <= 0x7fff_ffff,
    ;
    left * (here as i64) + right * (there as i64)
}

/// An index `num / den` with `num + den <= count * den` lies inside `count` values,
/// and so does the next one unless the index is whole.
proof fn lemma_index_inside(num: int, den: int, count: int)
    requires
        0 <= num,
        0 < den,
        num + den <= count * den,
    ensures
        0 <= num / den < count,
        0 <= num % den < den,
        num % den != 0 ==> num / den + 1 < count,
{
    let i = num / den;
    let r = num % den;
    vstd::arithmetic::div_mod::lemma_fundamental_div_mod(num, den);
    vstd::arithmetic::div_mod::lemma_div_pos_is_pos(num, den);
    assert(i < count && (r != 0 ==> i + 1 < count)) by (nonlinear_arith)
        requires
            num == den * i + r,
            0 <= r < den,
            num + den <= count * den,
            0 <= i,
    ;
}

} // verus!
