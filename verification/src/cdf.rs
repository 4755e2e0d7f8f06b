//! The empirical cumulative distribution of a sample, as a step function.

use vstd::prelude::*;
use crate::canvas::Canvas;
use crate::canvas::Drawn;
use crate::canvas::Plane;
use crate::canvas::each_drawn;
use crate::canvas::keeps_frame;
use crate::canvas::lemma_each_drawn_frame;
use crate::canvas::same_frame;
use crate::canvas::lemma_each_drawn_stops;
use crate::error::CanvasError;
use crate::error::agrees;
use crate::ratio::Frac;
use crate::ratio::Ratio;
use crate::ratio::Wide;
use crate::samples::MAX_SAMPLES;
use crate::samples::ascending;
use crate::samples::in_order;
use crate::samples::largest;
use crate::samples::least;
use crate::samples::lemma_in_order;
use crate::samples::lemma_in_order_ends;
use crate::samples::lemma_present_len;
use crate::samples::present;
use crate::samples::present_values;
use crate::samples::sorted_values;

verus! {

/// The steps after the first `upto` of the values, which are in ascending order, are
/// taken in: each value raises the running fraction by one part in as many as there
/// are values; a value equal to the one before it overwrites the fraction of that
/// step, and any other value adds a step.
pub open spec fn steps_upto(sorted: Seq<i32>, upto: int) -> Seq<(i32, Frac)>
    decreases upto,
{
    if upto <= 0 {
        Seq::empty()
    } else {
        let before = steps_upto(sorted, upto - 1);
        let step = (sorted[upto - 1], Frac { num: upto, den: sorted.len() as int });
        if before.len() > 0 && before.last().0 == sorted[upto - 1] {
            before.update(before.len() - 1, step)
        } else {
            before.push(step)
        }
    }
}

/// The fraction of the last of the first `upto` steps whose value is strictly less
/// than `x`; zero if there is none.
pub open spec fn fraction_upto(steps: Seq<(i32, Frac)>, x: Frac, upto: int) -> Frac
    decreases upto,
{
    if upto <= 0 {
        Frac::whole(0)
    } else if Frac::whole(steps[upto - 1].0 as int).lt(x) {
        steps[upto - 1].1
    } else {
        fraction_upto(steps, x, upto - 1)
    }
}

/// A step function as contracts see it: for each distinct value of the sample, in
/// ascending order, the fraction of the sample that is at most that value.
pub struct Stairs {
    pub steps: Seq<(i32, Frac)>,
}

impl Stairs {
    /// The values rise strictly from step to step, and so do the fractions, which
    /// are parts of one whole, above zero, and reach one at the last step.
    pub open spec fn wf(self) -> bool {
        &&& self.steps.len() <= MAX_SAMPLES
        &&& forall|i: int, j: int|
            0 <= i < j < self.steps.len() ==> self.steps[i].0 < self.steps[j].0 && self.steps[i].1.num
                < self.steps[j].1.num
        &&& forall|i: int|
            0 <= i < self.steps.len() ==> 0 < (#[trigger] self.steps[i]).1.num <= self.steps[i].1.den
                && self.steps[i].1.den == self.steps.last().1.den && self.steps[i].1.den
                <= MAX_SAMPLES
        &&& self.steps.len() > 0 ==> self.steps.last().1.num == self.steps.last().1.den
    }

    /// The steps of the samples that are there.
    pub open spec fn of(samples: Seq<Option<i32>>) -> Stairs {
        let sorted = in_order(present(samples));
        Stairs { steps: steps_upto(sorted, sorted.len() as int) }
    }

    /// The value of the function at `x`: the fraction of the largest stored value
    /// strictly less than `x`, or zero if no stored value is.
    pub open spec fn value(self, x: Frac) -> Frac {
        fraction_upto(self.steps, x, self.steps.len() as int)
    }

    /// What drawing at one point makes of a canvas: the value of the function at the
    /// `i`-th of the points that cut the x-axis interval into as many parts as the
    /// canvas has columns is marked with `marker`.
    pub open spec fn point_step(self, marker: u8) -> spec_fn(Plane, int) -> Drawn {
        |plane: Plane, i: int|
            {
                let x = plane.sample_point(i);
                plane.mark(x, self.value(x), marker)
            }
    }

    /// The canvas after the function is drawn at every such point in turn, both
    /// ends of the x-axis interval included. The first fault ends the drawing.
    pub open spec fn drawn(self, plane: Plane, marker: u8) -> Drawn {
        each_drawn(plane, self.point_step(marker), plane.width + 1)
    }
}

/// Drawing a distribution changes neither the size of the canvas nor its axes.
pub proof fn lemma_stairs_drawn_frame(stairs: Stairs, plane: Plane, marker: u8)
    ensures
        same_frame(stairs.drawn(plane, marker).plane, plane),
{
    let step = stairs.point_step(marker);
    assert(keeps_frame(step)) by {
        assert forall|p: Plane, i: int| same_frame(#[trigger] step(p, i).plane, p) by {}
    }
    lemma_each_drawn_frame(plane, step, plane.width + 1);
}

/// The value at `x`, looked up among the first `upto` steps, is zero or the fraction
/// of one of those steps whose value is below `x`; no such step has a larger
/// fraction; and it is zero if there is no such step.
pub proof fn lemma_fraction_upto(stairs: Stairs, x: Frac, upto: int)
    requires
        stairs.wf(),
        0 <= upto <= stairs.steps.len(),
    ensures
        fraction_upto(stairs.steps, x, upto) == Frac::whole(0) || exists|i: int|
            0 <= i < upto && Frac::whole(stairs.steps[i].0 as int).lt(x) && fraction_upto(
                stairs.steps,
                x,
                upto,
            ) == stairs.steps[i].1,
        forall|i: int|
            0 <= i < upto && Frac::whole(stairs.steps[i].0 as int).lt(x) ==> (
            #[trigger] stairs.steps[i]).1.num <= fraction_upto(stairs.steps, x, upto).num
                && fraction_upto(stairs.steps, x, upto).den == stairs.steps[i].1.den,
        (forall|i: int| 0 <= i < upto ==> !Frac::whole((#[trigger] stairs.steps[i]).0 as int).lt(x))
            ==> fraction_upto(stairs.steps, x, upto) == Frac::whole(0),
    decreases upto,
{
    if upto > 0 {
        lemma_fraction_upto(stairs, x, upto - 1);
        if Frac::whole(stairs.steps[upto - 1].0 as int).lt(x) {
            assert(fraction_upto(stairs.steps, x, upto) == stairs.steps[upto - 1].1);
        }
    }
}

/// The function never falls: at a larger point its value is no smaller.
pub proof fn lemma_value_monotonic(stairs: Stairs, x1: Frac, x2: Frac)
    requires
        stairs.wf(),
        x1.wf(),
        x2.wf(),
        x1.le(x2),
    ensures
        stairs.value(x1).le(stairs.value(x2)),
{
    let count = stairs.steps.len() as int;
    lemma_fraction_upto(stairs, x1, count);
    lemma_fraction_upto(stairs, x2, count);
    let y1 = stairs.value(x1);
    let y2 = stairs.value(x2);
    if y1 != Frac::whole(0) {
        let i = choose|i: int|
            0 <= i < count && Frac::whole(stairs.steps[i].0 as int).lt(x1) && y1
                == stairs.steps[i].1;
        lemma_below_stays_below(stairs.steps[i].0 as int, x1, x2);
        assert(stairs.steps[i].1.num <= y2.num);
        assert(y1.le(y2)) by (nonlinear_arith)
            requires
                y1.num <= y2.num,
                y1.den == y2.den,
                y1.den > 0,
        ;
    } else if y2 != Frac::whole(0) {
        let i = choose|i: int|
            0 <= i < count && Frac::whole(stairs.steps[i].0 as int).lt(x2) && y2
                == stairs.steps[i].1;
        assert(stairs.steps[i].1.num > 0);
        assert(y1.num * y2.den == 0) by (nonlinear_arith)
            requires
                y1.num == 0,
        ;
    }
}

/// What the steps are. Every one of the first `upto` values has its step, and only
/// they; the steps stand in strictly ascending order; and the fraction of a step
/// counts the values up to the last that equals the value of the step, of which the
/// next, if there is one, is larger.
pub proof fn lemma_steps_upto(sorted: Seq<i32>, upto: int)
    requires
        ascending(sorted),
        0 <= upto <= sorted.len(),
    ensures
        steps_upto(sorted, upto).len() <= upto,
        upto > 0 ==> steps_upto(sorted, upto).len() > 0 && steps_upto(sorted, upto).last().0
            == sorted[upto - 1] && steps_upto(sorted, upto).last().1.num == upto,
        forall|a: int, b: int|
            0 <= a < b < steps_upto(sorted, upto).len() ==> steps_upto(sorted, upto)[a].0
                < steps_upto(sorted, upto)[b].0 && steps_upto(sorted, upto)[a].1.num < steps_upto(
                sorted,
                upto,
            )[b].1.num,
        forall|j: int|
            0 <= j < steps_upto(sorted, upto).len() ==> {
                let step = #[trigger] steps_upto(sorted, upto)[j];
                &&& 1 <= step.1.num <= upto
                &&& step.1.den == sorted.len()
                &&& sorted[step.1.num - 1] == step.0
                &&& step.1.num < upto ==> sorted[step.1.num] > step.0
            },
        forall|i: int|
            0 <= i < upto ==> exists|j: int|
                0 <= j < steps_upto(sorted, upto).len() && steps_upto(sorted, upto)[j].0
                    == #[trigger] sorted[i],
    decreases upto,
{
    if upto > 0 {
        lemma_steps_upto(sorted, upto - 1);
        let before = steps_upto(sorted, upto - 1);
        let after = steps_upto(sorted, upto);
        let value = sorted[upto - 1];
        let step = (value, Frac { num: upto, den: sorted.len() as int });
        if before.len() > 0 && before.last().0 == value {
            let last = before.len() - 1;
            assert(after == before.update(last, step));
            assert forall|j: int| 0 <= j < after.len() implies {
                let s = #[trigger] after[j];
                &&& 1 <= s.1.num <= upto
                &&& s.1.den == sorted.len()
                &&& sorted[s.1.num - 1] == s.0
                &&& s.1.num < upto ==> sorted[s.1.num] > s.0
            } by {
                if j < last {
                    assert(after[j] == before[j]);
                    assert(before[j].1.num < before[last].1.num);
                }
            }
            assert forall|i: int| 0 <= i < upto implies exists|j: int|
                0 <= j < after.len() && after[j].0 == #[trigger] sorted[i] by {
                if i < upto - 1 {
                    let j = choose|j: int| 0 <= j < before.len() && before[j].0 == sorted[i];
                    assert(after[j].0 == sorted[i]);
                } else {
                    assert(after[last].0 == sorted[i]);
                }
            }
        } else {
            assert(after == before.push(step));
            let last = before.len() as int;
            if upto > 1 {
                assert(sorted[upto - 2] <= sorted[upto - 1]);
            }
            assert forall|a: int, b: int| 0 <= a < b < after.len() implies after[a].0 < after[b].0
                && after[a].1.num < after[b].1.num by {
                if b == last {
                    assert(after[a] == before[a]);
                    assert(before[a].1.num <= upto - 1);
                    assert(sorted[before[a].1.num - 1] == before[a].0);
                    if before[a].1.num < upto - 1 {
                        assert(sorted[before[a].1.num] > before[a].0);
                        assert(sorted[before[a].1.num] <= sorted[upto - 1]);
                    } else {
                        // The step counts every value so far, so it is the last one.
                        assert(before.last().1.num == upto - 1);
                        assert(a == before.len() - 1);
                    }
                }
            }
            assert forall|j: int| 0 <= j < after.len() implies {
                let s = #[trigger] after[j];
                &&& 1 <= s.1.num <= upto
                &&& s.1.den == sorted.len()
                &&& sorted[s.1.num - 1] == s.0
                &&& s.1.num < upto ==> sorted[s.1.num] > s.0
            } by {
                if j < last {
                    assert(after[j] == before[j]);
                    if before[j].1.num == upto - 1 {
                        assert(after[j].0 < after[last].0);
                    }
                }
            }
            assert forall|i: int| 0 <= i < upto implies exists|j: int|
                0 <= j < after.len() && after[j].0 == #[trigger] sorted[i] by {
                if i < upto - 1 {
                    let j = choose|j: int| 0 <= j < before.len() && before[j].0 == sorted[i];
                    assert(after[j].0 == sorted[i]);
                } else {
                    assert(after[last].0 == sorted[i]);
                }
            }
        }
    }
}

/// The steps of samples that are not too many to count are well formed.
pub proof fn lemma_stairs_wf(samples: Seq<Option<i32>>)
    requires
        samples.len() <= MAX_SAMPLES,
    ensures
        Stairs::of(samples).wf(),
{
    let sorted = in_order(present(samples));
    lemma_present_len(samples);
    lemma_in_order(present(samples));
    lemma_steps_upto(sorted, sorted.len() as int);
    let steps = Stairs::of(samples).steps;
    assert forall|i: int| 0 <= i < steps.len() implies 0 < (#[trigger] steps[i]).1.num
        <= steps[i].1.den && steps[i].1.den == steps.last().1.den && steps[i].1.den
        <= MAX_SAMPLES by {
        assert(steps[steps.len() - 1].1.den == sorted.len());
    }
}

/// The largest stored fraction is that of the last step, and it is one.
pub proof fn lemma_last_fraction(stairs: Stairs, i: int)
    requires
        stairs.wf(),
        0 <= i < stairs.steps.len(),
    ensures
        stairs.steps[i].1.le(stairs.steps.last().1),
        stairs.steps.last().1.same(Frac::whole(1)),
{
    let last = stairs.steps.last().1;
    let here = stairs.steps[i].1;
    assert(stairs.steps[stairs.steps.len() - 1].1 == last);
    assert(here.num <= last.num);
    assert(here.num * last.den <= last.num * here.den) by (nonlinear_arith)
        requires
            here.num <= last.num,
            here.den == last.den,
            last.den > 0,
    ;
}

/// From above the largest stored value on the function is one.
pub proof fn lemma_value_one(stairs: Stairs, x: Frac)
    requires
        stairs.wf(),
        x.wf(),
        stairs.steps.len() > 0,
        Frac::whole(stairs.steps.last().0 as int).lt(x),
    ensures
        stairs.value(x) == stairs.steps.last().1,
        stairs.value(x).same(Frac::whole(1)),
{
}

/// At or below the least stored value the function is zero.
pub proof fn lemma_value_zero(stairs: Stairs, x: Frac)
    requires
        stairs.wf(),
        x.wf(),
        stairs.steps.len() > 0 ==> x.le(Frac::whole(stairs.steps[0].0 as int)),
    ensures
        stairs.value(x) == Frac::whole(0),
{
    let count = stairs.steps.len() as int;
    lemma_fraction_upto(stairs, x, count);
    assert forall|i: int| 0 <= i < count implies !Frac::whole(
        (#[trigger] stairs.steps[i]).0 as int,
    ).lt(x) by {
        let least = stairs.steps[0].0 as int;
        let v = stairs.steps[i].0 as int;
        assert(least <= v);
        assert(!(v * x.den < x.num * 1)) by (nonlinear_arith)
            requires
                x.num * 1 <= least * x.den,
                least <= v,
                x.den > 0,
        ;
    }
}

/// A whole number below `x1` is below every `x2` that is at least `x1`.
pub proof fn lemma_below_stays_below(v: int, x1: Frac, x2: Frac)
    requires
        x1.wf(),
        x2.wf(),
        x1.le(x2),
        Frac::whole(v).lt(x1),
    ensures
        Frac::whole(v).lt(x2),
{
    assert(v * x2.den < x2.num) by (nonlinear_arith)
        requires
            v * x1.den < x1.num * 1,
            x1.num * x2.den <= x2.num * x1.den,
            x1.den > 0,
            x2.den > 0,
    ;
}

/// The empirical cumulative distribution of a sample: for each distinct value, in
/// ascending order, the fraction of the sample that is at most that value.
#[derive(Debug)]
pub struct CDF {
    steps: Vec<(i32, Ratio)>,
}

impl View for CDF {
    type V = Stairs;

    closed spec fn view(&self) -> Stairs {
        Stairs { steps: Seq::new(self.steps@.len(), |i: int| (self.steps@[i].0, self.steps@[i].1@)) }
    }
}

impl Default for CDF {
    /// The distribution of no sample: it has no step, and its value is zero
    /// everywhere.
    fn default() -> (cdf: CDF)
        ensures
            cdf.wf(),
            cdf@.steps == Seq::<(i32, Frac)>::empty(),
    {
        let cdf = CDF { steps: Vec::new() };
        assert(cdf@.steps =~= Seq::<(i32, Frac)>::empty());
        cdf
    }
}

impl CDF {
    /// The function is well formed: see [`Stairs::wf`].
    pub open spec fn wf(&self) -> bool {
        self@.wf()
    }

    /// The distribution of the samples that are there.
    pub fn from_vec(input: Vec<Option<i32>>) -> (cdf: CDF)
        requires
            input@.len() <= MAX_SAMPLES,
        ensures
            cdf.wf(),
            cdf@ == Stairs::of(input@),
            cdf@.steps.len() > 0 <==> present(input@).len() > 0,
            cdf@.steps.len() > 0 ==> cdf@.steps[0].0 == least(present(input@)) && cdf@.steps.last().0
                == largest(present(input@)),
    {
        let values: Vec<i32> = present_values(input.as_slice());
        let sorted: Vec<i32> = sorted_values(values);
        proof {
            lemma_present_len(input@);
            lemma_in_order(present(input@));
        }
        let count: usize = sorted.len();
        let mut steps: Vec<(i32, Ratio)> = Vec::new();
        let mut k: usize = 0;
        while k < count
            invariant
                k <= count,
                count == sorted@.len(),
                count <= MAX_SAMPLES,
                ascending(sorted@),
                steps@.len() <= k,
                k > 0 ==> steps@.len() > 0 && steps@.last().0 == sorted@[k - 1] && steps@.last().1.num
                    == k && steps@[0].0 == sorted@[0],
                Seq::new(steps@.len(), |i: int| (steps@[i].0, steps@[i].1@)) == steps_upto(
                    sorted@,
                    k as int,
                ),
                forall|i: int, j: int|
                    0 <= i < j < steps@.len() ==> steps@[i].0 < steps@[j].0 && steps@[i].1.num
                        < steps@[j].1.num,
                forall|i: int|
                    0 <= i < steps@.len() ==> 0 < (#[trigger] steps@[i]).1.num <= k && steps@[i].1.den
                        == count,
            decreases count - k,
        {
            let y: i32 = sorted[k];
            let step: (i32, Ratio) = (y, Ratio { num: (k + 1) as i64, den: count as u32 });
            let ghost before = steps@;
            let len: usize = steps.len();
            if len > 0 && steps[len - 1].0 == y {
                steps[len - 1] = step;
                assert(steps@ =~= before.update(len - 1, step));
            } else {
                proof {
                    if len > 0 {
                        assert(sorted@[k - 1] <= sorted@[k as int]);
                    }
                }
                steps.push(step);
            }
            assert(Seq::new(steps@.len(), |i: int| (steps@[i].0, steps@[i].1@)) =~= steps_upto(
                sorted@,
                k + 1,
            ));
            k = k + 1;
        }
        proof {
            if count > 0 {
                lemma_in_order_ends(present(input@));
            }
        }
        CDF { steps }
    }

    /// The value of the function at `x`: the fraction of the largest stored value
    /// strictly less than `x`, or zero if no stored value is.
    pub fn get_value(&self, x: Ratio) -> (y: Ratio)
        requires
            self.wf(),
            x.wf(),
        ensures
            y@ == self@.value(x@),
            y.wf(),
    {
        self.value_at(Wide::from_ratio(x))
    }

    /// The value of the function at the point `x`.
    pub fn value_at(&self, x: Wide) -> (y: Ratio)
        requires
            self.wf(),
            x.wf(),
        ensures
            y@ == self@.value(x@),
            y.wf(),
    {
        let mut k: usize = self.steps.len();
        while k > 0
            invariant
                k <= self.steps@.len(),
                x.wf(),
                self.wf(),
                self@.value(x@) == fraction_upto(self@.steps, x@, k as int),
            decreases k,
        {
            assert(self@.steps[k - 1] == (self.steps@[k - 1].0, self.steps@[k - 1].1@));
            if x.gt_ratio(Ratio::whole(self.steps[k - 1].0 as i64)) {
                return self.steps[k - 1].1;
            }
            k = k - 1;
        }
        Ratio::whole(0)
    }

    /// The stored steps: each distinct value with the fraction of the sample that is
    /// at most that value, in ascending order.
    pub fn steps(&self) -> (steps: &Vec<(i32, Ratio)>)
        ensures
            steps@.len() == self@.steps.len(),
            forall|i: int|
                0 <= i < steps@.len() ==> (#[trigger] steps@[i]).0 == self@.steps[i].0 && steps@[i].1@
                    == self@.steps[i].1,
    {
        &self.steps
    }

    /// Draws the function: at each of the points that cut the x-axis interval into
    /// as many parts as the canvas has columns, both ends included, its value is
    /// marked with `symbole`. The first point that does not fit the canvas is
    /// reported, and ends the drawing.
    pub fn draw_into(&self, canvas: &mut Canvas, symbole: u8) -> (r: Result<(), CanvasError>)
        requires
            self.wf(),
            old(canvas).wf(),
        ensures
            final(canvas).wf(),
            final(canvas)@ == self@.drawn(old(canvas)@, symbole).plane,
            agrees(r, self@.drawn(old(canvas)@, symbole).fault),
    {
        let ghost before = canvas@;
        let width: usize = canvas.width();
        let mut c: usize = 0;
        while c <= width
            invariant
                c <= width + 1,
                width == before.width,
                width <= 65535,
                before == old(canvas)@,
                self.wf(),
                canvas.wf(),
                canvas@.width == before.width,
                each_drawn(before, self@.point_step(symbole), c as int) == (Drawn {
                    plane: canvas@,
                    fault: None,
                }),
            decreases width + 1 - c,
        {
            let ghost now = canvas@;
            assert(each_drawn(before, self@.point_step(symbole), c + 1) == self@.point_step(
                symbole,
            )(now, c as int));
            let x: Wide = canvas.sample_point(c);
            let y: Ratio = self.value_at(x);
            match canvas.draw_at_step(c, y, symbole) {
                Ok(_) => {},
                Err(e) => {
                    proof {
                        lemma_each_drawn_stops(
                            before,
                            self@.point_step(symbole),
                            c + 1,
                            width + 1,
                        );
                    }
                    return Err(e);
                },
            }
            c = c + 1;
        }
        Ok(())
    }
}

} // verus!
