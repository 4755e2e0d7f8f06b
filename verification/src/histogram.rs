//! Histograms: how many samples fall in each of ten bins of equal width.

use vstd::prelude::*;
use crate::canvas::Canvas;
use crate::canvas::Drawn;
use crate::canvas::Plane;
use crate::canvas::bound_fits;
use crate::canvas::each_drawn;
use crate::canvas::keeps_frame;
use crate::canvas::lemma_each_drawn_frame;
use crate::canvas::same_frame;
use crate::canvas::lemma_each_drawn_stops;
use crate::error::CanvasError;
use crate::error::agrees;
use crate::ratio::Frac;
use crate::ratio::Ratio;
use crate::ratio::Wide;
use crate::samples::MAX_SAMPLES;
use crate::samples::extremes;
use crate::samples::largest;
use crate::samples::least;
use crate::samples::lemma_extremes;
use crate::samples::lemma_present_len;
use crate::samples::present;
use crate::samples::present_values;

verus! {

/// The number of bins of a histogram that holds any sample.
pub const BIN_COUNT: usize = 10;

/// The denominator of every bin boundary.
pub const BIN_DEN: u32 = 10000;

/// The `i`-th of the boundaries that cut the interval from `lo` to `hi`, widened at
/// its upper end by a thousandth of its length, into ten bins of equal width:
/// `lo + i * 1.001 * (hi - lo) / 10`.
pub open spec fn boundary(lo: int, hi: int, i: int) -> Frac {
    Frac { num: lo * 10000 + i * ((hi - lo) * 1001), den: 10000 }
}

/// The eleven boundaries of the ten bins between `lo` and `hi`.
pub open spec fn boundaries(lo: int, hi: int) -> Seq<Frac> {
    Seq::new(11, |i: int| boundary(lo, hi, i))
}

/// The index, from `from` on, of the first of `bins` that is strictly greater than
/// `x`; the number of boundaries if there is none.
pub open spec fn first_greater(bins: Seq<Frac>, x: Frac, from: int) -> int
    decreases bins.len() - from,
{
    if from >= bins.len() {
        bins.len() as int
    } else if x.lt(bins[from]) {
        from
    } else {
        first_greater(bins, x, from + 1)
    }
}

/// The bin that holds `x`: none if `x` lies outside the interval from the first
/// boundary to the last; else the one before the first boundary strictly greater than
/// `x`, and none if no boundary is.
pub open spec fn bin_of(bins: Seq<Frac>, x: Frac) -> Option<int> {
    if bins.len() == 0 || x.lt(bins.first()) || bins.last().lt(x) {
        None
    } else {
        let j = first_greater(bins, x, 1);
        if j < bins.len() {
            Some(j - 1)
        } else {
            None
        }
    }
}

/// How many of `values` the bin `bin` holds.
pub open spec fn hits(values: Seq<i32>, bins: Seq<Frac>, bin: int) -> int
    decreases values.len(),
{
    if values.len() == 0 {
        0
    } else {
        hits(values.drop_last(), bins, bin) + if bin_of(bins, Frac::whole(values.last() as int))
            == Some(bin) {
            1int
        } else {
            0int
        }
    }
}

/// How many of `values` some bin holds.
pub open spec fn binned(values: Seq<i32>, bins: Seq<Frac>) -> int
    decreases values.len(),
{
    if values.len() == 0 {
        0
    } else {
        binned(values.drop_last(), bins) + if bin_of(bins, Frac::whole(values.last() as int))
            is Some {
            1int
        } else {
            0int
        }
    }
}

/// The sum of the counts.
pub open spec fn total(counts: Seq<int>) -> int
    decreases counts.len(),
{
    if counts.len() == 0 {
        0
    } else {
        total(counts.drop_last()) + counts.last()
    }
}

/// The largest of the counts; zero if there is none.
pub open spec fn peak(counts: Seq<int>) -> int
    decreases counts.len(),
{
    if counts.len() == 0 {
        0
    } else if counts.last() > peak(counts.drop_last()) {
        counts.last()
    } else {
        peak(counts.drop_last())
    }
}

/// A histogram as contracts see it: the boundaries of the bins in ascending order, and
/// the number of samples in each bin.
pub struct Tally {
    pub bins: Seq<Frac>,
    pub counts: Seq<int>,
}

impl Tally {
    /// A histogram has no bin at all, or ten bins between eleven boundaries, which
    /// are in ascending order.
    pub open spec fn wf(self) -> bool {
        &&& self.bins.len() == 0 && self.counts.len() == 0 || self.bins.len() == BIN_COUNT + 1
            && self.counts.len() == BIN_COUNT
        &&& forall|i: int| 0 <= i < self.bins.len() ==> bound_fits(#[trigger] self.bins[i])
        &&& forall|i: int, j: int|
            0 <= i <= j < self.bins.len() ==> (#[trigger] self.bins[i]).le(#[trigger] self.bins[j])
        &&& forall|i: int| 0 <= i < self.counts.len() ==> 0 <= #[trigger] self.counts[i] <= MAX_SAMPLES
    }

    /// The histogram without bins.
    pub open spec fn empty() -> Tally {
        Tally { bins: Seq::empty(), counts: Seq::empty() }
    }

    /// The count of the bin that holds `x`: nothing for a histogram without bins, and
    /// zero where no bin holds `x`.
    pub open spec fn value_at(self, x: Frac) -> Option<int> {
        if self.bins.len() == 0 || self.counts.len() == 0 {
            None
        } else {
            match bin_of(self.bins, x) {
                Some(bin) => if bin < self.counts.len() {
                    Some(self.counts[bin])
                } else {
                    None
                },
                None => Some(0),
            }
        }
    }

    /// The histogram of the samples that are there: none gives the histogram without
    /// bins; else the bins run from the least sample to just above the largest.
    pub open spec fn of(samples: Seq<Option<i32>>) -> Tally {
        let values = present(samples);
        if values.len() == 0 {
            Tally::empty()
        } else {
            let bins = boundaries(least(values), largest(values));
            Tally { bins, counts: Seq::new(BIN_COUNT as nat, |i: int| hits(values, bins, i)) }
        }
    }

    /// What drawing one column makes of a canvas: the count at the point of the
    /// x-axis that the column starts at is marked with `label`; a histogram without
    /// bins marks nothing.
    pub open spec fn column_step(self, label: u8) -> spec_fn(Plane, int) -> Drawn {
        |plane: Plane, i: int|
            {
                let x = plane.sample_point(i);
                match self.value_at(x) {
                    Some(count) => plane.mark(x, Frac::whole(count), label),
                    None => Drawn { plane, fault: None },
                }
            }
    }

    /// The canvas after the histogram is drawn: one column after the other, from the
    /// first to the last. The first fault ends the drawing.
    pub open spec fn drawn(self, plane: Plane, label: u8) -> Drawn {
        each_drawn(plane, self.column_step(label), plane.width)
    }
}

/// Drawing a histogram changes neither the size of the canvas nor its axes.
pub proof fn lemma_tally_drawn_frame(tally: Tally, plane: Plane, label: u8)
    ensures
        same_frame(tally.drawn(plane, label).plane, plane),
{
    let step = tally.column_step(label);
    assert(keeps_frame(step)) by {
        assert forall|p: Plane, i: int| same_frame(#[trigger] step(p, i).plane, p) by {}
    }
    lemma_each_drawn_frame(plane, step, plane.width);
}

/// The boundaries are in ascending order.
pub proof fn lemma_boundaries_ascend(lo: int, hi: int, i: int, j: int)
    requires
        lo <= hi,
        i <= j,
    ensures
        boundary(lo, hi, i).le(boundary(lo, hi, j)),
{
    let step = (hi - lo) * 1001;
    assert(i * step <= j * step) by (nonlinear_arith)
        requires
            i <= j,
            0 <= step,
    ;
}

/// Changing one count by one changes the sum by one.
pub proof fn lemma_total_update(counts: Seq<int>, i: int)
    requires
        0 <= i < counts.len(),
    ensures
        total(counts.update(i, counts[i] + 1)) == total(counts) + 1,
    decreases counts.len(),
{
    let after = counts.update(i, counts[i] + 1);
    if i == counts.len() - 1 {
        assert(after.drop_last() =~= counts.drop_last());
    } else {
        lemma_total_update(counts.drop_last(), i);
        assert(after.drop_last() =~= counts.drop_last().update(i, counts[i] + 1));
    }
}

/// The sum of counts that are all zero is zero.
pub proof fn lemma_total_zero(counts: Seq<int>)
    requires
        forall|i: int| 0 <= i < counts.len() ==> counts[i] == 0,
    ensures
        total(counts) == 0,
    decreases counts.len(),
{
    if counts.len() > 0 {
        lemma_total_zero(counts.drop_last());
    }
}

/// No count exceeds the largest, which is one of them unless all are negative or
/// there is none.
pub proof fn lemma_peak(counts: Seq<int>)
    ensures
        forall|i: int| 0 <= i < counts.len() ==> #[trigger] counts[i] <= peak(counts),
        peak(counts) >= 0,
        peak(counts) == 0 || exists|i: int| 0 <= i < counts.len() && counts[i] == peak(counts),
    decreases counts.len(),
{
    if counts.len() > 0 {
        let front = counts.drop_last();
        lemma_peak(front);
        assert forall|i: int| 0 <= i < counts.len() implies #[trigger] counts[i] <= peak(counts) by {
            if i < front.len() {
                assert(counts[i] == front[i]);
            }
        }
        if peak(counts) != 0 {
            if counts.last() > peak(front) {
                assert(counts[counts.len() - 1] == peak(counts));
            } else {
                let i = choose|i: int| 0 <= i < front.len() && front[i] == peak(front);
                assert(counts[i] == peak(counts));
            }
        }
    }
}

/// Where a boundary from `from` on is strictly greater than `x`, the first such
/// boundary is found at or before it, and none before that one is.
pub proof fn lemma_first_greater(bins: Seq<Frac>, x: Frac, from: int)
    requires
        0 <= from,
    ensures
        from <= first_greater(bins, x, from) || bins.len() < from,
        first_greater(bins, x, from) <= bins.len() || bins.len() < from,
        first_greater(bins, x, from) < bins.len() ==> x.lt(bins[first_greater(bins, x, from)]),
        forall|j: int| from <= j < first_greater(bins, x, from) && j < bins.len() ==> !x.lt(#[trigger] bins[j]),
    decreases bins.len() - from,
{
    if from < bins.len() && !x.lt(bins[from]) {
        lemma_first_greater(bins, x, from + 1);
    }
}

/// Between a least and a strictly larger largest value, every value has its bin.
pub proof fn lemma_value_binned(lo: int, hi: int, v: int)
    requires
        lo <= v <= hi,
        lo < hi,
    ensures
        bin_of(boundaries(lo, hi), Frac::whole(v)) matches Some(bin) && 0 <= bin < BIN_COUNT,
{
    let bins = boundaries(lo, hi);
    let x = Frac::whole(v);
    assert(bins.first() == boundary(lo, hi, 0));
    assert(bins.last() == boundary(lo, hi, 10));
    assert(bins[10] == boundary(lo, hi, 10));
    assert(x.lt(bins[10]));
    lemma_first_greater(bins, x, 1);
}

/// No bin holds more values than there are, and no more values are binned than there
/// are.
pub proof fn lemma_hits_bound(values: Seq<i32>, bins: Seq<Frac>, bin: int)
    ensures
        0 <= hits(values, bins, bin) <= values.len(),
        0 <= binned(values, bins) <= values.len(),
    decreases values.len(),
{
    if values.len() > 0 {
        lemma_hits_bound(values.drop_last(), bins, bin);
    }
}

/// Where every value has its bin, all values are binned.
pub proof fn lemma_all_binned(values: Seq<i32>, lo: int, hi: int)
    requires
        lo < hi,
        forall|i: int| 0 <= i < values.len() ==> lo <= #[trigger] values[i] <= hi,
    ensures
        binned(values, boundaries(lo, hi)) == values.len(),
    decreases values.len(),
{
    if values.len() > 0 {
        let front = values.drop_last();
        assert forall|i: int| 0 <= i < front.len() implies lo <= #[trigger] front[i] <= hi by {
            assert(front[i] == values[i]);
        }
        lemma_all_binned(front, lo, hi);
        assert(values.last() == values[values.len() - 1]);
        lemma_value_binned(lo, hi, values.last() as int);
    }
}

/// The counts of ten bins sum to the number of values that some bin holds.
pub proof fn lemma_counts_sum(values: Seq<i32>, bins: Seq<Frac>)
    requires
        bins.len() == BIN_COUNT + 1,
    ensures
        total(Seq::new(BIN_COUNT as nat, |i: int| hits(values, bins, i))) == binned(values, bins),
    decreases values.len(),
{
    let counts = Seq::new(BIN_COUNT as nat, |i: int| hits(values, bins, i));
    if values.len() == 0 {
        lemma_total_zero(counts);
    } else {
        let front = values.drop_last();
        let before = Seq::new(BIN_COUNT as nat, |i: int| hits(front, bins, i));
        lemma_counts_sum(front, bins);
        let x = Frac::whole(values.last() as int);
        match bin_of(bins, x) {
            Some(bin) => {
                lemma_first_greater(bins, x, 1);
                lemma_total_update(before, bin);
                assert(counts =~= before.update(bin, before[bin] + 1));
            },
            None => {
                assert(counts =~= before);
            },
        }
    }
}

/// Every sample is counted once: where the samples that are there are not all
/// equal, the counts of their histogram sum to their number.
pub proof fn lemma_every_sample_counted(samples: Seq<Option<i32>>)
    requires
        least(present(samples)) < largest(present(samples)),
    ensures
        total(Tally::of(samples).counts) == present(samples).len(),
{
    let values = present(samples);
    if values.len() > 0 {
        let bins = boundaries(least(values), largest(values));
        lemma_counts_sum(values, bins);
        lemma_extremes(values);
        lemma_all_binned(values, least(values), largest(values));
    }
}

/// How many samples fall in each of ten bins of equal width, which together reach
/// from the least sample to just above the largest.
#[derive(Debug)]
pub struct Histogram {
    /// The boundaries of the bins, in ascending order.
    bins: Vec<Ratio>,
    /// The number of samples in each bin.
    values: Vec<usize>,
}

impl View for Histogram {
    type V = Tally;

    closed spec fn view(&self) -> Tally {
        Tally {
            bins: Seq::new(self.bins@.len(), |i: int| self.bins@[i]@),
            counts: Seq::new(self.values@.len(), |i: int| self.values@[i] as int),
        }
    }
}

impl Default for Histogram {
    /// The histogram without bins.
    fn default() -> (hist: Histogram)
        ensures
            hist.wf(),
            hist@ == Tally::empty(),
    {
        let hist = Histogram { bins: Vec::new(), values: Vec::new() };
        assert(hist@.bins =~= Seq::empty());
        assert(hist@.counts =~= Seq::empty());
        hist
    }
}

impl Histogram {
    /// The histogram is well formed: see [`Tally::wf`].
    pub open spec fn wf(&self) -> bool {
        self@.wf()
    }

    /// The histogram of the samples that are there. No sample gives the histogram
    /// without bins. Where the samples are not all equal, every one of them is
    /// counted in exactly one bin.
    pub fn from_vec(input: Vec<Option<i32>>) -> (hist: Histogram)
        requires
            input@.len() <= MAX_SAMPLES,
        ensures
            hist.wf(),
            hist@ == Tally::of(input@),
            total(hist@.counts) == binned(present(input@), hist@.bins),
            least(present(input@)) < largest(present(input@)) ==> total(hist@.counts) == present(
                input@,
            ).len(),
    {
        let values: Vec<i32> = present_values(input.as_slice());
        proof {
            lemma_present_len(input@);
        }
        if values.len() == 0 {
            return Histogram::default();
        }
        let ends: (i32, i32) = extremes(values.as_slice());
        let mut hist: Histogram = Histogram::default();
        hist.reset_bins(ends.0, ends.1);
        proof {
            lemma_total_zero(hist@.counts);
        }
        hist.add_values(values.as_slice());
        proof {
            let bins = boundaries(ends.0 as int, ends.1 as int);
            assert(hist@.counts =~= Seq::new(BIN_COUNT as nat, |i: int| hits(values@, bins, i)));
            if ends.0 < ends.1 {
                lemma_extremes(values@);
                lemma_all_binned(values@, ends.0 as int, ends.1 as int);
            }
        }
        hist
    }

    /// Whether the histogram has no bins.
    pub fn is_empty(&self) -> (b: bool)
        ensures
            b == (self@.bins.len() == 0 || self@.counts.len() == 0),
    {
        self.bins.len() == 0 || self.values.len() == 0
    }

    /// The first and the last boundary, if there are bins.
    pub fn span(&self) -> (ends: Option<(Ratio, Ratio)>)
        requires
            self.wf(),
        ensures
            self@.bins.len() == 0 <==> ends is None,
            ends matches Some(e) ==> e.0@ == self@.bins.first() && e.1@ == self@.bins.last()
                && bound_fits(e.0@) && bound_fits(e.1@),
    {
        if self.bins.len() == 0 {
            None
        } else {
            assert(self@.bins.first() == self@.bins[0]);
            assert(self@.bins.last() == self@.bins[self.bins@.len() - 1]);
            Some((self.bins[0], self.bins[self.bins.len() - 1]))
        }
    }

    /// The largest count of a bin; zero without bins.
    pub fn peak(&self) -> (most: usize)
        requires
            self.wf(),
        ensures
            most == peak(self@.counts),
            most <= MAX_SAMPLES,
    {
        proof {
            lemma_peak(self@.counts);
        }
        let mut most: usize = 0;
        let mut i: usize = 0;
        assert(self@.counts.take(0) =~= Seq::empty());
        while i < self.values.len()
            invariant
                i <= self.values.len(),
                most == peak(self@.counts.take(i as int)),
            decreases self.values.len() - i,
        {
            assert(self@.counts.take(i + 1).drop_last() =~= self@.counts.take(i as int));
            if self.values[i] > most {
                most = self.values[i];
            }
            i = i + 1;
        }
        assert(self@.counts.take(self.values.len() as int) =~= self@.counts);
        most
    }

    /// The bin that holds `x`: see [`bin_of`].
    pub fn get_bin(&self, x: Ratio) -> (bin: Option<usize>)
        requires
            self.wf(),
            self@.bins.len() > 0,
            x.wf(),
        ensures
            same_bin(bin, bin_of(self@.bins, x@)),
            bin matches Some(i) ==> i + 1 < self@.bins.len(),
    {
        self.bin_at(Wide::from_ratio(x))
    }

    /// The bin that holds the point `x`: see [`bin_of`].
    pub fn bin_at(&self, x: Wide) -> (bin: Option<usize>)
        requires
            self.wf(),
            self@.bins.len() > 0,
            x.wf(),
        ensures
            same_bin(bin, bin_of(self@.bins, x@)),
            bin matches Some(i) ==> i + 1 < self@.bins.len(),
    {
        let count: usize = self.bins.len();
        assert(self@.bins.first() == self.bins@[0]@);
        assert(self@.bins.last() == self.bins@[count - 1]@);
        assert(bound_fits(self@.bins[0]) && bound_fits(self@.bins[count - 1]));
        if x.lt_ratio(self.bins[0]) || x.gt_ratio(self.bins[count - 1]) {
            return None;
        }
        let mut idx: usize = 1;
        while idx < count
            invariant
                1 <= idx <= count,
                count == self.bins@.len(),
                self.wf(),
                x.wf(),
                !x@.lt(self@.bins.first()),
                !self@.bins.last().lt(x@),
                first_greater(self@.bins, x@, 1) == first_greater(self@.bins, x@, idx as int),
            decreases count - idx,
        {
            assert(self@.bins[idx as int] == self.bins@[idx as int]@);
            assert(bound_fits(self@.bins[idx as int]));
            if x.lt_ratio(self.bins[idx]) {
                return Some(idx - 1);
            }
            idx = idx + 1;
        }
        None
    }

    /// The count of the bin that holds `x`: nothing for a histogram without bins,
    /// and zero where no bin holds `x`.
    pub fn get_value(&self, x: Ratio) -> (count: Option<usize>)
        requires
            self.wf(),
            x.wf(),
        ensures
            same_bin(count, self@.value_at(x@)),
            count matches Some(c) ==> c <= MAX_SAMPLES,
    {
        self.value_at(Wide::from_ratio(x))
    }

    /// The count of the bin that holds the point `x`.
    pub fn value_at(&self, x: Wide) -> (count: Option<usize>)
        requires
            self.wf(),
            x.wf(),
        ensures
            same_bin(count, self@.value_at(x@)),
            count matches Some(c) ==> c <= MAX_SAMPLES,
    {
        if self.bins.len() == 0 || self.values.len() == 0 {
            return None;
        }
        match self.bin_at(x) {
            Some(bin) => if bin < self.values.len() {
                assert(self@.counts[bin as int] == self.values@[bin as int]);
                Some(self.values[bin])
            } else {
                None
            },
            None => Some(0),
        }
    }

    /// Sets the boundaries of ten bins of equal width that reach from `x_min` to
    /// just above `x_max`, and empties every bin.
    pub fn reset_bins(&mut self, x_min: i32, x_max: i32)
        requires
            x_min <= x_max,
        ensures
            final(self).wf(),
            final(self)@.bins == boundaries(x_min as int, x_max as int),
            final(self)@.counts == Seq::new(BIN_COUNT as nat, |i: int| 0int),
    {
        let step: i64 = (x_max as i64 - x_min as i64) * 1001;
        let base: i64 = (x_min as i64) * 10000;
        let mut bins: Vec<Ratio> = Vec::new();
        let mut i: usize = 0;
        while i <= BIN_COUNT
            invariant
                i <= BIN_COUNT + 1,
                bins@.len() == i,
                step == (x_max - x_min) * 1001,
                base == x_min * 10000,
                x_min <= x_max,
                forall|k: int| 0 <= k < i ==> (#[trigger] bins@[k])@ == boundary(x_min as int, x_max as int, k),
            decreases BIN_COUNT + 1 - i,
        {
            assert(0 <= (i as int) * (step as int) <= 10 * step) by (nonlinear_arith)
                requires
                    0 <= i <= 10,
                    0 <= step,
            ;
            bins.push(Ratio { num: base + (i as i64) * step, den: BIN_DEN });
            i = i + 1;
        }
        self.bins = bins;
        self.values = vec![0usize; BIN_COUNT];
        proof {
            assert(self@.bins =~= boundaries(x_min as int, x_max as int));
            assert(self@.counts =~= Seq::new(BIN_COUNT as nat, |i: int| 0int));
            assert forall|k: int| 0 <= k < self@.bins.len() implies bound_fits(#[trigger] self@.bins[k]) by {
                assert(0 <= k * ((x_max - x_min) * 1001) <= 10 * ((x_max - x_min) * 1001))
                    by (nonlinear_arith)
                    requires
                        0 <= k <= 10,
                        0 <= (x_max - x_min) * 1001,
                ;
            }
            assert forall|i: int, j: int| 0 <= i <= j < self@.bins.len() implies (
            #[trigger] self@.bins[i]).le(#[trigger] self@.bins[j]) by {
                lemma_boundaries_ascend(x_min as int, x_max as int, i, j);
            }
        }
    }

    /// Counts each of `input` in the bin that holds it. A value that no bin holds is
    /// not counted.
    pub fn add_values(&mut self, input: &[i32])
        requires
            old(self).wf(),
            old(self)@.bins.len() > 0,
            forall|i: int|
                0 <= i < old(self)@.counts.len() ==> #[trigger] old(self)@.counts[i] + input@.len()
                    <= MAX_SAMPLES,
        ensures
            final(self).wf(),
            final(self)@.bins == old(self)@.bins,
            final(self)@.counts.len() == old(self)@.counts.len(),
            forall|i: int|
                0 <= i < old(self)@.counts.len() ==> #[trigger] final(self)@.counts[i] == old(
                    self,
                )@.counts[i] + hits(input@, old(self)@.bins, i),
            total(final(self)@.counts) == total(old(self)@.counts) + binned(
                input@,
                old(self)@.bins,
            ),
    {
        let ghost before = self@;
        let mut k: usize = 0;
        assert(input@.take(0) =~= Seq::empty());
        while k < input.len()
            invariant
                k <= input.len(),
                before.wf(),
                self.wf(),
                before.bins.len() > 0,
                self@.bins == before.bins,
                self@.counts.len() == before.counts.len(),
                forall|i: int|
                    0 <= i < before.counts.len() ==> #[trigger] before.counts[i] + input@.len()
                        <= MAX_SAMPLES,
                forall|i: int|
                    0 <= i < before.counts.len() ==> #[trigger] self@.counts[i] == before.counts[i]
                        + hits(input@.take(k as int), before.bins, i),
                total(self@.counts) == total(before.counts) + binned(
                    input@.take(k as int),
                    before.bins,
                ),
            decreases input.len() - k,
        {
            let ghost prefix = input@.take(k as int);
            let ghost next = input@.take(k + 1);
            assert(next.drop_last() =~= prefix);
            assert(next.last() == input@[k as int]);
            let found: Option<usize> = self.get_bin(Ratio::whole(input[k] as i64));
            match found {
                Some(bin) => {
                    proof {
                        lemma_hits_bound(prefix, before.bins, bin as int);
                        lemma_total_update(self@.counts, bin as int);
                    }
                    let ghost counts = self@.counts;
                    let count: usize = self.values[bin];
                    self.values[bin] = count + 1;
                    assert(self@.counts =~= counts.update(bin as int, counts[bin as int] + 1));
                    assert(self@.bins =~= before.bins);
                    assert forall|i: int| 0 <= i < self@.counts.len() implies 0
                        <= #[trigger] self@.counts[i] <= MAX_SAMPLES by {
                        lemma_hits_bound(prefix, before.bins, i);
                        assert(counts[i] == before.counts[i] + hits(prefix, before.bins, i));
                    }
                },
                None => {},
            }
            k = k + 1;
        }
        assert(input@.take(input.len() as int) =~= input@);
        proof {
            assert forall|i: int| 0 <= i < self@.counts.len() implies 0 <= #[trigger] self@.counts[i]
                <= MAX_SAMPLES by {
                lemma_hits_bound(input@, before.bins, i);
                assert(self@.counts[i] == before.counts[i] + hits(input@, before.bins, i));
            }
        }
    }

    /// Draws the histogram: for each column of the canvas in turn, the count at the
    /// point of the x-axis that the column starts at is marked with `label`. A
    /// histogram without bins draws nothing. The first count that does not fit the
    /// canvas is reported, and ends the drawing.
    pub fn draw_into(&self, canvas: &mut Canvas, label: u8) -> (r: Result<(), CanvasError>)
        requires
            self.wf(),
            old(canvas).wf(),
        ensures
            final(canvas).wf(),
            final(canvas)@ == self@.drawn(old(canvas)@, label).plane,
            agrees(r, self@.drawn(old(canvas)@, label).fault),
    {
        let ghost before = canvas@;
        let width: usize = canvas.width();
        let mut a: usize = 0;
        while a < width
            invariant
                a <= width,
                width == before.width,
                before == old(canvas)@,
                self.wf(),
                canvas.wf(),
                canvas@.width == before.width,
                each_drawn(before, self@.column_step(label), a as int) == (Drawn {
                    plane: canvas@,
                    fault: None,
                }),
            decreases width - a,
        {
            let x: Wide = canvas.sample_point(a);
            let ghost now = canvas@;
            assert(each_drawn(before, self@.column_step(label), a + 1) == self@.column_step(label)(
                now,
                a as int,
            ));
            match self.value_at(x) {
                Some(count) => {
                    let r = canvas.draw_at_step(a, Ratio::whole(count as i64), label);
                    match r {
                        Ok(_) => {},
                        Err(e) => {
                            proof {
                                lemma_each_drawn_stops(
                                    before,
                                    self@.column_step(label),
                                    a + 1,
                                    width as int,
                                );
                            }
                            return Err(e);
                        },
                    }
                },
                None => {},
            }
            a = a + 1;
        }
        Ok(())
    }
}

/// An index or a count, if there is one, is the same number on both sides.
pub open spec fn same_bin(found: Option<usize>, bin: Option<int>) -> bool {
    match found {
        Some(i) => bin == Some(i as int),
        None => bin is None,
    }
}

} // verus!
