//! The canvas: a grid of characters with an interval of values along each axis.

use vstd::prelude::*;
use crate::error::CanvasError;
use crate::error::Fault;
use crate::error::agrees;
use crate::error::cell_message;
use crate::error::value_message;
use crate::mapper::abscissa;
use crate::mapper::cell_index;
use crate::mapper::get_cell;
use crate::mapper::lemma_abscissa_cell;
use crate::mapper::mul_div_round;
use crate::ratio::Frac;
use crate::ratio::Ratio;
use crate::ratio::Wide;
use crate::text::push_char;

verus! {

/// The largest number of rows, and of columns, that a canvas can have.
pub const MAX_SIDE: usize = 65535;

/// The largest numerator of an axis bound.
pub const MAX_BOUND: i64 = 0x100_0000_0000_0000;

/// The largest denominator of an axis bound.
pub const MAX_BOUND_DEN: u32 = 0x80_0000;

/// The largest margin, in hundredths of the span of the values to show.
pub const MAX_MARGIN: u8 = 100;

/// The blank character that fills a canvas nothing was drawn on.
pub const BLANK: u8 = 32;

/// The character `+`: a tick on an axis, the crossing of the axes, an outlier.
pub const PLUS: u8 = 43;

/// The character `-`: the run of the x-axis, a whisker, the edge of a box.
pub const DASH: u8 = 45;

/// The character `|`: the run of the y-axis, a quartile or the end of a whisker.
pub const BAR: u8 = 124;

/// A canvas as contracts see it: the characters row by row, top row first, and the
/// interval of values that each axis stands for. An interval `(lo, hi)` with
/// `lo < hi` is proper; any other holds no value, which is how a canvas starts out.
pub struct Plane {
    pub cells: Seq<Seq<u8>>,
    pub height: int,
    pub width: int,
    pub x_range: (Frac, Frac),
    pub y_range: (Frac, Frac),
    /// The room left around the values when an interval is set from them, in
    /// hundredths of their span.
    pub margin: int,
}

/// What a drawing operation leaves behind: the canvas, and the fault it stopped at,
/// if it did.
pub struct Drawn {
    pub plane: Plane,
    pub fault: Option<Fault>,
}

/// `bound` can be the end of an axis interval.
pub open spec fn bound_fits(bound: Frac) -> bool {
    &&& 1 <= bound.den <= MAX_BOUND_DEN
    &&& -MAX_BOUND <= bound.num <= MAX_BOUND
}

/// `height` rows of `width` blanks.
pub open spec fn blank_cells(height: int, width: int) -> Seq<Seq<u8>> {
    Seq::new(height as nat, |i: int| Seq::new(width as nat, |j: int| BLANK))
}

impl Plane {
    /// The canvas has at least one cell, every row has `width` characters, and the
    /// bounds of both axes are well formed.
    pub open spec fn wf(self) -> bool {
        &&& 1 <= self.height <= MAX_SIDE
        &&& 1 <= self.width <= MAX_SIDE
        &&& self.cells.len() == self.height
        &&& forall|i: int| 0 <= i < self.height ==> (#[trigger] self.cells[i]).len() == self.width
        &&& bound_fits(self.x_range.0)
        &&& bound_fits(self.x_range.1)
        &&& bound_fits(self.y_range.0)
        &&& bound_fits(self.y_range.1)
        &&& 0 <= self.margin <= MAX_MARGIN
    }

    /// A blank canvas of the given size whose axes hold no value yet, without a
    /// margin.
    pub open spec fn fresh(height: int, width: int) -> Plane {
        Plane {
            cells: blank_cells(height, width),
            height,
            width,
            x_range: (Frac::whole(0), Frac::whole(0)),
            y_range: (Frac::whole(0), Frac::whole(0)),
            margin: 0,
        }
    }

    /// The same canvas with every cell blank.
    pub open spec fn cleared(self) -> Plane {
        Plane { cells: blank_cells(self.height, self.width), ..self }
    }

    /// Writes `value` to the cell `(line, column)`; a cell outside the canvas is a
    /// fault and leaves the canvas as it is.
    pub open spec fn put(self, line: int, column: int, value: u8) -> Drawn {
        if 0 <= line < self.height && 0 <= column < self.width {
            Drawn {
                plane: Plane {
                    cells: self.cells.update(line, self.cells[line].update(column, value)),
                    ..self
                },
                fault: None,
            }
        } else {
            Drawn {
                plane: self,
                fault: Some(
                    Fault::Cell { line, column, height: self.height, width: self.width },
                ),
            }
        }
    }

    /// The column of the value `x` on the x-axis.
    pub open spec fn column_of(self, x: Frac) -> Result<int, Fault> {
        locate(x, self.x_range.0, self.x_range.1, self.width)
    }

    /// The level of the value `y` on the y-axis, counted upwards from the bottom.
    pub open spec fn level_of(self, y: Frac) -> Result<int, Fault> {
        locate(y, self.y_range.0, self.y_range.1, self.height)
    }

    /// Draws `value` at the point `(x, y)`: in the column of `x`, and as many rows
    /// above the bottom edge as the level of `y` says, so that a larger `y` lands
    /// nearer the top. The level is looked up first, then the column.
    pub open spec fn mark(self, x: Frac, y: Frac, value: u8) -> Drawn {
        match self.level_of(y) {
            Err(fault) => Drawn { plane: self, fault: Some(fault) },
            Ok(level) => match self.column_of(x) {
                Err(fault) => Drawn { plane: self, fault: Some(fault) },
                Ok(column) => self.put(self.height - level, column, value),
            },
        }
    }

    /// The point of the x-axis interval that lies `step` cell widths above its lower
    /// bound.
    pub open spec fn sample_point(self, step: int) -> Frac {
        abscissa(self.x_range.0, self.x_range.1, step, self.width)
    }

    /// The span of the values from `min` to `max` with the margin on both sides, in
    /// hundredths of a unit: `(100 + 2 * margin) * (max - min)`.
    pub open spec fn padded_span(self, min: int, max: int) -> int {
        (100 + 2 * self.margin) * (max - min)
    }

    /// The x-axis interval set from the least and the largest value to show. The
    /// margin is left on either side of them, and one cell width more, where a cell
    /// width is the `width`-th part of the span of the values with their margins.
    pub open spec fn with_x_range(self, x_min: int, x_max: int) -> Plane {
        let side = 100 * self.width;
        let room = self.margin * (x_max - x_min) * self.width + self.padded_span(x_min, x_max);
        Plane {
            x_range: (
                Frac { num: x_min * side - room, den: side },
                Frac { num: x_max * side + room, den: side },
            ),
            ..self
        }
    }

    /// The y-axis interval set from the least and the largest value to show. The
    /// margin is left on either side of them, and below them two cell heights more,
    /// where a cell height is the `height`-th part of the span of the values with
    /// their margins.
    pub open spec fn with_y_range(self, y_min: int, y_max: int) -> Plane {
        let side = 100 * self.height;
        let room = self.margin * (y_max - y_min) * self.height;
        Plane {
            y_range: (
                Frac { num: y_min * side - room - 2 * self.padded_span(y_min, y_max), den: side },
                Frac { num: y_max * side + room, den: side },
            ),
            ..self
        }
    }

    /// The column in which the y-axis is drawn: that of `x = 0`; where the x-axis
    /// interval does not hold zero, the last column if the interval ends below zero,
    /// else the first.
    pub open spec fn axis_column(self) -> int {
        match self.column_of(Frac::whole(0)) {
            Ok(column) => column,
            Err(_) => if self.x_range.1.lt(Frac::whole(0)) {
                self.width - 1
            } else {
                0
            },
        }
    }

    /// The row in which the x-axis is drawn: the level of `y = 0`, taken as a row;
    /// where the y-axis interval does not hold zero, the first row if the interval
    /// ends below zero, else the last.
    pub open spec fn axis_row(self) -> int {
        match self.level_of(Frac::whole(0)) {
            Ok(level) => level,
            Err(_) => if self.y_range.1.lt(Frac::whole(0)) {
                0
            } else {
                self.height - 1
            },
        }
    }

    /// The character of the cell `(line, column)` once the axes are drawn: `+` where
    /// they cross; along either axis `+` on every fifth cell counted from the
    /// crossing and a dash or a bar between; elsewhere what was there.
    pub open spec fn axes_cell(self, line: int, column: int) -> u8 {
        let row = self.axis_row();
        let col = self.axis_column();
        if column == col {
            if (line - row) % 5 == 0 {
                PLUS
            } else {
                BAR
            }
        } else if line == row {
            if (column - col) % 5 == 0 {
                PLUS
            } else {
                DASH
            }
        } else {
            self.cells[line][column]
        }
    }

    /// The canvas with both axes drawn over it.
    pub open spec fn with_axes(self) -> Plane {
        Plane {
            cells: Seq::new(
                self.height as nat,
                |i: int| Seq::new(self.width as nat, |j: int| self.axes_cell(i, j)),
            ),
            ..self
        }
    }

    /// The canvas as text: one line per row, top row first, each ended by a line
    /// break.
    pub open spec fn text(self) -> Seq<char> {
        rows_text(self.cells)
    }
}

/// The canvas after the first `upto` steps of a drawing, where `step(plane, i)` is
/// what the `i`-th step makes of `plane`. The first fault ends the drawing: the steps
/// after it are not taken.
pub open spec fn each_drawn(plane: Plane, step: spec_fn(Plane, int) -> Drawn, upto: int) -> Drawn
    decreases upto,
{
    if upto <= 0 {
        Drawn { plane, fault: None }
    } else {
        let before = each_drawn(plane, step, upto - 1);
        if before.fault is Some {
            before
        } else {
            step(before.plane, upto - 1)
        }
    }
}

/// The two canvases have the same size, the same axis intervals and the same margin.
pub open spec fn same_frame(a: Plane, b: Plane) -> bool {
    &&& a.height == b.height
    &&& a.width == b.width
    &&& a.x_range == b.x_range
    &&& a.y_range == b.y_range
    &&& a.margin == b.margin
}

/// No step changes the size of a canvas, its axis intervals or its margin.
pub open spec fn keeps_frame(step: spec_fn(Plane, int) -> Drawn) -> bool {
    forall|plane: Plane, i: int| same_frame(#[trigger] step(plane, i).plane, plane)
}

/// A fault ends a drawing: later steps change nothing.
pub proof fn lemma_each_drawn_stops(
    plane: Plane,
    step: spec_fn(Plane, int) -> Drawn,
    at: int,
    upto: int,
)
    requires
        at <= upto,
        each_drawn(plane, step, at).fault is Some,
    ensures
        each_drawn(plane, step, upto) == each_drawn(plane, step, at),
    decreases upto - at,
{
    if at < upto {
        lemma_each_drawn_stops(plane, step, at, upto - 1);
    }
}

/// A drawing whose steps keep the frame keeps it.
pub proof fn lemma_each_drawn_frame(plane: Plane, step: spec_fn(Plane, int) -> Drawn, upto: int)
    requires
        keeps_frame(step),
    ensures
        same_frame(each_drawn(plane, step, upto).plane, plane),
    decreases upto,
{
    if upto > 0 {
        lemma_each_drawn_frame(plane, step, upto - 1);
    }
}

/// The cell, among `side`, of the value `x` on the interval from `lo` to `hi`. An
/// interval that is not proper holds no value.
pub open spec fn locate(x: Frac, lo: Frac, hi: Frac, side: int) -> Result<int, Fault> {
    if lo.lt(hi) && lo.le(x) && x.le(hi) {
        Ok(cell_index(x, lo, hi, side))
    } else {
        Err(Fault::Value { x, lo, hi })
    }
}

/// One row as text: each byte is the character of that code.
pub open spec fn row_text(row: Seq<u8>) -> Seq<char> {
    Seq::new(row.len(), |j: int| row[j] as char)
}

/// The rows as text, each followed by a line break.
pub open spec fn rows_text(rows: Seq<Seq<u8>>) -> Seq<char>
    decreases rows.len(),
{
    if rows.len() == 0 {
        Seq::empty()
    } else {
        rows_text(rows.drop_last()) + row_text(rows.last()).push('\n')
    }
}


/// Where to plot: a grid of characters, blank at first, and the interval of values
/// that each axis stands for.
#[derive(Debug)]
pub struct Canvas {
    cells: Vec<Vec<u8>>,
    width: usize,
    height: usize,
    x_range: (Ratio, Ratio),
    y_range: (Ratio, Ratio),
    margin: u8,
}

impl View for Canvas {
    type V = Plane;

    closed spec fn view(&self) -> Plane {
        Plane {
            cells: Seq::new(self.cells@.len(), |i: int| self.cells@[i]@),
            height: self.height as int,
            width: self.width as int,
            x_range: (self.x_range.0@, self.x_range.1@),
            y_range: (self.y_range.0@, self.y_range.1@),
            margin: self.margin as int,
        }
    }
}

impl Canvas {
    /// The canvas is well formed: see [`Plane::wf`].
    pub open spec fn wf(&self) -> bool {
        self@.wf()
    }

    /// A blank canvas of 25 rows and 80 columns.
    pub fn new() -> (canvas: Canvas)
        ensures
            canvas.wf(),
            canvas@ == Plane::fresh(25, 80),
    {
        Canvas::from_size(25, 80)
    }

    /// A blank canvas of `height` rows and `width` columns.
    pub fn from_size(height: usize, width: usize) -> (canvas: Canvas)
        requires
            1 <= height <= MAX_SIDE,
            1 <= width <= MAX_SIDE,
        ensures
            canvas.wf(),
            canvas@ == Plane::fresh(height as int, width as int),
    {
        let cells = blank_rows(height, width);
        let canvas = Canvas {
            cells,
            width,
            height,
            x_range: (Ratio::whole(0), Ratio::whole(0)),
            y_range: (Ratio::whole(0), Ratio::whole(0)),
            margin: 0,
        };
        assert(canvas@.cells =~~= blank_cells(height as int, width as int));
        canvas
    }

    /// Removes the drawing. The size, both axis intervals and the margin stay.
    pub fn clear(&mut self)
        requires
            old(self).wf(),
        ensures
            final(self).wf(),
            final(self)@ == old(self)@.cleared(),
    {
        self.cells = blank_rows(self.height, self.width);
        assert(self@.cells =~~= blank_cells(self.height as int, self.width as int));
    }

    /// The number of rows.
    pub fn height(&self) -> (h: usize)
        ensures
            h == self@.height,
    {
        self.height
    }

    /// The number of columns.
    pub fn width(&self) -> (w: usize)
        ensures
            w == self@.width,
    {
        self.width
    }

    /// The interval of values along the x-axis.
    pub fn x_range(&self) -> (range: (Ratio, Ratio))
        ensures
            range.0@ == self@.x_range.0,
            range.1@ == self@.x_range.1,
    {
        self.x_range
    }

    /// The interval of values along the y-axis.
    pub fn y_range(&self) -> (range: (Ratio, Ratio))
        ensures
            range.0@ == self@.y_range.0,
            range.1@ == self@.y_range.1,
    {
        self.y_range
    }

    /// The character in the cell `(line, column)`, if the canvas has that cell.
    pub fn cell(&self, line: usize, column: usize) -> (value: Option<u8>)
        requires
            self.wf(),
        ensures
            value == if line < self@.height && column < self@.width {
                Some(self@.cells[line as int][column as int])
            } else {
                None
            },
    {
        if line < self.height && column < self.width {
            assert(self@.cells[line as int].len() == self.width);
            Some(self.cells[line][column])
        } else {
            None
        }
    }

    /// Puts `value` in the cell `(line, column)`. A cell outside the canvas is
    /// reported as out of range, and nothing is written.
    pub fn set_cell(&mut self, line: usize, column: usize, value: u8) -> (r: Result<
        (),
        CanvasError,
    >)
        requires
            old(self).wf(),
        ensures
            final(self).wf(),
            final(self)@ == old(self)@.put(line as int, column as int, value).plane,
            agrees(r, old(self)@.put(line as int, column as int, value).fault),
    {
        if line < self.height && column < self.width {
            assert(self@.cells[line as int].len() == self.width);
            self.cells[line][column] = value;
            assert(self@.cells =~~= old(self)@.put(line as int, column as int, value).plane.cells);
            Ok(())
        } else {
            Err(CanvasError::OutOfRange(cell_message(line, column, self.height, self.width)))
        }
    }

    /// The room left around the values when an interval is set from them, in
    /// hundredths of their span.
    pub fn margin(&self) -> (margin: u8)
        ensures
            margin == self@.margin,
    {
        self.margin
    }

    /// Sets the room to leave around the values when an interval is set from them,
    /// in hundredths of their span. The intervals that are set stay as they are.
    pub fn set_margin(&mut self, margin: u8)
        requires
            old(self).wf(),
            margin <= MAX_MARGIN,
        ensures
            final(self).wf(),
            final(self)@ == (Plane { margin: margin as int, ..old(self)@ }),
    {
        self.margin = margin;
    }

    /// Sets the interval of the x-axis from the least and the largest value to show.
    /// The margin and one cell width of room are left on either side of them.
    pub fn set_x_range(&mut self, x_min: i32, x_max: i32)
        requires
            old(self).wf(),
            x_min < x_max,
        ensures
            final(self).wf(),
            final(self)@ == old(self)@.with_x_range(x_min as int, x_max as int),
            final(self)@.x_range.0.lt(final(self)@.x_range.1),
    {
        let cells: i64 = self.width as i64;
        let side: i64 = 100 * cells;
        let span: i64 = x_max as i64 - x_min as i64;
        let margin: i64 = self.margin as i64;
        proof {
            lemma_range_parts(x_min as int, x_max as int, cells as int, margin as int);
        }
        let room: i64 = margin * span * cells + (100 + 2 * margin) * span;
        let lo: i64 = x_min as i64 * side - room;
        let hi: i64 = x_max as i64 * side + room;
        assert(lo * side < hi * side) by (nonlinear_arith)
            requires
                lo < hi,
                side > 0,
        ;
        self.x_range = (Ratio { num: lo, den: side as u32 }, Ratio { num: hi, den: side as u32 });
    }

    /// Sets the interval of the y-axis from the least and the largest value to show.
    /// The margin is left on either side of them, and two cell heights of room
    /// below.
    pub fn set_y_range(&mut self, y_min: i32, y_max: i32)
        requires
            old(self).wf(),
            y_min < y_max,
        ensures
            final(self).wf(),
            final(self)@ == old(self)@.with_y_range(y_min as int, y_max as int),
            final(self)@.y_range.0.lt(final(self)@.y_range.1),
    {
        let cells: i64 = self.height as i64;
        let side: i64 = 100 * cells;
        let span: i64 = y_max as i64 - y_min as i64;
        let margin: i64 = self.margin as i64;
        proof {
            lemma_range_parts(y_min as int, y_max as int, cells as int, margin as int);
        }
        let room: i64 = margin * span * cells;
        let slack: i64 = (100 + 2 * margin) * span;
        let lo: i64 = y_min as i64 * side - room - 2 * slack;
        let hi: i64 = y_max as i64 * side + room;
        assert(lo * side < hi * side) by (nonlinear_arith)
            requires
                lo < hi,
                side > 0,
        ;
        self.y_range = (Ratio { num: lo, den: side as u32 }, Ratio { num: hi, den: side as u32 });
    }

    /// Sets the interval of the x-axis to run from `lo` to `hi` exactly.
    pub fn set_x_bounds(&mut self, lo: Ratio, hi: Ratio)
        requires
            old(self).wf(),
            bound_fits(lo@),
            bound_fits(hi@),
        ensures
            final(self).wf(),
            final(self)@ == (Plane { x_range: (lo@, hi@), ..old(self)@ }),
    {
        self.x_range = (lo, hi);
    }

    /// Sets the interval of the y-axis to run from `lo` to `hi` exactly.
    pub fn set_y_bounds(&mut self, lo: Ratio, hi: Ratio)
        requires
            old(self).wf(),
            bound_fits(lo@),
            bound_fits(hi@),
        ensures
            final(self).wf(),
            final(self)@ == (Plane { y_range: (lo@, hi@), ..old(self)@ }),
    {
        self.y_range = (lo, hi);
    }

    /// The column of the value `x` on the x-axis, or the report that the axis does
    /// not hold it.
    pub fn column_of(&self, x: Ratio) -> (r: Result<usize, CanvasError>)
        requires
            self.wf(),
            x.wf(),
        ensures
            found(r, self@.column_of(x@)),
            r matches Ok(column) ==> column < self@.width,
    {
        locate_on(x, self.x_range.0, self.x_range.1, self.width)
    }

    /// The level of the value `y` on the y-axis, counted upwards from the bottom, or
    /// the report that the axis does not hold it.
    pub fn level_of(&self, y: Ratio) -> (r: Result<usize, CanvasError>)
        requires
            self.wf(),
            y.wf(),
        ensures
            found(r, self@.level_of(y@)),
            r matches Ok(level) ==> level < self@.height,
    {
        locate_on(y, self.y_range.0, self.y_range.1, self.height)
    }

    /// Puts `value` at the point `(x, y)`. A coordinate outside its axis interval,
    /// or a point that falls below the last row, is reported as out of range.
    pub fn draw_value(&mut self, x: Ratio, y: Ratio, value: u8) -> (r: Result<(), CanvasError>)
        requires
            old(self).wf(),
            x.wf(),
            y.wf(),
        ensures
            final(self).wf(),
            final(self)@ == old(self)@.mark(x@, y@, value).plane,
            agrees(r, old(self)@.mark(x@, y@, value).fault),
    {
        let level: usize = match self.level_of(y) {
            Ok(level) => level,
            Err(e) => {
                return Err(e);
            },
        };
        let column: usize = match self.column_of(x) {
            Ok(column) => column,
            Err(e) => {
                return Err(e);
            },
        };
        self.set_cell(self.height - level, column, value)
    }

    /// The point of the x-axis interval that lies `step` cell widths above its lower
    /// bound.
    pub fn sample_point(&self, step: usize) -> (point: Wide)
        requires
            self.wf(),
            step <= self@.width,
        ensures
            point@ == self@.sample_point(step as int),
            point.wf(),
    {
        let lo: Ratio = self.x_range.0;
        let hi: Ratio = self.x_range.1;
        let side: i128 = self.width as i128;
        proof {
            lemma_sample_point_fits(lo@, hi@, step as int, side as int);
        }
        let run: i128 = (hi.num as i128) * (lo.den as i128) - (lo.num as i128) * (hi.den as i128);
        let base: i128 = (lo.num as i128) * (hi.den as i128);
        let num: i128 = base * side + (step as i128) * run;
        let unit: i128 = (hi.den as i128) * (lo.den as i128);
        let den: i128 = unit * side;
        Wide { num, den }
    }

    /// The column of the point that lies `step` cell widths above the lower bound of
    /// the x-axis interval.
    pub fn step_column(&self, step: usize) -> (r: Result<usize, CanvasError>)
        requires
            self.wf(),
            step <= self@.width,
        ensures
            found(r, self@.column_of(self@.sample_point(step as int))),
            r matches Ok(column) ==> column < self@.width,
    {
        let lo: Ratio = self.x_range.0;
        let hi: Ratio = self.x_range.1;
        if lo.lt(hi) {
            proof {
                lemma_abscissa_cell(lo@, hi@, step as int, self.width as int, self.width as int);
            }
            let column: u64 = mul_div_round((self.width - 1) as u64, step as u128, self.width as u128);
            Ok(column as usize)
        } else {
            let point: Wide = self.sample_point(step);
            Err(CanvasError::OutOfRange(value_message(point, lo, hi)))
        }
    }

    /// Puts `value` above the point of the x-axis that lies `step` cell widths above
    /// its lower bound, at the height `y`.
    pub fn draw_at_step(&mut self, step: usize, y: Ratio, value: u8) -> (r: Result<
        (),
        CanvasError,
    >)
        requires
            old(self).wf(),
            step <= old(self)@.width,
            y.wf(),
        ensures
            final(self).wf(),
            final(self)@ == old(self)@.mark(old(self)@.sample_point(step as int), y@, value).plane,
            agrees(r, old(self)@.mark(old(self)@.sample_point(step as int), y@, value).fault),
    {
        let level: usize = match self.level_of(y) {
            Ok(level) => level,
            Err(e) => {
                return Err(e);
            },
        };
        let column: usize = match self.step_column(step) {
            Ok(column) => column,
            Err(e) => {
                return Err(e);
            },
        };
        self.set_cell(self.height - level, column, value)
    }

    /// Draws the axes: a dashed line along the row of `y = 0` and a barred line along
    /// the column of `x = 0`, each with a `+` on every fifth cell counted from where
    /// they cross, and a `+` at the crossing. An axis whose interval does not hold
    /// zero is drawn along the nearer edge. This never fails.
    pub fn draw_axes(&mut self) -> (r: Result<(), CanvasError>)
        requires
            old(self).wf(),
        ensures
            r is Ok,
            final(self).wf(),
            final(self)@ == old(self)@.with_axes(),
            final(self)@.cells[old(self)@.axis_row()][old(self)@.axis_column()] == PLUS,
            0 <= old(self)@.axis_row() < old(self)@.height,
            0 <= old(self)@.axis_column() < old(self)@.width,
    {
        let ghost before = self@;
        let zero: Ratio = Ratio::whole(0);
        let col: usize = match self.column_of(zero) {
            Ok(column) => column,
            Err(_) => if self.x_range.1.lt(zero) {
                self.width - 1
            } else {
                0
            },
        };
        let row: usize = match self.level_of(zero) {
            Ok(level) => level,
            Err(_) => if self.y_range.1.lt(zero) {
                0
            } else {
                self.height - 1
            },
        };
        assert(col == before.axis_column() && row == before.axis_row());
        let mut j: usize = 0;
        while j < self.width
            invariant
                self.wf(),
                before.wf(),
                j <= self.width,
                row < self.height,
                col < self.width,
                self@ == (Plane { cells: self@.cells, ..before }),
                forall|a: int, b: int|
                    0 <= a < before.height && 0 <= b < before.width ==> #[trigger] self@.cells[a][b]
                        == if a == row && b < j {
                        if (b - col) % 5 == 0 {
                            PLUS
                        } else {
                            DASH
                        }
                    } else {
                        before.cells[a][b]
                    },
            decreases self.width - j,
        {
            let on_tick: bool = if j >= col {
                (j - col) % 5 == 0
            } else {
                (col - j) % 5 == 0
            };
            let c: u8 = if on_tick {
                PLUS
            } else {
                DASH
            };
            match self.set_cell(row, j, c) {
                Ok(_) => {},
                Err(e) => {
                    return Err(e);
                },
            }
            j = j + 1;
        }
        let mut i: usize = 0;
        while i < self.height
            invariant
                self.wf(),
                before.wf(),
                i <= self.height,
                row < self.height,
                col < self.width,
                self@ == (Plane { cells: self@.cells, ..before }),
                forall|a: int, b: int|
                    0 <= a < before.height && 0 <= b < before.width ==> #[trigger] self@.cells[a][b]
                        == if b == col && a < i {
                        if (a - row) % 5 == 0 {
                            PLUS
                        } else {
                            BAR
                        }
                    } else if a == row {
                        if (b - col) % 5 == 0 {
                            PLUS
                        } else {
                            DASH
                        }
                    } else {
                        before.cells[a][b]
                    },
            decreases self.height - i,
        {
            let on_tick: bool = if i >= row {
                (i - row) % 5 == 0
            } else {
                (row - i) % 5 == 0
            };
            let c: u8 = if on_tick {
                PLUS
            } else {
                BAR
            };
            match self.set_cell(i, col, c) {
                Ok(_) => {},
                Err(e) => {
                    return Err(e);
                },
            }
            i = i + 1;
        }
        match self.set_cell(row, col, PLUS) {
            Ok(_) => {},
            Err(e) => {
                return Err(e);
            },
        }
        assert(self@.cells =~~= before.with_axes().cells);
        Ok(())
    }

    /// The canvas as text: one line per row, top row first, each ended by a line
    /// break. A cell shows as the character whose code it holds.
    pub fn to_string(&self) -> (text: String)
        requires
            self.wf(),
        ensures
            text@ == self@.text(),
    {
        let mut text: String = String::new();
        let mut i: usize = 0;
        while i < self.height
            invariant
                self.wf(),
                i <= self.height,
                text@ == rows_text(self@.cells.take(i as int)),
            decreases self.height - i,
        {
            let ghost done = text@;
            let mut j: usize = 0;
            assert(self@.cells[i as int].len() == self.width);
            while j < self.width
                invariant
                    self.wf(),
                    i < self.height,
                    j <= self.width,
                    self.cells@[i as int]@.len() == self.width,
                    text@ == done + row_text(self@.cells[i as int].take(j as int)),
                decreases self.width - j,
            {
                let b: u8 = self.cells[i][j];
                push_char(&mut text, b as char);
                assert(row_text(self@.cells[i as int].take(j + 1)) =~= row_text(
                    self@.cells[i as int].take(j as int),
                ).push(b as char));
                j = j + 1;
            }
            push_char(&mut text, '\n');
            proof {
                let rows = self@.cells.take(i + 1);
                assert(rows.drop_last() =~= self@.cells.take(i as int));
                assert(rows.last() == self@.cells[i as int]);
                assert(self@.cells[i as int].take(self.width as int) =~= self@.cells[i as int]);
                assert(text@ =~= rows_text(rows));
            }
            i = i + 1;
        }
        assert(self@.cells.take(self.height as int) =~= self@.cells);
        text
    }
}

/// The outcome `r` of a lookup agrees with what the lookup is: the same cell, or the
/// error that reports the same fault.
pub open spec fn found(r: Result<usize, CanvasError>, cell: Result<int, Fault>) -> bool {
    match r {
        Ok(c) => cell matches Ok(k) && c == k,
        Err(e) => cell matches Err(f) && e.reports(f),
    }
}

/// The cell, among `side`, of `x` on the interval from `lo` to `hi`.
fn locate_on(x: Ratio, lo: Ratio, hi: Ratio, side: usize) -> (r: Result<usize, CanvasError>)
    requires
        x.wf(),
        lo.wf(),
        hi.wf(),
        side >= 1,
    ensures
        found(r, locate(x@, lo@, hi@, side as int)),
        r matches Ok(c) ==> c < side,
{
    if lo.lt(hi) {
        get_cell(x, lo, hi, side)
    } else {
        Err(CanvasError::OutOfRange(value_message(Wide::from_ratio(x), lo, hi)))
    }
}

/// The parts of an axis bound set from two 32-bit values stay well inside the room
/// of a bound.
proof fn lemma_range_parts(min: int, max: int, cells: int, margin: int)
    requires
        -0x8000_0000 <= min < max < 0x8000_0000,
        1 <= cells <= MAX_SIDE,
        0 <= margin <= MAX_MARGIN,
    ensures
        -0x40_0000_0000_0000 <= min * (100 * cells) <= 0x40_0000_0000_0000,
        -0x40_0000_0000_0000 <= max * (100 * cells) <= 0x40_0000_0000_0000,
        min * (100 * cells) < max * (100 * cells),
        0 <= margin * (max - min) <= 0x64_0000_0000,
        0 <= margin * (max - min) * cells <= 0x64_0000_0000_0000,
        0 <= (100 + 2 * margin) * (max - min) <= 0x12c_0000_0000,
{
    let span = max - min;
    assert(-0x40_0000_0000_0000 <= min * (100 * cells) <= 0x40_0000_0000_0000
        && -0x40_0000_0000_0000 <= max * (100 * cells) <= 0x40_0000_0000_0000) by (nonlinear_arith)
        requires
            -0x8000_0000 <= min < 0x8000_0000,
            -0x8000_0000 <= max < 0x8000_0000,
            100 <= 100 * cells <= 6553500,
    ;
    assert(min * (100 * cells) < max * (100 * cells)) by (nonlinear_arith)
        requires
            min < max,
            100 <= 100 * cells,
    ;
    assert(0 <= margin * span <= 0x64_0000_0000) by (nonlinear_arith)
        requires
            0 < span <= 0xffff_ffff,
            0 <= margin <= 100,
    ;
    assert(0 <= (margin * span) * cells <= 0x64_0000_0000_0000) by (nonlinear_arith)
        requires
            0 <= margin * span <= 0x64_0000_0000,
            1 <= cells <= 65535,
    ;
    assert(0 <= (100 + 2 * margin) * span <= 0x12c_0000_0000) by (nonlinear_arith)
        requires
            0 < span <= 0xffff_ffff,
            100 <= 100 + 2 * margin <= 300,
    ;
}

/// The parts of a point sampled along an axis whose bounds fit stay within 128 bits.
proof fn lemma_sample_point_fits(lo: Frac, hi: Frac, step: int, side: int)
    requires
        bound_fits(lo),
        bound_fits(hi),
        0 <= step <= side,
        1 <= side <= MAX_SIDE,
    ensures
        -0x1_0000_0000_0000_0000_0000 <= hi.num * lo.den <= 0x1_0000_0000_0000_0000_0000,
        -0x1_0000_0000_0000_0000_0000 <= lo.num * hi.den <= 0x1_0000_0000_0000_0000_0000,
        -0x1_0000_0000_0000_0000_0000_0000 <= (lo.num * hi.den) * side
            <= 0x1_0000_0000_0000_0000_0000_0000,
        -0x1_0000_0000_0000_0000_0000_0000 <= step * hi.above(lo)
            <= 0x1_0000_0000_0000_0000_0000_0000,
        0 < hi.den * lo.den <= 0x4000_0000_0000,
        0 < (hi.den * lo.den) * side <= 0x4000_0000_0000_0000,
        abscissa(lo, hi, step, side).num == (lo.num * hi.den) * side + step * hi.above(lo),
        abscissa(lo, hi, step, side).den == (hi.den * lo.den) * side,
{
    let a = lo.num * hi.den;
    let b = hi.num * lo.den;
    assert(-0x8000_0000_0000_0000_0000 <= a <= 0x8000_0000_0000_0000_0000) by (nonlinear_arith)
        requires
            a == lo.num * hi.den,
            -0x100_0000_0000_0000 <= lo.num <= 0x100_0000_0000_0000,
            1 <= hi.den <= 0x80_0000,
    ;
    assert(-0x8000_0000_0000_0000_0000 <= b <= 0x8000_0000_0000_0000_0000) by (nonlinear_arith)
        requires
            b == hi.num * lo.den,
            -0x100_0000_0000_0000 <= hi.num <= 0x100_0000_0000_0000,
            1 <= lo.den <= 0x80_0000,
    ;
    assert(-0x8000_0000_0000_0000_0000_0000 <= a * side <= 0x8000_0000_0000_0000_0000_0000)
        by (nonlinear_arith)
        requires
            -0x8000_0000_0000_0000_0000 <= a <= 0x8000_0000_0000_0000_0000,
            1 <= side <= 65535,
    ;
    let run = hi.above(lo);
    assert(-0x1_0000_0000_0000_0000_0000_0000 <= step * run <= 0x1_0000_0000_0000_0000_0000_0000)
        by (nonlinear_arith)
        requires
            -0x1_0000_0000_0000_0000_0000 <= run <= 0x1_0000_0000_0000_0000_0000,
            0 <= step <= 65535,
    ;
    let unit = hi.den * lo.den;
    assert(0 < unit <= 0x4000_0000_0000) by (nonlinear_arith)
        requires
            unit == hi.den * lo.den,
            1 <= hi.den <= 0x80_0000,
            1 <= lo.den <= 0x80_0000,
    ;
    assert(0 < unit * side <= 0x4000_0000_0000_0000) by (nonlinear_arith)
        requires
            0 < unit <= 0x4000_0000_0000,
            1 <= side <= 65535,
    ;
    assert(lo.num * hi.den * side == (lo.num * hi.den) * side);
    assert(hi.den * lo.den * side == (hi.den * lo.den) * side);
}

/// `height` rows of `width` blanks each.
fn blank_rows(height: usize, width: usize) -> (rows: Vec<Vec<u8>>)
    ensures
        rows@.len() == height,
        forall|i: int| 0 <= i < height ==> (#[trigger] rows@[i])@ == Seq::new(
            width as nat,
            |j: int| BLANK,
        ),
{
    let mut rows: Vec<Vec<u8>> = Vec::new();
    let mut i: usize = 0;
    while i < height
        invariant
            i <= height,
            rows@.len() == i,
            forall|k: int| 0 <= k < i ==> (#[trigger] rows@[k])@ == Seq::new(
                width as nat,
                |j: int| BLANK,
            ),
        decreases height - i,
    {
        let row: Vec<u8> = vec![BLANK; width];
        assert(row@ =~= Seq::new(width as nat, |j: int| BLANK));
        rows.push(row);
        i = i + 1;
    }
    rows
}

} // verus!
