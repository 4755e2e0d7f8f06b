//! The errors that drawing and ingestion report, and what each one says.

use vstd::prelude::*;
use vstd::string::*;
use crate::ratio::Frac;
use crate::ratio::Ratio;
use crate::ratio::Wide;
use crate::text::decimal;
use crate::text::push_decimal;

verus! {

/// Why a drawing operation failed.
#[derive(Debug)]
pub enum CanvasError {
    /// A write or a coordinate lookup fell outside the canvas or outside an axis
    /// interval. The text gives the offending coordinates and the bounds.
    OutOfRange(String),
    /// There is no data to plot.
    NoData,
}

/// Why a table of series could not be read.
#[derive(Debug)]
pub enum DatasetError {
    /// The input holds no line at all.
    NoData,
    /// A field is not a number that can be read. The text quotes the field.
    InvalidData(String),
}

/// What a failed drawing operation ran into, as contracts state it.
pub enum Fault {
    /// A write to the cell `(line, column)` of a canvas of `height` rows and `width`
    /// columns, which has no such cell.
    Cell { line: int, column: int, height: int, width: int },
    /// A lookup of `x` on an axis whose interval `lo .. hi` is empty or does not hold `x`.
    Value { x: Frac, lo: Frac, hi: Frac },
    /// Nothing to plot.
    NoData,
}

/// The text that reports a write to a cell outside the canvas: the cell, then the
/// size of the canvas.
pub open spec fn cell_report(line: int, column: int, height: int, width: int) -> Seq<char> {
    "try to write in ("@ + decimal(line) + ", "@ + decimal(column) + ") (Canvas size: ("@
        + decimal(height) + ", "@ + decimal(width) + "))"@
}

/// The text that reports a value outside an axis interval: the value between the
/// bounds of the interval, each as a fraction.
pub open spec fn value_report(x: Frac, lo: Frac, hi: Frac) -> Seq<char> {
    fraction_text(lo) + " < "@ + fraction_text(x) + " < "@ + fraction_text(hi)
}

/// A fraction as text: its numerator, a stroke, its denominator.
pub open spec fn fraction_text(x: Frac) -> Seq<char> {
    decimal(x.num) + "/"@ + decimal(x.den)
}

impl CanvasError {
    /// This error is the report of the fault `f`.
    pub open spec fn reports(self, f: Fault) -> bool {
        match f {
            Fault::Cell { line, column, height, width } => self matches CanvasError::OutOfRange(s)
                && s@ == cell_report(line, column, height, width),
            Fault::Value { x, lo, hi } => self matches CanvasError::OutOfRange(s) && s@
                == value_report(x, lo, hi),
            Fault::NoData => self is NoData,
        }
    }

    /// The error as a line of text.
    pub fn to_string(&self) -> (text: String)
        ensures
            text@ == match self {
                CanvasError::OutOfRange(s) => "Canvas Error: Out of range "@ + s@,
                CanvasError::NoData => "Canvas Error: No Data"@,
            },
    {
        match self {
            CanvasError::OutOfRange(s) => {
                let mut text = String::from_str("Canvas Error: Out of range ");
                text.append(s.as_str());
                text
            },
            CanvasError::NoData => String::from_str("Canvas Error: No Data"),
        }
    }
}

impl DatasetError {
    /// The error as a line of text.
    pub fn to_string(&self) -> (text: String)
        ensures
            text@ == match self {
                DatasetError::NoData => "Data Error: No data"@,
                DatasetError::InvalidData(s) => "Data Error: Invalid Data: "@ + s@,
            },
    {
        match self {
            DatasetError::NoData => String::from_str("Data Error: No data"),
            DatasetError::InvalidData(s) => {
                let mut text = String::from_str("Data Error: Invalid Data: ");
                text.append(s.as_str());
                text
            },
        }
    }
}

/// The outcome `r` of a drawing operation agrees with `fault`: success when there is
/// none, and otherwise the error that reports it.
pub open spec fn agrees(r: Result<(), CanvasError>, fault: Option<Fault>) -> bool {
    match r {
        Ok(_) => fault is None,
        Err(e) => fault matches Some(f) && e.reports(f),
    }
}

/// The report of a write to the cell `(line, column)` of a canvas of `height` rows
/// and `width` columns.
pub fn cell_message(line: usize, column: usize, height: usize, width: usize) -> (s: String)
    ensures
        s@ == cell_report(line as int, column as int, height as int, width as int),
{
    let mut s: String = String::from_str("try to write in (");
    push_decimal(&mut s, line as i128);
    s.append(", ");
    push_decimal(&mut s, column as i128);
    s.append(") (Canvas size: (");
    push_decimal(&mut s, height as i128);
    s.append(", ");
    push_decimal(&mut s, width as i128);
    s.append("))");
    s
}

/// The report of the value `x` outside the axis interval from `lo` to `hi`.
pub fn value_message(x: Wide, lo: Ratio, hi: Ratio) -> (s: String)
    ensures
        s@ == value_report(x@, lo@, hi@),
{
    let mut s: String = String::new();
    push_fraction(&mut s, lo.num as i128, lo.den as i128);
    s.append(" < ");
    push_fraction(&mut s, x.num, x.den);
    s.append(" < ");
    push_fraction(&mut s, hi.num as i128, hi.den as i128);
    s
}

/// Appends the fraction `num / den` to `text`.
fn push_fraction(text: &mut String, num: i128, den: i128)
    ensures
        final(text)@ == old(text)@ + fraction_text(Frac { num: num as int, den: den as int }),
{
    let ghost start = text@;
    push_decimal(text, num);
    text.append("/");
    push_decimal(text, den);
    assert(text@ =~= start + (decimal(num as int) + "/"@ + decimal(den as int)));
}

} // verus!
