//! Tables of series as text: a header line of labels, then one line per row, the
//! fields between commas.

use vstd::prelude::*;
use vstd::string::*;
use crate::dataset::DataSet;
use crate::dataset::Line;
use crate::dataset::with_points;
use crate::error::DatasetError;
use crate::text::chars_of;
use crate::text::clean;
use crate::text::clean_chars;
use crate::text::cleaned;
use crate::text::lines_of;
use crate::text::pieces_view;
use crate::text::split;
use crate::text::split_chars;
use crate::text::string_of;

verus! {

/// The largest number of decimal places that a number can be read to.
pub const MAX_PLACES: u8 = 9;

/// The largest magnitude of a number that can be read.
pub const MAX_MAGNITUDE: i64 = 0x8000_0000;

/// Ten to the power of `n`.
pub open spec fn pow10(n: int) -> int
    decreases n,
{
    if n <= 0 {
        1
    } else {
        10 * pow10(n - 1)
    }
}

/// Whether `c` is one of the ten digits.
pub open spec fn is_digit(c: char) -> bool {
    '0' <= c <= '9'
}

/// How far the digits of a number are read: the value of the digits so far, how many
/// of them stood behind the decimal point and were kept (`-1` before the point), and
/// whether there was any digit.
pub struct Scan {
    pub value: int,
    pub kept: int,
    pub any: bool,
}

/// What the first `upto` characters of `body` read as, to `places` decimal places:
/// digits, with at most one decimal point among them. A digit behind the point
/// counts as long as fewer than `places` stand before it there; the digits after
/// those are dropped. Anything else cannot be read.
pub open spec fn scanned(body: Seq<char>, places: int, upto: int) -> Option<Scan>
    decreases upto,
{
    if upto <= 0 {
        Some(Scan { value: 0, kept: -1, any: false })
    } else {
        match scanned(body, places, upto - 1) {
            None => None,
            Some(scan) => {
                let c = body[upto - 1];
                if is_digit(c) {
                    if scan.kept < 0 {
                        Some(Scan { value: scan.value * 10 + (c as u32 - 48), kept: -1, any: true })
                    } else if scan.kept < places {
                        Some(
                            Scan {
                                value: scan.value * 10 + (c as u32 - 48),
                                kept: scan.kept + 1,
                                any: true,
                            },
                        )
                    } else {
                        Some(Scan { any: true, ..scan })
                    }
                } else if c == '.' && scan.kept < 0 {
                    Some(Scan { kept: 0, ..scan })
                } else {
                    None
                }
            },
        }
    }
}

/// The magnitude that `body` reads as, in units of ten to the power of minus
/// `places`: its digits before the decimal point, then `places` digits, those behind
/// the point as far as there are any and zeros after them. It needs one digit at
/// least.
pub open spec fn magnitude(body: Seq<char>, places: int) -> Option<int> {
    match scanned(body, places, body.len() as int) {
        Some(scan) => if scan.any {
            Some(
                scan.value * pow10(
                    places - if scan.kept < 0 {
                        0
                    } else {
                        scan.kept
                    },
                ),
            )
        } else {
            None
        },
        None => None,
    }
}

/// Whether `body` spells "nan", in upper or lower case: the mark of a missing value.
pub open spec fn is_nan(body: Seq<char>) -> bool {
    &&& body.len() == 3
    &&& (body[0] == 'n' || body[0] == 'N')
    &&& (body[1] == 'a' || body[1] == 'A')
    &&& (body[2] == 'n' || body[2] == 'N')
}

/// Whether the field starts with a sign.
pub open spec fn is_signed(field: Seq<char>) -> bool {
    field.len() > 0 && (field[0] == '-' || field[0] == '+')
}

/// What a cleaned field reads as, to `places` decimal places: a missing value, a
/// value, or nothing where the field is no number or the number is too large. A
/// number is an optional sign, then "nan" or digits with at most one decimal point.
pub open spec fn reading(field: Seq<char>, places: int) -> Option<Option<i32>> {
    let body = if is_signed(field) {
        field.skip(1)
    } else {
        field
    };
    if is_nan(body) {
        Some(None)
    } else {
        match magnitude(body, places) {
            None => None,
            Some(m) => {
                let v = if is_signed(field) && field[0] == '-' {
                    -m
                } else {
                    m
                };
                if i32::MIN <= v <= i32::MAX {
                    Some(Some(v as i32))
                } else {
                    None
                }
            },
        }
    }
}

/// Why a table cannot be read, as contracts state it.
pub enum TableFault {
    /// The text has no line.
    NoData,
    /// The field, as cleaned, is no number that can be read.
    Invalid(Seq<char>),
}

/// What reading the `i`-th value of a row makes of a store: the point of the
/// row's `x` and that value is added to the series of the `i`-th label. A field that
/// cannot be read is a fault.
pub open spec fn cell_step(
    labels: Seq<Seq<char>>,
    fields: Seq<Seq<char>>,
    x: Option<i32>,
    places: int,
) -> spec_fn(Seq<Line>, int) -> Result<Seq<Line>, TableFault> {
    |store: Seq<Line>, i: int|
        match reading(fields[i + 1], places) {
            None => Err(TableFault::Invalid(fields[i + 1])),
            Some(y) => Ok(with_points(store, labels[i], seq![(x, y)])),
        }
}

/// What reading one line after the header makes of a store: the first field is the
/// `x` of the row; each field after it, as far as there are labels, is a value. A
/// field that cannot be read is a fault, and the fields after it are not read.
pub open spec fn row_step(lines: Seq<Seq<char>>, labels: Seq<Seq<char>>, places: int) -> spec_fn(
    Seq<Line>,
    int,
) -> Result<Seq<Line>, TableFault> {
    |store: Seq<Line>, i: int|
        {
            let fields = cleaned(split(lines[i + 1], ','));
            match reading(fields[0], places) {
                None => Err(TableFault::Invalid(fields[0])),
                Some(x) => each_read(
                    store,
                    cell_step(labels, fields, x, places),
                    if labels.len() < fields.len() - 1 {
                        labels.len() as int
                    } else {
                        fields.len() - 1
                    },
                ),
            }
        }
}

/// The store after the first `upto` steps of a reading. The first fault ends the
/// reading, and nothing is kept of the store.
pub open spec fn each_read(
    store: Seq<Line>,
    step: spec_fn(Seq<Line>, int) -> Result<Seq<Line>, TableFault>,
    upto: int,
) -> Result<Seq<Line>, TableFault>
    decreases upto,
{
    if upto <= 0 {
        Ok(store)
    } else {
        match each_read(store, step, upto - 1) {
            Err(fault) => Err(fault),
            Ok(before) => step(before, upto - 1),
        }
    }
}

/// The labels of a header line: its fields, cleaned, but for the first.
pub open spec fn labels_of(header: Seq<char>) -> Seq<Seq<char>> {
    cleaned(split(header, ',')).skip(1)
}

/// The store that a table reads as, to `places` decimal places. The first line
/// gives the labels; every other line gives one point for each label.
pub open spec fn table_of(text: Seq<char>, places: int) -> Result<Seq<Line>, TableFault> {
    let lines = lines_of(text);
    if lines.len() == 0 {
        Err(TableFault::NoData)
    } else {
        each_read(
            Seq::<Line>::empty(),
            row_step(lines, labels_of(lines[0]), places),
            lines.len() - 1,
        )
    }
}

/// A fault ends a reading: later steps change nothing.
pub proof fn lemma_each_read_stops(
    store: Seq<Line>,
    step: spec_fn(Seq<Line>, int) -> Result<Seq<Line>, TableFault>,
    at: int,
    upto: int,
)
    requires
        at <= upto,
        each_read(store, step, at) is Err,
    ensures
        each_read(store, step, upto) == each_read(store, step, at),
    decreases upto - at,
{
    if at < upto {
        lemma_each_read_stops(store, step, at, upto - 1);
    }
}

/// Once the digits read so far exceed a bound, every longer reading of the same
/// characters fails or exceeds it too.
pub proof fn lemma_scanned_grows(body: Seq<char>, places: int, at: int, upto: int, bound: int)
    requires
        0 <= at <= upto,
        0 <= bound,
        scanned(body, places, at) matches Some(scan) && scan.value > bound,
    ensures
        scanned(body, places, upto) matches Some(scan) ==> scan.value > bound,
    decreases upto - at,
{
    if at < upto {
        lemma_scanned_grows(body, places, at, upto - 1, bound);
    }
}

/// A power of ten is at least one, and each is ten times the one before.
pub proof fn lemma_pow10(n: int)
    ensures
        pow10(n) >= 1,
        n >= 0 ==> pow10(n + 1) == 10 * pow10(n),
        0 <= n <= 9 ==> pow10(n) <= 1_000_000_000,
    decreases n,
{
    if n > 0 {
        lemma_pow10(n - 1);
    }
    if 0 <= n <= 9 {
        reveal_with_fuel(pow10, 11);
    }
}

/// The text that reports a field that is no number.
pub open spec fn invalid_report(field: Seq<char>) -> Seq<char> {
    "cannot read \""@ + field + "\" as a number"@
}

impl DatasetError {
    /// This error is the report of the fault `f`.
    pub open spec fn reports(self, f: TableFault) -> bool {
        match f {
            TableFault::NoData => self is NoData,
            TableFault::Invalid(field) => self matches DatasetError::InvalidData(s) && s@
                == invalid_report(field),
        }
    }
}

/// The error that reports the cleaned field `field` as no number.
fn invalid(field: &Vec<char>) -> (e: DatasetError)
    ensures
        e.reports(TableFault::Invalid(field@)),
{
    let mut text: String = String::from_str("cannot read \"");
    let name: String = string_of(field);
    text.append(name.as_str());
    text.append("\" as a number");
    DatasetError::InvalidData(text)
}

/// What a cleaned field reads as, to `places` decimal places: see [`reading`].
pub fn read_number(field: &Vec<char>, places: u8) -> (r: Option<Option<i32>>)
    requires
        places <= MAX_PLACES,
    ensures
        r == reading(field@, places as int),
{
    let signed: bool = field.len() > 0 && (field[0] == '-' || field[0] == '+');
    let start: usize = if signed {
        1
    } else {
        0
    };
    let ghost body = if signed {
        field@.skip(1)
    } else {
        field@
    };
    let count: usize = field.len() - start;
    if count == 3 && (field[start] == 'n' || field[start] == 'N') && (field[start + 1] == 'a'
        || field[start + 1] == 'A') && (field[start + 2] == 'n' || field[start + 2] == 'N') {
        return Some(None);
    }
    let mut value: i64 = 0;
    let mut kept: i64 = -1;
    let mut any: bool = false;
    let mut k: usize = 0;
    while k < count
        invariant
            k <= count,
            count == body.len(),
            start + count == field@.len(),
            start + count <= usize::MAX,
            signed == is_signed(field@),
            body == if signed {
                field@.skip(1)
            } else {
                field@
            },
            !is_nan(body),
            forall|j: int| 0 <= j < count ==> body[j] == field@[start + j],
            places <= MAX_PLACES,
            0 <= value <= MAX_MAGNITUDE,
            -1 <= kept <= places,
            scanned(body, places as int, k as int) == Some(Scan { value: value as int, kept: kept as int, any }),
        decreases count - k,
    {
        let c: char = field[start + k];
        if '0' <= c && c <= '9' {
            let d: i64 = (c as u32 - 48) as i64;
            if kept < 0 {
                value = value * 10 + d;
            } else if kept < places as i64 {
                value = value * 10 + d;
                kept = kept + 1;
            }
            any = true;
            if value > MAX_MAGNITUDE {
                proof {
                    lemma_scanned_grows(
                        body,
                        places as int,
                        k + 1,
                        count as int,
                        MAX_MAGNITUDE as int,
                    );
                    lemma_too_large(body, places as int);
                }
                return None;
            }
        } else if c == '.' && kept < 0 {
            kept = 0;
        } else {
            proof {
                lemma_scanned_stops(body, places as int, k + 1, count as int);
            }
            return None;
        }
        k = k + 1;
    }
    if !any {
        return None;
    }
    let pad: u8 = if kept < 0 {
        places
    } else {
        (places as i64 - kept) as u8
    };
    let scale: i64 = power_of_ten(pad);
    assert(0 <= value * scale <= MAX_MAGNITUDE * 1_000_000_000) by (nonlinear_arith)
        requires
            0 <= value <= MAX_MAGNITUDE,
            1 <= scale <= 1_000_000_000,
    ;
    let size: i64 = value * scale;
    let v: i64 = if signed && field[0] == '-' {
        -size
    } else {
        size
    };
    if v < i32::MIN as i64 || v > i32::MAX as i64 {
        None
    } else {
        Some(Some(v as i32))
    }
}

/// Ten to the power of `n`.
fn power_of_ten(n: u8) -> (p: i64)
    requires
        n <= MAX_PLACES,
    ensures
        p == pow10(n as int),
        1 <= p <= 1_000_000_000,
{
    let mut p: i64 = 1;
    let mut i: u8 = 0;
    while i < n
        invariant
            i <= n,
            n <= MAX_PLACES,
            p == pow10(i as int),
            1 <= p <= 1_000_000_000,
        decreases n - i,
    {
        proof {
            lemma_pow10(i as int);
            lemma_pow10(i + 1);
        }
        p = p * 10;
        i = i + 1;
    }
    p
}

/// Once a character cannot be read, no longer reading can.
proof fn lemma_scanned_stops(body: Seq<char>, places: int, at: int, upto: int)
    requires
        0 <= at <= upto,
        scanned(body, places, at) is None,
    ensures
        scanned(body, places, upto) is None,
    decreases upto - at,
{
    if at < upto {
        lemma_scanned_stops(body, places, at, upto - 1);
    }
}

/// Digits beyond the largest magnitude read as a magnitude beyond it, if as any.
proof fn lemma_too_large(body: Seq<char>, places: int)
    requires
        scanned(body, places, body.len() as int) matches Some(scan) ==> scan.value
            > MAX_MAGNITUDE,
    ensures
        magnitude(body, places) matches Some(m) ==> m > MAX_MAGNITUDE,
{
    match scanned(body, places, body.len() as int) {
        Some(scan) => {
            let pad = places - if scan.kept < 0 {
                0
            } else {
                scan.kept
            };
            lemma_pow10(pad);
            assert(scan.value * pow10(pad) >= scan.value) by (nonlinear_arith)
                requires
                    scan.value >= 0,
                    pow10(pad) >= 1,
            ;
        },
        None => {},
    }
}

/// The fields of a line, cleaned.
fn clean_fields(line: &Vec<char>) -> (fields: Vec<Vec<char>>)
    ensures
        pieces_view(fields@) == cleaned(split(line@, ',')),
        fields@.len() >= 1,
{
    let raw: Vec<Vec<char>> = split_chars(line, ',');
    let mut fields: Vec<Vec<char>> = Vec::new();
    let mut i: usize = 0;
    while i < raw.len()
        invariant
            i <= raw@.len(),
            fields@.len() == i,
            pieces_view(raw@) == split(line@, ','),
            forall|k: int| 0 <= k < i ==> (#[trigger] fields@[k])@ == clean(raw@[k]@),
        decreases raw@.len() - i,
    {
        fields.push(clean_chars(&raw[i]));
        i = i + 1;
    }
    assert(pieces_view(fields@) =~= cleaned(split(line@, ','))) by {
        assert forall|k: int| 0 <= k < fields@.len() implies pieces_view(fields@)[k] == cleaned(
            split(line@, ','),
        )[k] by {
            assert(pieces_view(raw@)[k] == raw@[k]@);
        }
    }
    fields
}

/// The labels as sequences of characters.
pub open spec fn labels_view(labels: Seq<String>) -> Seq<Seq<char>> {
    Seq::new(labels.len(), |i: int| labels[i]@)
}

impl DataSet {
    /// Reads a table of series. The first line is the header: its fields, but for the
    /// first, are the labels. Every other line is a row: its first field is the
    /// `x` of the row, and each field after it, as far as there are labels, is the
    /// `y` of a point of the series under that label. Fields stand between commas;
    /// double quotes in a field and white space around it do not count. A number
    /// is read to `places` decimal places, as a whole number of units of that size.
    ///
    /// A text without a line is reported as without data, and the first field that
    /// is no number as invalid.
    pub fn from_csv(content: &str, places: u8) -> (r: Result<DataSet, DatasetError>)
        requires
            places <= MAX_PLACES,
        ensures
            match r {
                Ok(store) => store.wf() && table_of(content@, places as int) == Ok::<
                    Seq<Line>,
                    TableFault,
                >(store@),
                Err(e) => table_of(content@, places as int) matches Err(f) && e.reports(f),
            },
    {
        let chars: Vec<char> = chars_of(content);
        let mut lines: Vec<Vec<char>> = split_chars(&chars, '\n');
        let ghost pieces = pieces_view(lines@);
        if lines[lines.len() - 1].len() == 0 {
            lines.pop();
            assert(pieces_view(lines@) =~= pieces.drop_last());
        }
        assert(pieces_view(lines@) == lines_of(content@));
        if lines.len() == 0 {
            return Err(DatasetError::NoData);
        }
        let header: Vec<Vec<char>> = clean_fields(&lines[0]);
        let mut labels: Vec<String> = Vec::new();
        let mut i: usize = 1;
        while i < header.len()
            invariant
                1 <= i <= header@.len(),
                labels@.len() == i - 1,
                forall|k: int| 0 <= k < labels@.len() ==> (#[trigger] labels@[k])@ == header@[k + 1]@,
            decreases header@.len() - i,
        {
            labels.push(string_of(&header[i]));
            i = i + 1;
        }
        let ghost names = labels_of(lines@[0]@);
        assert(labels_view(labels@) =~= names) by {
            assert(pieces_view(lines@)[0] == lines@[0]@);
            assert forall|k: int| 0 <= k < labels@.len() implies labels_view(labels@)[k]
                == names[k] by {
                assert(pieces_view(header@)[k + 1] == header@[k + 1]@);
            }
        }
        let ghost all = lines_of(content@);
        let ghost step = row_step(all, names, places as int);
        let mut dataset: DataSet = DataSet::default();
        let mut r: usize = 1;
        while r < lines.len()
            invariant
                1 <= r <= lines@.len(),
                places <= MAX_PLACES,
                pieces_view(lines@) == all,
                all == lines_of(content@),
                labels_view(labels@) == names,
                names == labels_of(all[0]),
                step == row_step(all, names, places as int),
                dataset.wf(),
                each_read(Seq::<Line>::empty(), step, r - 1) == Ok::<Seq<Line>, TableFault>(
                    dataset@,
                ),
            decreases lines@.len() - r,
        {
            let ghost before = dataset@;
            assert(pieces_view(lines@)[r as int] == lines@[r as int]@);
            let fields: Vec<Vec<char>> = clean_fields(&lines[r]);
            let ghost texts = pieces_view(fields@);
            assert(texts == cleaned(split(all[r as int], ',')));
            assert(texts[0] == fields@[0]@);
            assert(each_read(Seq::<Line>::empty(), step, r as int) == step(before, r - 1));
            let x: Option<i32> = match read_number(&fields[0], places) {
                Some(x) => x,
                None => {
                    proof {
                        lemma_each_read_stops(
                            Seq::<Line>::empty(),
                            step,
                            r as int,
                            lines@.len() - 1,
                        );
                    }
                    return Err(invalid(&fields[0]));
                },
            };
            let count: usize = if labels.len() < fields.len() - 1 {
                labels.len()
            } else {
                fields.len() - 1
            };
            let ghost inner = cell_step(names, texts, x, places as int);
            let mut c: usize = 0;
            while c < count
                invariant
                    c <= count,
                    count <= labels@.len(),
                    count + 1 <= fields@.len(),
                    places <= MAX_PLACES,
                    1 <= r < lines@.len(),
                    texts == pieces_view(fields@),
                    labels_view(labels@) == names,
                    inner == cell_step(names, texts, x, places as int),
                    dataset.wf(),
                    each_read(before, inner, c as int) == Ok::<Seq<Line>, TableFault>(dataset@),
                    step(before, r - 1) == each_read(before, inner, count as int),
                    each_read(Seq::<Line>::empty(), step, r as int) == step(before, r - 1),
                    all == lines_of(content@),
                    names == labels_of(all[0]),
                    pieces_view(lines@) == all,
                    step == row_step(all, names, places as int),
                decreases count - c,
            {
                assert(texts[c + 1] == fields@[c + 1]@);
                assert(names[c as int] == labels@[c as int]@);
                assert(each_read(before, inner, c + 1) == inner(dataset@, c as int));
                let y: Option<i32> = match read_number(&fields[c + 1], places) {
                    Some(y) => y,
                    None => {
                        proof {
                            lemma_each_read_stops(before, inner, c + 1, count as int);
                            lemma_each_read_stops(
                                Seq::<Line>::empty(),
                                step,
                                r as int,
                                lines@.len() - 1,
                            );
                        }
                        return Err(invalid(&fields[c + 1]));
                    },
                };
                let mut points: Vec<(Option<i32>, Option<i32>)> = Vec::new();
                points.push((x, y));
                assert(points@ =~= seq![(x, y)]);
                dataset.add_points(labels[c].clone(), points);
                c = c + 1;
            }
            r = r + 1;
        }
        Ok(dataset)
    }
}

} // verus!
