//! Pieces of text: lines, fields between commas, and what is left of a field once
//! its quotes and the space around it are gone.

use vstd::prelude::*;

verus! {

/// The pieces of `text` between the separators: one more than there are separators,
/// in their order, each without a separator.
pub open spec fn split(text: Seq<char>, sep: char) -> Seq<Seq<char>>
    decreases text.len(),
{
    if text.len() == 0 {
        seq![Seq::<char>::empty()]
    } else {
        let before = split(text.drop_last(), sep);
        if text.last() == sep {
            before.push(Seq::<char>::empty())
        } else {
            before.update(before.len() - 1, before.last().push(text.last()))
        }
    }
}

/// The lines of `text`: the pieces between line feeds, without the empty piece after
/// a line feed that ends the text. A text without characters has no line.
pub open spec fn lines_of(text: Seq<char>) -> Seq<Seq<char>> {
    let pieces = split(text, '\n');
    if pieces.last().len() == 0 {
        pieces.drop_last()
    } else {
        pieces
    }
}

/// The characters of `field` but for the double quotes, in their order.
pub open spec fn unquoted(field: Seq<char>) -> Seq<char>
    decreases field.len(),
{
    if field.len() == 0 {
        Seq::empty()
    } else if field.last() == '"' {
        unquoted(field.drop_last())
    } else {
        unquoted(field.drop_last()).push(field.last())
    }
}

/// Whether `c` is white space: a tab, a line feed, a vertical tab, a form feed, a
/// carriage return, a space, or one of the other characters that Unicode calls so.
pub open spec fn is_space(c: char) -> bool {
    let code = c as u32;
    ||| 0x09 <= code <= 0x0d
    ||| code == 0x20
    ||| code == 0x85
    ||| code == 0xa0
    ||| code == 0x1680
    ||| 0x2000 <= code <= 0x200a
    ||| code == 0x2028
    ||| code == 0x2029
    ||| code == 0x202f
    ||| code == 0x205f
    ||| code == 0x3000
}

/// The index, from `from` on, of the first character that is not white space; the
/// length of `text` if there is none.
pub open spec fn lead(text: Seq<char>, from: int) -> int
    decreases text.len() - from,
{
    if from >= text.len() {
        text.len() as int
    } else if !is_space(text[from]) {
        from
    } else {
        lead(text, from + 1)
    }
}

/// One more than the index, before `upto`, of the last character that is not white
/// space; zero if there is none.
pub open spec fn tail(text: Seq<char>, upto: int) -> int
    decreases upto,
{
    if upto <= 0 {
        0
    } else if !is_space(text[upto - 1]) {
        upto
    } else {
        tail(text, upto - 1)
    }
}

/// The text without the white space at its start and at its end.
pub open spec fn trimmed(text: Seq<char>) -> Seq<char> {
    let from = lead(text, 0);
    let to = tail(text, text.len() as int);
    if from < to {
        text.subrange(from, to)
    } else {
        Seq::empty()
    }
}

/// The field without its double quotes, and then without the white space around it.
pub open spec fn clean(field: Seq<char>) -> Seq<char> {
    trimmed(unquoted(field))
}

/// Each of the fields, cleaned.
pub open spec fn cleaned(fields: Seq<Seq<char>>) -> Seq<Seq<char>> {
    Seq::new(fields.len(), |i: int| clean(fields[i]))
}

/// The pieces as sequences of characters.
pub open spec fn pieces_view(pieces: Seq<Vec<char>>) -> Seq<Seq<char>> {
    Seq::new(pieces.len(), |i: int| pieces[i]@)
}

/// The characters of `text`, in their order.
pub fn chars_of(text: &str) -> (chars: Vec<char>)
    ensures
        chars@ == text@,
{
    let mut chars: Vec<char> = Vec::new();
    for c in it: text.chars()
        invariant
            it.seq() == text@,
            chars@ == it.seq().take(it.index() as int),
    {
        chars.push(c);
        assert(it.seq().take(it.index() + 1) =~= it.seq().take(it.index() as int).push(c));
    }
    assert(chars@ =~= text@);
    chars
}

/// The pieces of `text` between the separators: see [`split`].
pub fn split_chars(text: &Vec<char>, sep: char) -> (pieces: Vec<Vec<char>>)
    ensures
        pieces_view(pieces@) == split(text@, sep),
        pieces@.len() >= 1,
{
    let mut pieces: Vec<Vec<char>> = Vec::new();
    pieces.push(Vec::new());
    let mut i: usize = 0;
    assert(text@.take(0) =~= Seq::<char>::empty());
    assert(pieces_view(pieces@) =~= split(text@.take(0), sep));
    while i < text.len()
        invariant
            i <= text@.len(),
            pieces@.len() >= 1,
            pieces_view(pieces@) == split(text@.take(i as int), sep),
        decreases text@.len() - i,
    {
        let ghost before = pieces_view(pieces@);
        assert(text@.take(i + 1).drop_last() =~= text@.take(i as int));
        let c: char = text[i];
        if c == sep {
            pieces.push(Vec::new());
            assert(pieces_view(pieces@) =~= before.push(Seq::<char>::empty()));
        } else {
            let last: usize = pieces.len() - 1;
            pieces[last].push(c);
            assert(pieces_view(pieces@) =~= before.update(last as int, before[last as int].push(c)));
        }
        i = i + 1;
    }
    assert(text@.take(text@.len() as int) =~= text@);
    pieces
}

/// Whether `c` is white space: see [`is_space`].
pub fn is_space_char(c: char) -> (b: bool)
    ensures
        b == is_space(c),
{
    let code: u32 = c as u32;
    (0x09 <= code && code <= 0x0d) || code == 0x20 || code == 0x85 || code == 0xa0 || code
        == 0x1680 || (0x2000 <= code && code <= 0x200a) || code == 0x2028 || code == 0x2029
        || code == 0x202f || code == 0x205f || code == 0x3000
}

/// The field without its double quotes, and then without the white space around it.
pub fn clean_chars(field: &Vec<char>) -> (out: Vec<char>)
    ensures
        out@ == clean(field@),
{
    let mut bare: Vec<char> = Vec::new();
    let mut i: usize = 0;
    assert(field@.take(0) =~= Seq::<char>::empty());
    while i < field.len()
        invariant
            i <= field@.len(),
            bare@ == unquoted(field@.take(i as int)),
        decreases field@.len() - i,
    {
        assert(field@.take(i + 1).drop_last() =~= field@.take(i as int));
        if field[i] != '"' {
            bare.push(field[i]);
        }
        i = i + 1;
    }
    assert(field@.take(field@.len() as int) =~= field@);
    let mut from: usize = 0;
    while from < bare.len() && is_space_char(bare[from])
        invariant
            from <= bare@.len(),
            lead(bare@, 0) == lead(bare@, from as int),
        decreases bare@.len() - from,
    {
        from = from + 1;
    }
    let mut to: usize = bare.len();
    while to > 0 && is_space_char(bare[to - 1])
        invariant
            to <= bare@.len(),
            tail(bare@, bare@.len() as int) == tail(bare@, to as int),
        decreases to,
    {
        to = to - 1;
    }
    let mut out: Vec<char> = Vec::new();
    if from < to {
        let mut k: usize = from;
        while k < to
            invariant
                from <= k <= to,
                to <= bare@.len(),
                out@ == bare@.subrange(from as int, k as int),
            decreases to - k,
        {
            out.push(bare[k]);
            assert(bare@.subrange(from as int, k + 1) =~= bare@.subrange(from as int, k as int).push(
                bare@[k as int],
            ));
            k = k + 1;
        }
    }
    out
}

/// The character of the digit `d`.
pub open spec fn digit_char(d: int) -> char {
    (d + 48) as u8 as char
}

/// The decimal digits of `n`, the most significant first, without leading zeros.
pub open spec fn digits(n: nat) -> Seq<char>
    decreases n,
{
    if n < 10 {
        seq![digit_char(n as int)]
    } else {
        digits(n / 10).push(digit_char((n % 10) as int))
    }
}

/// The number `n` in decimal: its digits, after a minus sign if it is negative.
pub open spec fn decimal(n: int) -> Seq<char> {
    if n < 0 {
        seq!['-'] + digits((-n) as nat)
    } else {
        digits(n as nat)
    }
}

/// The digits in `buffer`, the last first.
pub open spec fn backwards(buffer: Seq<u8>) -> Seq<char> {
    Seq::new(buffer.len(), |i: int| digit_char(buffer[buffer.len() - 1 - i] as int))
}

/// Appends the number `n` in decimal to `text`.
pub fn push_decimal(text: &mut String, n: i128)
    ensures
        final(text)@ == old(text)@ + decimal(n as int),
{
    let ghost start = text@;
    let size: u128 = if n < 0 {
        ((-(n + 1)) as u128) + 1
    } else {
        n as u128
    };
    if n < 0 {
        push_char(text, '-');
    }
    let ghost signed = text@;
    // The digits from the least significant on.
    let mut buffer: Vec<u8> = Vec::new();
    buffer.push((size % 10) as u8);
    let mut rest: u128 = size / 10;
    assert(backwards(buffer@) =~= seq![digit_char((size % 10) as int)]);
    while rest > 0
        invariant
            buffer@.len() >= 1,
            forall|i: int| 0 <= i < buffer@.len() ==> buffer@[i] < 10,
            digits(size as nat) == if rest > 0 {
                digits(rest as nat) + backwards(buffer@)
            } else {
                backwards(buffer@)
            },
        decreases rest,
    {
        let ghost before = buffer@;
        buffer.push((rest % 10) as u8);
        assert(backwards(buffer@) =~= seq![digit_char((rest % 10) as int)] + backwards(before));
        assert(digits(rest as nat) == if rest < 10 {
            seq![digit_char(rest as int)]
        } else {
            digits((rest / 10) as nat).push(digit_char((rest % 10) as int))
        });
        assert(digits(rest as nat) + backwards(before) =~= if rest < 10 {
            backwards(buffer@)
        } else {
            digits((rest / 10) as nat) + backwards(buffer@)
        });
        rest = rest / 10;
    }
    let mut k: usize = buffer.len();
    while k > 0
        invariant
            k <= buffer@.len(),
            forall|i: int| 0 <= i < buffer@.len() ==> buffer@[i] < 10,
            text@ == signed + backwards(buffer@).take(buffer@.len() - k),
        decreases k,
    {
        k = k - 1;
        let c: char = (buffer[k] + 48) as char;
        push_char(text, c);
        assert(backwards(buffer@).take(buffer@.len() - k) =~= backwards(buffer@).take(
            buffer@.len() - k - 1,
        ).push(c));
    }
    assert(backwards(buffer@).take(buffer@.len() as int) =~= backwards(buffer@));
    assert(text@ =~= start + decimal(n as int));
}

/// The characters as a string.
pub fn string_of(chars: &Vec<char>) -> (text: String)
    ensures
        text@ == chars@,
{
    let mut text: String = String::new();
    let mut i: usize = 0;
    while i < chars.len()
        invariant
            i <= chars@.len(),
            text@ == chars@.take(i as int),
        decreases chars@.len() - i,
    {
        push_char(&mut text, chars[i]);
        assert(chars@.take(i + 1) =~= chars@.take(i as int).push(chars@[i as int]));
        i = i + 1;
    }
    assert(chars@.take(chars@.len() as int) =~= chars@);
    text
}

/// Appends the character `c` to `text` with `String::push`.
#[verifier::external_body]
pub(crate) fn push_char(text: &mut String, c: char)
    ensures
        final(text)@ == old(text)@.push(c),
{
    text.push(c);
}

} // verus!
