//! Fields and numbers in text: the lines of a text, the columns of a line,
//! and the number that a column of decimal digits stands for.

use vstd::prelude::*;
use vstd::slice::slice_subrange;

verus! {

/// The byte that ends a line.
pub const NEWLINE: u8 = 10;

/// Whether the byte separates two columns of a line: a space, a tab or a
/// carriage return.
pub open spec fn is_blank(b: u8) -> bool {
    b == 32 || b == 9 || b == 13
}

/// Whether the byte separates two fields: two lines of a text when the text
/// is split `by_line`, two columns of a line otherwise.
pub open spec fn is_separator(b: u8, by_line: bool) -> bool {
    if by_line {
        b == NEWLINE
    } else {
        is_blank(b)
    }
}

/// The fields that end inside the text, and the bytes of the field that its
/// end leaves open.
pub open spec fn scanned(text: Seq<u8>, by_line: bool) -> (Seq<Seq<u8>>, Seq<u8>)
    decreases text.len(),
{
    if text.len() == 0 {
        (Seq::empty(), Seq::empty())
    } else {
        let (done, run) = scanned(text.drop_last(), by_line);
        if is_separator(text.last(), by_line) {
            if run.len() > 0 {
                (done.push(run), Seq::empty())
            } else {
                (done, run)
            }
        } else {
            (done, run.push(text.last()))
        }
    }
}

/// The fields of the text: its longest runs of bytes without a separator, in
/// the order in which they stand. Between two fields any number of
/// separators may stand, and so before the first and behind the last.
pub open spec fn fields(text: Seq<u8>, by_line: bool) -> Seq<Seq<u8>> {
    let (done, run) = scanned(text, by_line);
    if run.len() > 0 {
        done.push(run)
    } else {
        done
    }
}

/// The lines of the text that are not empty.
pub open spec fn lines(text: Seq<u8>) -> Seq<Seq<u8>> {
    fields(text, true)
}

/// The columns of a line.
pub open spec fn columns(line: Seq<u8>) -> Seq<Seq<u8>> {
    fields(line, false)
}

/// No field is empty, and none holds a separator.
pub proof fn lemma_fields_hold_no_separator(text: Seq<u8>, by_line: bool)
    ensures
        forall|k: int, i: int|
            #![trigger fields(text, by_line)[k][i]]
            0 <= k < fields(text, by_line).len() && 0 <= i < fields(text, by_line)[k].len()
                ==> !is_separator(fields(text, by_line)[k][i], by_line),
        forall|k: int|
            0 <= k < fields(text, by_line).len() ==> (#[trigger] fields(text, by_line)[k]).len()
                > 0,
{
    lemma_scanned_holds_no_separator(text, by_line);
}

proof fn lemma_scanned_holds_no_separator(text: Seq<u8>, by_line: bool)
    ensures
        forall|k: int, i: int|
            #![trigger scanned(text, by_line).0[k][i]]
            0 <= k < scanned(text, by_line).0.len() && 0 <= i < scanned(text, by_line).0[k].len()
                ==> !is_separator(scanned(text, by_line).0[k][i], by_line),
        forall|k: int|
            0 <= k < scanned(text, by_line).0.len() ==> (#[trigger] scanned(
                text,
                by_line,
            ).0[k]).len() > 0,
        forall|i: int|
            0 <= i < scanned(text, by_line).1.len() ==> !is_separator(
                #[trigger] scanned(text, by_line).1[i],
                by_line,
            ),
    decreases text.len(),
{
    if text.len() > 0 {
        lemma_scanned_holds_no_separator(text.drop_last(), by_line);
        let (done, run) = scanned(text.drop_last(), by_line);
        let (done2, run2) = scanned(text, by_line);
        assert forall|k: int| 0 <= k < done2.len() implies (#[trigger] done2[k]).len() > 0 && (
        forall|i: int| 0 <= i < done2[k].len() ==> !is_separator(#[trigger] done2[k][i], by_line))
            by {
            if k < done.len() {
                assert(done2[k] == done[k]);
            } else {
                assert(done2[k] == run);
            }
        }
        assert forall|i: int| 0 <= i < run2.len() implies !is_separator(
            #[trigger] run2[i],
            by_line,
        ) by {
            if i < run.len() {
                assert(run2[i] == run[i]);
            }
        }
    }
}

/// A text without separator is one field, or none where it is empty.
pub proof fn lemma_fields_of_one(text: Seq<u8>, by_line: bool)
    requires
        forall|i: int| 0 <= i < text.len() ==> !is_separator(#[trigger] text[i], by_line),
    ensures
        scanned(text, by_line) == (Seq::<Seq<u8>>::empty(), text),
        text.len() > 0 ==> fields(text, by_line) == seq![text],
        text.len() == 0 ==> fields(text, by_line) == Seq::<Seq<u8>>::empty(),
    decreases text.len(),
{
    if text.len() > 0 {
        lemma_fields_of_one(text.drop_last(), by_line);
        assert(text.drop_last().push(text.last()) =~= text);
        assert(Seq::<Seq<u8>>::empty().push(text) =~= seq![text]);
    }
}

/// Where each field of the text begins and ends: the field `k` is the bytes
/// from `bounds[k].0` up to, not including, `bounds[k].1`.
pub open spec fn are_bounds_of(bounds: Seq<(usize, usize)>, text: Seq<u8>, by_line: bool) -> bool {
    &&& bounds.len() == fields(text, by_line).len()
    &&& forall|k: int|
        0 <= k < bounds.len() ==> {
            &&& (#[trigger] bounds[k]).0 <= bounds[k].1 <= text.len()
            &&& text.subrange(bounds[k].0 as int, bounds[k].1 as int) == fields(text, by_line)[k]
        }
}

/// Finds the fields of the text.
pub fn split_fields(text: &[u8], by_line: bool) -> (bounds: Vec<(usize, usize)>)
    ensures
        are_bounds_of(bounds@, text@, by_line),
{
    let mut bounds: Vec<(usize, usize)> = Vec::new();
    let mut from: usize = 0;
    let mut i: usize = 0;
    assert(text@.take(0) =~= Seq::<u8>::empty());
    assert(text@.subrange(0, 0) =~= Seq::<u8>::empty());
    while i < text.len()
        invariant
            from <= i <= text.len(),
            bounds@.len() == scanned(text@.take(i as int), by_line).0.len(),
            forall|k: int|
                0 <= k < bounds@.len() ==> {
                    &&& (#[trigger] bounds@[k]).0 <= bounds@[k].1 <= i
                    &&& text@.subrange(bounds@[k].0 as int, bounds@[k].1 as int) == scanned(
                        text@.take(i as int),
                        by_line,
                    ).0[k]
                },
            text@.subrange(from as int, i as int) == scanned(text@.take(i as int), by_line).1,
        decreases text.len() - i,
    {
        let ghost front = text@.take(i + 1);
        let ghost before = scanned(text@.take(i as int), by_line);
        assert(front.drop_last() =~= text@.take(i as int));
        assert(front.last() == text@[i as int]);
        let b = text[i];
        let separates = if by_line {
            b == NEWLINE
        } else {
            b == 32 || b == 9 || b == 13
        };
        if separates {
            if from < i {
                bounds.push((from, i));
            }
            from = i + 1;
            assert(text@.subrange(from as int, i + 1) =~= Seq::<u8>::empty());
        } else {
            assert(text@.subrange(from as int, i + 1) =~= before.1.push(b));
        }
        i += 1;
    }
    assert(text@.take(text@.len() as int) =~= text@);
    if from < i {
        bounds.push((from, i));
    }
    bounds
}

/// Whether the text is one decimal digit at least and nothing else.
pub open spec fn all_digits(text: Seq<u8>) -> bool {
    text.len() > 0 && forall|i: int| 0 <= i < text.len() ==> 48 <= #[trigger] text[i] <= 57
}

/// What a byte counts for as a decimal digit.
pub open spec fn digit_value(b: u8) -> nat {
    if 48 <= b <= 57 {
        (b - 48) as nat
    } else {
        0
    }
}

/// The number that the decimal digits stand for.
pub open spec fn digits_value(text: Seq<u8>) -> nat
    decreases text.len(),
{
    if text.len() == 0 {
        0
    } else {
        digits_value(text.drop_last()) * 10 + digit_value(text.last())
    }
}

/// The number that the text stands for, where it is a decimal number that
/// does not exceed `max`.
pub open spec fn parsed_number(text: Seq<u8>, max: u64) -> Option<u64> {
    if all_digits(text) && digits_value(text) <= max {
        Some(digits_value(text) as u64)
    } else {
        None
    }
}

/// A number is no smaller than what its leading digits stand for.
pub proof fn lemma_digits_value_grows(text: Seq<u8>, n: int)
    requires
        0 <= n <= text.len(),
    ensures
        digits_value(text.take(n)) <= digits_value(text),
    decreases text.len() - n,
{
    if n < text.len() {
        lemma_digits_value_grows(text, n + 1);
        assert(text.take(n + 1).drop_last() =~= text.take(n));
    } else {
        assert(text.take(n) =~= text);
    }
}

/// Reads a decimal number that does not exceed `max`.
pub fn parse_number(text: &[u8], max: u64) -> (r: Option<u64>)
    ensures
        r == parsed_number(text@, max),
{
    if text.len() == 0 {
        return None;
    }
    let mut value: u64 = 0;
    let mut i: usize = 0;
    assert(text@.take(0) =~= Seq::<u8>::empty());
    while i < text.len()
        invariant
            i <= text.len(),
            text.len() > 0,
            value == digits_value(text@.take(i as int)),
            value <= max,
            forall|k: int| 0 <= k < i ==> 48 <= #[trigger] text@[k] <= 57,
        decreases text.len() - i,
    {
        let b = text[i];
        if b < 48 || b > 57 {
            return None;
        }
        let digit: u64 = (b - 48) as u64;
        proof {
            assert(text@.take(i + 1).drop_last() =~= text@.take(i as int));
            lemma_digits_value_grows(text@, i + 1);
        }
        if digit > max || value > (max - digit) / 10 {
            assert(digits_value(text@.take(i + 1)) > max) by {
                if digit <= max {
                    assert(value * 10 + digit > max) by (nonlinear_arith)
                        requires
                            value > (max - digit) / 10,
                            digit <= max,
                    ;
                }
            }
            return None;
        }
        assert(value * 10 + digit <= max) by (nonlinear_arith)
            requires
                value <= (max - digit) / 10,
                digit <= max,
        ;
        value = value * 10 + digit;
        i += 1;
    }
    assert(text@.take(text@.len() as int) =~= text@);
    Some(value)
}

/// Reads the decimal number between two places of a text.
pub fn parse_number_at(text: &[u8], bounds: (usize, usize), max: u64) -> (r: Option<u64>)
    requires
        bounds.0 <= bounds.1 <= text.len(),
    ensures
        r == parsed_number(text@.subrange(bounds.0 as int, bounds.1 as int), max),
{
    parse_number(slice_subrange(text, bounds.0, bounds.1), max)
}

} // verus!
