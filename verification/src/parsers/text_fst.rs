//! Transducers written as text, one row to a line.
//!
//! A row of four or five columns is a transition: its source, its target,
//! its input label, its output label and, where there is a fifth column, its
//! weight. A row of one or two columns makes a state final: the state and,
//! where there is a second column, its final weight. A weight that is left
//! out is `1̄`. States and labels are decimal numbers. The state of the first
//! row is the start state, and the transducer has the states up to the
//! highest one that a row names.

use vstd::prelude::*;
use vstd::slice::slice_subrange;
use vstd::string::StringSliceAdditionalSpecFns;
use crate::error::FstError;
use crate::fst_properties::FstProperties;
use crate::fst_traits::MutableFst;
use crate::fst_view::{FstView, StateView};
use crate::parsers::text::{
    are_bounds_of, columns, lines, parse_number_at, parsed_number, split_fields,
};
use crate::semirings::semiring::{Semiring, SerializableSemiring};
use crate::tr::{Label, StateId, Tr};

verus! {

/// What one row of the text says.
#[derive(Clone, Copy, Debug)]
pub enum Row<W: Semiring> {
    /// A transition leaves `state`.
    Transition { state: StateId, tr: Tr<W> },
    /// The state is final with this weight.
    Final { state: StateId, weight: W },
}

impl<W: Semiring> Row<W> {
    /// The state that the row is about.
    pub open spec fn state(self) -> StateId {
        match self {
            Row::Transition { state, tr } => state,
            Row::Final { state, weight } => state,
        }
    }

    /// The highest state that the row names.
    pub open spec fn reach(self) -> StateId {
        match self {
            Row::Transition { state, tr } => if state < tr.nextstate {
                tr.nextstate
            } else {
                state
            },
            Row::Final { state, weight } => state,
        }
    }

    /// The state that the row is about.
    pub fn subject(&self) -> (s: StateId)
        ensures
            s == self.state(),
    {
        match self {
            Row::Transition { state, tr } => *state,
            Row::Final { state, weight } => *state,
        }
    }

    /// The highest state that the row names.
    pub fn highest(&self) -> (s: StateId)
        ensures
            s == self.reach(),
    {
        match self {
            Row::Transition { state, tr } => if *state < tr.nextstate {
                tr.nextstate
            } else {
                *state
            },
            Row::Final { state, weight } => *state,
        }
    }
}

/// The highest number that can name a state: one below the highest index,
/// so that the states can still be counted.
pub open spec fn max_state() -> u64 {
    (usize::MAX - 1) as u64
}

/// The state that a column names.
pub open spec fn parsed_state(text: Seq<u8>) -> Option<StateId> {
    match parsed_number(text, max_state()) {
        Some(v) => Some(v as usize),
        None => None,
    }
}

/// The label that a column names.
pub open spec fn parsed_label(text: Seq<u8>) -> Option<Label> {
    match parsed_number(text, 0xffff_ffff) {
        Some(v) => Some(v as u32),
        None => None,
    }
}

/// The weight in column `at`, or `1̄` where the row has no such column.
pub open spec fn parsed_weight_or_one<W: SerializableSemiring>(
    cols: Seq<Seq<u8>>,
    at: int,
) -> Option<W> {
    if at < cols.len() {
        W::parsed_weight(cols[at])
    } else {
        Some(W::one_spec())
    }
}

/// What the columns of a row say, where they say anything.
pub open spec fn parsed_row<W: SerializableSemiring>(cols: Seq<Seq<u8>>) -> Option<Row<W>> {
    if cols.len() == 1 || cols.len() == 2 {
        match (parsed_state(cols[0]), parsed_weight_or_one::<W>(cols, 1)) {
            (Some(state), Some(weight)) => Some(Row::Final { state, weight }),
            _ => None,
        }
    } else if cols.len() == 4 || cols.len() == 5 {
        match (
            parsed_state(cols[0]),
            parsed_state(cols[1]),
            parsed_label(cols[2]),
            parsed_label(cols[3]),
            parsed_weight_or_one::<W>(cols, 4),
        ) {
            (Some(state), Some(nextstate), Some(ilabel), Some(olabel), Some(weight)) => Some(
                Row::Transition { state, tr: Tr { ilabel, olabel, weight, nextstate } },
            ),
            _ => None,
        }
    } else {
        None
    }
}

/// What the lines say, row by row, where each of them is a row or holds
/// nothing but blanks.
pub open spec fn parsed_rows<W: SerializableSemiring>(lines: Seq<Seq<u8>>) -> Option<Seq<Row<W>>>
    decreases lines.len(),
{
    if lines.len() == 0 {
        Some(Seq::empty())
    } else {
        match parsed_rows::<W>(lines.drop_last()) {
            None => None,
            Some(rows) => {
                let cols = columns(lines.last());
                if cols.len() == 0 {
                    Some(rows)
                } else {
                    match parsed_row::<W>(cols) {
                        Some(row) => Some(rows.push(row)),
                        None => None,
                    }
                }
            },
        }
    }
}

/// Whether each state that a row names leaves room to count the states.
pub open spec fn rows_fit<W: Semiring>(rows: Seq<Row<W>>) -> bool {
    forall|i: int| 0 <= i < rows.len() ==> (#[trigger] rows[i]).reach() < usize::MAX
}

/// The number of states that the rows ask for: one more than the highest
/// state that a row names.
pub open spec fn state_count_of<W: Semiring>(rows: Seq<Row<W>>) -> nat
    decreases rows.len(),
{
    if rows.len() == 0 {
        0
    } else {
        let before = state_count_of(rows.drop_last());
        if before > rows.last().reach() {
            before
        } else {
            (rows.last().reach() + 1) as nat
        }
    }
}

/// The states after one more row.
pub open spec fn with_row<W: Semiring>(states: Seq<StateView<W>>, row: Row<W>) -> Seq<
    StateView<W>,
> {
    match row {
        Row::Transition { state, tr } => states.update(
            state as int,
            states[state as int].with_trs(states[state as int].trs.push(tr)),
        ),
        Row::Final { state, weight } => states.update(
            state as int,
            states[state as int].with_final(FstView::<W>::kept_final(weight)),
        ),
    }
}

/// The `n` states that the rows describe: each transition row appends its
/// transition to its source, and each final row gives its state the final
/// weight, which replaces an earlier one.
pub open spec fn with_rows<W: Semiring>(rows: Seq<Row<W>>, n: nat) -> Seq<StateView<W>>
    decreases rows.len(),
{
    if rows.len() == 0 {
        Seq::new(n, |s: int| StateView::<W>::empty())
    } else {
        with_row(with_rows(rows.drop_last(), n), rows.last())
    }
}

/// The transducer that the rows describe. Its start state is the state of
/// the first row. It has no symbol tables, and no property bit is set.
pub open spec fn text_fst<W: Semiring>(rows: Seq<Row<W>>) -> FstView<W> {
    FstView {
        start: if rows.len() > 0 {
            Some(rows[0].state())
        } else {
            None
        },
        states: with_rows(rows, state_count_of(rows)),
        properties: Set::empty(),
        isymt: None,
        osymt: None,
    }
}

/// The count of states exceeds each state that a row names.
pub proof fn lemma_state_count_bounds<W: Semiring>(rows: Seq<Row<W>>, i: int)
    requires
        0 <= i < rows.len(),
    ensures
        rows[i].reach() < state_count_of(rows),
        rows[i].state() <= rows[i].reach(),
        state_count_of(rows.take(i)) <= state_count_of(rows),
    decreases rows.len(),
{
    if i < rows.len() - 1 {
        lemma_state_count_bounds(rows.drop_last(), i);
        assert(rows.drop_last().take(i) =~= rows.take(i));
    } else {
        assert(rows.drop_last() =~= rows.take(i));
    }
}

/// Reads the state between two places of a line.
fn parse_state(line: &[u8], bounds: (usize, usize)) -> (r: Option<StateId>)
    requires
        bounds.0 <= bounds.1 <= line.len(),
    ensures
        r == parsed_state(line@.subrange(bounds.0 as int, bounds.1 as int)),
{
    match parse_number_at(line, bounds, (usize::MAX - 1) as u64) {
        Some(v) => Some(v as usize),
        None => None,
    }
}

/// Reads the label between two places of a line.
fn parse_label(line: &[u8], bounds: (usize, usize)) -> (r: Option<Label>)
    requires
        bounds.0 <= bounds.1 <= line.len(),
    ensures
        r == parsed_label(line@.subrange(bounds.0 as int, bounds.1 as int)),
{
    match parse_number_at(line, bounds, 0xffff_ffff) {
        Some(v) => Some(v as u32),
        None => None,
    }
}

/// Reads the weight in column `at` of a line, or takes `1̄` where the line
/// has no such column.
fn parse_weight_or_one<W: SerializableSemiring>(
    line: &[u8],
    bounds: &Vec<(usize, usize)>,
    at: usize,
) -> (r: Option<W>)
    requires
        are_bounds_of(bounds@, line@, false),
    ensures
        r == parsed_weight_or_one::<W>(columns(line@), at as int),
{
    if at < bounds.len() {
        let b = bounds[at];
        W::parse_text(slice_subrange(line, b.0, b.1))
    } else {
        Some(W::one())
    }
}

/// Reads a row from a line whose columns have been found.
pub fn parse_row<W: SerializableSemiring>(line: &[u8], bounds: &Vec<(usize, usize)>) -> (r: Option<
    Row<W>,
>)
    requires
        are_bounds_of(bounds@, line@, false),
    ensures
        r == parsed_row::<W>(columns(line@)),
{
    let n = bounds.len();
    if n == 1 || n == 2 {
        let state = parse_state(line, bounds[0]);
        let weight = parse_weight_or_one::<W>(line, bounds, 1);
        match (state, weight) {
            (Some(state), Some(weight)) => Some(Row::Final { state, weight }),
            _ => None,
        }
    } else if n == 4 || n == 5 {
        let state = parse_state(line, bounds[0]);
        let nextstate = parse_state(line, bounds[1]);
        let ilabel = parse_label(line, bounds[2]);
        let olabel = parse_label(line, bounds[3]);
        let weight = parse_weight_or_one::<W>(line, bounds, 4);
        match (state, nextstate, ilabel, olabel, weight) {
            (Some(state), Some(nextstate), Some(ilabel), Some(olabel), Some(weight)) => Some(
                Row::Transition { state, tr: Tr::new(ilabel, olabel, weight, nextstate) },
            ),
            _ => None,
        }
    } else {
        None
    }
}

/// Reads the rows of a text.
pub fn parse_rows<W: SerializableSemiring>(text: &[u8]) -> (r: Option<Vec<Row<W>>>)
    ensures
        match r {
            Some(rows) => parsed_rows::<W>(lines(text@)) == Some(rows@) && rows_fit(rows@),
            None => parsed_rows::<W>(lines(text@)) is None,
        },
{
    let line_bounds = split_fields(text, true);
    let mut rows: Vec<Row<W>> = Vec::new();
    let mut k: usize = 0;
    let ghost all = lines(text@);
    assert(all.take(0) =~= Seq::<Seq<u8>>::empty());
    while k < line_bounds.len()
        invariant
            k <= line_bounds.len(),
            all == lines(text@),
            are_bounds_of(line_bounds@, text@, true),
            parsed_rows::<W>(all.take(k as int)) == Some(rows@),
            rows_fit(rows@),
        decreases line_bounds.len() - k,
    {
        let b = line_bounds[k];
        let line = slice_subrange(text, b.0, b.1);
        let cols = split_fields(line, false);
        proof {
            assert(all.take(k + 1).drop_last() =~= all.take(k as int));
            assert(all.take(k + 1).last() == line@);
        }
        if cols.len() > 0 {
            match parse_row::<W>(line, &cols) {
                Some(row) => {
                    rows.push(row);
                },
                None => {
                    proof {
                        lemma_parsed_rows_fail::<W>(all, k + 1);
                    }
                    return None;
                },
            }
        }
        k += 1;
    }
    assert(all.take(all.len() as int) =~= all);
    Some(rows)
}

/// Once some line is no row, the text is not a transducer.
pub proof fn lemma_parsed_rows_fail<W: SerializableSemiring>(lines: Seq<Seq<u8>>, n: int)
    requires
        0 <= n <= lines.len(),
        parsed_rows::<W>(lines.take(n)) is None,
    ensures
        parsed_rows::<W>(lines) is None,
    decreases lines.len() - n,
{
    if n < lines.len() {
        assert(lines.take(n + 1).drop_last() =~= lines.take(n));
        lemma_parsed_rows_fail::<W>(lines, n + 1);
    } else {
        assert(lines.take(n) =~= lines);
    }
}

/// Counts the states that the rows ask for.
pub fn count_states<W: Semiring>(rows: &Vec<Row<W>>) -> (n: usize)
    requires
        rows_fit(rows@),
    ensures
        n == state_count_of(rows@),
{
    let mut n: usize = 0;
    let mut i: usize = 0;
    assert(rows@.take(0) =~= Seq::<Row<W>>::empty());
    while i < rows.len()
        invariant
            i <= rows.len(),
            rows_fit(rows@),
            n == state_count_of(rows@.take(i as int)),
        decreases rows.len() - i,
    {
        assert(rows@.take(i + 1).drop_last() =~= rows@.take(i as int));
        let top = rows[i].highest();
        if n <= top {
            n = top + 1;
        }
        i += 1;
    }
    assert(rows@.take(rows@.len() as int) =~= rows@);
    n
}

/// Builds the transducer that the rows describe.
pub fn build_fst<W: Semiring, F: MutableFst<W>>(rows: &Vec<Row<W>>) -> (fst: F)
    requires
        rows_fit(rows@),
    ensures
        fst@ == text_fst(rows@),
        fst@.wf(),
{
    let n = count_states(rows);
    let mut fst = F::new();
    fst.add_states(n);
    if rows.len() > 0 {
        proof {
            lemma_state_count_bounds(rows@, 0);
        }
        fst.set_start_unchecked(rows[0].subject());
    }
    let mut i: usize = 0;
    proof {
        assert(rows@.take(0) =~= Seq::<Row<W>>::empty());
        assert(fst@.states =~= with_rows(rows@.take(0), n as nat));
    }
    while i < rows.len()
        invariant
            i <= rows.len(),
            n == state_count_of(rows@),
            fst@.wf(),
            fst@.states.len() == n,
            fst@.states == with_rows(rows@.take(i as int), n as nat),
            fst@.start == text_fst(rows@).start,
            fst@.isymt is None,
            fst@.osymt is None,
        decreases rows.len() - i,
    {
        proof {
            assert(rows@.take(i + 1).drop_last() =~= rows@.take(i as int));
            lemma_state_count_bounds(rows@, i as int);
        }
        match rows[i] {
            Row::Transition { state, tr } => {
                fst.add_tr_unchecked(state, tr);
            },
            Row::Final { state, weight } => {
                fst.set_final_unchecked(state, weight);
            },
        }
        proof {
            assert(fst@.states =~= with_rows(rows@.take(i + 1), n as nat));
        }
        i += 1;
    }
    proof {
        assert(rows@.take(rows@.len() as int) =~= rows@);
        fst@.lemma_with_properties_wf(Set::empty());
    }
    fst.set_properties(FstProperties::empty());
    proof {
        assert(fst@ =~= text_fst(rows@));
    }
    fst
}

/// Reads a transducer from text. A text with a line that is no row is
/// refused as malformed.
pub fn parse_text_fst<W: SerializableSemiring, F: MutableFst<W>>(text: &[u8]) -> (r: Result<
    F,
    FstError,
>)
    ensures
        match r {
            Ok(fst) => parsed_rows::<W>(lines(text@)) matches Some(rows) && fst@ == text_fst(rows)
                && fst@.wf(),
            Err(e) => e == FstError::InvalidInput && parsed_rows::<W>(lines(text@)) is None,
        },
{
    match parse_rows::<W>(text) {
        Some(rows) => Ok(build_fst(&rows)),
        None => Err(FstError::InvalidInput),
    }
}

/// Reads a transducer from a string.
pub fn from_text_string<W: SerializableSemiring, F: MutableFst<W>>(text: &str) -> (r: Result<
    F,
    FstError,
>)
    ensures
        match r {
            Ok(fst) => parsed_rows::<W>(lines(text.spec_bytes())) matches Some(rows) && fst@
                == text_fst(rows) && fst@.wf(),
            Err(e) => e == FstError::InvalidInput && parsed_rows::<W>(lines(text.spec_bytes()))
                is None,
        },
{
    parse_text_fst(text.as_bytes())
}

} // verus!
