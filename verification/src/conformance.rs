//! Expected outcomes of an algorithm, and the comparison of an outcome with
//! what was expected.

use vstd::prelude::*;
use vstd::utf8::encode_utf8;
use crate::error::FstError;
use crate::fst_traits::{Fst, MutableFst};
use crate::parsers::text::lines;
use crate::parsers::text_fst::{from_text_string, parsed_rows, text_fst};
use crate::semirings::semiring::{Semiring, SerializableSemiring};
use crate::tr::Tr;

verus! {

/// The outcome that is expected of the extraction of the `nshortest` best
/// paths, as it is written down: the transducer as text, or the word
/// `error` where the extraction is to fail.
#[derive(Debug)]
pub struct ShorestPathOperationResult {
    pub unique: bool,
    pub nshortest: usize,
    pub result: String,
}

/// The outcome that is expected of the extraction of the `nshortest` best
/// paths: a transducer, or a failure.
pub struct ShortestPathTestData<F> {
    pub unique: bool,
    pub nshortest: usize,
    pub result: Result<F, FstError>,
}

/// Whether the text is the word that stands for a failure.
pub open spec fn says_error(text: Seq<char>) -> bool {
    text == "error"@
}

impl ShorestPathOperationResult {
    /// Reads the expected transducer. The word `error` gives a failure, and
    /// so does a text that is no transducer.
    pub fn parse<W: SerializableSemiring, F: MutableFst<W>>(&self) -> (data: ShortestPathTestData<
        F,
    >)
        ensures
            data.unique == self.unique,
            data.nshortest == self.nshortest,
            says_error(self.result@) ==> data.result == Err::<F, FstError>(
                FstError::InvalidInput,
            ),
            !says_error(self.result@) ==> (match data.result {
                Ok(fst) => parsed_rows::<W>(lines(encode_utf8(self.result@))) matches Some(rows)
                    && fst@ == text_fst(rows) && fst@.wf(),
                Err(e) => e == FstError::InvalidInput && parsed_rows::<W>(
                    lines(encode_utf8(self.result@)),
                ) is None,
            }),
    {
        let marker = "error".to_owned();
        let result = if self.result == marker {
            Err(FstError::InvalidInput)
        } else {
            from_text_string::<W, F>(self.result.as_str())
        };
        ShortestPathTestData { unique: self.unique, nshortest: self.nshortest, result }
    }
}

/// Whether the two lists hold the same transitions in the same order.
pub fn same_trs<W: Semiring>(a: &[Tr<W>], b: &[Tr<W>]) -> (same: bool)
    ensures
        same == (a@ == b@),
{
    if a.len() != b.len() {
        return false;
    }
    let mut i: usize = 0;
    while i < a.len()
        invariant
            i <= a.len(),
            a.len() == b.len(),
            forall|j: int| 0 <= j < i ==> a@[j] == b@[j],
        decreases a.len() - i,
    {
        if !a[i].is_equal(&b[i]) {
            return false;
        }
        i += 1;
    }
    assert(a@ =~= b@);
    true
}

/// Whether the two transducers have the same start state and the same
/// states, each with the same final weight and the same transitions in the
/// same order. Symbol tables and property bits are not compared.
pub fn same_graph<W: Semiring, F1: Fst<W>, F2: Fst<W>>(a: &F1, b: &F2) -> (same: bool)
    ensures
        same == (a@.start == b@.start && a@.states == b@.states),
{
    let same_start = match (a.start(), b.start()) {
        (Some(s), Some(t)) => s == t,
        (None, None) => true,
        _ => false,
    };
    if !same_start || a.num_states() != b.num_states() {
        return false;
    }
    let n = a.num_states();
    let mut s: usize = 0;
    while s < n
        invariant
            s <= n,
            n == a@.states.len(),
            n == b@.states.len(),
            forall|t: int| 0 <= t < s ==> a@.states[t] == b@.states[t],
        decreases n - s,
    {
        let same_final = match (a.final_weight_unchecked(s), b.final_weight_unchecked(s)) {
            (Some(v), Some(w)) => v.is_equal(&w),
            (None, None) => true,
            _ => false,
        };
        if !same_final || !same_trs(a.get_trs_unchecked(s), b.get_trs_unchecked(s)) {
            return false;
        }
        s += 1;
    }
    assert(a@.states =~= b@.states);
    true
}

/// Whether an outcome is the expected one: both are failures, or both are
/// transducers with the same graph.
pub fn outcomes_agree<W: Semiring, F1: Fst<W>, F2: Fst<W>>(
    expected: &Result<F1, FstError>,
    outcome: &Result<F2, FstError>,
) -> (agree: bool)
    ensures
        agree == (match (*expected, *outcome) {
            (Ok(e), Ok(g)) => e@.start == g@.start && e@.states == g@.states,
            (Err(_), Err(_)) => true,
            _ => false,
        }),
{
    match (expected, outcome) {
        (Ok(e), Ok(g)) => same_graph(e, g),
        (Err(_), Err(_)) => true,
        _ => false,
    }
}

} // verus!
