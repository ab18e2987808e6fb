//! Symbol tables: the names of the labels.

use std::sync::Arc;
use vstd::prelude::*;
use crate::tr::Label;

verus! {

/// The name that every symbol table gives to label `0`.
pub open spec fn eps_symbol() -> Seq<char> {
    "<eps>"@
}

/// A two-way map between symbols and labels. The label of a symbol is the
/// position at which it was added; the first symbol is the name of ε.
#[derive(Debug, PartialEq, Eq)]
pub struct SymbolTable {
    symbols: Vec<String>,
}

impl View for SymbolTable {
    type V = Seq<Seq<char>>;

    /// The symbols in the order of their labels.
    closed spec fn view(&self) -> Seq<Seq<char>> {
        Seq::new(self.symbols.len() as nat, |i: int| self.symbols[i]@)
    }
}

/// What every symbol table satisfies: no symbol occurs twice, the first one
/// names ε, and every position is a label.
pub open spec fn symbols_wf(symbols: Seq<Seq<char>>) -> bool {
    &&& symbols.len() >= 1
    &&& symbols.len() <= u32::MAX
    &&& symbols[0] == eps_symbol()
    &&& forall|i: int, j: int|
        0 <= i < j < symbols.len() ==> #[trigger] symbols[i] != #[trigger] symbols[j]
}

/// `Arc::clone` of the standard library: a second handle to the table behind
/// `table`. The contract claims that the new handle points to the same table.
#[verifier::external_body]
pub(crate) fn share_symbol_table(table: &Arc<SymbolTable>) -> (shared: Arc<SymbolTable>)
    ensures
        shared == *table,
{
    Arc::clone(table)
}

impl SymbolTable {
    /// A table that names ε alone.
    pub fn new() -> (t: Self)
        ensures
            t@ == seq![eps_symbol()],
            symbols_wf(t@),
    {
        let mut symbols: Vec<String> = Vec::new();
        symbols.push("<eps>".to_owned());
        let t = SymbolTable { symbols };
        assert(t@ =~= seq![eps_symbol()]);
        t
    }

    /// The number of symbols.
    pub fn len(&self) -> (n: usize)
        ensures
            n == self@.len(),
    {
        self.symbols.len()
    }

    pub fn is_empty(&self) -> (b: bool)
        ensures
            b == (self@.len() == 0),
    {
        self.symbols.len() == 0
    }

    /// The label of `symbol`, if the table has it.
    pub fn get_label(&self, symbol: &str) -> (r: Option<Label>)
        requires
            symbols_wf(self@),
        ensures
            match r {
                Some(l) => l < self@.len() && self@[l as int] == symbol@,
                None => !self@.contains(symbol@),
            },
    {
        let wanted: String = symbol.to_owned();
        let mut i: usize = 0;
        while i < self.symbols.len()
            invariant
                i <= self.symbols.len(),
                self.symbols.len() <= u32::MAX,
                wanted@ == symbol@,
                forall|j: int| 0 <= j < i ==> self@[j] != symbol@,
            decreases self.symbols.len() - i,
        {
            if self.symbols[i] == wanted {
                return Some(i as u32);
            }
            i += 1;
        }
        None
    }

    /// The symbol of `label`, if the table has it.
    pub fn get_symbol(&self, label: Label) -> (r: Option<&str>)
        ensures
            match r {
                Some(s) => label < self@.len() && s@ == self@[label as int],
                None => label >= self@.len(),
            },
    {
        if (label as usize) < self.symbols.len() {
            Some(self.symbols[label as usize].as_str())
        } else {
            None
        }
    }

    pub fn contains_symbol(&self, symbol: &str) -> (b: bool)
        requires
            symbols_wf(self@),
        ensures
            b == self@.contains(symbol@),
    {
        self.get_label(symbol).is_some()
    }

    pub fn contains_label(&self, label: Label) -> (b: bool)
        ensures
            b == (label < self@.len()),
    {
        (label as usize) < self.symbols.len()
    }

    /// Adds `symbol` unless the table has it, and returns its label. A table
    /// that holds `u32::MAX` symbols takes no more: `None`.
    pub fn add_symbol(&mut self, symbol: &str) -> (r: Option<Label>)
        requires
            symbols_wf(old(self)@),
        ensures
            symbols_wf(final(self)@),
            old(self)@.contains(symbol@) ==> final(self)@ == old(self)@ && r is Some
                && final(self)@[r->0 as int] == symbol@,
            !old(self)@.contains(symbol@) && old(self)@.len() < u32::MAX ==> final(self)@ == old(
                self,
            )@.push(symbol@) && r == Some(old(self)@.len() as u32),
            !old(self)@.contains(symbol@) && old(self)@.len() >= u32::MAX ==> final(self)@ == old(
                self,
            )@ && r is None,
    {
        match self.get_label(symbol) {
            Some(l) => Some(l),
            None => {
                let n = self.symbols.len();
                if n >= u32::MAX as usize {
                    None
                } else {
                    let ghost before = self@;
                    self.symbols.push(symbol.to_owned());
                    assert(self@ =~= before.push(symbol@));
                    Some(n as u32)
                }
            },
        }
    }
}

} // verus!
