//! The number of children that each symbol of a language takes.

use vstd::prelude::*;

use super::symbol::SymbolId;

verus! {

broadcast use vstd::std_specs::vec::group_vec_axioms, vstd::seq::group_seq_axioms;

/// Arities of symbols, as a list of `(symbol, arity)` pairs; the first pair of
/// a symbol gives its arity.
#[derive(Debug)]
pub struct Arities {
    entries: Vec<(SymbolId, usize)>,
}

/// The arity given to `id` by the first pair of `entries` that names it.
pub open spec fn first_arity(entries: Seq<(SymbolId, usize)>, id: SymbolId) -> Option<usize>
    decreases entries.len(),
{
    if entries.len() == 0 {
        None
    } else if entries[0].0 == id {
        Some(entries[0].1)
    } else {
        first_arity(entries.drop_first(), id)
    }
}

impl View for Arities {
    type V = Seq<(SymbolId, usize)>;

    closed spec fn view(&self) -> Seq<(SymbolId, usize)> {
        self.entries@
    }
}

impl Arities {
    /// Arities given as `(symbol, arity)` pairs.
    pub fn from_pairs(pairs: Vec<(SymbolId, usize)>) -> (r: Self)
        ensures
            r@ == pairs@,
    {
        Arities { entries: pairs }
    }

    /// The arity of symbol `symbol_id`, if one is given.
    pub fn get_first(&self, symbol_id: SymbolId) -> (r: Option<usize>)
        ensures
            r == first_arity(self@, symbol_id),
    {
        let mut i: usize = 0;
        assert(self.entries@.skip(0) =~= self.entries@);
        while i < self.entries.len()
            invariant
                i <= self.entries@.len(),
                first_arity(self.entries@, symbol_id) == first_arity(self.entries@.skip(i as int), symbol_id),
            decreases self.entries@.len() - i,
        {
            assert(self.entries@.skip(i as int)[0] == self.entries@[i as int]);
            if self.entries[i].0 == symbol_id {
                return Some(self.entries[i].1);
            }
            assert(self.entries@.skip(i as int).drop_first() =~= self.entries@.skip(i + 1));
            i = i + 1;
        }
        None
    }
}

} // verus!
