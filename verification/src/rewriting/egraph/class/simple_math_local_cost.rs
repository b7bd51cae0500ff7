//! Costs of the symbols of the simple arithmetic language.

use vstd::prelude::*;

use crate::language::expression::Literal;
use crate::language::symbol::SymbolId;

use core::cmp::Ordering;
use vstd::std_specs::cmp::PartialOrdSpecImpl;

use super::local_cost::{cost_lt, LocalCost};

verus! {

/// A cost for expressions of `Language::simple_math`, whose symbols have the
/// ids `+` 0, `-` 1, `*` 2, `/` 3, `<<` 4, `sin` 5, `cos` 6.
#[derive(Default, Clone, Debug, PartialEq, Eq, Ord)]
pub struct SimpleMathLocalCost(pub i32);

impl PartialOrd for SimpleMathLocalCost {
    fn partial_cmp(&self, other: &Self) -> (r: Option<Ordering>) {
        if self.0 < other.0 {
            Some(Ordering::Less)
        } else if self.0 == other.0 {
            Some(Ordering::Equal)
        } else {
            Some(Ordering::Greater)
        }
    }
}

impl PartialOrdSpecImpl for SimpleMathLocalCost {
    open spec fn obeys_partial_cmp_spec() -> bool {
        true
    }

    open spec fn partial_cmp_spec(&self, other: &Self) -> Option<Ordering> {
        if self.0 < other.0 {
            Some(Ordering::Less)
        } else if self.0 == other.0 {
            Some(Ordering::Equal)
        } else {
            Some(Ordering::Greater)
        }
    }
}

/// The cost of the symbol with id `id`: multiplication and division cost more,
/// shifts and sines a little more, everything else one.
pub open spec fn simple_math_symbol_cost(id: SymbolId) -> i32 {
    if id == 2 {
        4
    } else if id == 3 {
        8
    } else if id == 4 || id == 5 {
        2
    } else {
        1
    }
}

/// `v` clamped to the bounds of `i32`.
fn clamp_i32(v: i64) -> (r: i32)
    ensures
        r == (if v > i32::MAX {
            i32::MAX as int
        } else if v < i32::MIN {
            i32::MIN as int
        } else {
            v as int
        }),
{
    if v > i32::MAX as i64 {
        i32::MAX
    } else if v < i32::MIN as i64 {
        i32::MIN
    } else {
        v as i32
    }
}

/// `v` clamped to the bounds of `i32`, as a value.
pub open spec fn clamp_spec(v: int) -> i32 {
    if v > i32::MAX {
        i32::MAX
    } else if v < i32::MIN {
        i32::MIN
    } else {
        v as i32
    }
}

impl LocalCost for SimpleMathLocalCost {
    open spec fn symbol_cost_spec(symbol_id: SymbolId) -> Self {
        SimpleMathLocalCost(simple_math_symbol_cost(symbol_id))
    }

    open spec fn literal_cost_spec(literal: Literal) -> Self {
        SimpleMathLocalCost(1)
    }

    open spec fn add_spec(self, other: Self) -> Self {
        SimpleMathLocalCost(clamp_spec(self.0 + other.0))
    }

    open spec fn sub_spec(self, other: Self) -> Self {
        SimpleMathLocalCost(clamp_spec(self.0 - other.0))
    }

    fn symbol_cost(symbol_id: SymbolId) -> (r: Self)
        ensures
            r.0 == simple_math_symbol_cost(symbol_id),
    {
        SimpleMathLocalCost(
            if symbol_id == 2 {
                4
            } else if symbol_id == 3 {
                8
            } else if symbol_id == 4 || symbol_id == 5 {
                2
            } else {
                1
            },
        )
    }

    fn literal_cost(literal: &Literal) -> (r: Self)
        ensures
            r.0 == 1,
    {
        SimpleMathLocalCost(1)
    }

    /// The sum of both costs, saturating at the bounds of `i32`.
    fn add(&self, other: &Self) -> (r: Self)
        ensures
            r.0 == (if self.0 + other.0 > i32::MAX {
                i32::MAX as int
            } else if self.0 + other.0 < i32::MIN {
                i32::MIN as int
            } else {
                self.0 + other.0
            }),
    {
        SimpleMathLocalCost(clamp_i32(self.0 as i64 + other.0 as i64))
    }

    proof fn lemma_cost_order() {
        assert forall|a: Self, b: Self| #[trigger] cost_lt(a, b) implies !cost_lt(b, a) by {}
        assert forall|a: Self, b: Self, c: Self|
            !#[trigger] cost_lt(b, a) && !#[trigger] cost_lt(c, b) implies !cost_lt(c, a) by {}
    }

    /// The difference of two costs, saturating at the bounds of `i32`.
    fn sub(&self, other: &Self) -> (r: Self)
        ensures
            r.0 == (if self.0 - other.0 > i32::MAX {
                i32::MAX as int
            } else if self.0 - other.0 < i32::MIN {
                i32::MIN as int
            } else {
                self.0 - other.0
            }),
    {
        SimpleMathLocalCost(clamp_i32(self.0 as i64 - other.0 as i64))
    }
}

} // verus!
