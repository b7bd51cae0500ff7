//! Abelianization: counting the symbols of expressions, and the change of these
//! counts by rules, into vectors and matrices of `nalgebra`.

use nalgebra::{DMatrix, DVector};
use vstd::prelude::*;

use crate::language::expression::{lemma_expr_view, symbols_below, term_size, sizes_sum, Expression, Term};
use crate::language::symbol::SymbolId;
use crate::language::Language;
use crate::rewriting::rule::{rule_views, Rule};

verus! {

broadcast use vstd::std_specs::vec::group_vec_axioms, vstd::seq::group_seq_axioms;

/// The number of occurrences of symbol `s` in `t`.
pub open spec fn occurrences(t: Term, s: SymbolId) -> nat
    decreases t,
{
    match t {
        Term::Sym(id, cs) => (if id == s {
            1nat
        } else {
            0nat
        }) + occurrences_sum(cs, s, cs.len() as int),
        _ => 0,
    }
}

/// The number of occurrences of symbol `s` in the first `n` terms of `cs`.
pub open spec fn occurrences_sum(cs: Seq<Term>, s: SymbolId, n: int) -> nat
    decreases cs, n,
{
    if n <= 0 || n > cs.len() {
        0
    } else {
        occurrences_sum(cs, s, n - 1) + occurrences(cs[n - 1], s)
    }
}

/// Lemma: a symbol occurs in a term at most as often as the term has nodes.
proof fn lemma_occurrences_size(t: Term, s: SymbolId)
    ensures
        occurrences(t, s) <= term_size(t),
    decreases t,
{
    if let Term::Sym(_, cs) = t {
        lemma_occurrences_sum_size(cs, s, cs.len() as int);
    }
}

/// Lemma: the same for the first `n` terms of a list.
proof fn lemma_occurrences_sum_size(cs: Seq<Term>, s: SymbolId, n: int)
    ensures
        occurrences_sum(cs, s, n) <= sizes_sum(cs, n),
    decreases cs, n,
{
    if 0 < n <= cs.len() {
        lemma_occurrences_sum_size(cs, s, n - 1);
        lemma_occurrences_size(cs[n - 1], s);
    }
}

/// A column vector of `nalgebra` (`DVector<i32>`).
#[verifier::external_body]
pub struct AbelianVector {
    vector: DVector<i32>,
}

/// The entries of a vector.
pub uninterp spec fn abelian_vector_entries(v: AbelianVector) -> Seq<i32>;

/// The vector with the entries `data` (`DVector::from_vec`).
#[verifier::external_body]
fn vector_from_vec(data: Vec<i32>) -> (r: AbelianVector)
    ensures
        abelian_vector_entries(r) == data@,
{
    AbelianVector { vector: DVector::from_vec(data) }
}

impl AbelianVector {
    /// The number of entries (`Matrix::len`).
    #[verifier::external_body]
    pub fn len(&self) -> (r: usize)
        ensures
            r == abelian_vector_entries(*self).len(),
    {
        self.vector.len()
    }

    /// The entry `i` (indexing of `nalgebra`, which panics out of range).
    #[verifier::external_body]
    pub fn get(&self, i: usize) -> (r: i32)
        requires
            i < abelian_vector_entries(*self).len(),
        ensures
            r == abelian_vector_entries(*self)[i as int],
    {
        self.vector[i]
    }
}

/// A matrix of `nalgebra` (`DMatrix<i32>`).
#[verifier::external_body]
pub struct AbelianMatrix {
    matrix: DMatrix<i32>,
}

/// The entries of a matrix, column by column.
pub uninterp spec fn abelian_matrix_entries(m: AbelianMatrix) -> Seq<i32>;

/// The number of rows of a matrix.
pub uninterp spec fn abelian_matrix_rows(m: AbelianMatrix) -> nat;

/// The matrix of `nrows` rows and `ncols` columns with the entries `data`,
/// column by column (`DMatrix::from_vec`, which panics when the sizes do not
/// agree).
#[verifier::external_body]
fn matrix_from_vec(nrows: usize, ncols: usize, data: Vec<i32>) -> (r: AbelianMatrix)
    requires
        data@.len() == nrows * ncols,
    ensures
        abelian_matrix_entries(r) == data@,
        abelian_matrix_rows(r) == nrows,
{
    AbelianMatrix { matrix: DMatrix::from_vec(nrows, ncols, data) }
}

impl AbelianMatrix {
    /// The number of rows (`Matrix::nrows`).
    #[verifier::external_body]
    pub fn nrows(&self) -> (r: usize)
        ensures
            r == abelian_matrix_rows(*self),
    {
        self.matrix.nrows()
    }

    /// The number of columns (`Matrix::ncols`).
    #[verifier::external_body]
    pub fn ncols(&self) -> (r: usize)
        ensures
            abelian_matrix_rows(*self) > 0 ==> r * abelian_matrix_rows(*self) == abelian_matrix_entries(*self).len(),
    {
        self.matrix.ncols()
    }

    /// The entry at row `row` and column `col` (indexing of `nalgebra`).
    #[verifier::external_body]
    pub fn get(&self, row: usize, col: usize) -> (r: i32)
        requires
            row < abelian_matrix_rows(*self),
            col * abelian_matrix_rows(*self) + row < abelian_matrix_entries(*self).len(),
        ensures
            r == abelian_matrix_entries(*self)[col * abelian_matrix_rows(*self) + row],
    {
        self.matrix[(row, col)]
    }
}

/// Adds to each `counts[s]` the number of occurrences of symbol `s` in `expr`.
#[verifier::loop_isolation(false)]
fn count_symbols(expr: &Expression, counts: &mut Vec<i32>)
    requires
        symbols_below(expr@, old(counts)@.len() as nat),
        forall|s: SymbolId| s < old(counts)@.len() ==> 0 <= #[trigger] old(counts)@[s as int] && old(counts)@[s as int] + term_size(expr@) <= i32::MAX,
    ensures
        final(counts)@.len() == old(counts)@.len(),
        forall|s: SymbolId| s < old(counts)@.len() ==> #[trigger] final(counts)@[s as int] == old(counts)@[s as int] + occurrences(expr@, s),
    decreases expr@,
{
    proof {
        lemma_expr_view(*expr);
    }
    match expr {
        Expression::Symbol(symbol) => {
            let ghost start = counts@;
            let ghost cs = expr@->1;
            proof {
                assert(sizes_sum(cs, cs.len() as int) == term_size(expr@) - 1);
            }
            let old_value = counts[symbol.id];
            counts.set(symbol.id, old_value + 1);
            let mut i: usize = 0;
            while i < symbol.children.len()
                invariant
                    i <= symbol.children@.len(),
                    cs.len() == symbol.children@.len(),
                    counts@.len() == start.len(),
                    forall|s: SymbolId|
                        s < start.len() ==> #[trigger] counts@[s as int] == start[s as int] + (if s == symbol.id {
                            1int
                        } else {
                            0int
                        }) + occurrences_sum(cs, s, i as int),
                    forall|s: SymbolId| s < start.len() ==> 0 <= #[trigger] start[s as int] && start[s as int] + term_size(expr@) <= i32::MAX,
                    sizes_sum(cs, cs.len() as int) + 1 == term_size(expr@),
                decreases symbol.children.len() - i,
            {
                proof {
                    assert(cs[i as int] == symbol.children@[i as int]@);
                    assert forall|s: SymbolId| s < start.len() implies 0 <= #[trigger] counts@[s as int] && counts@[s as int] + term_size(cs[i as int]) <= i32::MAX by {
                        lemma_sizes_sum_step(cs, i as int);
                        lemma_occurrences_sum_size(cs, s, i as int);
                        lemma_sizes_sum_le(cs, i as int + 1, cs.len() as int);
                        assert(start[s as int] + term_size(expr@) <= i32::MAX);
                    }
                }
                count_symbols(&symbol.children[i], counts);
                proof {
                    lemma_sizes_sum_step(cs, i as int);
                }
                i = i + 1;
            }
            proof {
                assert(i == cs.len());
                assert forall|s: SymbolId| s < start.len() implies #[trigger] counts@[s as int] == start[s as int] + occurrences(expr@, s) by {
                    assert(expr@ == Term::Sym(symbol.id, cs));
                }
            }
        },
        _ => {},
    }
}

/// Lemma: one more term adds its size.
proof fn lemma_sizes_sum_step(cs: Seq<Term>, i: int)
    requires
        0 <= i < cs.len(),
    ensures
        sizes_sum(cs, i + 1) == sizes_sum(cs, i) + term_size(cs[i]),
{
}

/// Lemma: the partial sums of sizes only grow.
proof fn lemma_sizes_sum_le(cs: Seq<Term>, i: int, j: int)
    requires
        0 <= i <= j <= cs.len(),
    ensures
        sizes_sum(cs, i) <= sizes_sum(cs, j),
    decreases j - i,
{
    if i < j {
        lemma_sizes_sum_le(cs, i, j - 1);
    }
}

/// The count of each symbol of `lang` in `expr`, symbol by symbol.
pub fn expression_to_abelian_vector(expr: &Expression, lang: &Language) -> (r: AbelianVector)
    requires
        symbols_below(expr@, lang.names().len() as nat),
        term_size(expr@) <= i32::MAX,
    ensures
        abelian_vector_entries(r).len() == lang.names().len(),
        forall|s: SymbolId| s < lang.names().len() ==> #[trigger] abelian_vector_entries(r)[s as int] == occurrences(expr@, s),
{
    let counts = symbol_counts(expr, lang.symbol_count());
    vector_from_vec(counts)
}

/// The count of each symbol below `n` in `expr`.
fn symbol_counts(expr: &Expression, n: usize) -> (r: Vec<i32>)
    requires
        symbols_below(expr@, n as nat),
        term_size(expr@) <= i32::MAX,
    ensures
        r@.len() == n,
        forall|s: SymbolId| s < n ==> #[trigger] r@[s as int] == occurrences(expr@, s),
{
    let mut counts: Vec<i32> = Vec::new();
    let mut k: usize = 0;
    while k < n
        invariant
            k <= n,
            counts@.len() == k,
            forall|s: int| 0 <= s < k ==> #[trigger] counts@[s] == 0,
            k <= usize::MAX,
        decreases n - k,
    {
        counts.push(0);
        k = k + 1;
    }
    count_symbols(expr, &mut counts);
    counts
}

/// The abelianized matrix of `rules`: a row for each symbol of `lang` and a
/// column for each rule, holding how much applying the rule changes the count
/// of the symbol (count on the right side minus count on the left side).
#[verifier::loop_isolation(false)]
pub fn rules_to_abelian_matrix(rules: &[Rule], lang: &Language) -> (r: AbelianMatrix)
    requires
        lang.names().len() * rules@.len() <= usize::MAX,
        forall|j: int|
            0 <= j < rules@.len() ==> symbols_below(#[trigger] rules@[j]@.0, lang.names().len() as nat) && symbols_below(
                rules@[j]@.1,
                lang.names().len() as nat,
            ) && term_size(rules@[j]@.0) <= i32::MAX && term_size(rules@[j]@.1) <= i32::MAX,
    ensures
        abelian_matrix_rows(r) == lang.names().len(),
        abelian_matrix_entries(r).len() == lang.names().len() * rules@.len(),
        forall|j: int, s: SymbolId|
            0 <= j < rules@.len() && s < lang.names().len() ==> #[trigger] abelian_matrix_entries(r)[j * lang.names().len() + s]
                == occurrences(rules@[j]@.1, s) - occurrences(rules@[j]@.0, s),
{
    let n = lang.symbol_count();
    let mut data: Vec<i32> = Vec::new();
    let mut j: usize = 0;
    while j < rules.len()
        invariant
            j <= rules@.len(),
            n == lang.names().len(),
            data@.len() == j * n,
            forall|jj: int, s: SymbolId|
                0 <= jj < j && s < n ==> #[trigger] data@[jj * n + s] == occurrences(rules@[jj]@.1, s) - occurrences(
                    rules@[jj]@.0,
                    s,
                ),
        decreases rules.len() - j,
    {
        let left = symbol_counts(rules[j].from(), n);
        let right = symbol_counts(rules[j].to(), n);
        let ghost base = data@;
        proof {
            assert(j * n + n == (j + 1) * n) by (nonlinear_arith);
        }
        let mut s: usize = 0;
        while s < n
            invariant
                s <= n,
                data@.len() == j * n + s,
                data@.subrange(0, (j * n) as int) == base,
                forall|t: int| 0 <= t < s ==> #[trigger] data@[j * n + t] == right@[t] - left@[t],
                right@.len() == n && left@.len() == n,
            decreases n - s,
        {
            proof {
                lemma_occurrences_size(rules@[j as int]@.0, s as SymbolId);
                lemma_occurrences_size(rules@[j as int]@.1, s as SymbolId);
            }
            data.push(right[s] - left[s]);
            proof {
                assert(data@.subrange(0, (j * n) as int) =~= base);
            }
            s = s + 1;
        }
        proof {
            assert forall|jj: int, t: SymbolId| 0 <= jj < j + 1 && t < n implies #[trigger] data@[jj * n + t]
                == occurrences(rules@[jj]@.1, t) - occurrences(rules@[jj]@.0, t) by {
                if jj < j {
                    assert(jj * n + t < j * n) by (nonlinear_arith)
                        requires
                            jj < j,
                            t < n,
                    ;
                    assert(data@[jj * n + t] == data@.subrange(0, (j * n) as int)[jj * n + t]);
                } else {
                    assert(jj * n + t == j * n + t);
                    assert(data@[j * n + t] == right@[t as int] - left@[t as int]);
                }
            }
        }
        j = j + 1;
    }
    proof {
        assert(data@.len() == n * rules@.len()) by (nonlinear_arith)
            requires
                data@.len() == j * n,
                j == rules@.len(),
        ;
    }
    matrix_from_vec(n, rules.len(), data)
}

} // verus!
