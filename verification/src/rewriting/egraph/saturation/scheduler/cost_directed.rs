//! Trying the rules that make expressions cheapest first.

use std::marker::PhantomData;

use vstd::prelude::*;

use crate::language::expression::Term;
use crate::rewriting::egraph::class::local_cost::{cost_lt, cost_order_known, expression_cost, is_cost, LocalCost};
use crate::rewriting::egraph::matching::Matcher;
use crate::rewriting::egraph::{lemma_evolved, Analysis, EGraph};
use crate::rewriting::rule::{changed_by, rule_done, rule_ok, rule_views, Rule};

use super::Scheduler;

verus! {

broadcast use vstd::std_specs::vec::group_vec_axioms, vstd::seq::group_seq_axioms;

/// The change of cost that a rule brings: the cost of its right-hand side
/// minus the cost of its left-hand side.
pub fn rule_cost<LC: LocalCost>(rule: &Rule) -> (r: LC)
    ensures
        rule_cost_ok(rule@, r),
{
    let to: LC = expression_cost(rule.to());
    let from: LC = expression_cost(rule.from());
    let r = to.sub(&from);
    proof {
        assert(to.sub_spec(from) == r);
    }
    r
}

/// `true` when `r` is a cost of the right-hand side of `rule` minus a cost of
/// its left-hand side (costs in the sense of `is_cost`).
pub open spec fn rule_cost_ok<LC: LocalCost>(rule: (Term, Term), r: LC) -> bool {
    exists|to: LC, from: LC| is_cost(rule.1, to) && is_cost(rule.0, from) && #[trigger] to.sub_spec(from) == r
}

/// `true` when `sorted` holds the rules `rules`, the `i`-th being the
/// `origin[i]`-th of `rules`, ordered by their costs `keys` (changes of cost
/// as `rule_cost` computes them): the keys do not decrease, and rules whose
/// keys are equal keep their order in `rules`.
pub open spec fn sorted_by_cost<LC: LocalCost>(sorted: Seq<Rule>, rules: Seq<Rule>, keys: Seq<LC>, origin: Seq<int>) -> bool {
    &&& keys.len() == sorted.len() && origin.len() == sorted.len() && sorted.len() == rules.len()
    &&& forall|i: int|
        0 <= i < sorted.len() ==> 0 <= #[trigger] origin[i] < rules.len() && sorted[i]@ == rules[origin[i]]@ && rule_cost_ok(
            sorted[i]@,
            keys[i],
        )
    &&& forall|i: int, j: int| 0 <= i < j < sorted.len() ==> #[trigger] origin[i] != #[trigger] origin[j]
    &&& forall|i: int, j: int| 0 <= i < j < sorted.len() ==> !cost_lt(#[trigger] keys[j], #[trigger] keys[i])
    &&& forall|i: int, j: int|
        0 <= i < j < sorted.len() && !cost_lt(#[trigger] keys[i], #[trigger] keys[j]) ==> origin[i] < origin[j]
}

/// Tries the rules by increasing change of cost (in their given order when the
/// changes are equal) and applies the first that changes the e-graph.
pub struct CostDirectedScheduler<LC> {
    rules: Vec<Rule>,
    phantom: PhantomData<LC>,
}

impl<LC> CostDirectedScheduler<LC> {
    #[verifier::type_invariant]
    closed spec fn inv(&self) -> bool {
        forall|i: int| 0 <= i < self.rules@.len() ==> rule_ok(#[trigger] self.rules@[i]@)
    }

    /// The rules, in the order they are tried.
    pub closed spec fn rules_view(&self) -> Seq<Rule> {
        self.rules@
    }

}

impl<LC: LocalCost> CostDirectedScheduler<LC> {
    /// A scheduler over `rules`, sorted stably by `rule_cost`.
    pub fn new(rules: Vec<Rule>) -> (r: Self)
        requires
            forall|i: int| 0 <= i < rules@.len() ==> rule_ok(#[trigger] rules@[i]@),
        ensures
            r.rules_view().len() == rules@.len(),
            rule_views(r.rules_view()).to_multiset() == rule_views(rules@).to_multiset(),
            exists|keys: Seq<LC>, origin: Seq<int>| #[trigger] sorted_by_cost(r.rules_view(), rules@, keys, origin),
    {
        proof {
            LC::lemma_cost_order();
        }
        let mut sorted: Vec<Rule> = Vec::new();
        let mut keys: Vec<LC> = Vec::new();
        let ghost original = rules@;
        let ghost mut origin: Seq<int> = Seq::empty();
        let mut k: usize = 0;
        assert(rule_views(sorted@) =~= rule_views(original.take(0)));
        while k < rules.len()
            invariant
                original == rules@,
                sorted@.len() == keys@.len(),
                sorted@.len() == k,
                origin.len() == k,
                k <= rules@.len(),
                forall|i: int| 0 <= i < origin.len() ==> 0 <= #[trigger] origin[i] < original.len(),
                forall|i: int| 0 <= i < sorted@.len() ==> #[trigger] sorted@[i]@ == original[origin[i]]@,
                rule_views(sorted@).to_multiset() == rule_views(original.take(k as int)).to_multiset(),
                cost_order_known::<LC>(),
                forall|a: LC, b: LC| #[trigger] cost_lt(a, b) ==> !cost_lt(b, a),
                forall|a: LC, b: LC, c: LC| !#[trigger] cost_lt(b, a) && !#[trigger] cost_lt(c, b) ==> !cost_lt(c, a),
                forall|i: int| 0 <= i < sorted@.len() ==> rule_cost_ok(#[trigger] sorted@[i]@, keys@[i]),
                forall|i: int| 0 <= i < origin.len() ==> #[trigger] origin[i] < k,
                forall|i: int, j: int| 0 <= i < j < origin.len() ==> #[trigger] origin[i] != #[trigger] origin[j],
                forall|i: int, j: int| 0 <= i < j < keys@.len() ==> !cost_lt(#[trigger] keys@[j], #[trigger] keys@[i]),
                forall|i: int, j: int|
                    0 <= i < j < keys@.len() && !cost_lt(#[trigger] keys@[i], #[trigger] keys@[j]) ==> origin[i] < origin[j],
            decreases rules@.len() - k,
        {
            let rule = rules[k].clone();
            let key: LC = rule_cost(&rule);
            let mut pos = sorted.len();
            while pos > 0 && key < keys[pos - 1]
                invariant
                    pos <= sorted@.len() == keys@.len(),
                    cost_order_known::<LC>(),
                    forall|t: int| pos <= t < keys@.len() ==> cost_lt(key, #[trigger] keys@[t]),
                decreases pos,
            {
                pos = pos - 1;
            }
            let ghost before_keys = keys@;
            let ghost before = sorted@;
            let ghost before_origin = origin;
            sorted.insert(pos, rule);
            keys.insert(pos, key);
            proof {
                assert(rule_views(sorted@) =~= rule_views(before).insert(pos as int, rule@));
                vstd::seq_lib::to_multiset_insert(rule_views(before), pos as int, rule@);
                assert(rule_views(original.take(k + 1)) =~= rule_views(original.take(k as int)).push(original[k as int]@));
                vstd::seq_lib::to_multiset_build(rule_views(original.take(k as int)), original[k as int]@);
                origin = origin.insert(pos as int, k as int);
                assert forall|i: int| 0 <= i < sorted@.len() implies #[trigger] sorted@[i]@ == original[origin[i]]@ by {
                    if i < pos {
                        assert(sorted@[i] == before[i]);
                        assert(origin[i] == before_origin[i]);
                    } else if i > pos {
                        assert(sorted@[i] == before[i - 1]);
                        assert(origin[i] == before_origin[i - 1]);
                    }
                }
                assert forall|i: int| 0 <= i < origin.len() implies 0 <= #[trigger] origin[i] < original.len() by {
                    if i < pos {
                        assert(origin[i] == before_origin[i]);
                    } else if i > pos {
                        assert(origin[i] == before_origin[i - 1]);
                    }
                }
                assert(keys@ == before_keys.insert(pos as int, key));
                assert(pos > 0 ==> !cost_lt(key, before_keys[pos - 1]));
                assert forall|i: int| 0 <= i < sorted@.len() implies rule_cost_ok(#[trigger] sorted@[i]@, keys@[i]) by {
                    if i < pos {
                        assert(sorted@[i] == before[i]);
                    } else if i > pos {
                        assert(sorted@[i] == before[i - 1]);
                    }
                }
                assert forall|i: int| 0 <= i < origin.len() implies #[trigger] origin[i] < k + 1 by {
                    if i < pos {
                        assert(origin[i] == before_origin[i]);
                    } else if i > pos {
                        assert(origin[i] == before_origin[i - 1]);
                    }
                }
                assert forall|i: int, j: int| 0 <= i < j < origin.len() implies #[trigger] origin[i] != #[trigger] origin[j] by {
                    let oi = if i < pos { before_origin[i] } else if i == pos { k as int } else { before_origin[i - 1] };
                    let oj = if j < pos { before_origin[j] } else if j == pos { k as int } else { before_origin[j - 1] };
                    assert(origin[i] == oi);
                    assert(origin[j] == oj);
                    if i != pos && j != pos {
                        let bi = if i < pos { i } else { i - 1 };
                        let bj = if j < pos { j } else { j - 1 };
                        assert(before_origin[bi] != before_origin[bj]);
                    }
                }
                assert forall|i: int, j: int| 0 <= i < j < keys@.len() implies !cost_lt(#[trigger] keys@[j], #[trigger] keys@[i]) by {
                    if j < pos {
                        assert(!cost_lt(before_keys[j], before_keys[i]));
                    } else if j == pos {
                        if i < pos - 1 {
                            assert(!cost_lt(before_keys[pos - 1], before_keys[i]));
                        }
                    } else if i == pos {
                        assert(cost_lt(key, before_keys[j - 1]));
                    } else if i > pos {
                        assert(!cost_lt(before_keys[j - 1], before_keys[i - 1]));
                    } else {
                        assert(!cost_lt(before_keys[j - 1], before_keys[i]));
                    }
                }
                assert forall|i: int, j: int|
                    0 <= i < j < keys@.len() && !cost_lt(#[trigger] keys@[i], #[trigger] keys@[j]) implies origin[i] < origin[j] by {
                    if j < pos {
                        assert(origin[i] == before_origin[i] && origin[j] == before_origin[j]);
                    } else if j == pos {
                        assert(origin[i] == before_origin[i]);
                    } else if i == pos {
                        assert(cost_lt(key, before_keys[j - 1]));
                    } else if i > pos {
                        assert(origin[i] == before_origin[i - 1] && origin[j] == before_origin[j - 1]);
                    } else {
                        assert(origin[i] == before_origin[i] && origin[j] == before_origin[j - 1]);
                    }
                }
            }
            k = k + 1;
        }
        proof {
            assert forall|i: int| 0 <= i < sorted@.len() implies rule_ok(#[trigger] sorted@[i]@) by {
                assert(rule_ok(original[origin[i]]@));
            }
            assert forall|i: int| 0 <= i < sorted@.len() implies exists|j: int|
                0 <= j < rules@.len() && #[trigger] sorted@[i]@ == rules@[j]@ by {
                assert(sorted@[i]@ == original[origin[i]]@);
            }
        }
        let r = CostDirectedScheduler { rules: sorted, phantom: PhantomData };
        assert(r.rules_view() == sorted@);
        assert(original.take(original.len() as int) =~= original);
        assert(sorted_by_cost(r.rules_view(), rules@, keys@, origin));
        r
    }
}

impl<LC: LocalCost + Analysis + Clone + Default> Scheduler<LC> for CostDirectedScheduler<LC> {
    open spec fn scheduled_rules(&self) -> Seq<(Term, Term)> {
        rule_views(self.rules_view())
    }

    /// Tries the rules in order and stops at the first that changes the e-graph.
    #[verifier::loop_isolation(false)]
    fn apply_next<M: Matcher>(&mut self, egraph: &mut EGraph<LC>, matcher: &M) -> (r: usize)
        ensures
            final(self).rules_view() == old(self).rules_view(),
            r > 0 ==> r == 1 && exists|i: int|
                0 <= i < old(self).rules_view().len() && #[trigger] changed_by(
                    old(egraph),
                    final(egraph),
                    old(self).rules_view()[i]@,
                ) && forall|j: int| 0 <= j < i ==> rule_done(old(egraph), #[trigger] old(self).rules_view()[j]@, matcher),
    {
        proof {
            use_type_invariant(&*self);
        }
        let ghost start = *egraph;
        proof {
            lemma_evolved(&start, &start, &start);
            EGraph::<LC>::lemma_analysis_same_classes(&start, &start);
        }
        let mut i: usize = 0;
        while i < self.rules.len()
            invariant
                forall|i: int| 0 <= i < self.rules@.len() ==> rule_ok(#[trigger] self.rules@[i]@),
                egraph.wf(),
                start.wf(),
                egraph.evolved_from(&start),
                start.congruence_closed() ==> egraph.congruence_closed(),
                *egraph == start,
                i <= self.rules@.len(),
                forall|j: int| 0 <= j < i ==> rule_done(egraph, #[trigger] self.rules@[j]@, matcher),
            decreases self.rules@.len() - i,
        {
            let ghost pre = *egraph;
            let applied = self.rules[i].apply(egraph, matcher);
            proof {
                lemma_evolved(&start, &pre, egraph);
            }
            if applied {
                proof {
                    assert(changed_by(&start, egraph, self.rules@[i as int]@));
                }
                return 1;
            }
            i = i + 1;
        }
        proof {
            assert forall|j: int| 0 <= j < rule_views(self.rules@).len() implies rule_done(
                egraph,
                #[trigger] rule_views(self.rules@)[j],
                matcher,
            ) by {
                assert(rule_views(self.rules@)[j] == self.rules@[j]@);
            }
        }
        0
    }
}

} // verus!
