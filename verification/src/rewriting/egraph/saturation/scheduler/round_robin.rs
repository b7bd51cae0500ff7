//! Trying the rules in turn, starting after the last one that made progress.

use vstd::prelude::*;

use crate::rewriting::egraph::matching::Matcher;
use crate::rewriting::egraph::{lemma_evolved, Analysis, EGraph};
use crate::language::expression::Term;
use crate::rewriting::rule::{changed_by, rule_done, rule_ok, rule_views, Rule};

use super::Scheduler;

verus! {

broadcast use vstd::std_specs::vec::group_vec_axioms, vstd::seq::group_seq_axioms;

/// Cycles through the rules and applies the first one that changes the
/// e-graph; the next step starts after it.
pub struct RoundRobinScheduler {
    rules: Vec<Rule>,
    next_index: usize,
}

impl RoundRobinScheduler {
    #[verifier::type_invariant]
    closed spec fn inv(&self) -> bool {
        &&& forall|i: int| 0 <= i < self.rules@.len() ==> rule_ok(#[trigger] self.rules@[i]@)
        &&& (self.rules@.len() > 0 ==> self.next_index < self.rules@.len())
    }

    /// The rules, in the order they are tried from the start.
    pub closed spec fn rules_view(&self) -> Seq<Rule> {
        self.rules@
    }

    /// The index of the rule tried first at the next step.
    pub closed spec fn next_index_view(&self) -> nat {
        self.next_index as nat
    }

    /// A scheduler over `rules` that starts with the first one.
    pub fn new(rules: Vec<Rule>) -> (r: Self)
        requires
            forall|i: int| 0 <= i < rules@.len() ==> rule_ok(#[trigger] rules@[i]@),
        ensures
            r.rules_view() == rules@,
            r.next_index_view() == 0,
    {
        RoundRobinScheduler { rules, next_index: 0 }
    }
}

/// How many steps after `start` the index `j` comes, going round `n` indices.
pub open spec fn steps_after(j: int, start: int, n: int) -> int {
    if j >= start {
        j - start
    } else {
        j + n - start
    }
}

impl<A: Analysis + Clone + Default> Scheduler<A> for RoundRobinScheduler {
    open spec fn scheduled_rules(&self) -> Seq<(Term, Term)> {
        rule_views(self.rules_view())
    }

    /// Tries the rules from the next index on, wrapping around, and stops at the
    /// first that changes the e-graph; the following step starts after it.
    #[verifier::loop_isolation(false)]
    fn apply_next<M: Matcher>(&mut self, egraph: &mut EGraph<A>, matcher: &M) -> (r: usize)
        ensures
            final(self).rules_view() == old(self).rules_view(),
            r > 0 ==> final(self).next_index_view() < old(self).rules_view().len(),
            r == 0 ==> final(self).next_index_view() == old(self).next_index_view(),
            r > 0 ==> r == 1 && exists|idx: int|
                0 <= idx < old(self).rules_view().len() && final(self).next_index_view() == (if idx + 1 == old(
                    self,
                ).rules_view().len() {
                    0
                } else {
                    idx + 1
                }) && #[trigger] changed_by(old(egraph), final(egraph), old(self).rules_view()[idx]@) && forall|j: int|
                    0 <= j < old(self).rules_view().len() && steps_after(
                        j,
                        old(self).next_index_view() as int,
                        old(self).rules_view().len() as int,
                    ) < steps_after(idx, old(self).next_index_view() as int, old(self).rules_view().len() as int)
                        ==> rule_done(old(egraph), #[trigger] old(self).rules_view()[j]@, matcher),
    {
        proof {
            use_type_invariant(&*self);
        }
        let ghost start = *egraph;
        proof {
            lemma_evolved(&start, &start, &start);
            EGraph::<A>::lemma_analysis_same_classes(&start, &start);
        }
        let n = self.rules.len();
        let mut offset: usize = 0;
        while offset < n
            invariant
                n == self.rules@.len(),
                self.rules@ == old(self).rules@,
                self.next_index == old(self).next_index,
                n > 0 ==> self.next_index < n,
                forall|i: int| 0 <= i < self.rules@.len() ==> rule_ok(#[trigger] self.rules@[i]@),
                egraph.wf(),
                start.wf(),
                egraph.evolved_from(&start),
                start.congruence_closed() ==> egraph.congruence_closed(),
                *egraph == start,
                offset <= n,
                forall|j: int|
                    0 <= j < n && steps_after(j, self.next_index as int, n as int) < offset ==> rule_done(
                        egraph,
                        #[trigger] self.rules@[j]@,
                        matcher,
                    ),
            decreases n - offset,
        {
            let idx = if offset < n - self.next_index {
                self.next_index + offset
            } else {
                offset - (n - self.next_index)
            };
            let ghost pre = *egraph;
            let applied = self.rules[idx].apply(egraph, matcher);
            proof {
                lemma_evolved(&start, &pre, egraph);
            }
            if applied {
                proof {
                    assert(changed_by(&start, egraph, self.rules@[idx as int]@));
                    assert(steps_after(idx as int, self.next_index as int, n as int) == offset);
                }
                self.next_index = if idx + 1 == n {
                    0
                } else {
                    idx + 1
                };
                return 1;
            }
            proof {
                assert(steps_after(idx as int, self.next_index as int, n as int) == offset);
                assert forall|j: int|
                    0 <= j < n && steps_after(j, self.next_index as int, n as int) < offset + 1 implies rule_done(
                    egraph,
                    #[trigger] self.rules@[j]@,
                    matcher,
                ) by {
                    if steps_after(j, self.next_index as int, n as int) == offset {
                        assert(j == idx);
                    }
                }
            }
            offset = offset + 1;
        }
        proof {
            assert(rule_views(self.rules@).len() == n);
            assert forall|i: int| 0 <= i < n implies rule_done(egraph, #[trigger] rule_views(self.rules@)[i], matcher) by {
                assert(rule_views(self.rules@)[i] == self.rules@[i]@);
                assert(steps_after(i, self.next_index as int, n as int) < n);
            }
        }
        0
    }
}

} // verus!
