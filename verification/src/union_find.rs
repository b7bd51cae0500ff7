//! A union-find (disjoint-set) structure managing equivalence classes of
//! the integers `0..size`.

use vstd::prelude::*;

verus! {

broadcast use vstd::std_specs::vec::group_vec_axioms, vstd::seq::group_seq_axioms;

/// Identifier of an element (and of the set it represents when it is a root).
pub type SetId = usize;

/// A union-find structure over `0..size()`.
///
/// Its view maps every element to the representative (root) of its set.
/// Ghost ranks strictly increase along parent links, so the parent graph is a forest.
pub struct UnionFind {
    parents: Vec<SetId>,
    rank: Ghost<Seq<nat>>,
    rank_bound: Ghost<nat>,
    roots: Ghost<Seq<SetId>>,
}

impl View for UnionFind {
    type V = Seq<SetId>;

    closed spec fn view(&self) -> Seq<SetId> {
        self.roots@
    }
}

/// The parent links form a forest (ranks strictly increase towards roots)
/// and `roots` gives the root reached from each element.
#[verifier::opaque]
pub closed spec fn forest_wf(parents: Seq<SetId>, rank: Seq<nat>, bound: nat, roots: Seq<SetId>) -> bool {
    let n = parents.len();
    &&& rank.len() == n
    &&& roots.len() == n
    &&& forall|i: int| 0 <= i < n ==> #[trigger] parents[i] < n
    &&& forall|i: int| 0 <= i < n ==> #[trigger] roots[i] < n
    &&& forall|i: int| 0 <= i < n ==> parents[#[trigger] roots[i] as int] == roots[i]
    &&& forall|i: int| 0 <= i < n ==> roots[parents[i] as int] == #[trigger] roots[i]
    &&& forall|i: int| 0 <= i < n ==> (#[trigger] parents[i] == i) == (roots[i] == i)
    &&& forall|i: int| 0 <= i < n && parents[i] != i ==> #[trigger] rank[i] < rank[parents[i] as int]
    &&& forall|i: int| 0 <= i < n ==> #[trigger] rank[i] <= bound
}

/// Linking root `r1` under root `r2` keeps the forest well formed.
proof fn lemma_link(parents: Seq<SetId>, rank: Seq<nat>, bound: nat, roots: Seq<SetId>, r1: SetId, r2: SetId)
    requires
        forest_wf(parents, rank, bound, roots),
        r1 < parents.len(),
        r2 < parents.len(),
        r1 != r2,
        roots[r1 as int] == r1,
        roots[r2 as int] == r2,
    ensures
        ({
            let nr: nat = if rank[r2 as int] > rank[r1 as int] { rank[r2 as int] } else { rank[r1 as int] + 1 };
            forest_wf(
                parents.update(r1 as int, r2),
                rank.update(r2 as int, nr),
                if bound >= nr { bound } else { nr },
                Seq::new(roots.len(), |k: int| if roots[k] == r1 { r2 } else { roots[k] }),
            )
        }),
{
    reveal(forest_wf);
    let n = parents.len();
    let nr: nat = if rank[r2 as int] > rank[r1 as int] { rank[r2 as int] } else { rank[r1 as int] + 1 };
    let p2 = parents.update(r1 as int, r2);
    let k2 = rank.update(r2 as int, nr);
    let b2 = if bound >= nr { bound } else { nr };
    let t2 = Seq::new(roots.len(), |k: int| if roots[k] == r1 { r2 } else { roots[k] });
    assert(parents[r1 as int] == r1);
    assert(parents[r2 as int] == r2);
    assert forall|i: int| 0 <= i < n implies p2[#[trigger] t2[i] as int] == t2[i] by {
        assert(parents[roots[i] as int] == roots[i]);
    }
    assert forall|i: int| 0 <= i < n implies t2[p2[i] as int] == #[trigger] t2[i] by {
        assert(roots[parents[i] as int] == roots[i]);
    }
    assert forall|i: int| 0 <= i < n implies (#[trigger] p2[i] == i) == (t2[i] == i) by {
        assert((parents[i] == i) == (roots[i] == i));
    }
    assert forall|i: int| 0 <= i < n && p2[i] != i implies #[trigger] k2[i] < k2[p2[i] as int] by {
        if i != r1 {
            assert(parents[i] != i);
            assert(rank[i] < rank[parents[i] as int]);
        }
    }
    assert forall|i: int| 0 <= i < n implies #[trigger] k2[i] <= b2 by {
        assert(rank[i] <= bound);
    }
}

/// Linking `id` to its grandparent keeps the forest well formed.
#[verifier::rlimit(50)]
proof fn lemma_shortcut(parents: Seq<SetId>, rank: Seq<nat>, bound: nat, roots: Seq<SetId>, id: SetId)
    requires
        forest_wf(parents, rank, bound, roots),
        id < parents.len(),
        parents[id as int] != id,
    ensures
        parents[id as int] < parents.len(),
        parents[parents[id as int] as int] < parents.len(),
        rank[id as int] < rank[parents[id as int] as int],
        forest_wf(parents.update(id as int, parents[parents[id as int] as int]), rank, bound, roots),
{
    reveal(forest_wf);
    let n = parents.len();
    let p = parents[id as int];
    let g = parents[p as int];
    let p2 = parents.update(id as int, g);
    assert(rank[id as int] < rank[p as int]);
    assert(rank[p as int] <= rank[g as int]);
    assert(g != id);
    assert(roots[id as int] != id);
    assert(roots[p as int] == roots[id as int]);
    assert(roots[g as int] == roots[p as int]);
    assert forall|i: int| 0 <= i < n implies #[trigger] p2[i] < n by {}
    assert forall|i: int| 0 <= i < n implies p2[#[trigger] roots[i] as int] == roots[i] by {
        assert(parents[roots[i] as int] == roots[i]);
    }
    assert forall|i: int| 0 <= i < n implies roots[p2[i] as int] == #[trigger] roots[i] by {
        assert(roots[parents[i] as int] == roots[i]);
    }
    assert forall|i: int| 0 <= i < n implies (#[trigger] p2[i] == i) == (roots[i] == i) by {
        assert((parents[i] == i) == (roots[i] == i));
    }
    assert forall|i: int| 0 <= i < n && p2[i] != i implies #[trigger] rank[i] < rank[p2[i] as int] by {
        if i != id {
            assert(rank[i] < rank[parents[i] as int]);
        }
    }
}

impl UnionFind {
    /// Internal consistency of the forest and of the root map.
    pub closed spec fn wf(&self) -> bool {
        &&& self.rank@.len() == self.parents@.len()
        &&& self.roots@.len() == self.parents@.len()
        &&& forest_wf(self.parents@, self.rank@, self.rank_bound@, self.roots@)
    }

    /// Upper bound on the number of links between `i` and its root.
    pub closed spec fn height(&self, i: int) -> int {
        self.rank_bound@ - self.rank@[i]
    }

    /// The stored parent link of element `i`.
    pub open spec fn parent_of(&self, i: int) -> SetId {
        self.parents_view()[i]
    }

    /// The stored parent links, indexed by element.
    pub closed spec fn parents_view(&self) -> Seq<SetId> {
        self.parents@
    }

    /// The rank of element `i`: ranks grow strictly along parent links.
    pub closed spec fn rank_of(&self, i: int) -> nat {
        self.rank@[i]
    }

    /// Lemma: the representative of an element is a root and represents itself.
    pub proof fn lemma_root(&self, i: int)
        requires
            self.wf(),
            0 <= i < self@.len(),
        ensures
            self@[i] < self@.len(),
            self@[self@[i] as int] == self@[i],
            self.parent_of(self@[i] as int) == self@[i],
    {
        reveal(forest_wf);
    }

    /// The link structure is consistent with the view.
    pub proof fn lemma_parent(&self, i: int)
        requires
            self.wf(),
            0 <= i < self@.len(),
        ensures
            self.parent_of(i) < self@.len(),
            self@[self.parent_of(i) as int] == self@[i],
            (self.parent_of(i) == i) == (self@[i] == i),
    {
        reveal(forest_wf);
    }

    /// Creates a structure with `size` singleton sets.
    pub fn with_size(size: usize) -> (r: Self)
        ensures
            r.wf(),
            r@ == Seq::new(size as nat, |i: int| i as SetId),
            r.parents_view() == Seq::new(size as nat, |i: int| i as SetId),
    {
        proof { reveal(forest_wf); }
        let mut vec: Vec<SetId> = Vec::new();
        let mut i: usize = 0;
        while i < size
            invariant
                i <= size,
                vec@ == Seq::new(i as nat, |j: int| j as SetId),
            decreases size - i,
        {
            vec.push(i);
            i = i + 1;
        }
        Self {
            parents: vec,
            rank: Ghost(Seq::new(size as nat, |j: int| 0nat)),
            rank_bound: Ghost(0nat),
            roots: Ghost(Seq::new(size as nat, |j: int| j as SetId)),
        }
    }

    /// Creates an empty structure.
    pub fn new() -> (r: Self)
        ensures
            r.wf(),
            r@ == Seq::<SetId>::empty(),
    {
        proof { reveal(forest_wf); }
        Self {
            parents: Vec::new(),
            rank: Ghost(Seq::empty()),
            rank_bound: Ghost(0nat),
            roots: Ghost(Seq::empty()),
        }
    }

    /// Number of elements.
    pub fn size(&self) -> (r: usize)
        requires
            self.wf(),
        ensures
            r == self@.len(),
    {
        self.parents.len()
    }

    /// Adds a new singleton set and returns its id.
    pub fn add(&mut self) -> (r: SetId)
        requires
            old(self).wf(),
            old(self)@.len() < usize::MAX,
        ensures
            final(self).wf(),
            r == old(self)@.len(),
            final(self)@ == old(self)@.push(r),
            final(self).parents_view() == old(self).parents_view().push(r),
    {
        proof { reveal(forest_wf); }
        let new_id = self.parents.len();
        self.parents.push(new_id);
        self.rank = Ghost(self.rank@.push(0nat));
        self.roots = Ghost(self.roots@.push(new_id));
        new_id
    }

    /// The stored parent link of element `id`.
    pub fn parent(&self, id: SetId) -> (r: SetId)
        requires
            self.wf(),
            id < self@.len(),
        ensures
            r == self.parent_of(id as int),
    {
        self.parents[id]
    }

    /// Merges the sets of `id_1` and `id_2`; afterwards the representative of
    /// `id_2` represents the merged set.
    #[verifier::rlimit(40)]
    pub fn union(&mut self, id_1: SetId, id_2: SetId)
        requires
            old(self).wf(),
            id_1 < old(self)@.len(),
            id_2 < old(self)@.len(),
        ensures
            final(self).wf(),
            final(self)@ == Seq::new(
                old(self)@.len(),
                |k: int|
                    if old(self)@[k] == old(self)@[id_1 as int] {
                        old(self)@[id_2 as int]
                    } else {
                        old(self)@[k]
                    },
            ),
            old(self)@[id_1 as int] != old(self)@[id_2 as int] ==> final(self).parent_of(old(self)@[id_1 as int] as int)
                == old(self)@[id_2 as int],
            old(self).parent_of(id_1 as int) == id_1 && old(self).parent_of(id_2 as int) == id_2 && id_1 != id_2
                ==> final(self).parents_view() == old(self).parents_view().update(id_1 as int, id_2),
            old(self)@[id_1 as int] == old(self)@[id_2 as int] && old(self).parent_of(id_1 as int) == id_1
                && old(self).parent_of(id_2 as int) == id_2 ==> final(self).parents_view() == old(self).parents_view(),
    {
        let ghost orig = self@;
        let ghost orig_parents = self.parents@;
        proof {
            self.lemma_parent(id_1 as int);
            self.lemma_parent(id_2 as int);
        }
        let r1 = self.find(id_1);
        let r2 = self.find(id_2);
        proof {
            self.lemma_root(id_1 as int);
            self.lemma_root(id_2 as int);
        }
        if r1 == r2 {
            assert(self@ =~= Seq::new(
                orig.len(),
                |k: int| if orig[k] == orig[id_1 as int] { orig[id_2 as int] } else { orig[k] },
            ));
            return;
        }
        let ghost old_roots = self.roots@;
        let ghost old_rank = self.rank@;
        let ghost old_parents = self.parents@;
        let ghost new_rank_2: nat = if old_rank[r2 as int] > old_rank[r1 as int] {
            old_rank[r2 as int]
        } else {
            old_rank[r1 as int] + 1
        };
        proof {
            lemma_link(self.parents@, old_rank, self.rank_bound@, old_roots, r1, r2);
        }
        self.parents.set(r1, r2);
        self.rank = Ghost(old_rank.update(r2 as int, new_rank_2));
        self.rank_bound = Ghost(if self.rank_bound@ >= new_rank_2 { self.rank_bound@ } else { new_rank_2 });
        self.roots = Ghost(Seq::new(
            old_roots.len(),
            |k: int| if old_roots[k] == r1 { r2 } else { old_roots[k] },
        ));
        assert(self.parents@ == old_parents.update(r1 as int, r2));
        assert(self@ =~= Seq::new(
            orig.len(),
            |k: int| if orig[k] == orig[id_1 as int] { orig[id_2 as int] } else { orig[k] },
        ));
    }

    /// The representative of `id`, without modifying the structure.
    pub fn find_no_compress(&self, id: SetId) -> (r: SetId)
        requires
            self.wf(),
            id < self@.len(),
        ensures
            r == self@[id as int],
        decreases self.height(id as int),
    {
        proof { reveal(forest_wf); }
        let parent = self.parents[id];
        if parent == id {
            return id;
        }
        self.find_no_compress(parent)
    }

    /// The representative of `id`; shortens the path from `id` by linking it to
    /// its grandparent.
    pub fn find(&mut self, id: SetId) -> (r: SetId)
        requires
            old(self).wf(),
            id < old(self)@.len(),
        ensures
            final(self).wf(),
            final(self)@ == old(self)@,
            r == old(self)@[id as int],
            final(self).parents_view().len() == old(self).parents_view().len(),
            final(self).parent_of(id as int) == old(self).parent_of(old(self).parent_of(id as int) as int),
            forall|i: int|
                0 <= i < old(self)@.len() ==> #[trigger] final(self).parent_of(i) == old(self).parent_of(i)
                    || final(self).parent_of(i) == old(self).parent_of(old(self).parent_of(i) as int),
            old(self).parent_of(id as int) == id ==> final(self).parents_view() == old(self).parents_view(),
            forall|i: int|
                0 <= i < old(self)@.len() && #[trigger] final(self).parent_of(i) != old(self).parent_of(i)
                    ==> old(self).rank_of(i) >= old(self).rank_of(id as int),
            forall|i: int| 0 <= i < old(self)@.len() ==> #[trigger] final(self).rank_of(i) == old(self).rank_of(i),
        decreases old(self).height(id as int),
    {
        proof {
            self.lemma_parent(id as int);
        }
        let parent = self.parents[id];
        if parent == id {
            return id;
        }
        let ghost before = *self;
        proof {
            lemma_shortcut(self.parents@, self.rank@, self.rank_bound@, self.roots@, id);
        }
        let grandparent = self.parents[parent];
        self.parents.set(id, grandparent);
        let ghost mid = *self;
        proof {
            assert(mid.parents@ == before.parents@.update(id as int, grandparent));
            assert(mid.wf());
            assert(mid@ == before@);
            assert(mid.height(parent as int) < before.height(id as int));
            assert(mid.height(parent as int) >= 0) by {
                reveal(forest_wf);
            }
        }
        let r = self.find(parent);
        proof {
            Self::lemma_find_links(&before, &mid, self, id, parent);
        }
        r
    }

    /// Lemma: after linking `id` to its grandparent (`mid`) and then finding from
    /// its parent (`after`), the links changed are those of `find`.
    proof fn lemma_find_links(before: &Self, mid: &Self, after: &Self, id: SetId, parent: SetId)
        requires
            before.wf(),
            id < before@.len(),
            parent == before.parent_of(id as int),
            parent != id,
            mid.parents_view() == before.parents_view().update(id as int, before.parent_of(parent as int)),
            forall|i: int| 0 <= i < before@.len() ==> #[trigger] mid.rank_of(i) == before.rank_of(i),
            after.parents_view().len() == mid.parents_view().len(),
            after.parent_of(parent as int) == mid.parent_of(mid.parent_of(parent as int) as int),
            forall|i: int|
                0 <= i < before@.len() ==> #[trigger] after.parent_of(i) == mid.parent_of(i)
                    || after.parent_of(i) == mid.parent_of(mid.parent_of(i) as int),
            forall|i: int|
                0 <= i < before@.len() && #[trigger] after.parent_of(i) != mid.parent_of(i)
                    ==> mid.rank_of(i) >= mid.rank_of(parent as int),
        ensures
            after.parent_of(id as int) == before.parent_of(before.parent_of(id as int) as int),
            forall|i: int|
                0 <= i < before@.len() ==> #[trigger] after.parent_of(i) == before.parent_of(i)
                    || after.parent_of(i) == before.parent_of(before.parent_of(i) as int),
            forall|i: int|
                0 <= i < before@.len() && #[trigger] after.parent_of(i) != before.parent_of(i)
                    ==> before.rank_of(i) >= before.rank_of(id as int),
    {
        before.lemma_rank_links();
        assert(before.rank_of(id as int) < before.rank_of(parent as int));
        {
            if after.parent_of(id as int) != mid.parent_of(id as int) {
                assert(mid.rank_of(id as int) >= mid.rank_of(parent as int));
            }
            assert forall|i: int|
                0 <= i < before@.len() implies #[trigger] after.parent_of(i) == before.parent_of(i) || after.parent_of(i)
                    == before.parent_of(before.parent_of(i) as int) by {
                if i != id && after.parent_of(i) != mid.parent_of(i) {
                    assert(mid.rank_of(i) >= mid.rank_of(parent as int));
                    if before.parent_of(i) == id {
                        assert(before.rank_of(i) < before.rank_of(id as int));
                    }
                }
            }
            assert forall|i: int|
                0 <= i < before@.len() && #[trigger] after.parent_of(i) != before.parent_of(i) implies before.rank_of(i)
                    >= before.rank_of(id as int) by {
                if i != id {
                    assert(after.parent_of(i) != mid.parent_of(i));
                    assert(mid.rank_of(i) >= mid.rank_of(parent as int));
                }
            }
        }
    }

    /// Lemma: ranks grow strictly along parent links.
    proof fn lemma_rank_links(&self)
        requires
            self.wf(),
        ensures
            forall|i: int|
                0 <= i < self@.len() && self.parent_of(i) != i ==> #[trigger] self.rank_of(i) < self.rank_of(
                    self.parent_of(i) as int,
                ),
            forall|i: int| 0 <= i < self@.len() ==> #[trigger] self.parent_of(i) < self@.len(),
    {
        reveal(forest_wf);
    }

    /// `true` when both structures have the same number of elements and give
    /// every element the same representative.
    pub fn same_as(&self, other: &Self) -> (r: bool)
        requires
            self.wf(),
            other.wf(),
        ensures
            r == (self@ == other@),
    {
        if self.parents.len() != other.parents.len() {
            return false;
        }
        let mut id: usize = 0;
        while id < self.parents.len()
            invariant
                self.wf(),
                other.wf(),
                self@.len() == other@.len(),
                id <= self@.len(),
                forall|k: int| 0 <= k < id ==> self@[k] == other@[k],
            decreases self@.len() - id,
        {
            if self.find_no_compress(id) != other.find_no_compress(id) {
                return false;
            }
            id = id + 1;
        }
        assert(self@ =~= other@);
        true
    }
}

impl Clone for UnionFind {
    fn clone(&self) -> (r: Self)
        ensures
            r@ == self@,
            self.wf() ==> r.wf(),
    {
        UnionFind {
            parents: self.parents.clone(),
            rank: Ghost(self.rank@),
            rank_bound: Ghost(self.rank_bound@),
            roots: Ghost(self.roots@),
        }
    }
}

impl Default for UnionFind {
    fn default() -> (r: Self)
        ensures
            r.wf(),
            r@ == Seq::<SetId>::empty(),
    {
        UnionFind::new()
    }
}

/// Lemma: after `union(a, b)` both elements have the same representative, and
/// elements that shared a representative before still share one.
pub proof fn lemma_union_merges(before: Seq<SetId>, after: Seq<SetId>, a: SetId, b: SetId)
    requires
        a < before.len(),
        b < before.len(),
        after == Seq::new(
            before.len(),
            |k: int| if before[k] == before[a as int] { before[b as int] } else { before[k] },
        ),
    ensures
        after[a as int] == after[b as int],
        forall|i: int, j: int|
            0 <= i < before.len() && 0 <= j < before.len() && before[i] == before[j] ==> after[i]
                == after[j],
{
}

} // verus!
