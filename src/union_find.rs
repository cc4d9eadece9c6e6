use std::collections::HashMap;

use vstd::prelude::*;
use vstd::set_lib::*;

verus! {

broadcast use vstd::std_specs::hash::group_hash_axioms;

/// The class of every slot once the classes rooted at `ra` and `rb` are
/// joined under `root`.
pub open spec fn merged(rep: Seq<int>, ra: int, rb: int, root: int) -> Seq<int> {
    Seq::new(rep.len(), |j: int| if rep[j] == ra || rep[j] == rb { root } else { rep[j] })
}

/// Union by rank on the roots `ra` and `rb`: the root of lower rank goes
/// under the other; on equal ranks `ra` stays root and its rank grows by one.
pub open spec fn link(rep: Seq<int>, rank: Seq<usize>, ra: int, rb: int) -> (Seq<int>, Seq<usize>) {
    if ra == rb {
        (rep, rank)
    } else if rank[ra] < rank[rb] {
        (merged(rep, ra, rb, rb), rank)
    } else if rank[ra] == rank[rb] {
        (merged(rep, ra, rb, ra), rank.update(ra, (rank[ra] + 1) as usize))
    } else {
        (merged(rep, ra, rb, ra), rank)
    }
}

/// The slots whose class is rooted at `r`.
pub open spec fn class_of(rep: Seq<int>, r: int) -> Set<int> {
    Set::new(|j: int| 0 <= j < rep.len() && rep[j] == r)
}

/// Every slot names a root of its class, and a root names itself.
pub open spec fn is_partition(rep: Seq<int>) -> bool {
    forall|i: int|
        0 <= i < rep.len() ==> 0 <= #[trigger] rep[i] < rep.len() && rep[rep[i]] == rep[i]
}

/// One class per slot, each slot its own root, every rank zero.
pub open spec fn singletons(rep: Seq<int>, rank: Seq<usize>, n: int) -> bool {
    &&& rep.len() == n
    &&& rank.len() == n
    &&& forall|i: int| 0 <= i < n ==> #[trigger] rep[i] == i
    &&& forall|i: int| 0 <= i < n ==> #[trigger] rank[i] == 0
}

/// The parent links form a forest whose roots are the classes in `rep`,
/// ranks grow strictly towards the roots, and a root's rank stays below the
/// size of its class.
pub open spec fn node_ok(parent: Seq<usize>, rank: Seq<usize>, rep: Seq<int>, i: int) -> bool {
    let n = parent.len();
    &&& parent[i] < n
    &&& 0 <= rep[i] < n
    &&& parent[rep[i]] == rep[i]
    &&& rep[parent[i] as int] == rep[i]
    &&& (parent[i] == i ==> rep[i] == i)
    &&& (parent[i] != i ==> rank[i] < rank[parent[i] as int] && rank[i] < rank[rep[i]])
}

pub open spec fn forest_ok(parent: Seq<usize>, rank: Seq<usize>, rep: Seq<int>) -> bool {
    &&& rank.len() == parent.len()
    &&& rep.len() == parent.len()
    &&& forall|i: int| 0 <= i < parent.len() ==> #[trigger] node_ok(parent, rank, rep, i)
    &&& forall|r: int|
        0 <= r < parent.len() && rep[r] == r ==> #[trigger] rank[r] < class_of(rep, r).len()
}

proof fn lemma_class_bounded(rep: Seq<int>, r: int)
    ensures
        class_of(rep, r).finite(),
        class_of(rep, r).len() <= rep.len(),
{
    lemma_int_range(0, rep.len() as int);
    lemma_len_subset(class_of(rep, r), set_int_range(0, rep.len() as int));
}

proof fn lemma_singleton_class(rep: Seq<int>, r: int)
    requires
        0 <= r < rep.len(),
        forall|j: int| 0 <= j < rep.len() ==> #[trigger] rep[j] == j,
    ensures
        class_of(rep, r).len() == 1,
{
    assert(class_of(rep, r) =~= Set::empty().insert(r));
    assert(Set::<int>::empty().insert(r).len() == 1);
}

proof fn lemma_forest_ranks(parent: Seq<usize>, rank: Seq<usize>, rep: Seq<int>)
    requires
        forest_ok(parent, rank, rep),
    ensures
        forall|i: int| 0 <= i < parent.len() ==> #[trigger] rank[i] < parent.len(),
        is_partition(rep),
{
    assert forall|i: int| 0 <= i < parent.len() implies #[trigger] rank[i] < parent.len() by {
        assert(node_ok(parent, rank, rep, i));
        let r = rep[i];
        assert(node_ok(parent, rank, rep, r));
        lemma_class_bounded(rep, r);
    }
    assert forall|i: int| 0 <= i < rep.len() implies 0 <= #[trigger] rep[i] < rep.len() && rep[rep[i]]
        == rep[i] by {
        assert(node_ok(parent, rank, rep, i));
        assert(node_ok(parent, rank, rep, rep[i]));
    }
}

proof fn lemma_link_ok(
    parent: Seq<usize>,
    rank: Seq<usize>,
    rep: Seq<int>,
    ra: int,
    rb: int,
    root: int,
    other: int,
)
    requires
        forest_ok(parent, rank, rep),
        0 <= ra < parent.len(),
        0 <= rb < parent.len(),
        ra != rb,
        parent[ra] == ra,
        parent[rb] == rb,
        (root == ra && other == rb) || (root == rb && other == ra),
        rank[other] <= rank[root],
        rank[root] < usize::MAX,
        link(rep, rank, ra, rb) == (
            merged(rep, ra, rb, root),
            if rank[other] == rank[root] {
                rank.update(root, (rank[root] + 1) as usize)
            } else {
                rank
            },
        ),
    ensures
        forest_ok(
            parent.update(other, root as usize),
            link(rep, rank, ra, rb).1,
            link(rep, rank, ra, rb).0,
        ),
{
    let p2 = parent.update(other, root as usize);
    let k2 = link(rep, rank, ra, rb).1;
    let r2 = link(rep, rank, ra, rb).0;
    assert(node_ok(parent, rank, rep, ra));
    assert(node_ok(parent, rank, rep, rb));
    assert(rep[ra] == ra && rep[rb] == rb);
    assert forall|i: int| 0 <= i < p2.len() implies #[trigger] node_ok(p2, k2, r2, i) by {
        assert(node_ok(parent, rank, rep, i));
        assert(node_ok(parent, rank, rep, parent[i] as int));
        assert(node_ok(parent, rank, rep, rep[i]));
    }
    assert forall|r: int| 0 <= r < p2.len() && r2[r] == r implies #[trigger] k2[r] < class_of(
        r2,
        r,
    ).len() by {
        assert(node_ok(parent, rank, rep, r));
        if r == root {
            let ca = class_of(rep, ra);
            let cb = class_of(rep, rb);
            lemma_class_bounded(rep, ra);
            lemma_class_bounded(rep, rb);
            assert(class_of(r2, r) =~= ca.union(cb));
            assert(ca.disjoint(cb));
            lemma_set_disjoint_lens(ca, cb);
        } else {
            assert(rep[r] == r);
            assert(class_of(r2, r) =~= class_of(rep, r));
        }
    }
}

/// A disjoint-set forest over a fixed list of elements, with union by rank
/// and path compression.
///
/// Each element has a slot: its position in the list it was built from.
/// `find` and `union` speak of the slot of an element's class root.
pub struct UnionFind {
    inner: HashMap<usize, usize>,
    reverse: Vec<usize>,
    parent_data: Vec<usize>,
    rank_data: Vec<usize>,
    rep: Ghost<Seq<int>>,
}

impl UnionFind {
    /// The elements, by slot.
    pub closed spec fn elements(&self) -> Seq<usize> {
        self.reverse@
    }

    /// The slot of each element.
    pub closed spec fn slots(&self) -> Map<usize, usize> {
        self.inner@
    }

    /// The root slot of the class of each slot.
    pub closed spec fn reps(&self) -> Seq<int> {
        self.rep@
    }

    /// The rank of each slot.
    pub closed spec fn ranks(&self) -> Seq<usize> {
        self.rank_data@
    }

    pub open spec fn has(&self, x: usize) -> bool {
        self.slots().contains_key(x)
    }

    pub open spec fn slot(&self, x: usize) -> int {
        self.slots()[x] as int
    }

    /// Whether two elements are in one class.
    pub open spec fn same_set(&self, x: usize, y: usize) -> bool {
        self.reps()[self.slot(x)] == self.reps()[self.slot(y)]
    }

    pub closed spec fn wf(&self) -> bool {
        let n = self.reverse@.len();
        &&& n <= usize::MAX
        &&& self.parent_data@.len() == n
        &&& forest_ok(self.parent_data@, self.rank_data@, self.rep@)
        &&& forall|k: usize| #[trigger]
            self.inner@.contains_key(k) ==> self.inner@[k] < n && self.reverse@[self.inner@[k] as int]
                == k
        &&& forall|i: int| 0 <= i < n ==> self.inner@.contains_key(#[trigger] self.reverse@[i])
    }

    /// What holds of the model of every well-formed structure.
    pub proof fn lemma_wf(&self)
        requires
            self.wf(),
        ensures
            is_partition(self.reps()),
            self.reps().len() == self.elements().len(),
            self.ranks().len() == self.elements().len(),
            forall|x: usize| #[trigger]
                self.has(x) ==> 0 <= self.slot(x) < self.elements().len() && self.elements()[self.slot(
                    x,
                )] == x,
            forall|i: int| 0 <= i < self.elements().len() ==> self.has(#[trigger] self.elements()[i]),
    {
        lemma_forest_ranks(self.parent_data@, self.rank_data@, self.rep@);
    }

    /// Builds singleton classes, one per element in list order. An element
    /// listed twice keeps the later slot.
    pub fn from_elements(elems: Vec<usize>) -> (r: Self)
        ensures
            r.wf(),
            r.elements() == elems@,
            singletons(r.reps(), r.ranks(), elems@.len() as int),
            forall|x: usize| r.has(x) <==> elems@.contains(x),
            forall|i: int|
                0 <= i < elems@.len() && (forall|j: int| i < j < elems@.len() ==> elems@[j] != elems@[i])
                    ==> r.slot(#[trigger] elems@[i]) == i,
    {
        let n = elems.len();
        let mut inner: HashMap<usize, usize> = HashMap::with_capacity(n);
        let mut parent_data: Vec<usize> = Vec::with_capacity(n);
        let mut rank_data: Vec<usize> = Vec::with_capacity(n);
        let mut idx: usize = 0;
        while idx < n
            invariant
                n == elems@.len(),
                idx <= n,
                parent_data@.len() == idx,
                rank_data@.len() == idx,
                forall|j: int| 0 <= j < idx ==> #[trigger] parent_data@[j] == j && rank_data@[j] == 0,
                forall|k: usize| #[trigger]
                    inner@.contains_key(k) ==> inner@[k] < idx && elems@[inner@[k] as int] == k,
                forall|j: int| 0 <= j < idx ==> inner@.contains_key(#[trigger] elems@[j]),
                forall|x: usize| inner@.contains_key(x) ==> elems@.subrange(0, idx as int).contains(x),
                forall|i: int|
                    0 <= i < idx && (forall|j: int| i < j < idx ==> elems@[j] != elems@[i])
                        ==> inner@[#[trigger] elems@[i]] == i,
            decreases n - idx,
        {
            let e = elems[idx];
            inner.insert(e, idx);
            parent_data.push(idx);
            rank_data.push(0);
            proof {
                assert forall|x: usize| inner@.contains_key(x) implies elems@.subrange(
                    0,
                    idx + 1,
                ).contains(x) by {
                    if x == e {
                        assert(elems@.subrange(0, idx + 1)[idx as int] == e);
                    } else {
                        let w = choose|w: int| 0 <= w < idx && elems@.subrange(0, idx as int)[w] == x;
                        assert(elems@.subrange(0, idx + 1)[w] == x);
                    }
                }
            }
            idx = idx + 1;
        }
        let ghost rep = Seq::new(n as nat, |i: int| i);
        proof {
            assert(elems@.subrange(0, n as int) =~= elems@);
            assert forall|r: int| 0 <= r < n && rep[r] == r implies #[trigger] rank_data@[r]
                < class_of(rep, r).len() by {
                assert(parent_data@[r] == r && rank_data@[r] == 0);
                lemma_singleton_class(rep, r);
            }
            assert forall|i: int| 0 <= i < n implies #[trigger] rep[i] == i && rank_data@[i] == 0 by {
                assert(parent_data@[i] == i && rank_data@[i] == 0);
            }
            assert(singletons(rep, rank_data@, n as int));
            assert forall|i: int| 0 <= i < n implies #[trigger] node_ok(
                parent_data@,
                rank_data@,
                rep,
                i,
            ) by {}
            assert forall|x: usize| elems@.contains(x) implies inner@.contains_key(x) by {
                let w = choose|w: int| 0 <= w < n && elems@[w] == x;
                assert(inner@.contains_key(elems@[w]));
            }
        }
        UnionFind { inner, reverse: elems, parent_data, rank_data, rep: Ghost(rep) }
    }

    /// Follows parent links from `location` to its root, and points every
    /// slot on the way straight at that root.
    fn find_parent(&mut self, location: usize) -> (r: usize)
        requires
            old(self).wf(),
            location < old(self).elements().len(),
        ensures
            final(self).wf(),
            final(self).elements() == old(self).elements(),
            final(self).slots() == old(self).slots(),
            final(self).reps() == old(self).reps(),
            final(self).ranks() == old(self).ranks(),
            r == old(self).reps()[location as int],
        decreases old(self).elements().len() - old(self).ranks()[location as int],
    {
        proof {
            assert(node_ok(self.parent_data@, self.rank_data@, self.rep@, location as int));
            lemma_forest_ranks(self.parent_data@, self.rank_data@, self.rep@);
        }
        let p = self.parent_data[location];
        if p == location {
            location
        } else {
            proof {
                assert(node_ok(self.parent_data@, self.rank_data@, self.rep@, p as int));
            }
            let root_parent = self.find_parent(p);
            proof {
                assert(node_ok(self.parent_data@, self.rank_data@, self.rep@, location as int));
            }
            let ghost before = self.parent_data@;
            self.parent_data.set(location, root_parent);
            proof {
                let rep = self.rep@;
                let rank = self.rank_data@;
                assert(node_ok(before, rank, rep, root_parent as int));
                assert forall|i: int| 0 <= i < self.parent_data@.len() implies #[trigger] node_ok(
                    self.parent_data@,
                    rank,
                    rep,
                    i,
                ) by {
                    assert(node_ok(before, rank, rep, i));
                }
            }
            root_parent
        }
    }

    /// The root slot of the class of `x`; compresses the path as it goes.
    pub fn find(&mut self, x: &usize) -> (r: usize)
        requires
            old(self).wf(),
            old(self).has(*x),
        ensures
            final(self).wf(),
            final(self).elements() == old(self).elements(),
            final(self).slots() == old(self).slots(),
            final(self).reps() == old(self).reps(),
            final(self).ranks() == old(self).ranks(),
            r == old(self).reps()[old(self).slot(*x)],
    {
        let location = *self.inner.get(x).unwrap();
        self.find_parent(location)
    }

    /// `find` for an element that may be missing: `None` when it is.
    pub fn try_find(&mut self, x: &usize) -> (r: Option<usize>)
        requires
            old(self).wf(),
        ensures
            final(self).wf(),
            final(self).elements() == old(self).elements(),
            final(self).slots() == old(self).slots(),
            final(self).reps() == old(self).reps(),
            final(self).ranks() == old(self).ranks(),
            r == (if old(self).has(*x) {
                Some(old(self).reps()[old(self).slot(*x)] as usize)
            } else {
                None
            }),
    {
        match self.inner.get(x) {
            Some(location) => {
                let location = *location;
                Some(self.find_parent(location))
            },
            None => None,
        }
    }

    /// Joins the classes of `x` and `y` by rank; nothing changes when they
    /// already share one.
    pub fn union(&mut self, x: &usize, y: &usize)
        requires
            old(self).wf(),
            old(self).has(*x),
            old(self).has(*y),
        ensures
            final(self).wf(),
            final(self).elements() == old(self).elements(),
            final(self).slots() == old(self).slots(),
            (final(self).reps(), final(self).ranks()) == link(
                old(self).reps(),
                old(self).ranks(),
                old(self).reps()[old(self).slot(*x)],
                old(self).reps()[old(self).slot(*y)],
            ),
    {
        let x_location = self.find(x);
        let y_location = self.find(y);
        if x_location == y_location {
            return;
        }
        proof {
            lemma_forest_ranks(self.parent_data@, self.rank_data@, self.rep@);
            assert(node_ok(self.parent_data@, self.rank_data@, self.rep@, x_location as int));
            assert(node_ok(self.parent_data@, self.rank_data@, self.rep@, y_location as int));
        }
        let ghost rep = self.rep@;
        let ghost rank = self.rank_data@;
        let ghost parent = self.parent_data@;
        let xr = self.rank_data[x_location];
        let yr = self.rank_data[y_location];
        if xr < yr {
            self.parent_data.set(x_location, y_location);
            proof {
                lemma_link_ok(parent, rank, rep, x_location as int, y_location as int, y_location as int, x_location as int);
            }
        } else {
            self.parent_data.set(y_location, x_location);
            if xr == yr {
                self.rank_data.set(x_location, xr + 1);
            }
            proof {
                lemma_link_ok(parent, rank, rep, x_location as int, y_location as int, x_location as int, y_location as int);
            }
        }
        self.rep = Ghost(link(rep, rank, x_location as int, y_location as int).0);
    }

    /// Puts every element back into a class of its own.
    pub fn clear(&mut self)
        requires
            old(self).wf(),
        ensures
            final(self).wf(),
            final(self).elements() == old(self).elements(),
            final(self).slots() == old(self).slots(),
            singletons(final(self).reps(), final(self).ranks(), old(self).elements().len() as int),
    {
        let n = self.parent_data.len();
        let mut i: usize = 0;
        while i < n
            invariant
                n == self.parent_data@.len(),
                n == self.rank_data@.len(),
                n == self.reverse@.len(),
                i <= n,
                forall|j: int| 0 <= j < i ==> #[trigger] self.parent_data@[j] == j,
                forall|j: int| 0 <= j < i ==> #[trigger] self.rank_data@[j] == 0,
                self.inner@ == old(self).inner@,
                self.reverse@ == old(self).reverse@,
                forall|k: usize| #[trigger]
                    self.inner@.contains_key(k) ==> self.inner@[k] < n && self.reverse@[self.inner@[k] as int]
                        == k,
                forall|j: int| 0 <= j < n ==> self.inner@.contains_key(#[trigger] self.reverse@[j]),
            decreases n - i,
        {
            self.parent_data.set(i, i);
            self.rank_data.set(i, 0);
            i = i + 1;
        }
        let ghost rep = Seq::new(n as nat, |j: int| j);
        proof {
            assert forall|r: int| 0 <= r < n && rep[r] == r implies #[trigger] self.rank_data@[r]
                < class_of(rep, r).len() by {
                assert(self.parent_data@[r] == r && self.rank_data@[r] == 0);
                lemma_singleton_class(rep, r);
            }
            assert forall|i: int| 0 <= i < n implies #[trigger] rep[i] == i && self.rank_data@[i] == 0 by {
                assert(self.parent_data@[i] == i && self.rank_data@[i] == 0);
            }
            assert(singletons(rep, self.rank_data@, n as int));
            assert forall|j: int| 0 <= j < n implies #[trigger] node_ok(
                self.parent_data@,
                self.rank_data@,
                rep,
                j,
            ) by {}
        }
        self.rep = Ghost(rep);
    }

    /// One element per class: the element at each root slot, in slot order.
    pub fn components(&self) -> (r: Vec<usize>)
        requires
            self.wf(),
        ensures
            r@ == roots_upto(self.reps(), self.elements(), self.elements().len() as int),
    {
        let n = self.parent_data.len();
        let mut output: Vec<usize> = Vec::with_capacity(n);
        let mut i: usize = 0;
        while i < n
            invariant
                n == self.parent_data@.len(),
                n == self.reverse@.len(),
                self.wf(),
                i <= n,
                output@ == roots_upto(self.rep@, self.reverse@, i as int),
            decreases n - i,
        {
            proof {
                assert(node_ok(self.parent_data@, self.rank_data@, self.rep@, i as int));
                assert(node_ok(self.parent_data@, self.rank_data@, self.rep@, self.rep@[i as int]));
            }
            if self.parent_data[i] == i {
                output.push(self.reverse[i]);
            }
            i = i + 1;
        }
        output
    }
}

/// The elements at the root slots among the first `k` slots, in slot order.
pub open spec fn roots_upto(rep: Seq<int>, elems: Seq<usize>, k: int) -> Seq<usize>
    decreases k,
{
    if k <= 0 {
        Seq::empty()
    } else if rep[k - 1] == k - 1 {
        roots_upto(rep, elems, k - 1).push(elems[k - 1])
    } else {
        roots_upto(rep, elems, k - 1)
    }
}

/// With each slot holding its own index as element, the roots list holds
/// exactly the root slots below `k`.
pub proof fn lemma_roots_upto(rep: Seq<int>, elems: Seq<usize>, k: int)
    requires
        0 <= k <= elems.len(),
        k <= rep.len(),
        forall|j: int| 0 <= j < elems.len() ==> #[trigger] elems[j] == j,
    ensures
        forall|x: usize| #[trigger]
            roots_upto(rep, elems, k).contains(x) <==> (x < k && rep[x as int] == x),
    decreases k,
{
    if k > 0 {
        lemma_roots_upto(rep, elems, k - 1);
        let prev = roots_upto(rep, elems, k - 1);
        if rep[k - 1] == k - 1 {
            let cur = roots_upto(rep, elems, k);
            assert(cur == prev.push(elems[k - 1]));
            assert forall|x: usize| #[trigger] cur.contains(x) <==> (x < k && rep[x as int] == x) by {
                if cur.contains(x) {
                    let w = choose|w: int| 0 <= w < cur.len() && cur[w] == x;
                    if w < prev.len() {
                        assert(prev[w] == x);
                        assert(prev.contains(x));
                    }
                }
                if x < k && rep[x as int] == x {
                    if x == k - 1 {
                        assert(cur[prev.len() as int] == x);
                    } else {
                        assert(prev.contains(x));
                        let w = choose|w: int| 0 <= w < prev.len() && prev[w] == x;
                        assert(cur[w] == x);
                    }
                }
            }
        }
    }
}

impl From<Vec<usize>> for UnionFind {
    fn from(elems: Vec<usize>) -> (r: Self) {
        UnionFind::from_elements(elems)
    }
}

impl vstd::std_specs::convert::FromSpecImpl<Vec<usize>> for UnionFind {
    open spec fn obeys_from_spec() -> bool {
        false
    }

    open spec fn from_spec(v: Vec<usize>) -> Self {
        arbitrary()
    }
}

} // verus!
