use vstd::laws_eq::obeys_concrete_eq;
use vstd::prelude::*;

verus! {

/// Whether `p` is `q` or the start of it.
pub open spec fn is_prefix<K>(p: Seq<K>, q: Seq<K>) -> bool {
    p.len() <= q.len() && q.subrange(0, p.len() as int) == p
}

/// Whether `o` records the edge from node `x` through its `y`-th child.
spec fn owned_by(o: Option<(usize, usize)>, x: int, y: int) -> bool {
    o matches Some((p, q)) && p == x && q == y
}

/// The plain form of a list of nodes: each node's value and its children as
/// (key, node index) pairs.
pub open spec fn parts_view<K, V>(parts: Seq<(Option<V>, Vec<(K, usize)>)>) -> Seq<
    (Option<V>, Seq<(K, usize)>),
> {
    parts.map_values(|p: (Option<V>, Vec<(K, usize)>)| (p.0, p.1@))
}

/// Whether a plain form describes a trie: there is a root at index 0, each
/// child comes after its parent, no node has two children under one key, and
/// no node is the child of two parents (or twice of one).
pub open spec fn valid_shape<K, V>(a: Seq<(Option<V>, Seq<(K, usize)>)>) -> bool {
    &&& a.len() >= 1
    &&& forall|i: int, j: int|
        0 <= i < a.len() && 0 <= j < a[i].1.len() ==> i < #[trigger] a[i].1[j].1 < a.len()
    &&& forall|i: int, j1: int, j2: int|
        0 <= i < a.len() && 0 <= j1 < a[i].1.len() && 0 <= j2 < a[i].1.len() && j1 != j2
            ==> #[trigger] a[i].1[j1].0 != #[trigger] a[i].1[j2].0
    &&& forall|i1: int, j1: int, i2: int, j2: int|
        0 <= i1 < a.len() && 0 <= j1 < a[i1].1.len() && 0 <= i2 < a.len() && 0 <= j2 < a[i2].1.len()
            && #[trigger] a[i1].1[j1].1 == #[trigger] a[i2].1[j2].1 ==> i1 == i2 && j1 == j2
}

/// One node of the arena: its own value, and its children as (key, index) pairs.
pub struct Node<K, V> {
    pub(crate) val: Option<V>,
    pub(crate) children: Vec<(K, usize)>,
    /// The keys that lead from the root to this node.
    pub(crate) path: Ghost<Seq<K>>,
}

/// A prefix map from sequences of keys to values.
///
/// The nodes live in an arena; the root is at index 0 and every child sits at a
/// larger index than its parent.
pub struct Trie<K, V> {
    pub(crate) nodes: Vec<Node<K, V>>,
}

/// Returned by `Trie::insert` when the path already holds a value.
#[derive(Debug, PartialEq, Eq)]
pub struct DuplicatePath;

/// Returned by `Trie::from_parts` when the plain form does not describe a trie.
#[derive(Debug, PartialEq, Eq)]
pub struct DecodeError;

impl<K: PartialEq + Copy, V: Copy> Trie<K, V> {
    /// The number of nodes in the arena.
    pub closed spec fn arena_len(self) -> int {
        self.nodes@.len() as int
    }

    /// The children of node `i`, as (key, index) pairs.
    pub closed spec fn kids(self, i: int) -> Seq<(K, usize)> {
        self.nodes@[i].children@
    }

    /// The plain form of the arena.
    pub closed spec fn shape(self) -> Seq<(Option<V>, Seq<(K, usize)>)> {
        self.nodes@.map_values(|n: Node<K, V>| (n.val, n.children@))
    }

    /// The index of the child of node `i` reached by key `k`, if any.
    pub closed spec fn child_of(self, i: int, k: K) -> Option<int> {
        if exists|j: int| 0 <= j < self.kids(i).len() && #[trigger] self.kids(i)[j].0 == k {
            let j = choose|j: int| 0 <= j < self.kids(i).len() && #[trigger] self.kids(i)[j].0 == k;
            Some(self.kids(i)[j].1 as int)
        } else {
            None
        }
    }

    /// The node reached from node `i` by following the keys of `p`.
    pub closed spec fn node_at(self, i: int, p: Seq<K>) -> Option<int>
        decreases p.len(),
    {
        if p.len() == 0 {
            Some(i)
        } else {
            match self.child_of(i, p[0]) {
                Some(c) => self.node_at(c, p.drop_first()),
                None => None,
            }
        }
    }

    /// Whether the path `p` leads from the root to a node holding a value.
    pub closed spec fn holds(self, p: Seq<K>) -> bool {
        &&& self.node_at(0, p) is Some
        &&& self.nodes@[self.node_at(0, p).unwrap()].val is Some
    }

    /// The contents of the trie: each stored path with its value.
    pub closed spec fn view(self) -> Map<Seq<K>, V> {
        Map::new(
            |p: Seq<K>| self.holds(p),
            |p: Seq<K>| self.nodes@[self.node_at(0, p).unwrap()].val.unwrap(),
        )
    }

    /// The arena is a tree rooted at index 0 whose nodes know their own paths.
    pub closed spec fn wf(self) -> bool {
        &&& obeys_concrete_eq::<K>()
        &&& self.nodes@.len() >= 1
        &&& self.nodes@[0].path@ == Seq::<K>::empty()
        &&& forall|i: int, j: int|
            0 <= i < self.nodes@.len() && 0 <= j < self.kids(i).len() ==> {
                let c = #[trigger] self.kids(i)[j].1 as int;
                &&& i < c < self.nodes@.len()
                &&& self.nodes@[c].path@ == self.nodes@[i].path@.push(self.kids(i)[j].0)
            }
        &&& forall|i: int, j1: int, j2: int|
            0 <= i < self.nodes@.len() && 0 <= j1 < self.kids(i).len() && 0 <= j2 < self.kids(
                i,
            ).len() && j1 != j2 ==> #[trigger] self.kids(i)[j1].0 != #[trigger] self.kids(i)[j2].0
        &&& self.single_parent()
    }

    /// No node is reached by two edges.
    #[verifier::opaque]
    pub closed spec fn single_parent(self) -> bool {
        forall|i1: int, j1: int, i2: int, j2: int|
            0 <= i1 < self.nodes@.len() && 0 <= j1 < self.kids(i1).len() && 0 <= i2
                < self.nodes@.len() && 0 <= j2 < self.kids(i2).len() && #[trigger] self.kids(i1)[j1].1
                == #[trigger] self.kids(i2)[j2].1 ==> i1 == i2 && j1 == j2
    }

    proof fn lemma_child_of(self, i: int, j: int)
        requires
            self.wf(),
            0 <= i < self.nodes@.len(),
            0 <= j < self.kids(i).len(),
        ensures
            self.child_of(i, self.kids(i)[j].0) == Some(self.kids(i)[j].1 as int),
    {
        let k = self.kids(i)[j].0;
        assert(self.kids(i)[j].0 == k);
    }

    /// A node reached from `i` lies in the arena, and its path extends that of `i`.
    proof fn lemma_node_at_path(self, i: int, p: Seq<K>)
        requires
            self.wf(),
            0 <= i < self.nodes@.len(),
        ensures
            self.node_at(i, p) matches Some(n) ==> {
                &&& i <= n < self.nodes@.len()
                &&& self.nodes@[n].path@ == self.nodes@[i].path@ + p
            },
        decreases p.len(),
    {
        if p.len() > 0 {
            if let Some(c) = self.child_of(i, p[0]) {
                let j = choose|j: int| 0 <= j < self.kids(i).len() && #[trigger] self.kids(i)[j].0 == p[0];
                assert(self.kids(i)[j].0 == p[0]);
                self.lemma_node_at_path(c, p.drop_first());
                assert(self.nodes@[i].path@.push(p[0]) + p.drop_first() =~= self.nodes@[i].path@ + p);
            }
        }
    }

    /// Following one more key extends a walk by one step.
    proof fn lemma_node_at_push(self, i: int, p: Seq<K>, k: K)
        requires
            self.wf(),
            0 <= i < self.nodes@.len(),
        ensures
            self.node_at(i, p.push(k)) == match self.node_at(i, p) {
                Some(n) => self.child_of(n, k),
                None => None,
            },
        decreases p.len(),
    {
        if p.len() == 0 {
            assert(p.push(k).drop_first() =~= Seq::<K>::empty());
            assert(p.push(k)[0] == k);
            if let Some(c) = self.child_of(i, k) {
                assert(self.node_at(c, Seq::<K>::empty()) == Some(c));
            }
        } else {
            assert(p.push(k)[0] == p[0]);
            assert(p.push(k).drop_first() =~= p.drop_first().push(k));
            if let Some(c) = self.child_of(i, p[0]) {
                self.lemma_child_in_range(i, p[0]);
                self.lemma_node_at_push(c, p.drop_first(), k);
            }
        }
    }

    proof fn lemma_child_in_range(self, i: int, k: K)
        requires
            self.wf(),
            0 <= i < self.nodes@.len(),
        ensures
            self.child_of(i, k) matches Some(c) ==> i < c < self.nodes@.len(),
    {
        if let Some(c) = self.child_of(i, k) {
            let j = choose|j: int| 0 <= j < self.kids(i).len() && #[trigger] self.kids(i)[j].0 == k;
            assert(self.kids(i)[j].0 == k);
        }
    }

    /// Walks depend on the children lists alone.
    proof fn lemma_same_shape(self, other: Self, i: int, p: Seq<K>)
        requires
            self.wf(),
            other.nodes@.len() == self.nodes@.len(),
            forall|m: int| 0 <= m < self.nodes@.len() ==> other.kids(m) == self.kids(m),
            0 <= i < self.nodes@.len(),
        ensures
            other.node_at(i, p) == self.node_at(i, p),
        decreases p.len(),
    {
        assert(other.kids(i) == self.kids(i));
        if p.len() > 0 {
            assert(other.child_of(i, p[0]) == self.child_of(i, p[0]));
            self.lemma_child_in_range(i, p[0]);
            if let Some(c) = self.child_of(i, p[0]) {
                self.lemma_same_shape(other, c, p.drop_first());
            }
        }
    }

    /// Changing only the values of nodes keeps the arena well formed.
    proof fn lemma_wf_same_shape(self, other: Self)
        requires
            self.wf(),
            other.nodes@.len() == self.nodes@.len(),
            forall|m: int| 0 <= m < self.nodes@.len() ==> #[trigger] other.kids(m) == self.kids(m),
            forall|m: int|
                0 <= m < self.nodes@.len() ==> #[trigger] other.nodes@[m].path == self.nodes@[m].path,
        ensures
            other.wf(),
    {
        assert forall|i: int, j: int|
            0 <= i < other.nodes@.len() && 0 <= j < other.kids(i).len() implies {
                let c = #[trigger] other.kids(i)[j].1 as int;
                &&& i < c < other.nodes@.len()
                &&& other.nodes@[c].path@ == other.nodes@[i].path@.push(other.kids(i)[j].0)
            } by {
            assert(other.kids(i) == self.kids(i));
            let c = self.kids(i)[j].1 as int;
            assert(other.nodes@[c].path == self.nodes@[c].path);
            assert(other.nodes@[i].path == self.nodes@[i].path);
        }
        assert forall|i: int, j1: int, j2: int|
            0 <= i < other.nodes@.len() && 0 <= j1 < other.kids(i).len() && 0 <= j2 < other.kids(
                i,
            ).len() && j1 != j2 implies #[trigger] other.kids(i)[j1].0 != #[trigger] other.kids(i)[j2].0 by {
            assert(other.kids(i) == self.kids(i));
        }
        reveal(Trie::single_parent);
        assert forall|i1: int, j1: int, i2: int, j2: int|
            0 <= i1 < other.nodes@.len() && 0 <= j1 < other.kids(i1).len() && 0 <= i2
                < other.nodes@.len() && 0 <= j2 < other.kids(i2).len() && #[trigger] other.kids(i1)[j1].1
                == #[trigger] other.kids(i2)[j2].1 implies i1 == i2 && j1 == j2 by {
            assert(other.kids(i1) == self.kids(i1));
            assert(other.kids(i2) == self.kids(i2));
        }
        assert(other.nodes@[0].path == self.nodes@[0].path);
    }

    /// Adding a fresh childless node under `i` by a new key `k` keeps every walk
    /// that succeeded, and a walk that failed now fails or ends at the fresh node.
    proof fn lemma_grow(self, other: Self, i: int, k: K, n: usize, x: int, p: Seq<K>)
        requires
            self.wf(),
            other.wf(),
            0 <= i < self.nodes@.len(),
            n == self.nodes@.len(),
            other.nodes@.len() == n + 1,
            forall|m: int| 0 <= m < n && m != i ==> other.kids(m) == self.kids(m),
            other.kids(i) == self.kids(i).push((k, n)),
            other.kids(n as int).len() == 0,
            self.child_of(i, k) is None,
            0 <= x < n,
        ensures
            self.node_at(x, p) matches Some(m) ==> other.node_at(x, p) == Some(m),
            self.node_at(x, p) is None ==> other.node_at(x, p) is None || other.node_at(x, p)
                == Some(n as int),
        decreases p.len(),
    {
        if p.len() > 0 {
            let q = p[0];
            self.lemma_child_in_range(x, q);
            if x != i || q != k {
                if let Some(c) = self.child_of(x, q) {
                    let j = choose|j: int| 0 <= j < self.kids(x).len() && #[trigger] self.kids(x)[j].0 == q;
                    assert(self.kids(x)[j].0 == q);
                    assert(other.kids(x)[j] == self.kids(x)[j]);
                    other.lemma_child_of(x, j);
                    self.lemma_grow(other, i, k, n, c, p.drop_first());
                } else {
                    assert forall|j: int| 0 <= j < other.kids(x).len() implies #[trigger] other.kids(x)[j].0 != q by {
                        if j < self.kids(x).len() {
                            assert(other.kids(x)[j] == self.kids(x)[j]);
                            if self.kids(x)[j].0 == q {
                                assert(self.kids(x)[j].0 == q);
                            }
                        }
                    }
                    assert(other.child_of(x, q) is None);
                    assert(other.node_at(x, p) is None);
                }
            } else {
                assert(other.kids(i)[self.kids(i).len() as int] == (k, n));
                other.lemma_child_of(i, self.kids(i).len() as int);
                let rest = p.drop_first();
                assert(other.node_at(x, p) == other.node_at(n as int, rest));
                if rest.len() > 0 {
                    assert(other.child_of(n as int, rest[0]) is None);
                    assert(other.node_at(n as int, rest) is None);
                } else {
                    assert(other.node_at(n as int, rest) == Some(n as int));
                }
            }
        }
    }

    /// The index of the child of node `i` reached by key `k`, if any.
    fn find_child(&self, i: usize, k: &K) -> (r: Option<usize>)
        requires
            self.wf(),
            i < self.nodes@.len(),
        ensures
            r matches Some(c) ==> self.child_of(i as int, *k) == Some(c as int),
            r is None ==> self.child_of(i as int, *k) is None,
    {
        let children = &self.nodes[i].children;
        let mut j: usize = 0;
        while j < children.len()
            invariant
                self.wf(),
                i < self.nodes@.len(),
                children@ == self.kids(i as int),
                j <= children@.len(),
                forall|m: int| 0 <= m < j ==> children@[m].0 != *k,
            decreases children@.len() - j,
        {
            proof {
                reveal(obeys_concrete_eq);
            }
            if children[j].0.eq(k) {
                proof {
                    self.lemma_child_of(i as int, j as int);
                }
                return Some(children[j].1);
            }
            j += 1;
        }
        None
    }

    /// The index of the node that `keys` leads to from the root, if any.
    fn find_node(&self, keys: &[K]) -> (r: Option<usize>)
        requires
            self.wf(),
        ensures
            r matches Some(n) ==> self.node_at(0, keys@) == Some(n as int) && n < self.nodes@.len(),
            r is None ==> self.node_at(0, keys@) is None,
    {
        let mut cur: usize = 0;
        let mut d: usize = 0;
        assert(keys@.subrange(0, keys@.len() as int) =~= keys@);
        while d < keys.len()
            invariant
                self.wf(),
                cur < self.nodes@.len(),
                d <= keys@.len(),
                self.node_at(0, keys@) == self.node_at(cur as int, keys@.subrange(d as int, keys@.len() as int)),
            decreases keys@.len() - d,
        {
            let ghost rest = keys@.subrange(d as int, keys@.len() as int);
            assert(rest.drop_first() =~= keys@.subrange(d + 1, keys@.len() as int));
            match self.find_child(cur, &keys[d]) {
                Some(c) => {
                    proof {
                        self.lemma_node_at_path(cur as int, seq![keys@[d as int]]);
                        reveal_with_fuel(Trie::node_at, 2);
                    }
                    cur = c;
                },
                None => {
                    return None;
                },
            }
            d += 1;
        }
        assert(keys@.subrange(d as int, keys@.len() as int) =~= Seq::<K>::empty());
        Some(cur)
    }

    /// The value of node `i` as an entry under path `pre`, if it has one.
    pub closed spec fn own(self, i: int, pre: Seq<K>) -> Seq<(Seq<K>, V)> {
        match self.nodes@[i].val {
            Some(v) => seq![(pre, v)],
            None => Seq::empty(),
        }
    }

    /// The entries of the subtree at node `i`, whose path is `pre`, in pre-order:
    /// the node's own value first, then each child's entries in turn.
    pub closed spec fn entries_at(self, i: int, pre: Seq<K>) -> Seq<(Seq<K>, V)>
        decreases self.arena_len() - i, self.kids(i).len() + 1,
    {
        if 0 <= i < self.nodes@.len() {
            self.own(i, pre) + self.entries_kids(i, 0, pre)
        } else {
            Seq::empty()
        }
    }

    /// The entries of the subtrees of the children of `i` from the `j`-th on.
    pub closed spec fn entries_kids(self, i: int, j: int, pre: Seq<K>) -> Seq<(Seq<K>, V)>
        decreases self.arena_len() - i, self.kids(i).len() - j,
    {
        if 0 <= i < self.nodes@.len() && 0 <= j < self.kids(i).len() && i < self.kids(i)[j].1
            < self.nodes@.len() {
            self.entries_at(self.kids(i)[j].1 as int, pre.push(self.kids(i)[j].0))
                + self.entries_kids(i, j + 1, pre)
        } else {
            Seq::empty()
        }
    }

    /// The number of nodes in the subtree at `i`.
    spec fn size_at(self, i: int) -> nat
        decreases self.arena_len() - i, self.kids(i).len() + 1,
    {
        if 0 <= i < self.nodes@.len() {
            1 + self.size_kids(i, 0)
        } else {
            0
        }
    }

    /// The number of nodes under the children of `i` from the `j`-th on.
    spec fn size_kids(self, i: int, j: int) -> nat
        decreases self.arena_len() - i, self.kids(i).len() - j,
    {
        if 0 <= i < self.nodes@.len() && 0 <= j < self.kids(i).len() && i < self.kids(i)[j].1
            < self.nodes@.len() {
            self.size_at(self.kids(i)[j].1 as int) + self.size_kids(i, j + 1)
        } else {
            0
        }
    }

    /// Every stored entry in pre-order, each path prefixed by `pre`.
    pub closed spec fn entries_from(self, pre: Seq<K>) -> Seq<(Seq<K>, V)> {
        self.entries_at(0, pre)
    }

    /// Every stored entry in pre-order.
    pub open spec fn entries(self) -> Seq<(Seq<K>, V)> {
        self.entries_from(Seq::empty())
    }

    /// What a traversal still owes, given its stack of (node, next child) frames
    /// and the path to the node on top.
    spec fn pending(self, stack: Seq<(usize, usize)>, path: Seq<K>) -> Seq<(Seq<K>, V)>
        decreases stack.len(),
    {
        if stack.len() == 0 {
            Seq::empty()
        } else {
            let top = stack.last();
            self.entries_kids(top.0 as int, top.1 as int, path) + self.pending(
                stack.drop_last(),
                path.drop_last(),
            )
        }
    }

    /// How many nodes a traversal has yet to enter.
    spec fn pending_size(self, stack: Seq<(usize, usize)>) -> nat
        decreases stack.len(),
    {
        if stack.len() == 0 {
            0
        } else {
            let top = stack.last();
            self.size_kids(top.0 as int, top.1 as int) + self.pending_size(stack.drop_last())
        }
    }

    /// Each entry of the subtree at `i` extends `pre`, and the rest of its path
    /// leads from `i` to a node that holds the entry's value.
    proof fn lemma_entries_at_shape(self, i: int, pre: Seq<K>)
        requires
            self.wf(),
            0 <= i < self.nodes@.len(),
        ensures
            forall|a: int|
                0 <= a < self.entries_at(i, pre).len() ==> {
                    let e = #[trigger] self.entries_at(i, pre)[a];
                    let rel = e.0.subrange(pre.len() as int, e.0.len() as int);
                    &&& e.0.len() >= pre.len()
                    &&& e.0.subrange(0, pre.len() as int) == pre
                    &&& self.node_at(i, rel) is Some
                    &&& self.nodes@[self.node_at(i, rel).unwrap()].val == Some(e.1)
                },
        decreases self.arena_len() - i, self.kids(i).len() + 1,
    {
        let own = self.own(i, pre);
        let rest = self.entries_kids(i, 0, pre);
        self.lemma_entries_kids_shape(i, 0, pre);
        assert forall|a: int| 0 <= a < self.entries_at(i, pre).len() implies {
            let e = #[trigger] self.entries_at(i, pre)[a];
            let rel = e.0.subrange(pre.len() as int, e.0.len() as int);
            &&& e.0.len() >= pre.len()
            &&& e.0.subrange(0, pre.len() as int) == pre
            &&& self.node_at(i, rel) is Some
            &&& self.nodes@[self.node_at(i, rel).unwrap()].val == Some(e.1)
        } by {
            let e = self.entries_at(i, pre)[a];
            if a < own.len() {
                assert(e == own[a]);
                assert(pre.subrange(0, pre.len() as int) =~= pre);
                assert(pre.subrange(pre.len() as int, pre.len() as int) =~= Seq::<K>::empty());
            } else {
                assert(e == rest[a - own.len()]);
            }
        }
    }

    /// Each entry under the children of `i` from the `j`-th on extends `pre` by
    /// the key of one of those children, and leads from `i` to its value.
    proof fn lemma_entries_kids_shape(self, i: int, j: int, pre: Seq<K>)
        requires
            self.wf(),
            0 <= i < self.nodes@.len(),
            0 <= j,
        ensures
            forall|a: int|
                0 <= a < self.entries_kids(i, j, pre).len() ==> {
                    let e = #[trigger] self.entries_kids(i, j, pre)[a];
                    let rel = e.0.subrange(pre.len() as int, e.0.len() as int);
                    &&& e.0.len() > pre.len()
                    &&& e.0.subrange(0, pre.len() as int) == pre
                    &&& exists|j2: int| j <= j2 < self.kids(i).len() && e.0[pre.len() as int] == self.kids(i)[j2].0
                    &&& self.node_at(i, rel) is Some
                    &&& self.nodes@[self.node_at(i, rel).unwrap()].val == Some(e.1)
                },
        decreases self.arena_len() - i, self.kids(i).len() - j,
    {
        if j < self.kids(i).len() {
            let (k, c0) = self.kids(i)[j];
            let c = c0 as int;
            assert(self.kids(i)[j].1 == c0);
            let pk = pre.push(k);
            let first = self.entries_at(c, pk);
            let rest = self.entries_kids(i, j + 1, pre);
            self.lemma_entries_at_shape(c, pk);
            self.lemma_entries_kids_shape(i, j + 1, pre);
            self.lemma_child_of(i, j);
            assert forall|a: int| 0 <= a < self.entries_kids(i, j, pre).len() implies {
                let e = #[trigger] self.entries_kids(i, j, pre)[a];
                let rel = e.0.subrange(pre.len() as int, e.0.len() as int);
                &&& e.0.len() > pre.len()
                &&& e.0.subrange(0, pre.len() as int) == pre
                &&& exists|j2: int| j <= j2 < self.kids(i).len() && e.0[pre.len() as int] == self.kids(i)[j2].0
                &&& self.node_at(i, rel) is Some
                &&& self.nodes@[self.node_at(i, rel).unwrap()].val == Some(e.1)
            } by {
                let e = self.entries_kids(i, j, pre)[a];
                let rel = e.0.subrange(pre.len() as int, e.0.len() as int);
                if a < first.len() {
                    assert(e == first[a]);
                    let relc = e.0.subrange(pk.len() as int, e.0.len() as int);
                    assert(e.0.subrange(0, pk.len() as int) == pk);
                    assert(e.0.subrange(0, pre.len() as int) =~= pk.subrange(0, pre.len() as int));
                    assert(pk.subrange(0, pre.len() as int) =~= pre);
                    assert(e.0[pre.len() as int] == e.0.subrange(0, pk.len() as int)[pre.len() as int]);
                    assert(e.0[pre.len() as int] == k);
                    assert(rel[0] == k);
                    assert(rel.drop_first() =~= relc);
                } else {
                    assert(e == rest[a - first.len()]);
                }
            }
        }
    }

    /// Of two entries of the subtree at `i`, the later one's path is never a
    /// prefix of (or equal to) the earlier one's.
    proof fn lemma_entries_at_order(self, i: int, pre: Seq<K>)
        requires
            self.wf(),
            0 <= i < self.nodes@.len(),
        ensures
            forall|a: int, b: int|
                0 <= a < b < self.entries_at(i, pre).len() ==> !is_prefix(
                    #[trigger] self.entries_at(i, pre)[b].0,
                    #[trigger] self.entries_at(i, pre)[a].0,
                ),
        decreases self.arena_len() - i, self.kids(i).len() + 1,
    {
        let own = self.own(i, pre);
        let rest = self.entries_kids(i, 0, pre);
        self.lemma_entries_kids_order(i, 0, pre);
        self.lemma_entries_kids_shape(i, 0, pre);
        assert forall|a: int, b: int| 0 <= a < b < self.entries_at(i, pre).len() implies !is_prefix(
            #[trigger] self.entries_at(i, pre)[b].0,
            #[trigger] self.entries_at(i, pre)[a].0,
        ) by {
            if a < own.len() {
                assert(rest[b - own.len()] == self.entries_at(i, pre)[b]);
                assert(self.entries_at(i, pre)[a] == own[a]);
            } else {
                assert(rest[b - own.len()] == self.entries_at(i, pre)[b]);
                assert(rest[a - own.len()] == self.entries_at(i, pre)[a]);
            }
        }
    }

    proof fn lemma_entries_kids_order(self, i: int, j: int, pre: Seq<K>)
        requires
            self.wf(),
            0 <= i < self.nodes@.len(),
            0 <= j,
        ensures
            forall|a: int, b: int|
                0 <= a < b < self.entries_kids(i, j, pre).len() ==> !is_prefix(
                    #[trigger] self.entries_kids(i, j, pre)[b].0,
                    #[trigger] self.entries_kids(i, j, pre)[a].0,
                ),
        decreases self.arena_len() - i, self.kids(i).len() - j,
    {
        if j < self.kids(i).len() {
            let (k, c0) = self.kids(i)[j];
            let c = c0 as int;
            assert(self.kids(i)[j].1 == c0);
            let pk = pre.push(k);
            let first = self.entries_at(c, pk);
            let rest = self.entries_kids(i, j + 1, pre);
            self.lemma_entries_at_order(c, pk);
            self.lemma_entries_kids_order(i, j + 1, pre);
            self.lemma_entries_at_shape(c, pk);
            self.lemma_entries_kids_shape(i, j + 1, pre);
            assert forall|a: int, b: int| 0 <= a < b < self.entries_kids(i, j, pre).len() implies !is_prefix(
                #[trigger] self.entries_kids(i, j, pre)[b].0,
                #[trigger] self.entries_kids(i, j, pre)[a].0,
            ) by {
                let ea = self.entries_kids(i, j, pre)[a];
                let eb = self.entries_kids(i, j, pre)[b];
                if b < first.len() {
                    assert(ea == first[a]);
                    assert(eb == first[b]);
                } else if a >= first.len() {
                    assert(ea == rest[a - first.len()]);
                    assert(eb == rest[b - first.len()]);
                } else {
                    assert(ea == first[a]);
                    assert(eb == rest[b - first.len()]);
                    let n = pre.len() as int;
                    assert(ea.0.subrange(0, pk.len() as int) == pk);
                    assert(ea.0[n] == ea.0.subrange(0, pk.len() as int)[n]);
                    assert(ea.0[n] == k);
                    let j2 = choose|j2: int| j + 1 <= j2 < self.kids(i).len() && eb.0[n] == self.kids(i)[j2].0;
                    assert(self.kids(i)[j].0 != self.kids(i)[j2].0);
                    if is_prefix(eb.0, ea.0) {
                        assert(ea.0.subrange(0, eb.0.len() as int)[n] == ea.0[n]);
                    }
                }
            }
        }
    }

    /// The entries of a later child's subtree are among those of the children of
    /// `i` from the `j`-th on.
    proof fn lemma_kids_include(self, i: int, j: int, j2: int, pre: Seq<K>)
        requires
            self.wf(),
            0 <= i < self.nodes@.len(),
            0 <= j <= j2 < self.kids(i).len(),
        ensures
            forall|a: int|
                0 <= a < self.entries_at(self.kids(i)[j2].1 as int, pre.push(self.kids(i)[j2].0)).len()
                    ==> self.entries_kids(i, j, pre).contains(
                    #[trigger] self.entries_at(self.kids(i)[j2].1 as int, pre.push(self.kids(i)[j2].0))[a],
                ),
        decreases j2 - j,
    {
        let c = self.kids(i)[j].1 as int;
        assert(i < c < self.nodes@.len());
        let first = self.entries_at(c, pre.push(self.kids(i)[j].0));
        let rest = self.entries_kids(i, j + 1, pre);
        assert(self.entries_kids(i, j, pre) == first + rest);
        if j < j2 {
            self.lemma_kids_include(i, j + 1, j2, pre);
            assert forall|a: int|
                0 <= a < self.entries_at(self.kids(i)[j2].1 as int, pre.push(self.kids(i)[j2].0)).len()
                    implies self.entries_kids(i, j, pre).contains(
                    #[trigger] self.entries_at(self.kids(i)[j2].1 as int, pre.push(self.kids(i)[j2].0))[a],
                ) by {
                let e = self.entries_at(self.kids(i)[j2].1 as int, pre.push(self.kids(i)[j2].0))[a];
                let x = choose|x: int| 0 <= x < rest.len() && rest[x] == e;
                assert((first + rest)[first.len() + x] == e);
            }
        } else {
            assert forall|a: int| 0 <= a < first.len() implies self.entries_kids(i, j, pre).contains(
                #[trigger] first[a],
            ) by {
                assert((first + rest)[a] == first[a]);
            }
        }
    }

    /// A node that holds a value and is reached from `i` by `q` gives an entry
    /// of the subtree at `i`.
    proof fn lemma_reached_listed(self, i: int, q: Seq<K>, pre: Seq<K>, v: V)
        requires
            self.wf(),
            0 <= i < self.nodes@.len(),
            self.node_at(i, q) is Some,
            self.nodes@[self.node_at(i, q).unwrap()].val == Some(v),
        ensures
            self.entries_at(i, pre).contains((pre + q, v)),
        decreases q.len(),
    {
        let own = self.own(i, pre);
        let rest = self.entries_kids(i, 0, pre);
        assert(self.entries_at(i, pre) == own + rest);
        if q.len() == 0 {
            assert(pre + q =~= pre);
            assert((own + rest)[0] == (pre, v));
        } else {
            let c = self.child_of(i, q[0]).unwrap();
            let j = choose|j: int| 0 <= j < self.kids(i).len() && #[trigger] self.kids(i)[j].0 == q[0];
            assert(self.kids(i)[j].0 == q[0]);
            assert(self.kids(i)[j].1 as int == c);
            self.lemma_reached_listed(c, q.drop_first(), pre.push(q[0]), v);
            assert(pre.push(q[0]) + q.drop_first() =~= pre + q);
            self.lemma_kids_include(i, 0, j, pre);
            let sub = self.entries_at(c, pre.push(q[0]));
            let x = choose|x: int| 0 <= x < sub.len() && sub[x] == (pre + q, v);
            assert(rest.contains(sub[x]));
            let y = choose|y: int| 0 <= y < rest.len() && rest[y] == (pre + q, v);
            assert((own + rest)[own.len() + y] == (pre + q, v));
        }
    }

    /// A traversal yields exactly the stored entries: each with the value stored
    /// at its path, every stored path, and no path twice.
    pub proof fn lemma_entries_are_contents(self)
        requires
            self.wf(),
        ensures
            forall|a: int|
                0 <= a < self.entries().len() ==> self@.contains_key(#[trigger] self.entries()[a].0)
                    && self@[self.entries()[a].0] == self.entries()[a].1,
            forall|p: Seq<K>|
                #[trigger] self@.contains_key(p) ==> self.entries().contains((p, self@[p])),
            forall|a: int, b: int|
                0 <= a < b < self.entries().len() ==> #[trigger] self.entries()[a].0
                    != #[trigger] self.entries()[b].0,
    {
        let pre = Seq::<K>::empty();
        self.lemma_entries_at_shape(0, pre);
        self.lemma_entries_at_order(0, pre);
        assert forall|a: int| 0 <= a < self.entries().len() implies self@.contains_key(
            #[trigger] self.entries()[a].0,
        ) && self@[self.entries()[a].0] == self.entries()[a].1 by {
            let e = self.entries_at(0, pre)[a];
            assert(e.0.subrange(0, e.0.len() as int) =~= e.0);
        }
        assert forall|p: Seq<K>| #[trigger] self@.contains_key(p) implies self.entries().contains(
            (p, self@[p]),
        ) by {
            self.lemma_reached_listed(0, p, pre, self@[p]);
            assert(pre + p =~= p);
        }
        assert forall|a: int, b: int| 0 <= a < b < self.entries().len() implies #[trigger] self.entries()[a].0
            != #[trigger] self.entries()[b].0 by {
            let ea = self.entries_at(0, pre)[a];
            let eb = self.entries_at(0, pre)[b];
            if ea.0 == eb.0 {
                assert(ea.0.subrange(0, eb.0.len() as int) =~= ea.0);
                assert(is_prefix(eb.0, ea.0));
            }
        }
    }

    /// A traversal yields an entry before every entry whose path its path
    /// strictly extends.
    pub proof fn lemma_preorder(self)
        requires
            self.wf(),
        ensures
            forall|a: int, b: int|
                0 <= a < self.entries().len() && 0 <= b < self.entries().len() && is_prefix(
                    #[trigger] self.entries()[a].0,
                    #[trigger] self.entries()[b].0,
                ) && self.entries()[a].0 != self.entries()[b].0 ==> a < b,
    {
        self.lemma_entries_at_order(0, Seq::<K>::empty());
        assert forall|a: int, b: int|
            0 <= a < self.entries().len() && 0 <= b < self.entries().len() && is_prefix(
                #[trigger] self.entries()[a].0,
                #[trigger] self.entries()[b].0,
            ) && self.entries()[a].0 != self.entries()[b].0 implies a < b by {
            if b < a {
                assert(!is_prefix(self.entries()[a].0, self.entries()[b].0));
            }
        }
    }

    /// Entering the next child of the node on top of a traversal's stack.
    proof fn lemma_descend(self, stack: Seq<(usize, usize)>, path: Seq<K>, i: usize, j: usize)
        requires
            self.wf(),
            stack.len() > 0,
            stack.last() == (i, j),
            i < self.nodes@.len(),
            j < self.kids(i as int).len(),
            j < usize::MAX,
        ensures
            ({
                let (k, c) = self.kids(i as int)[j as int];
                let stack2 = stack.update(stack.len() - 1, (i, (j + 1) as usize)).push((c, 0usize));
                &&& self.pending(stack, path) == self.own(c as int, path.push(k)) + self.pending(
                    stack2,
                    path.push(k),
                )
                &&& self.pending_size(stack) == self.pending_size(stack2) + 1
            }),
    {
        let (k, c) = self.kids(i as int)[j as int];
        assert(self.kids(i as int)[j as int].1 == c);
        assert(i < c < self.nodes@.len());
        let mid = stack.update(stack.len() - 1, (i, (j + 1) as usize));
        let stack2 = mid.push((c, 0usize));
        let pk = path.push(k);
        assert(stack2.drop_last() =~= mid);
        assert(mid.drop_last() =~= stack.drop_last());
        assert(pk.drop_last() =~= path);
        assert(stack2.last() == (c, 0usize));
        assert(mid.last() == (i, (j + 1) as usize));
        let rest0 = self.pending(stack.drop_last(), path.drop_last());
        assert(self.pending(stack, path) == self.entries_kids(i as int, j as int, path) + rest0);
        assert(self.pending(mid, path) == self.entries_kids(i as int, j + 1, path) + rest0);
        assert(self.pending(stack2, pk) == self.entries_kids(c as int, 0, pk) + self.pending(mid, path));
        assert(self.entries_at(c as int, pk) == self.own(c as int, pk) + self.entries_kids(c as int, 0, pk));
        assert(self.entries_kids(i as int, j as int, path) == self.entries_at(c as int, pk)
            + self.entries_kids(i as int, j + 1, path));
        assert(self.pending(stack, path) =~= self.own(c as int, pk) + self.pending(stack2, pk));
        let srest = self.pending_size(stack.drop_last());
        assert(self.pending_size(stack) == self.size_kids(i as int, j as int) + srest);
        assert(self.pending_size(mid) == self.size_kids(i as int, j + 1) + srest);
        assert(self.size_at(c as int) == 1 + self.size_kids(c as int, 0));
        assert(self.size_kids(i as int, j as int) == self.size_at(c as int) + self.size_kids(i as int, j + 1));
        assert(self.pending_size(stack2) == self.size_kids(c as int, 0) + self.pending_size(mid));
    }

    /// Leaving the node on top of a traversal's stack once its children are done.
    proof fn lemma_ascend(self, stack: Seq<(usize, usize)>, path: Seq<K>)
        requires
            self.wf(),
            stack.len() > 0,
            stack.last().0 < self.nodes@.len(),
            stack.last().1 >= self.kids(stack.last().0 as int).len(),
        ensures
            self.pending(stack, path) == self.pending(stack.drop_last(), path.drop_last()),
            self.pending_size(stack) == self.pending_size(stack.drop_last()),
    {
        let (i, j) = stack.last();
        assert(self.entries_kids(i as int, j as int, path) =~= Seq::<(Seq<K>, V)>::empty());
        assert(self.size_kids(i as int, j as int) == 0);
        assert(self.pending(stack, path) =~= self.pending(stack.drop_last(), path.drop_last()));
    }

    /// Two arenas with the same plain form have the same entries everywhere.
    proof fn lemma_same_entries_at(self, other: Self, i: int, pre: Seq<K>)
        requires
            self.shape() == other.shape(),
        ensures
            other.entries_at(i, pre) == self.entries_at(i, pre),
        decreases self.arena_len() - i, self.kids(i).len() + 1,
    {
        self.lemma_shape_parts(other);
        if 0 <= i < self.nodes@.len() {
            self.lemma_same_entries_kids(other, i, 0, pre);
        }
    }

    proof fn lemma_same_entries_kids(self, other: Self, i: int, j: int, pre: Seq<K>)
        requires
            self.shape() == other.shape(),
        ensures
            other.entries_kids(i, j, pre) == self.entries_kids(i, j, pre),
        decreases self.arena_len() - i, self.kids(i).len() - j,
    {
        self.lemma_shape_parts(other);
        if 0 <= i < self.nodes@.len() && 0 <= j < self.kids(i).len() && i < self.kids(i)[j].1
            < self.nodes@.len() {
            self.lemma_same_entries_at(other, self.kids(i)[j].1 as int, pre.push(self.kids(i)[j].0));
            self.lemma_same_entries_kids(other, i, j + 1, pre);
        }
    }

    proof fn lemma_shape_parts(self, other: Self)
        requires
            self.shape() == other.shape(),
        ensures
            other.nodes@.len() == self.nodes@.len(),
            forall|m: int| 0 <= m < self.nodes@.len() ==> #[trigger] other.kids(m) == self.kids(m),
            forall|m: int|
                0 <= m < self.nodes@.len() ==> #[trigger] other.nodes@[m].val == self.nodes@[m].val,
    {
        assert(self.shape().len() == self.nodes@.len());
        assert(other.shape().len() == other.nodes@.len());
        assert forall|m: int| 0 <= m < self.nodes@.len() implies #[trigger] other.kids(m) == self.kids(m)
            && other.nodes@[m].val == self.nodes@[m].val by {
            assert(self.shape()[m] == (self.nodes@[m].val, self.nodes@[m].children@));
            assert(other.shape()[m] == (other.nodes@[m].val, other.nodes@[m].children@));
        }
        assert forall|m: int| 0 <= m < self.nodes@.len() implies #[trigger] other.nodes@[m].val
            == self.nodes@[m].val by {
            assert(other.kids(m) == self.kids(m));
        }
    }

    /// The plain form of a well-formed trie describes a trie, and any trie with
    /// that plain form has the same contents and the same traversal: decoding
    /// what `to_parts` gives back yields the trie that was encoded.
    pub proof fn lemma_round_trip(self, decoded: Self)
        requires
            self.wf(),
            decoded.wf(),
            decoded.shape() == self.shape(),
        ensures
            valid_shape(self.shape()),
            decoded@ == self@,
            decoded.entries() == self.entries(),
    {
        let a = self.shape();
        assert forall|i: int, j: int| 0 <= i < a.len() && 0 <= j < a[i].1.len() implies i
            < #[trigger] a[i].1[j].1 < a.len() by {
            assert(a[i].1 == self.kids(i));
            assert(self.kids(i)[j].1 == a[i].1[j].1);
        }
        assert forall|i: int, j1: int, j2: int|
            0 <= i < a.len() && 0 <= j1 < a[i].1.len() && 0 <= j2 < a[i].1.len() && j1 != j2
                implies #[trigger] a[i].1[j1].0 != #[trigger] a[i].1[j2].0 by {
            assert(a[i].1 == self.kids(i));
            assert(self.kids(i)[j1].0 != self.kids(i)[j2].0);
        }
        reveal(Trie::single_parent);
        assert forall|i1: int, j1: int, i2: int, j2: int|
            0 <= i1 < a.len() && 0 <= j1 < a[i1].1.len() && 0 <= i2 < a.len() && 0 <= j2
                < a[i2].1.len() && #[trigger] a[i1].1[j1].1 == #[trigger] a[i2].1[j2].1 implies i1 == i2
                && j1 == j2 by {
            assert(a[i1].1 == self.kids(i1));
            assert(a[i2].1 == self.kids(i2));
            assert(self.kids(i1)[j1].1 == self.kids(i2)[j2].1);
        }
        self.lemma_shape_parts(decoded);
        self.lemma_same_entries_at(decoded, 0, Seq::<K>::empty());
        assert forall|p: Seq<K>| #[trigger] decoded@.contains_key(p) == self@.contains_key(p) && (
        self@.contains_key(p) ==> decoded@[p] == self@[p]) by {
            self.lemma_same_shape(decoded, 0, p);
            self.lemma_node_at_path(0, p);
            if self.node_at(0, p) is Some {
                let m = self.node_at(0, p).unwrap();
                assert(decoded.nodes@[m].val == self.nodes@[m].val);
            }
        }
        assert(decoded@ =~= self@);
    }

    /// Once `v` is stored at a path `p` that held no value, looking up `p`
    /// gives `v`, and every other path that held no value still holds none.
    pub proof fn lemma_insert_then_fetch(self, after: Self, p: Seq<K>, v: V, q: Seq<K>)
        requires
            self.wf(),
            !self@.contains_key(p),
            after@ == self@.insert(p, v),
        ensures
            after@.contains_key(p),
            after@[p] == v,
            q != p && !self@.contains_key(q) ==> !after@.contains_key(q),
    {
    }

    /// A trie that stores nothing has nothing to traverse.
    pub proof fn lemma_empty_has_no_entries(self)
        requires
            self.wf(),
            self@ == Map::<Seq<K>, V>::empty(),
        ensures
            self.entries().len() == 0,
    {
        self.lemma_entries_are_contents();
        if self.entries().len() > 0 {
            assert(self@.contains_key(self.entries()[0].0));
        }
    }

    /// A trie with no children whose root holds `val`. Keys are told apart by
    /// their `==`, which must be plain equality.
    pub fn new(val: Option<V>) -> (r: Self)
        requires
            obeys_concrete_eq::<K>(),
        ensures
            r.wf(),
            r@ == match val {
                Some(v) => map![Seq::<K>::empty() => v],
                None => Map::<Seq<K>, V>::empty(),
            },
    {
        let root = Node { val, children: Vec::new(), path: Ghost(Seq::<K>::empty()) };
        let mut nodes: Vec<Node<K, V>> = Vec::new();
        nodes.push(root);
        let r = Trie { nodes };
        proof {
            reveal(Trie::single_parent);
            assert forall|p: Seq<K>| p.len() > 0 implies r.node_at(0, p) is None by {
                assert(r.kids(0).len() == 0);
                assert(r.child_of(0, p[0]) is None);
            }
            assert(r.node_at(0, Seq::<K>::empty()) == Some(0int));
            assert forall|p: Seq<K>| #[trigger] r.holds(p) <==> (p == Seq::<K>::empty() && val is Some) by {
                if p.len() == 0 {
                    assert(p =~= Seq::<K>::empty());
                }
            }
            match val {
                Some(v) => {
                    assert(r@ =~= map![Seq::<K>::empty() => v]);
                },
                None => {
                    assert(r@ =~= Map::<Seq<K>, V>::empty());
                },
            }
        }
        r
    }

    /// The value stored at exactly `keys`, if any.
    pub fn fetch(&self, keys: &[K]) -> (r: Option<V>)
        requires
            self.wf(),
        ensures
            r == if self@.contains_key(keys@) {
                Some(self@[keys@])
            } else {
                None
            },
    {
        match self.find_node(keys) {
            Some(n) => self.nodes[n].val,
            None => None,
        }
    }

    /// Stores `val` at `keys`, creating the branch nodes on the way; a path that
    /// already holds a value is refused and the trie left as it was.
    pub fn insert(&mut self, keys: &[K], val: V) -> (r: Result<(), DuplicatePath>)
        requires
            old(self).wf(),
        ensures
            final(self).wf(),
            old(self)@.contains_key(keys@) ==> r is Err && final(self)@ == old(self)@,
            !old(self)@.contains_key(keys@) ==> r is Ok && final(self)@ == old(self)@.insert(
                keys@,
                val,
            ),
    {
        if let Some(j) = self.find_node(keys) {
            if self.nodes[j].val.is_some() {
                return Err(DuplicatePath);
            }
        }
        let ghost start = self@;
        let mut cur: usize = 0;
        let mut d: usize = 0;
        assert(keys@.subrange(0, 0) =~= Seq::<K>::empty());
        while d < keys.len()
            invariant
                self.wf(),
                cur < self.nodes@.len(),
                d <= keys@.len(),
                self@ == start,
                !start.contains_key(keys@),
                self.node_at(0, keys@.subrange(0, d as int)) == Some(cur as int),
            decreases keys@.len() - d,
        {
            let ghost before = *self;
            let ghost prefix = keys@.subrange(0, d as int);
            let k = keys[d];
            match self.find_child(cur, &k) {
                Some(c) => {
                    proof {
                        self.lemma_node_at_push(0, prefix, k);
                    }
                    cur = c;
                },
                None => {
                    let n = self.nodes.len();
                    let ghost p = self.nodes@[cur as int].path@.push(k);
                    self.nodes[cur].children.push((k, n));
                    self.nodes.push(Node { val: None, children: Vec::new(), path: Ghost(p) });
                    proof {
                        assert(self.kids(cur as int) == before.kids(cur as int).push((k, n)));
                        assert forall|m: int| 0 <= m < n && m != cur implies self.kids(m)
                            == before.kids(m) by {
                            assert(self.nodes@[m] == before.nodes@[m]);
                        }
                        assert forall|j: int| 0 <= j < before.kids(cur as int).len() implies
                            #[trigger] before.kids(cur as int)[j].0 != k by {
                            if before.kids(cur as int)[j].0 == k {
                                before.lemma_child_of(cur as int, j);
                            }
                        }
                        assert forall|m: int| 0 <= m < n implies self.nodes@[m].val
                            == before.nodes@[m].val && self.nodes@[m].path == before.nodes@[m].path by {
                        }
                        assert forall|i: int, j: int|
                            0 <= i < self.nodes@.len() && 0 <= j < self.kids(i).len() implies {
                                let c = #[trigger] self.kids(i)[j].1 as int;
                                &&& i < c < self.nodes@.len()
                                &&& self.nodes@[c].path@ == self.nodes@[i].path@.push(self.kids(i)[j].0)
                            } by {
                            if i == cur && j == before.kids(i).len() {
                            } else {
                                assert(self.kids(i)[j] == before.kids(i)[j]);
                            }
                        }
                        assert forall|i: int, j1: int, j2: int|
                            0 <= i < self.nodes@.len() && 0 <= j1 < self.kids(i).len() && 0 <= j2
                                < self.kids(i).len() && j1 != j2 implies #[trigger] self.kids(i)[j1].0
                            != #[trigger] self.kids(i)[j2].0 by {
                            let bl = before.kids(cur as int).len();
                            if i == cur {
                                if j1 < bl && j2 < bl {
                                    assert(self.kids(i)[j1] == before.kids(i)[j1]);
                                    assert(self.kids(i)[j2] == before.kids(i)[j2]);
                                } else if j1 == bl {
                                    assert(self.kids(i)[j2] == before.kids(i)[j2]);
                                    assert(before.kids(cur as int)[j2].0 != k);
                                } else {
                                    assert(self.kids(i)[j1] == before.kids(i)[j1]);
                                    assert(before.kids(cur as int)[j1].0 != k);
                                }
                            } else if i < n {
                                assert(self.kids(i) == before.kids(i));
                            }
                        }
                        reveal(Trie::single_parent);
                        assert forall|i1: int, j1: int, i2: int, j2: int|
                            0 <= i1 < self.nodes@.len() && 0 <= j1 < self.kids(i1).len() && 0 <= i2
                                < self.nodes@.len() && 0 <= j2 < self.kids(i2).len()
                                && #[trigger] self.kids(i1)[j1].1 == #[trigger] self.kids(i2)[j2].1
                                implies i1 == i2 && j1 == j2 by {
                            let bl = before.kids(cur as int).len();
                            let new1 = i1 == cur && j1 == bl;
                            let new2 = i2 == cur && j2 == bl;
                            if i1 < n && !new1 {
                                assert(self.kids(i1)[j1] == before.kids(i1)[j1]);
                                assert(before.kids(i1)[j1].1 < n);
                            }
                            if i2 < n && !new2 {
                                assert(self.kids(i2)[j2] == before.kids(i2)[j2]);
                                assert(before.kids(i2)[j2].1 < n);
                            }
                        }
                        assert(self.wf());
                        assert forall|q: Seq<K>| #[trigger] self.holds(q) == before.holds(q) && (self.holds(q)
                            ==> self.node_at(0, q) == before.node_at(0, q)) by {
                            before.lemma_grow(*self, cur as int, k, n, 0, q);
                            before.lemma_node_at_path(0, q);
                        }
                        assert forall|q: Seq<K>| #[trigger] self@.contains_key(q) == before@.contains_key(q)
                            && (self@.contains_key(q) ==> self@[q] == before@[q]) by {
                            before.lemma_grow(*self, cur as int, k, n, 0, q);
                            before.lemma_node_at_path(0, q);
                            if before.holds(q) {
                                let m = before.node_at(0, q).unwrap();
                                assert(self.nodes@[m].val == before.nodes@[m].val);
                            }
                        }
                        assert(self@ =~= before@);
                        before.lemma_grow(*self, cur as int, k, n, 0, prefix);
                        self.lemma_node_at_push(0, prefix, k);
                        self.lemma_child_of(cur as int, before.kids(cur as int).len() as int);
                    }
                    cur = n;
                },
            }
            proof {
                assert(prefix.push(k) =~= keys@.subrange(0, d + 1));
            }
            d += 1;
        }
        assert(keys@.subrange(0, d as int) =~= keys@);
        let ghost before = *self;
        self.nodes[cur].val = Some(val);
        proof {
            assert forall|m: int| 0 <= m < self.nodes@.len() implies self.kids(m) == before.kids(m)
                && self.nodes@[m].path == before.nodes@[m].path && (m != cur ==> self.nodes@[m].val
                == before.nodes@[m].val) by {
            }
            before.lemma_wf_same_shape(*self);
            before.lemma_node_at_path(0, keys@);
            assert forall|p: Seq<K>| #[trigger] self.node_at(0, p) == before.node_at(0, p) by {
                before.lemma_same_shape(*self, 0, p);
                before.lemma_node_at_path(0, p);
            }
            assert forall|p: Seq<K>| before.node_at(0, p) == Some(cur as int) implies p == keys@ by {
                before.lemma_node_at_path(0, p);
                assert(p =~= keys@);
            }
            assert forall|q: Seq<K>| #[trigger] self@.contains_key(q) == start.insert(keys@, val).contains_key(q)
                && (self@.contains_key(q) ==> self@[q] == start.insert(keys@, val)[q]) by {
                before.lemma_node_at_path(0, q);
                if q == keys@ {
                } else if before.holds(q) {
                    let m = before.node_at(0, q).unwrap();
                    assert(m != cur);
                    assert(self.nodes@[m].val == before.nodes@[m].val);
                } else if self.node_at(0, q) is Some {
                    let m = self.node_at(0, q).unwrap();
                    assert(m != cur);
                    assert(self.nodes@[m].val == before.nodes@[m].val);
                }
            }
            assert(self@ =~= start.insert(keys@, val));
        }
        Ok(())
    }

    /// A traversal of the whole trie.
    pub fn iter<'a>(&'a self) -> (r: TrieIter<'a, K, V>)
        requires
            self.wf(),
        ensures
            r.inv(),
            r.source() == *self,
            r.remaining() == self.entries(),
    {
        let above: Vec<K> = Vec::new();
        self.iter_impl(above.as_slice())
    }

    /// A traversal of the whole trie that reports each path after `keys_above`.
    pub fn iter_impl<'a>(&'a self, keys_above: &[K]) -> (r: TrieIter<'a, K, V>)
        requires
            self.wf(),
        ensures
            r.inv(),
            r.source() == *self,
            r.remaining() == self.entries_from(keys_above@),
    {
        let mut path: Vec<K> = Vec::new();
        let mut d: usize = 0;
        while d < keys_above.len()
            invariant
                d <= keys_above@.len(),
                path@ == keys_above@.subrange(0, d as int),
            decreases keys_above@.len() - d,
        {
            path.push(keys_above[d]);
            d += 1;
            assert(path@ =~= keys_above@.subrange(0, d as int));
        }
        assert(path@ =~= keys_above@);
        let mut stack: Vec<(usize, usize)> = Vec::new();
        stack.push((0, 0));
        let r = TrieIter { trie: self, started: false, stack, path };
        proof {
            assert(r.stack@.drop_last() =~= Seq::<(usize, usize)>::empty());
            assert(r.stack@.last() == (0usize, 0usize));
            assert(self.pending(r.stack@.drop_last(), r.path@.drop_last()) =~= Seq::<(Seq<K>, V)>::empty());
            assert(self.pending(r.stack@, r.path@) =~= self.entries_kids(0, 0, r.path@));
        }
        r
    }

    /// The paths of all stored entries, in the order of `iter`.
    pub fn keys<'a>(&'a self) -> (r: TrieKeyIter<'a, K, V>)
        requires
            self.wf(),
        ensures
            r.inv(),
            r.source() == *self,
            r.remaining() == self.entries().map_values(|e: (Seq<K>, V)| e.0),
    {
        let above: Vec<K> = Vec::new();
        TrieKeyIter { iter: self.iter_impl(above.as_slice()) }
    }

    /// The values of all stored entries, in the order of `iter`.
    pub fn values<'a>(&'a self) -> (r: TrieValueIter<'a, K, V>)
        requires
            self.wf(),
        ensures
            r.inv(),
            r.source() == *self,
            r.remaining() == self.entries().map_values(|e: (Seq<K>, V)| e.1),
    {
        let above: Vec<K> = Vec::new();
        TrieValueIter { iter: self.iter_impl(above.as_slice()) }
    }

    /// The plain form of the trie, ready to be written out: each node's value
    /// and its children as (key, node index) pairs, the root first.
    pub fn to_parts(&self) -> (r: Vec<(Option<V>, Vec<(K, usize)>)>)
        requires
            self.wf(),
        ensures
            parts_view(r@) == self.shape(),
    {
        let mut r: Vec<(Option<V>, Vec<(K, usize)>)> = Vec::new();
        let mut i: usize = 0;
        while i < self.nodes.len()
            invariant
                i <= self.nodes@.len(),
                r@.len() == i,
                parts_view(r@) == self.shape().subrange(0, i as int),
            decreases self.nodes@.len() - i,
        {
            let node = &self.nodes[i];
            let ghost old_r = r@;
            r.push((node.val, copy_all(&node.children)));
            proof {
                assert(self.shape()[i as int] == (node.val, node.children@));
                assert forall|x: int| 0 <= x <= i implies #[trigger] parts_view(r@)[x] == self.shape()[x] by {
                    if x < i {
                        assert(r@[x] == old_r[x]);
                        assert(parts_view(old_r)[x] == self.shape().subrange(0, i as int)[x]);
                    }
                }
            }
            i += 1;
            assert(parts_view(r@) =~= self.shape().subrange(0, i as int));
        }
        assert(self.shape().subrange(0, i as int) =~= self.shape());
        r
    }

    /// Rebuilds a trie from its plain form, refusing one that does not
    /// describe a trie. Keys are told apart by their `==`, which must be plain
    /// equality.
    pub fn from_parts(parts: &Vec<(Option<V>, Vec<(K, usize)>)>) -> (r: Result<Self, DecodeError>)
        requires
            obeys_concrete_eq::<K>(),
        ensures
            r is Ok <==> valid_shape(parts_view(parts@)),
            r matches Ok(t) ==> t.wf() && t.shape() == parts_view(parts@),
    {
        let ghost a = parts_view(parts@);
        let n = parts.len();
        if n == 0 {
            return Err(DecodeError);
        }
        let mut owner: Vec<Option<(usize, usize)>> = Vec::new();
        let mut c: usize = 0;
        while c < n
            invariant
                c <= n,
                owner@.len() == c,
                forall|x: int| 0 <= x < c ==> owner@[x] is None,
            decreases n - c,
        {
            owner.push(None);
            c += 1;
        }
        let mut i: usize = 0;
        while i < n
            invariant
                obeys_concrete_eq::<K>(),
                n == parts@.len(),
                a == parts_view(parts@),
                i <= n,
                owner@.len() == n,
                forall|x: int, y: int|
                    0 <= x < i && 0 <= y < a[x].1.len() ==> x < #[trigger] a[x].1[y].1 < n,
                forall|x: int, y1: int, y2: int|
                    0 <= x < i && 0 <= y1 < a[x].1.len() && 0 <= y2 < a[x].1.len() && y1 != y2
                        ==> #[trigger] a[x].1[y1].0 != #[trigger] a[x].1[y2].0,
                forall|x: int, y: int|
                    0 <= x < i && 0 <= y < a[x].1.len() ==> owned_by(owner@[#[trigger] a[x].1[y].1 as int], x, y),
                forall|m: int|
                    0 <= m < n && #[trigger] owner@[m] is Some ==> {
                        let (x, y) = owner@[m].unwrap();
                        &&& x < i
                        &&& y < a[x as int].1.len()
                        &&& a[x as int].1[y as int].1 == m
                    },
            decreases n - i,
        {
            let kids = &parts[i].1;
            assert(kids@ == a[i as int].1);
            let mut j: usize = 0;
            while j < kids.len()
                invariant
                    obeys_concrete_eq::<K>(),
                    n == parts@.len(),
                    a == parts_view(parts@),
                    i < n,
                    kids@ == a[i as int].1,
                    j <= kids@.len(),
                    owner@.len() == n,
                    forall|x: int, y: int|
                        0 <= x < i && 0 <= y < a[x].1.len() ==> x < #[trigger] a[x].1[y].1 < n,
                    forall|y: int| 0 <= y < j ==> i < #[trigger] kids@[y].1 < n,
                    forall|x: int, y1: int, y2: int|
                        0 <= x < i && 0 <= y1 < a[x].1.len() && 0 <= y2 < a[x].1.len() && y1 != y2
                            ==> #[trigger] a[x].1[y1].0 != #[trigger] a[x].1[y2].0,
                    forall|y1: int, y2: int|
                        0 <= y1 < j && 0 <= y2 < j && y1 != y2 ==> #[trigger] kids@[y1].0
                            != #[trigger] kids@[y2].0,
                    forall|x: int, y: int|
                        0 <= x < i && 0 <= y < a[x].1.len() ==> owned_by(owner@[#[trigger] a[x].1[y].1 as int], x, y),
                    forall|y: int|
                        0 <= y < j ==> owned_by(owner@[#[trigger] kids@[y].1 as int], i as int, y),
                    forall|m: int|
                        0 <= m < n && #[trigger] owner@[m] is Some ==> {
                            let (x, y) = owner@[m].unwrap();
                            &&& x < i || (x == i && y < j)
                            &&& y < a[x as int].1.len()
                            &&& a[x as int].1[y as int].1 == m
                        },
                decreases kids@.len() - j,
            {
                let (k, c) = kids[j];
                if c <= i || c >= n {
                    assert(a[i as int].1[j as int].1 == c);
                    return Err(DecodeError);
                }
                if owner[c].is_some() {
                    proof {
                        let (x, y) = owner@[c as int].unwrap();
                        assert(a[x as int].1[y as int].1 == a[i as int].1[j as int].1);
                    }
                    return Err(DecodeError);
                }
                let mut m: usize = 0;
                while m < j
                    invariant
                        obeys_concrete_eq::<K>(),
                        a == parts_view(parts@),
                        i < n,
                        n == parts@.len(),
                        kids@ == a[i as int].1,
                        j < kids@.len(),
                        m <= j,
                        k == kids@[j as int].0,
                        forall|y: int| 0 <= y < m ==> kids@[y].0 != k,
                    decreases j - m,
                {
                    proof {
                        reveal(obeys_concrete_eq);
                    }
                    if kids[m].0.eq(&k) {
                        assert(kids@[m as int].0 == k);
                        assert(a[i as int].1[m as int].0 == a[i as int].1[j as int].0);
                        return Err(DecodeError);
                    }
                    m += 1;
                }
                owner.set(c, Some((i, j)));
                j += 1;
            }
            i += 1;
        }
        assert forall|i1: int, j1: int, i2: int, j2: int|
            0 <= i1 < a.len() && 0 <= j1 < a[i1].1.len() && 0 <= i2 < a.len() && 0 <= j2
                < a[i2].1.len() && #[trigger] a[i1].1[j1].1 == #[trigger] a[i2].1[j2].1 implies i1 == i2
                && j1 == j2 by {
            assert(owned_by(owner@[a[i1].1[j1].1 as int], i1, j1));
            assert(owned_by(owner@[a[i2].1[j2].1 as int], i2, j2));
        }
        assert(valid_shape(a));
        let mut nodes: Vec<Node<K, V>> = Vec::new();
        let mut c: usize = 0;
        while c < n
            invariant
                n == parts@.len(),
                a == parts_view(parts@),
                valid_shape(a),
                c <= n,
                owner@.len() == n,
                nodes@.len() == c,
                forall|x: int, y: int|
                    0 <= x < n && 0 <= y < a[x].1.len() ==> owned_by(owner@[#[trigger] a[x].1[y].1 as int], x, y),
                forall|m: int|
                    0 <= m < n && #[trigger] owner@[m] is Some ==> {
                        let (x, y) = owner@[m].unwrap();
                        &&& x < n
                        &&& y < a[x as int].1.len()
                        &&& a[x as int].1[y as int].1 == m
                    },
                forall|m: int|
                    0 <= m < c ==> #[trigger] nodes@[m].val == a[m].0 && nodes@[m].children@ == a[m].1,
                forall|m: int|
                    0 <= m < c ==> #[trigger] nodes@[m].path@ == match owner@[m] {
                        Some((x, y)) => nodes@[x as int].path@.push(a[x as int].1[y as int].0),
                        None => Seq::<K>::empty(),
                    },
            decreases n - c,
        {
            let ghost path = match owner@[c as int] {
                Some((x, y)) => nodes@[x as int].path@.push(a[x as int].1[y as int].0),
                None => Seq::<K>::empty(),
            };
            let part = &parts[c];
            let ghost before = nodes@;
            nodes.push(Node { val: part.0, children: copy_all(&part.1), path: Ghost(path) });
            proof {
                assert(a[c as int] == (part.0, part.1@));
                assert forall|m: int| 0 <= m <= c implies #[trigger] nodes@[m].path@ == match owner@[m] {
                    Some((x, y)) => nodes@[x as int].path@.push(a[x as int].1[y as int].0),
                    None => Seq::<K>::empty(),
                } by {
                    if let Some((x, y)) = owner@[m] {
                        assert(a[x as int].1[y as int].1 == m);
                        assert(x < m);
                        assert(nodes@[x as int] == before[x as int]);
                    }
                    if m < c {
                        assert(nodes@[m] == before[m]);
                    }
                }
            }
            c += 1;
        }
        let t = Trie { nodes };
        proof {
            reveal(Trie::single_parent);
            assert(t.shape() =~= a);
            assert forall|m: int| 0 <= m < n implies #[trigger] t.kids(m) == a[m].1 by {
                assert(t.nodes@[m].children@ == a[m].1);
            }
            if let Some((x, y)) = owner@[0] {
                assert(a[x as int].1[y as int].1 == 0);
            }
            assert(t.nodes@[0].path@ == Seq::<K>::empty());
            assert forall|i: int, j: int|
                0 <= i < t.nodes@.len() && 0 <= j < t.kids(i).len() implies {
                    let c = #[trigger] t.kids(i)[j].1 as int;
                    &&& i < c < t.nodes@.len()
                    &&& t.nodes@[c].path@ == t.nodes@[i].path@.push(t.kids(i)[j].0)
                } by {
                assert(t.kids(i)[j] == a[i].1[j]);
                let c = a[i].1[j].1 as int;
                assert(owned_by(owner@[c], i, j));
                assert(t.nodes@[c].path@ == match owner@[c] {
                    Some((x, y)) => t.nodes@[x as int].path@.push(a[x as int].1[y as int].0),
                    None => Seq::<K>::empty(),
                });
            }
            assert forall|i: int, j1: int, j2: int|
                0 <= i < t.nodes@.len() && 0 <= j1 < t.kids(i).len() && 0 <= j2 < t.kids(i).len()
                    && j1 != j2 implies #[trigger] t.kids(i)[j1].0 != #[trigger] t.kids(i)[j2].0 by {
                assert(a[i].1[j1].0 != a[i].1[j2].0);
            }
            assert forall|i1: int, j1: int, i2: int, j2: int|
                0 <= i1 < t.nodes@.len() && 0 <= j1 < t.kids(i1).len() && 0 <= i2 < t.nodes@.len()
                    && 0 <= j2 < t.kids(i2).len() && #[trigger] t.kids(i1)[j1].1
                    == #[trigger] t.kids(i2)[j2].1 implies i1 == i2 && j1 == j2 by {
                assert(a[i1].1[j1].1 == a[i2].1[j2].1);
            }
            assert(t.wf());
        }
        Ok(t)
    }
}

/// A copy of `items`, item by item.
fn copy_all<T: Copy>(items: &Vec<T>) -> (r: Vec<T>)
    ensures
        r@ == items@,
{
    let mut r: Vec<T> = Vec::new();
    let mut i: usize = 0;
    while i < items.len()
        invariant
            i <= items@.len(),
            r@ == items@.subrange(0, i as int),
        decreases items@.len() - i,
    {
        r.push(items[i]);
        i += 1;
        assert(r@ =~= items@.subrange(0, i as int));
    }
    assert(r@ =~= items@);
    r
}

/// A lazy pre-order traversal that yields each stored path with its value.
///
/// It keeps a stack of (node, next child) frames and the path to the node on
/// top, so each call resumes where the last one stopped.
pub struct TrieIter<'a, K, V> {
    trie: &'a Trie<K, V>,
    started: bool,
    stack: Vec<(usize, usize)>,
    path: Vec<K>,
}

impl<'a, K: PartialEq + Copy, V: Copy> TrieIter<'a, K, V> {
    /// The trie being walked.
    pub closed spec fn source(self) -> Trie<K, V> {
        *self.trie
    }

    /// The trie is well formed and every frame points at a node and at one of
    /// its child positions (or just past the last).
    pub closed spec fn inv(self) -> bool {
        &&& self.trie.wf()
        &&& forall|f: int|
            0 <= f < self.stack@.len() ==> {
                let fr = #[trigger] self.stack@[f];
                &&& fr.0 < self.trie.nodes@.len()
                &&& fr.1 <= self.trie.kids(fr.0 as int).len()
            }
        &&& !self.started ==> self.stack@ == seq![(0usize, 0usize)]
        &&& self.stack@.len() <= self.path@.len() + 1
    }

    /// The entries still to come, in order.
    pub closed spec fn remaining(self) -> Seq<(Seq<K>, V)> {
        let rest = self.trie.pending(self.stack@, self.path@);
        if self.started {
            rest
        } else {
            self.trie.own(0, self.path@) + rest
        }
    }

    /// The next entry, or `None` once every entry has been yielded.
    pub fn next(&mut self) -> (r: Option<(Vec<K>, V)>)
        requires
            old(self).inv(),
        ensures
            final(self).inv(),
            final(self).source() == old(self).source(),
            old(self).remaining().len() == 0 ==> r is None && final(self).remaining().len() == 0,
            old(self).remaining().len() > 0 ==> r is Some && (r.unwrap().0@, r.unwrap().1) == old(
                self,
            ).remaining()[0] && final(self).remaining() == old(self).remaining().drop_first(),
    {
        if !self.started {
            self.started = true;
            if let Some(v) = self.trie.nodes[0].val {
                proof {
                    assert(old(self).remaining().drop_first() =~= self.remaining());
                }
                return Some((copy_all(&self.path), v));
            }
            assert(self.remaining() =~= old(self).remaining());
        }
        loop
            invariant
                self.inv(),
                self.started,
                self.trie == old(self).trie,
                self.remaining() == old(self).remaining(),
            decreases 2 * self.trie.pending_size(self.stack@) + self.stack@.len(),
        {
            if self.stack.len() == 0 {
                return None;
            }
            let top = self.stack.len() - 1;
            let (i, j) = self.stack[top];
            let ghost stack0 = self.stack@;
            let ghost path0 = self.path@;
            let trie = self.trie;
            if j < trie.nodes[i].children.len() {
                let (k, c) = trie.nodes[i].children[j];
                self.stack.set(top, (i, j + 1));
                self.stack.push((c, 0));
                self.path.push(k);
                proof {
                    trie.lemma_descend(stack0, path0, i, j);
                    assert(self.stack@ =~= stack0.update(top as int, (i, (j + 1) as usize)).push((c, 0usize)));
                    assert(self.path@ =~= path0.push(k));
                }
                if let Some(v) = trie.nodes[c].val {
                    proof {
                        assert(old(self).remaining().drop_first() =~= self.remaining());
                    }
                    return Some((copy_all(&self.path), v));
                }
            } else {
                self.stack.pop();
                self.path.pop();
                proof {
                    trie.lemma_ascend(stack0, path0);
                    assert(self.stack@ =~= stack0.drop_last());
                    if stack0.len() > 1 {
                        assert(self.path@ =~= path0.drop_last());
                    }
                }
            }
        }
    }
}

/// A traversal that yields the paths alone.
pub struct TrieKeyIter<'a, K, V> {
    iter: TrieIter<'a, K, V>,
}

impl<'a, K: PartialEq + Copy, V: Copy> TrieKeyIter<'a, K, V> {
    /// The trie being walked.
    pub closed spec fn source(self) -> Trie<K, V> {
        self.iter.source()
    }

    /// The underlying traversal is in a valid state.
    pub closed spec fn inv(self) -> bool {
        self.iter.inv()
    }

    /// The paths still to come, in order.
    pub closed spec fn remaining(self) -> Seq<Seq<K>> {
        self.iter.remaining().map_values(|e: (Seq<K>, V)| e.0)
    }

    /// The next path, or `None` once every path has been yielded.
    pub fn next(&mut self) -> (r: Option<Vec<K>>)
        requires
            old(self).inv(),
        ensures
            final(self).inv(),
            final(self).source() == old(self).source(),
            old(self).remaining().len() == 0 ==> r is None && final(self).remaining().len() == 0,
            old(self).remaining().len() > 0 ==> r is Some && r.unwrap()@ == old(self).remaining()[0]
                && final(self).remaining() == old(self).remaining().drop_first(),
    {
        let r = match self.iter.next() {
            None => None,
            Some(e) => Some(e.0),
        };
        assert(self.remaining() =~= old(self).remaining().drop_first() || r is None);
        r
    }
}

/// A traversal that yields the values alone.
pub struct TrieValueIter<'a, K, V> {
    iter: TrieIter<'a, K, V>,
}

impl<'a, K: PartialEq + Copy, V: Copy> TrieValueIter<'a, K, V> {
    /// The trie being walked.
    pub closed spec fn source(self) -> Trie<K, V> {
        self.iter.source()
    }

    /// The underlying traversal is in a valid state.
    pub closed spec fn inv(self) -> bool {
        self.iter.inv()
    }

    /// The values still to come, in order.
    pub closed spec fn remaining(self) -> Seq<V> {
        self.iter.remaining().map_values(|e: (Seq<K>, V)| e.1)
    }

    /// The next value, or `None` once every value has been yielded.
    pub fn next(&mut self) -> (r: Option<V>)
        requires
            old(self).inv(),
        ensures
            final(self).inv(),
            final(self).source() == old(self).source(),
            old(self).remaining().len() == 0 ==> r is None && final(self).remaining().len() == 0,
            old(self).remaining().len() > 0 ==> r == Some(old(self).remaining()[0])
                && final(self).remaining() == old(self).remaining().drop_first(),
    {
        let r = match self.iter.next() {
            None => None,
            Some(e) => Some(e.1),
        };
        assert(self.remaining() =~= old(self).remaining().drop_first() || r is None);
        r
    }
}

} // verus!
