//! The fingerprint index: a metric tree over fingerprint keys.
//!
//! Every node holds one distinct key together with the owners (file entry
//! indices) whose files produced that key.  The children of a node are
//! keyed by their exact distance to the node's key: every key inserted
//! below the child edge labelled `d` lies at distance exactly `d` from the
//! node's key.  A search within a radius therefore only needs to descend
//! into the child edges whose label is within the radius of the distance
//! between the node's key and the query (the triangle inequality rules the
//! other subtrees out), and still returns every match.
use crate::metric::{
    distance, key_dist, lemma_dist_sym, lemma_dist_triangle, lemma_dist_zero, KEY_LEN_LIMIT,
};
use vstd::prelude::*;

verus! {

/// An edge to a child subtree, labelled by the distance between the child's
/// key and the key of the node that owns the edge.
pub struct ChildEdge {
    pub dist: u64,
    pub node: usize,
}

/// One node of the metric tree.
pub struct IndexNode {
    pub key: Vec<u8>,
    pub owners: Vec<usize>,
    pub children: Vec<ChildEdge>,
}

/// The metric tree itself: an arena of nodes rooted at index 0.
pub struct FingerprintIndex {
    pub nodes: Vec<IndexNode>,
}

/// The arena index of the `j`-th child of node `a`.
pub open spec fn child_at(ns: Seq<IndexNode>, a: int, j: int) -> int {
    ns[a].children@[j].node as int
}

/// The distance label on the `j`-th child edge of node `a`.
pub open spec fn label_at(ns: Seq<IndexNode>, a: int, j: int) -> u64 {
    ns[a].children@[j].dist
}

pub open spec fn valid_edge(ns: Seq<IndexNode>, a: int, j: int) -> bool {
    0 <= a < ns.len() && 0 <= j < ns[a].children@.len()
}

/// Every child edge leads to a node with a strictly larger arena index.
pub open spec fn wf_struct(ns: Seq<IndexNode>) -> bool {
    forall|a: int, j: int|
        valid_edge(ns, a, j) ==> a < #[trigger] child_at(ns, a, j) < ns.len()
}

/// The set of arena indices in the subtree rooted at node `i`.
pub open spec fn subtree(ns: Seq<IndexNode>, i: int) -> Set<int>
    decreases ns.len() - i, 1int, 0int,
        when wf_struct(ns) && 0 <= i < ns.len()
{
    kids(ns, i, ns[i].children@.len() as int).insert(i)
}

/// The union of the subtrees of the first `k` children of node `i`.
pub open spec fn kids(ns: Seq<IndexNode>, i: int, k: int) -> Set<int>
    decreases ns.len() - i, 0int, k,
        when wf_struct(ns) && 0 <= i < ns.len() && k <= ns[i].children@.len()
{
    if k <= 0 {
        Set::empty()
    } else {
        kids(ns, i, k - 1).union(subtree(ns, child_at(ns, i, k - 1)))
    }
}

pub open spec fn in_sub(ns: Seq<IndexNode>, r: int, m: int) -> bool {
    subtree(ns, r).contains(m)
}

/// No node is the target of two distinct child edges.
pub open spec fn unique_ref(ns: Seq<IndexNode>) -> bool {
    forall|a: int, j: int, b: int, k: int|
        valid_edge(ns, a, j) && valid_edge(ns, b, k) && #[trigger] child_at(ns, a, j)
            == #[trigger] child_at(ns, b, k) ==> a == b && j == k
}

/// Child edge labels of one node are non-zero and pairwise distinct.
pub open spec fn labels_ok(ns: Seq<IndexNode>) -> bool {
    &&& forall|a: int, j: int| valid_edge(ns, a, j) ==> #[trigger] label_at(ns, a, j) != 0
    &&& forall|a: int, j: int, k: int|
        valid_edge(ns, a, j) && valid_edge(ns, a, k) && j != k ==> #[trigger] label_at(ns, a, j)
            != #[trigger] label_at(ns, a, k)
}

/// Every key below the child edge labelled `d` of node `a` lies at distance
/// exactly `d` from the key of `a`.  This is the invariant that makes the
/// radius search sound.
pub open spec fn chained(ns: Seq<IndexNode>) -> bool {
    forall|a: int, j: int, m: int|
        valid_edge(ns, a, j) && 0 <= m < ns.len() && #[trigger] in_sub(
            ns,
            child_at(ns, a, j),
            m,
        ) ==> label_at(ns, a, j) == key_dist(ns[a].key@, ns[m].key@)
}

/// Every node is reachable from the root.
pub open spec fn all_reachable(ns: Seq<IndexNode>) -> bool {
    forall|m: int| 0 <= m < ns.len() ==> #[trigger] in_sub(ns, 0, m)
}

pub open spec fn keys_capped(ns: Seq<IndexNode>) -> bool {
    forall|a: int| 0 <= a < ns.len() ==> (#[trigger] ns[a].key@).len() <= KEY_LEN_LIMIT
}

/// Every node holds at least one owner: a node exists only because some
/// insertion put its key there, so the groups built over the arena are
/// determined by the inserted pairs.
pub open spec fn owners_ok(ns: Seq<IndexNode>) -> bool {
    forall|a: int| 0 <= a < ns.len() ==> (#[trigger] ns[a].owners@).len() >= 1
}

impl FingerprintIndex {
    pub open spec fn wf(&self) -> bool {
        &&& wf_struct(self.nodes@)
        &&& unique_ref(self.nodes@)
        &&& labels_ok(self.nodes@)
        &&& chained(self.nodes@)
        &&& all_reachable(self.nodes@)
        &&& keys_capped(self.nodes@)
        &&& owners_ok(self.nodes@)
    }

    /// The set of (key, owner) pairs the index holds.
    pub open spec fn pairs(&self) -> Set<(Seq<u8>, usize)> {
        Set::new(
            |p: (Seq<u8>, usize)|
                exists|a: int, t: int|
                    0 <= a < self.nodes@.len() && 0 <= t < self.nodes@[a].owners@.len()
                        && self.nodes@[a].key@ == p.0 && #[trigger] self.nodes@[a].owners@[t]
                        == p.1,
        )
    }

    pub open spec fn node_count(&self) -> nat {
        self.nodes@.len()
    }

    pub fn new() -> (r: Self)
        ensures
            r.wf(),
            r.pairs() == Set::<(Seq<u8>, usize)>::empty(),
            r.node_count() == 0,
    {
        let r = FingerprintIndex { nodes: Vec::new() };
        proof {
            assert(r.pairs() =~= Set::<(Seq<u8>, usize)>::empty());
        }
        r
    }
}

/// Membership in `kids` means membership in the subtree of one of the
/// first `k` children.
proof fn lemma_kids_member(ns: Seq<IndexNode>, i: int, k: int, m: int)
    requires
        wf_struct(ns),
        0 <= i < ns.len(),
        0 <= k <= ns[i].children@.len(),
    ensures
        kids(ns, i, k).contains(m) <==> exists|j: int|
            0 <= j < k && #[trigger] in_sub(ns, child_at(ns, i, j), m),
    decreases k,
{
    if k > 0 {
        lemma_kids_member(ns, i, k - 1, m);
        if kids(ns, i, k).contains(m) {
            if kids(ns, i, k - 1).contains(m) {
                let j = choose|j: int| 0 <= j < k - 1 && #[trigger] in_sub(
                    ns,
                    child_at(ns, i, j),
                    m,
                );
                assert(in_sub(ns, child_at(ns, i, j), m));
            } else {
                assert(in_sub(ns, child_at(ns, i, k - 1), m));
            }
        }
        if exists|j: int| 0 <= j < k && #[trigger] in_sub(ns, child_at(ns, i, j), m) {
            let j = choose|j: int| 0 <= j < k && #[trigger] in_sub(ns, child_at(ns, i, j), m);
            if j < k - 1 {
                assert(kids(ns, i, k - 1).contains(m));
            }
            assert(kids(ns, i, k).contains(m));
        }
    }
}

/// A subtree contains its root and everything below it, and nothing else.
proof fn lemma_subtree_member(ns: Seq<IndexNode>, i: int, m: int)
    requires
        wf_struct(ns),
        0 <= i < ns.len(),
    ensures
        in_sub(ns, i, m) <==> (m == i || exists|j: int|
            0 <= j < ns[i].children@.len() && #[trigger] in_sub(ns, child_at(ns, i, j), m)),
{
    lemma_kids_member(ns, i, ns[i].children@.len() as int, m);
}

/// Every member of a subtree lies at or after its root in the arena.
proof fn lemma_subtree_bounds(ns: Seq<IndexNode>, i: int, m: int)
    requires
        wf_struct(ns),
        0 <= i < ns.len(),
        in_sub(ns, i, m),
    ensures
        i <= m < ns.len(),
    decreases ns.len() - i,
{
    lemma_subtree_member(ns, i, m);
    if m != i {
        let j = choose|j: int| 0 <= j < ns[i].children@.len() && #[trigger] in_sub(
            ns,
            child_at(ns, i, j),
            m,
        );
        assert(valid_edge(ns, i, j));
        lemma_subtree_bounds(ns, child_at(ns, i, j), m);
    }
}

/// Subtree membership is transitive.
proof fn lemma_subtree_trans(ns: Seq<IndexNode>, x: int, m: int, y: int)
    requires
        wf_struct(ns),
        0 <= x < ns.len(),
        in_sub(ns, x, m),
        0 <= m < ns.len(),
        in_sub(ns, m, y),
    ensures
        in_sub(ns, x, y),
    decreases ns.len() - x,
{
    lemma_subtree_member(ns, x, m);
    if m != x {
        let j = choose|j: int| 0 <= j < ns[x].children@.len() && #[trigger] in_sub(
            ns,
            child_at(ns, x, j),
            m,
        );
        assert(valid_edge(ns, x, j));
        lemma_subtree_trans(ns, child_at(ns, x, j), m, y);
        lemma_kids_member(ns, x, ns[x].children@.len() as int, y);
        assert(in_sub(ns, child_at(ns, x, j), y));
    }
}

/// A strict subtree member has a parent edge inside the subtree.
proof fn lemma_parent_edge(ns: Seq<IndexNode>, x: int, m: int)
    requires
        wf_struct(ns),
        0 <= x < ns.len(),
        in_sub(ns, x, m),
        m != x,
    ensures
        exists|a: int, j: int|
            valid_edge(ns, a, j) && #[trigger] child_at(ns, a, j) == m && in_sub(ns, x, a),
    decreases ns.len() - x,
{
    lemma_subtree_member(ns, x, m);
    let j = choose|j: int| 0 <= j < ns[x].children@.len() && #[trigger] in_sub(
        ns,
        child_at(ns, x, j),
        m,
    );
    assert(valid_edge(ns, x, j));
    let c = child_at(ns, x, j);
    if m == c {
        assert(in_sub(ns, x, x)) by { lemma_subtree_member(ns, x, x) };
        assert(valid_edge(ns, x, j) && child_at(ns, x, j) == m && in_sub(ns, x, x));
    } else {
        lemma_parent_edge(ns, c, m);
        let (a, ja): (int, int) = choose|a: int, ja: int|
            valid_edge(ns, a, ja) && #[trigger] child_at(ns, a, ja) == m && in_sub(ns, c, a);
        lemma_subtree_bounds(ns, c, a);
        assert(in_sub(ns, x, a)) by {
            lemma_subtree_member(ns, x, c);
            assert(in_sub(ns, c, c)) by { lemma_subtree_member(ns, c, c) };
            assert(in_sub(ns, x, c));
            lemma_subtree_trans(ns, x, c, a);
        };
        assert(valid_edge(ns, a, ja) && child_at(ns, a, ja) == m && in_sub(ns, x, a));
    }
}

/// Two arenas with identical lengths and identical child lists have the
/// same subtrees.
pub open spec fn same_shape(ns1: Seq<IndexNode>, ns2: Seq<IndexNode>) -> bool {
    &&& ns1.len() == ns2.len()
    &&& forall|a: int| 0 <= a < ns1.len() ==> (#[trigger] ns2[a]).children@ == ns1[a].children@
}

proof fn lemma_frame_kids(ns1: Seq<IndexNode>, ns2: Seq<IndexNode>, i: int, k: int, m: int)
    requires
        wf_struct(ns1),
        same_shape(ns1, ns2),
        0 <= i < ns1.len(),
        0 <= k <= ns1[i].children@.len(),
    ensures
        kids(ns2, i, k).contains(m) <==> kids(ns1, i, k).contains(m),
    decreases ns1.len() - i, 0int, k,
{
    assert(wf_struct(ns2)) by {
        assert forall|a: int, j: int| valid_edge(ns2, a, j) implies a < #[trigger] child_at(
            ns2,
            a,
            j,
        ) < ns2.len() by {
            assert(valid_edge(ns1, a, j));
            assert(child_at(ns1, a, j) == child_at(ns2, a, j));
        };
    };
    if k > 0 {
        lemma_frame_kids(ns1, ns2, i, k - 1, m);
        assert(valid_edge(ns1, i, k - 1));
        lemma_frame_sub(ns1, ns2, child_at(ns1, i, k - 1), m);
        assert(child_at(ns2, i, k - 1) == child_at(ns1, i, k - 1));
    }
}

proof fn lemma_frame_sub(ns1: Seq<IndexNode>, ns2: Seq<IndexNode>, i: int, m: int)
    requires
        wf_struct(ns1),
        same_shape(ns1, ns2),
        0 <= i < ns1.len(),
    ensures
        in_sub(ns2, i, m) <==> in_sub(ns1, i, m),
    decreases ns1.len() - i, 1int, 0int,
{
    assert(wf_struct(ns2)) by {
        assert forall|a: int, j: int| valid_edge(ns2, a, j) implies a < #[trigger] child_at(
            ns2,
            a,
            j,
        ) < ns2.len() by {
            assert(valid_edge(ns1, a, j));
            assert(child_at(ns1, a, j) == child_at(ns2, a, j));
        };
    };
    lemma_frame_kids(ns1, ns2, i, ns1[i].children@.len() as int, m);
    assert(ns2[i].children@ == ns1[i].children@);
}

/// The shape left by attaching a fresh leaf `L = ns1.len()` under node `i`:
/// all old child lists are unchanged except node `i`'s, which gains one
/// final edge to `L`, and the new leaf has no children.
pub open spec fn attach_shape(ns1: Seq<IndexNode>, ns2: Seq<IndexNode>, i: int, d: u64) -> bool {
    &&& 0 <= i < ns1.len()
    &&& ns1.len() <= usize::MAX
    &&& ns2.len() == ns1.len() + 1
    &&& forall|a: int|
        0 <= a < ns1.len() && a != i ==> (#[trigger] ns2[a]).children@ == ns1[a].children@
    &&& ns2[i].children@ == ns1[i].children@.push(
        ChildEdge { dist: d, node: ns1.len() as usize },
    )
    &&& ns2[ns1.len() as int].children@.len() == 0
}

proof fn lemma_attach_wf_struct(ns1: Seq<IndexNode>, ns2: Seq<IndexNode>, i: int, d: u64)
    requires
        wf_struct(ns1),
        attach_shape(ns1, ns2, i, d),
    ensures
        wf_struct(ns2),
{
    assert forall|a: int, j: int| valid_edge(ns2, a, j) implies a < #[trigger] child_at(
        ns2,
        a,
        j,
    ) < ns2.len() by {
        if a < ns1.len() {
            if a == i && j == ns1[i].children@.len() {
                let edge = ChildEdge { dist: d, node: ns1.len() as usize };
                assert(ns1[a].children@.push(edge)[j] == edge);
                assert(child_at(ns2, a, j) == ns1.len());
            } else {
                assert(valid_edge(ns1, a, j));
                assert(child_at(ns2, a, j) == child_at(ns1, a, j));
            }
        }
    };
}

proof fn lemma_attach_kids(
    ns1: Seq<IndexNode>,
    ns2: Seq<IndexNode>,
    i: int,
    d: u64,
    a: int,
    k: int,
    m: int,
)
    requires
        wf_struct(ns1),
        attach_shape(ns1, ns2, i, d),
        0 <= a < ns1.len(),
        0 <= k <= ns1[a].children@.len(),
    ensures
        kids(ns2, a, k).contains(m) <==> (kids(ns1, a, k).contains(m) || (m == ns1.len()
            && kids(ns1, a, k).contains(i))),
    decreases ns1.len() - a, 0int, k,
{
    lemma_attach_wf_struct(ns1, ns2, i, d);
    if k > 0 {
        lemma_attach_kids(ns1, ns2, i, d, a, k - 1, m);
        assert(valid_edge(ns1, a, k - 1));
        let c = child_at(ns1, a, k - 1);
        assert(child_at(ns2, a, k - 1) == c);
        lemma_attach_sub(ns1, ns2, i, d, c, m);
        lemma_attach_sub(ns1, ns2, i, d, c, i);
        if m == ns1.len() && kids(ns1, a, k).contains(i) {
            lemma_kids_member(ns1, a, k, i);
        }
        if kids(ns1, a, k).contains(m) || (m == ns1.len() && kids(ns1, a, k).contains(i)) {
        } else {
        }
    }
}

proof fn lemma_attach_sub(
    ns1: Seq<IndexNode>,
    ns2: Seq<IndexNode>,
    i: int,
    d: u64,
    a: int,
    m: int,
)
    requires
        wf_struct(ns1),
        attach_shape(ns1, ns2, i, d),
        0 <= a < ns1.len(),
    ensures
        in_sub(ns2, a, m) <==> (in_sub(ns1, a, m) || (m == ns1.len() && in_sub(ns1, a, i))),
    decreases ns1.len() - a, 1int, 0int,
{
    lemma_attach_wf_struct(ns1, ns2, i, d);
    let clen = ns1[a].children@.len() as int;
    lemma_attach_kids(ns1, ns2, i, d, a, clen, m);
    lemma_attach_kids(ns1, ns2, i, d, a, clen, i);
    if a == i {
        // Node `i` has one extra child edge in ns2: the new leaf.
        assert(ns2[a].children@.len() == clen + 1);
        let edge = ChildEdge { dist: d, node: ns1.len() as usize };
        assert(ns2[a].children@ == ns1[a].children@.push(edge));
        assert(ns1[a].children@.push(edge)[clen] == edge);
        assert(child_at(ns2, a, clen) == ns1.len());
        assert(kids(ns2, a, clen + 1) == kids(ns2, a, clen).union(
            subtree(ns2, child_at(ns2, a, clen)),
        ));
        assert(in_sub(ns2, ns1.len() as int, m) <==> m == ns1.len()) by {
            lemma_leaf_subtree(ns2, ns1.len() as int, m);
        };
        assert(in_sub(ns1, a, i)) by { lemma_subtree_member(ns1, a, a) };
    } else {
        assert(ns2[a].children@ == ns1[a].children@);
    }
}

/// The subtree of a node without children is just that node.
proof fn lemma_leaf_subtree(ns: Seq<IndexNode>, i: int, m: int)
    requires
        wf_struct(ns),
        0 <= i < ns.len(),
        ns[i].children@.len() == 0,
    ensures
        in_sub(ns, i, m) <==> m == i,
{
    lemma_subtree_member(ns, i, m);
}

/// During a descent for `key`, every edge whose subtree contains the node
/// currently visited is labelled with the distance from its own node's key
/// to `key`.  This is what justifies attaching `key` at the point the
/// descent stops.
pub open spec fn path_ok(ns: Seq<IndexNode>, i: int, key: Seq<u8>) -> bool {
    forall|a: int, j: int|
        valid_edge(ns, a, j) && #[trigger] in_sub(ns, child_at(ns, a, j), i) ==> label_at(ns, a, j)
            == key_dist(ns[a].key@, key)
}

/// Descending along an edge whose label equals the distance to the new key
/// keeps the path property.
proof fn lemma_path_step(ns: Seq<IndexNode>, i: int, j: int, key: Seq<u8>)
    requires
        wf_struct(ns),
        unique_ref(ns),
        valid_edge(ns, i, j),
        label_at(ns, i, j) == key_dist(ns[i].key@, key),
        path_ok(ns, i, key),
    ensures
        path_ok(ns, child_at(ns, i, j), key),
{
    let c = child_at(ns, i, j);
    assert forall|a: int, ja: int|
        valid_edge(ns, a, ja) && #[trigger] in_sub(ns, child_at(ns, a, ja), c) implies label_at(
        ns,
        a,
        ja,
    ) == key_dist(ns[a].key@, key) by {
        let ca = child_at(ns, a, ja);
        if ca == c {
            assert(a == i && ja == j);
        } else {
            lemma_parent_edge(ns, ca, c);
            let (p, jp): (int, int) = choose|p: int, jp: int|
                valid_edge(ns, p, jp) && #[trigger] child_at(ns, p, jp) == c && in_sub(ns, ca, p);
            assert(p == i && jp == j);
            assert(in_sub(ns, child_at(ns, a, ja), i));
        }
    };
}

impl FingerprintIndex {
    /// Inserts one key with one owning file entry index.  A key already in
    /// the tree collects the new owner on its existing node; a new key is
    /// attached as a fresh leaf below the descent path.
    pub fn insert(&mut self, key: Vec<u8>, owner: usize)
        requires
            old(self).wf(),
            key@.len() <= KEY_LEN_LIMIT,
        ensures
            final(self).wf(),
            final(self).pairs() == old(self).pairs().insert((key@, owner)),
    {
        let ghost orig = *self;
        if self.nodes.len() == 0 {
            let mut owners: Vec<usize> = Vec::new();
            owners.push(owner);
            self.nodes.push(IndexNode { key, owners, children: Vec::new() });
            proof {
                let ns = self.nodes@;
                assert forall|a: int, j: int| valid_edge(ns, a, j) implies a < #[trigger] child_at(
                    ns,
                    a,
                    j,
                ) < ns.len() by {
                    assert(ns[a].children@.len() == 0);
                };
                assert forall|a: int, j: int, m: int|
                    valid_edge(ns, a, j) && 0 <= m < ns.len() && #[trigger] in_sub(
                        ns,
                        child_at(ns, a, j),
                        m,
                    ) implies label_at(ns, a, j) == key_dist(ns[a].key@, ns[m].key@) by {
                    assert(ns[a].children@.len() == 0);
                };
                assert forall|m: int| 0 <= m < ns.len() implies #[trigger] in_sub(ns, 0, m) by {
                    lemma_leaf_subtree(ns, 0, m);
                };
                assert forall|a: int| 0 <= a < ns.len() implies (#[trigger] ns[a].owners@).len()
                    >= 1 by {
                    assert(ns[a].owners@.len() == 1);
                };
                assert(self.pairs() =~= orig.pairs().insert((key@, owner))) by {
                    assert forall|p: (Seq<u8>, usize)| self.pairs().contains(p) implies
                        orig.pairs().insert((key@, owner)).contains(p) by {
                        let (a, t): (int, int) = choose|a: int, t: int|
                            0 <= a < ns.len() && 0 <= t < ns[a].owners@.len() && ns[a].key@ == p.0
                                && #[trigger] ns[a].owners@[t] == p.1;
                        assert(a == 0 && t == 0);
                        assert(p == (key@, owner));
                    };
                    assert forall|p: (Seq<u8>, usize)|
                        orig.pairs().insert((key@, owner)).contains(p) implies
                        self.pairs().contains(p) by {
                        if p == ((key@, owner)) {
                            assert(ns[0].owners@[0] == owner);
                            assert(ns[0].key@ == key@);
                        } else {
                            assert(orig.pairs().contains(p));
                            let (a, t): (int, int) = choose|a: int, t: int|
                                0 <= a < orig.nodes@.len() && 0 <= t < orig.nodes@[a].owners@.len()
                                    && orig.nodes@[a].key@ == p.0
                                    && #[trigger] orig.nodes@[a].owners@[t] == p.1;
                            assert(false);
                        }
                    };
                };
            }
            return ;
        }
        let mut i: usize = 0;
        proof {
            let ns = self.nodes@;
            assert(in_sub(ns, 0, 0)) by { lemma_subtree_member(ns, 0, 0) };
            assert(path_ok(ns, 0, key@)) by {
                assert forall|a: int, j: int|
                    valid_edge(ns, a, j) && #[trigger] in_sub(ns, child_at(ns, a, j), 0) implies
                    label_at(ns, a, j) == key_dist(ns[a].key@, key@) by {
                    lemma_subtree_bounds(ns, child_at(ns, a, j), 0);
                };
            };
        }
        loop
            invariant
                *self == *old(self),
                self.wf(),
                key@.len() <= KEY_LEN_LIMIT,
                self.nodes@.len() > 0,
                i < self.nodes@.len(),
                in_sub(self.nodes@, 0, i as int),
                path_ok(self.nodes@, i as int, key@),
            decreases self.nodes@.len() - i,
        {
            let d = distance(&self.nodes[i].key, &key);
            if d == 0 {
                proof {
                    lemma_dist_zero(self.nodes@[i as int].key@, key@);
                }
                let ghost ns1 = self.nodes@;
                self.nodes[i].owners.push(owner);
                proof {
                    let ns2 = self.nodes@;
                    assert(same_shape(ns1, ns2));
                    assert(wf_struct(ns2)) by {
                        assert forall|a: int, j: int| valid_edge(ns2, a, j) implies a
                            < #[trigger] child_at(ns2, a, j) < ns2.len() by {
                            assert(valid_edge(ns1, a, j));
                            assert(child_at(ns2, a, j) == child_at(ns1, a, j));
                        };
                    };
                    assert forall|a: int, j: int, b: int, k: int|
                        valid_edge(ns2, a, j) && valid_edge(ns2, b, k) && #[trigger] child_at(
                            ns2,
                            a,
                            j,
                        ) == #[trigger] child_at(ns2, b, k) implies a == b && j == k by {
                        assert(valid_edge(ns1, a, j) && valid_edge(ns1, b, k));
                        assert(child_at(ns2, a, j) == child_at(ns1, a, j));
                        assert(child_at(ns2, b, k) == child_at(ns1, b, k));
                    };
                    assert forall|a: int, j: int| valid_edge(ns2, a, j) implies #[trigger] label_at(
                        ns2,
                        a,
                        j,
                    ) != 0 by {
                        assert(valid_edge(ns1, a, j));
                        assert(label_at(ns2, a, j) == label_at(ns1, a, j));
                    };
                    assert forall|a: int, j: int, k: int|
                        valid_edge(ns2, a, j) && valid_edge(ns2, a, k) && j
                            != k implies #[trigger] label_at(ns2, a, j) != #[trigger] label_at(
                        ns2,
                        a,
                        k,
                    ) by {
                        assert(valid_edge(ns1, a, j) && valid_edge(ns1, a, k));
                        assert(label_at(ns2, a, j) == label_at(ns1, a, j));
                        assert(label_at(ns2, a, k) == label_at(ns1, a, k));
                    };
                    assert forall|a: int, j: int, m: int|
                        valid_edge(ns2, a, j) && 0 <= m < ns2.len() && #[trigger] in_sub(
                            ns2,
                            child_at(ns2, a, j),
                            m,
                        ) implies label_at(ns2, a, j) == key_dist(ns2[a].key@, ns2[m].key@) by {
                        assert(valid_edge(ns1, a, j));
                        assert(child_at(ns2, a, j) == child_at(ns1, a, j));
                        lemma_frame_sub(ns1, ns2, child_at(ns1, a, j), m);
                        assert(in_sub(ns1, child_at(ns1, a, j), m));
                        assert(ns2[a].key@ == ns1[a].key@);
                        assert(ns2[m].key@ == ns1[m].key@);
                    };
                    assert forall|m: int| 0 <= m < ns2.len() implies #[trigger] in_sub(
                        ns2,
                        0,
                        m,
                    ) by {
                        lemma_frame_sub(ns1, ns2, 0, m);
                    };
                    assert forall|a: int| 0 <= a < ns2.len() implies (#[trigger] ns2[a].key@).len()
                        <= KEY_LEN_LIMIT by {
                        assert(ns2[a].key@ == ns1[a].key@);
                    };
                    assert forall|a: int| 0 <= a < ns2.len() implies (
                    #[trigger] ns2[a].owners@).len() >= 1 by {
                        if a != i as int {
                            assert(ns2[a].owners@ == ns1[a].owners@);
                        }
                    };
                    assert(self.pairs() =~= old(self).pairs().insert((key@, owner))) by {
                        assert forall|p: (Seq<u8>, usize)| self.pairs().contains(p) implies
                            old(self).pairs().insert((key@, owner)).contains(p) by {
                            let (a, t): (int, int) = choose|a: int, t: int|
                                0 <= a < ns2.len() && 0 <= t < ns2[a].owners@.len()
                                    && ns2[a].key@ == p.0 && #[trigger] ns2[a].owners@[t] == p.1;
                            if a == i as int && t == ns1[a].owners@.len() {
                                assert(p == (key@, owner));
                            } else {
                                assert(0 <= t < ns1[a].owners@.len() && ns1[a].owners@[t] == p.1);
                                assert(old(self).pairs().contains(p));
                            }
                        };
                        assert forall|p: (Seq<u8>, usize)|
                            old(self).pairs().insert((key@, owner)).contains(p) implies
                            self.pairs().contains(p) by {
                            if p == ((key@, owner)) {
                                let t = ns1[i as int].owners@.len() as int;
                                assert(ns2[i as int].owners@[t] == owner);
                                assert(ns2[i as int].key@ == key@);
                            } else {
                                assert(old(self).pairs().contains(p));
                                let (a, t): (int, int) = choose|a: int, t: int|
                                    0 <= a < old(self).nodes@.len() && 0 <= t < old(
                                        self,
                                    ).nodes@[a].owners@.len() && old(self).nodes@[a].key@ == p.0
                                        && #[trigger] old(self).nodes@[a].owners@[t] == p.1;
                                assert(ns1 == old(self).nodes@);
                                if a == i as int {
                                    assert(ns2[a].owners@ == ns1[a].owners@.push(owner));
                                } else {
                                    assert(ns2[a].owners@ == ns1[a].owners@);
                                }
                                assert(ns2[a].key@ == ns1[a].key@);
                                assert(0 <= t < ns2[a].owners@.len() && ns2[a].owners@[t] == p.1);
                                assert(ns2[a].key@ == p.0);
                            }
                        };
                    };
                }
                return ;
            }
            // Look for an existing child edge labelled exactly `d`.
            let n_children = self.nodes[i].children.len();
            let mut j: usize = 0;
            let mut found: bool = false;
            let mut next: usize = 0;
            let ghost mut found_j: int = 0;
            while j < n_children
                invariant
                    *self == *old(self),
                    self.wf(),
                    i < self.nodes@.len(),
                    n_children == self.nodes@[i as int].children@.len(),
                    j <= n_children,
                    !found ==> forall|jj: int|
                        0 <= jj < j ==> #[trigger] label_at(self.nodes@, i as int, jj) != d,
                    found ==> valid_edge(self.nodes@, i as int, found_j) && label_at(
                        self.nodes@,
                        i as int,
                        found_j,
                    ) == d && child_at(self.nodes@, i as int, found_j) == next as int,
                decreases n_children - j,
            {
                if !found {
                    let e_dist = self.nodes[i].children[j].dist;
                    if e_dist == d {
                        found = true;
                        next = self.nodes[i].children[j].node;
                        proof {
                            found_j = j as int;
                        }
                    }
                }
                j = j + 1;
            }
            if found {
                proof {
                    lemma_path_step(self.nodes@, i as int, found_j, key@);
                    let c = child_at(self.nodes@, i as int, found_j);
                    assert(in_sub(self.nodes@, c, c)) by {
                        lemma_subtree_member(self.nodes@, c, c);
                    };
                    lemma_kids_member(
                        self.nodes@,
                        i as int,
                        self.nodes@[i as int].children@.len() as int,
                        c,
                    );
                    assert(in_sub(self.nodes@, i as int, c));
                    lemma_subtree_trans(self.nodes@, 0, i as int, c);
                }
                i = next;
            } else {
                // No child at this distance: attach the key as a fresh leaf.
                let ghost ns1 = self.nodes@;
                let new_idx = self.nodes.len();
                let mut owners: Vec<usize> = Vec::new();
                owners.push(owner);
                self.nodes.push(IndexNode { key, owners, children: Vec::new() });
                let ghost nsmid = self.nodes@;
                self.nodes[i].children.push(ChildEdge { dist: d, node: new_idx });
                proof {
                    let ns2 = self.nodes@;
                    let nL = ns1.len() as int;
                    assert(attach_shape(ns1, ns2, i as int, d)) by {
                        assert forall|a: int| 0 <= a < ns1.len() && a != i as int implies (
                        #[trigger] ns2[a]).children@ == ns1[a].children@ by {};
                    };
                    lemma_attach_wf_struct(ns1, ns2, i as int, d);
                    // Unique references: the only new edge points at the new
                    // leaf, which nothing else points at.
                    assert forall|a: int, j2: int, b: int, k: int|
                        valid_edge(ns2, a, j2) && valid_edge(ns2, b, k) && #[trigger] child_at(
                            ns2,
                            a,
                            j2,
                        ) == #[trigger] child_at(ns2, b, k) implies a == b && j2 == k by {
                        if a == i as int && j2 == ns1[i as int].children@.len() {
                            if !(b == i as int && k == ns1[i as int].children@.len()) {
                                assert(valid_edge(ns1, b, k));
                                assert(child_at(ns1, b, k) < ns1.len());
                                assert(child_at(ns2, b, k) == child_at(ns1, b, k));
                            }
                        } else if b == i as int && k == ns1[i as int].children@.len() {
                            assert(valid_edge(ns1, a, j2));
                            assert(child_at(ns2, a, j2) == child_at(ns1, a, j2));
                            assert(child_at(ns1, a, j2) < ns1.len());
                        } else {
                            assert(valid_edge(ns1, a, j2) && valid_edge(ns1, b, k));
                            assert(child_at(ns2, a, j2) == child_at(ns1, a, j2));
                            assert(child_at(ns2, b, k) == child_at(ns1, b, k));
                        }
                    };
                    // Labels: the new edge is labelled d != 0 and d was not
                    // among node i's labels.
                    assert forall|a: int, j2: int| valid_edge(ns2, a, j2) implies
                        #[trigger] label_at(ns2, a, j2) != 0 by {
                        if a == i as int && j2 == ns1[i as int].children@.len() {
                            assert(label_at(ns2, a, j2) == d);
                        } else {
                            assert(valid_edge(ns1, a, j2));
                            assert(label_at(ns2, a, j2) == label_at(ns1, a, j2));
                        }
                    };
                    assert forall|a: int, j2: int, k: int|
                        valid_edge(ns2, a, j2) && valid_edge(ns2, a, k) && j2
                            != k implies #[trigger] label_at(ns2, a, j2) != #[trigger] label_at(
                        ns2,
                        a,
                        k,
                    ) by {
                        if a == i as int {
                            if j2 == ns1[i as int].children@.len() {
                                assert(label_at(ns2, a, j2) == d);
                                assert(label_at(ns2, a, k) == label_at(ns1, a, k));
                            } else if k == ns1[i as int].children@.len() {
                                assert(label_at(ns2, a, k) == d);
                                assert(label_at(ns2, a, j2) == label_at(ns1, a, j2));
                            } else {
                                assert(label_at(ns2, a, j2) == label_at(ns1, a, j2));
                                assert(label_at(ns2, a, k) == label_at(ns1, a, k));
                            }
                        } else {
                            assert(valid_edge(ns1, a, j2) && valid_edge(ns1, a, k));
                            assert(label_at(ns2, a, j2) == label_at(ns1, a, j2));
                            assert(label_at(ns2, a, k) == label_at(ns1, a, k));
                        }
                    };
                    // The chain invariant: old members keep their distances,
                    // and the new leaf sits at the end of the descent path.
                    assert forall|a: int, j2: int, m: int|
                        valid_edge(ns2, a, j2) && 0 <= m < ns2.len() && #[trigger] in_sub(
                            ns2,
                            child_at(ns2, a, j2),
                            m,
                        ) implies label_at(ns2, a, j2) == key_dist(ns2[a].key@, ns2[m].key@) by {
                        if a == i as int && j2 == ns1[i as int].children@.len() {
                            // The new edge: its subtree is exactly the leaf.
                            assert(child_at(ns2, a, j2) == nL);
                            lemma_leaf_subtree(ns2, nL, m);
                            assert(m == nL);
                            assert(label_at(ns2, a, j2) == d);
                            assert(ns2[m].key@ == key@);
                            assert(ns2[a].key@ == ns1[a].key@);
                        } else {
                            assert(valid_edge(ns1, a, j2));
                            let c = child_at(ns1, a, j2);
                            assert(child_at(ns2, a, j2) == c);
                            lemma_attach_sub(ns1, ns2, i as int, d, c, m);
                            if m < nL {
                                assert(in_sub(ns1, c, m));
                                assert(ns2[a].key@ == ns1[a].key@);
                                assert(ns2[m].key@ == ns1[m].key@);
                                assert(label_at(ns2, a, j2) == label_at(ns1, a, j2));
                            } else {
                                // m is the new leaf: the edge's subtree held
                                // the visited node i, so the descent path
                                // property gives the distance.
                                assert(m == nL);
                                if in_sub(ns1, c, m) {
                                    lemma_subtree_bounds(ns1, c, m);
                                }
                                assert(in_sub(ns1, c, i as int));
                                assert(label_at(ns1, a, j2) == key_dist(ns1[a].key@, key@));
                                assert(ns2[m].key@ == key@);
                                assert(ns2[a].key@ == ns1[a].key@);
                                assert(label_at(ns2, a, j2) == label_at(ns1, a, j2));
                            }
                        }
                    };
                    assert forall|m: int| 0 <= m < ns2.len() implies #[trigger] in_sub(
                        ns2,
                        0,
                        m,
                    ) by {
                        lemma_attach_sub(ns1, ns2, i as int, d, 0, m);
                        if m < nL {
                            assert(in_sub(ns1, 0, m));
                        } else {
                            assert(in_sub(ns1, 0, i as int));
                        }
                    };
                    assert forall|a: int| 0 <= a < ns2.len() implies (#[trigger] ns2[a].key@).len()
                        <= KEY_LEN_LIMIT by {
                        if a < nL {
                            assert(ns2[a].key@ == ns1[a].key@);
                        } else {
                            assert(ns2[a].key@ == key@);
                        }
                    };
                    assert forall|a: int| 0 <= a < ns2.len() implies (
                    #[trigger] ns2[a].owners@).len() >= 1 by {
                        if a < nL {
                            assert(ns2[a].owners@ == ns1[a].owners@);
                        } else {
                            assert(ns2[a].owners@.len() == 1);
                        }
                    };
                    assert(self.pairs() =~= old(self).pairs().insert((key@, owner))) by {
                        assert forall|p: (Seq<u8>, usize)| self.pairs().contains(p) implies
                            old(self).pairs().insert((key@, owner)).contains(p) by {
                            let (a, t): (int, int) = choose|a: int, t: int|
                                0 <= a < ns2.len() && 0 <= t < ns2[a].owners@.len()
                                    && ns2[a].key@ == p.0 && #[trigger] ns2[a].owners@[t] == p.1;
                            if a == nL {
                                assert(p == (key@, owner));
                            } else {
                                assert(ns1 == old(self).nodes@);
                                assert(ns2[a].owners@ == ns1[a].owners@);
                                assert(ns2[a].key@ == ns1[a].key@);
                                assert(ns1[a].owners@[t] == p.1);
                                assert(ns1[a].key@ == p.0);
                                assert(old(self).pairs().contains(p));
                            }
                        };
                        assert forall|p: (Seq<u8>, usize)|
                            old(self).pairs().insert((key@, owner)).contains(p) implies
                            self.pairs().contains(p) by {
                            if p == ((key@, owner)) {
                                assert(ns2[nL].owners@[0] == owner);
                                assert(ns2[nL].key@ == key@);
                            } else {
                                assert(old(self).pairs().contains(p));
                                let (a, t): (int, int) = choose|a: int, t: int|
                                    0 <= a < old(self).nodes@.len() && 0 <= t < old(
                                        self,
                                    ).nodes@[a].owners@.len() && old(self).nodes@[a].key@ == p.0
                                        && #[trigger] old(self).nodes@[a].owners@[t] == p.1;
                                assert(ns1 == old(self).nodes@);
                                assert(ns2[a].owners@ == ns1[a].owners@);
                                assert(ns2[a].key@ == ns1[a].key@);
                                assert(0 <= t < ns2[a].owners@.len() && ns2[a].owners@[t] == p.1);
                                assert(ns2[a].key@ == p.0);
                            }
                        };
                    };
                }
                return ;
            }
        }
    }
}


/// Pushing an element extends a sequence's membership by exactly it.
proof fn lemma_push_contains<A>(s: Seq<A>, x: A, y: A)
    ensures
        s.push(x).contains(y) <==> (s.contains(y) || y == x),
{
    if s.push(x).contains(y) {
        let w = choose|w: int| 0 <= w < s.push(x).len() && s.push(x)[w] == y;
        if w < s.len() {
            assert(s[w] == y);
        }
    }
    if s.contains(y) {
        let w = choose|w: int| 0 <= w < s.len() && s[w] == y;
        assert(s.push(x)[w] == y);
    }
    if y == x {
        assert(s.push(x)[s.len() as int] == y);
    }
}

/// Does node `m` hold a key within `radius` of `q`?
pub open spec fn match_node(ns: Seq<IndexNode>, q: Seq<u8>, radius: u64, m: int) -> bool {
    0 <= m < ns.len() && key_dist(ns[m].key@, q) <= radius
}

/// The part of the query already justified after looking at the first `j`
/// child edges of node `i`.
spec fn covered_upto(ns: Seq<IndexNode>, i: int, q: Seq<u8>, radius: u64, j: int, m: int) -> bool {
    match_node(ns, q, radius, m) && (m == i || exists|jj: int|
        0 <= jj < j && #[trigger] in_sub(ns, child_at(ns, i, jj), m))
}

/// The owners of keys within `radius` of `q` among the pairs `ps`.
pub open spec fn within_owners(ps: Set<(Seq<u8>, usize)>, q: Seq<u8>, radius: u64) -> Set<usize> {
    Set::new(
        |o: usize| exists|k: Seq<u8>| #[trigger] ps.contains((k, o)) && key_dist(k, q) <= radius,
    )
}

impl FingerprintIndex {
    /// Collects into `out` every node of the subtree of `i` whose key is
    /// within `radius` of `q`, visiting only the child edges that the
    /// triangle inequality cannot rule out.
    fn query_from(&self, i: usize, q: &Vec<u8>, radius: u64, out: &mut Vec<usize>)
        requires
            self.wf(),
            i < self.nodes@.len(),
            q@.len() <= KEY_LEN_LIMIT,
        ensures
            forall|m: usize|
                final(out)@.contains(m) <==> old(out)@.contains(m) || (in_sub(
                    self.nodes@,
                    i as int,
                    m as int,
                ) && match_node(self.nodes@, q@, radius, m as int)),
        decreases self.nodes@.len() - i,
    {
        let ghost ns = self.nodes@;
        let d = distance(&self.nodes[i].key, q);
        if d <= radius {
            out.push(i);
        }
        proof {
            assert forall|m: usize|
                out@.contains(m) <==> old(out)@.contains(m) || covered_upto(
                    ns,
                    i as int,
                    q@,
                    radius,
                    0,
                    m as int,
                ) by {
                if d <= radius {
                    lemma_push_contains(old(out)@, i, m);
                }
            };
        }
        let n_children = self.nodes[i].children.len();
        let mut j: usize = 0;
        while j < n_children
            invariant
                self.wf(),
                ns == self.nodes@,
                i < ns.len(),
                q@.len() <= KEY_LEN_LIMIT,
                n_children == ns[i as int].children@.len(),
                j <= n_children,
                d == key_dist(ns[i as int].key@, q@),
                forall|m: usize|
                    out@.contains(m) <==> old(out)@.contains(m) || covered_upto(
                        ns,
                        i as int,
                        q@,
                        radius,
                        j as int,
                        m as int,
                    ),
            decreases n_children - j,
        {
            let edge_dist = self.nodes[i].children[j].dist;
            let edge_node = self.nodes[i].children[j].node;
            proof {
                assert(valid_edge(ns, i as int, j as int));
                assert(child_at(ns, i as int, j as int) == edge_node as int);
                assert(i < edge_node && (edge_node as int) < ns.len());
            }
            let explore: bool = if edge_dist >= d {
                edge_dist - d <= radius
            } else {
                d - edge_dist <= radius
            };
            let ghost out_before = out@;
            if explore {
                self.query_from(edge_node, q, radius, out);
            } else {
                proof {
                    // The triangle inequality rules the whole subtree out.
                    assert forall|m: int| in_sub(ns, edge_node as int, m) implies !match_node(
                        ns,
                        q@,
                        radius,
                        m,
                    ) by {
                        lemma_subtree_bounds(ns, edge_node as int, m);
                        assert(in_sub(ns, child_at(ns, i as int, j as int), m));
                        assert(edge_dist == key_dist(ns[i as int].key@, ns[m].key@));
                        lemma_dist_triangle(ns[i as int].key@, ns[m].key@, q@);
                        lemma_dist_triangle(ns[i as int].key@, q@, ns[m].key@);
                        lemma_dist_sym(q@, ns[m].key@);
                    };
                }
            }
            proof {
                assert forall|m: usize|
                    out@.contains(m) <==> old(out)@.contains(m) || covered_upto(
                        ns,
                        i as int,
                        q@,
                        radius,
                        j + 1 as int,
                        m as int,
                    ) by {
                    let c = child_at(ns, i as int, j as int);
                    if covered_upto(ns, i as int, q@, radius, j + 1 as int, m as int) {
                        if !covered_upto(ns, i as int, q@, radius, j as int, m as int) {
                            let jj = choose|jj: int|
                                0 <= jj < j + 1 && #[trigger] in_sub(
                                    ns,
                                    child_at(ns, i as int, jj),
                                    m as int,
                                );
                            assert(jj == j as int);
                            assert(in_sub(ns, c, m as int));
                        }
                    }
                    if out@.contains(m) && !out_before.contains(m) {
                        assert(in_sub(ns, c, m as int) && match_node(ns, q@, radius, m as int));
                        assert(covered_upto(ns, i as int, q@, radius, j + 1 as int, m as int));
                    }
                    if covered_upto(ns, i as int, q@, radius, j as int, m as int) {
                        assert(covered_upto(ns, i as int, q@, radius, j + 1 as int, m as int));
                    }
                };
            }
            j = j + 1;
        }
        proof {
            assert forall|m: usize|
                covered_upto(ns, i as int, q@, radius, n_children as int, m as int) <==> (in_sub(
                    ns,
                    i as int,
                    m as int,
                ) && match_node(ns, q@, radius, m as int)) by {
                lemma_subtree_member(ns, i as int, m as int);
            };
        }
    }

    /// Every node whose key is within `radius` of `q`, by arena index.
    fn matching_nodes(&self, q: &Vec<u8>, radius: u64) -> (r: Vec<usize>)
        requires
            self.wf(),
            q@.len() <= KEY_LEN_LIMIT,
        ensures
            forall|m: usize| r@.contains(m) <==> match_node(self.nodes@, q@, radius, m as int),
    {
        let mut out: Vec<usize> = Vec::new();
        if self.nodes.len() == 0 {
            return out;
        }
        self.query_from(0, q, radius, &mut out);
        proof {
            assert forall|m: usize|
                out@.contains(m) <==> match_node(self.nodes@, q@, radius, m as int) by {
                if match_node(self.nodes@, q@, radius, m as int) {
                    assert(in_sub(self.nodes@, 0, m as int));
                }
                if out@.contains(m) {
                    lemma_subtree_bounds(self.nodes@, 0, m as int);
                }
            };
        }
        out
    }

    /// Returns every owner whose key lies within `radius` of the query
    /// key: no false negatives and no false positives.
    pub fn query_within(&self, q: &Vec<u8>, radius: u64) -> (r: Vec<usize>)
        requires
            self.wf(),
            q@.len() <= KEY_LEN_LIMIT,
        ensures
            forall|o: usize|
                r@.contains(o) <==> within_owners(self.pairs(), q@, radius).contains(o),
    {
        let ghost ns = self.nodes@;
        let node_total = self.nodes.len();
        proof {
            assert(ns.len() == node_total);
        }
        let ms = self.matching_nodes(q, radius);
        let mut out: Vec<usize> = Vec::new();
        let mut idx: usize = 0;
        while idx < ms.len()
            invariant
                self.wf(),
                ns == self.nodes@,
                q@.len() <= KEY_LEN_LIMIT,
                idx <= ms@.len(),
                forall|m: usize| ms@.contains(m) <==> match_node(ns, q@, radius, m as int),
                forall|o: usize|
                    out@.contains(o) <==> exists|jj: int|
                        0 <= jj < idx && (#[trigger] ns[ms@[jj] as int].owners@).contains(o),
            decreases ms@.len() - idx,
        {
            let node_idx = ms[idx];
            proof {
                assert(ms@.contains(ms@[idx as int]));
            }
            let owner_count = self.nodes[node_idx].owners.len();
            let mut t: usize = 0;
            while t < owner_count
                invariant
                    self.wf(),
                    ns == self.nodes@,
                    idx < ms@.len(),
                    node_idx == ms@[idx as int],
                    node_idx < ns.len(),
                    owner_count == ns[node_idx as int].owners@.len(),
                    t <= owner_count,
                    forall|o: usize|
                        out@.contains(o) <==> (exists|jj: int|
                            0 <= jj < idx && (#[trigger] ns[ms@[jj] as int].owners@).contains(o))
                            || ns[node_idx as int].owners@.subrange(0, t as int).contains(o),
                decreases owner_count - t,
            {
                let ghost out_before = out@;
                out.push(self.nodes[node_idx].owners[t]);
                proof {
                    let ow = ns[node_idx as int].owners@;
                    lemma_push_contains(out_before, ow[t as int] as usize, 0usize);
                    assert forall|o: usize|
                        out@.contains(o) <==> (out_before.contains(o) || o == ow[t as int]) by {
                        lemma_push_contains(out_before, ow[t as int] as usize, o);
                    };
                    assert(ow.subrange(0, t + 1 as int).last() == ow[t as int]);
                    assert forall|o: usize|
                        ow.subrange(0, t + 1 as int).contains(o) implies (ow.subrange(
                        0,
                        t as int,
                    ).contains(o) || o == ow[t as int]) by {
                        let w = choose|w: int|
                            0 <= w < t + 1 && #[trigger] ow.subrange(0, t + 1 as int)[w] == o;
                        if w < t {
                            assert(ow.subrange(0, t as int)[w] == o);
                        }
                    };
                    assert forall|o: usize|
                        (ow.subrange(0, t as int).contains(o) || o == ow[t as int]) implies
                        ow.subrange(0, t + 1 as int).contains(o) by {
                        if ow.subrange(0, t as int).contains(o) {
                            let w = choose|w: int|
                                0 <= w < t && #[trigger] ow.subrange(0, t as int)[w] == o;
                            assert(ow.subrange(0, t + 1 as int)[w] == o);
                        } else {
                            assert(ow.subrange(0, t + 1 as int)[t as int] == o);
                        }
                    };
                    assert forall|o: usize|
                        out@.contains(o) <==> (exists|jj: int|
                            0 <= jj < idx && (#[trigger] ns[ms@[jj] as int].owners@).contains(o))
                            || ow.subrange(0, t + 1 as int).contains(o) by {
                        assert(out_before.contains(o) <==> (exists|jj: int|
                            0 <= jj < idx && (#[trigger] ns[ms@[jj] as int].owners@).contains(o))
                            || ow.subrange(0, t as int).contains(o));
                        if o == ow[t as int] {
                            assert(ow.subrange(0, t + 1 as int)[t as int] == o);
                        }
                    };
                }
                t = t + 1;
            }
            proof {
                let ow = ns[node_idx as int].owners@;
                assert(ow.subrange(0, ow.len() as int) =~= ow);
                assert forall|o: usize|
                    out@.contains(o) <==> exists|jj: int|
                        0 <= jj < idx + 1 && (#[trigger] ns[ms@[jj] as int].owners@).contains(
                            o,
                        ) by {
                    if out@.contains(o) {
                        if exists|jj: int|
                            0 <= jj < idx && (#[trigger] ns[ms@[jj] as int].owners@).contains(o) {
                            let jj = choose|jj: int|
                                0 <= jj < idx && (#[trigger] ns[ms@[jj] as int].owners@).contains(
                                    o,
                                );
                            assert(0 <= jj < idx + 1);
                        } else {
                            assert(ow.contains(o));
                            assert((ns[ms@[idx as int] as int].owners@).contains(o));
                        }
                    } else {
                        if exists|jj: int|
                            0 <= jj < idx + 1 && (#[trigger] ns[ms@[jj] as int].owners@).contains(
                                o,
                            ) {
                            let jj = choose|jj: int|
                                0 <= jj < idx + 1 && (
                                #[trigger] ns[ms@[jj] as int].owners@).contains(o);
                            if jj < idx {
                                assert(out@.contains(o));
                            } else {
                                assert(ow.contains(o));
                                assert(false);
                            }
                        }
                    }
                };
            }
            idx = idx + 1;
        }
        proof {
            assert forall|o: usize|
                out@.contains(o) <==> within_owners(self.pairs(), q@, radius).contains(o) by {
                if out@.contains(o) {
                    let jj = choose|jj: int|
                        0 <= jj < ms@.len() && (#[trigger] ns[ms@[jj] as int].owners@).contains(o);
                    let m = ms@[jj];
                    assert(ms@.contains(m));
                    assert(match_node(ns, q@, radius, m as int));
                    let w = choose|w: int|
                        0 <= w < ns[m as int].owners@.len() && ns[m as int].owners@[w] == o;
                    assert(ns[m as int].owners@[w] == o);
                    assert(self.pairs().contains((ns[m as int].key@, o)));
                    assert(within_owners(self.pairs(), q@, radius).contains(o));
                } else {
                    if within_owners(self.pairs(), q@, radius).contains(o) {
                        let k = choose|k: Seq<u8>|
                            #[trigger] self.pairs().contains((k, o)) && key_dist(k, q@) <= radius;
                        let (a, t): (int, int) = choose|a: int, t: int|
                            0 <= a < self.nodes@.len() && 0 <= t < self.nodes@[a].owners@.len()
                                && self.nodes@[a].key@ == (k, o).0
                                && #[trigger] self.nodes@[a].owners@[t] == (k, o).1;
                        assert(match_node(ns, q@, radius, a));
                        assert(a < node_total);
                        assert(ms@.contains(a as usize));
                        let jj = choose|jj: int| 0 <= jj < ms@.len() && ms@[jj] == a as usize;
                        assert((ns[ms@[jj] as int].owners@).contains(o));
                        assert(false);
                    }
                }
            };
        }
        out
    }
}


/// One cluster of similar files: a representative fingerprint key and the
/// owners (file entry indices) of every key within the grouping radius of
/// the seed key.
pub struct KeyGroup {
    pub representative: Vec<u8>,
    pub owners: Vec<usize>,
}

/// The owners of all nodes among the first `upto` whose key is within
/// `radius` of `q`, in arena order.
pub open spec fn owners_within(ns: Seq<IndexNode>, q: Seq<u8>, radius: u64, upto: int) -> Seq<
    usize,
>
    decreases upto,
{
    if upto <= 0 {
        Seq::empty()
    } else {
        owners_within(ns, q, radius, upto - 1) + if match_node(ns, q, radius, upto - 1) {
            ns[upto - 1].owners@
        } else {
            Seq::empty()
        }
    }
}

/// The assignment flags after marking every node matched by one query.
pub open spec fn marked(assigned: Seq<bool>, ns: Seq<IndexNode>, q: Seq<u8>, radius: u64) -> Seq<
    bool,
> {
    Seq::new(assigned.len(), |m: int| assigned[m] || match_node(ns, q, radius, m))
}

/// The grouping policy: walk the distinct fingerprints in arena order;
/// each one not yet assigned to a group seeds a radius query, the owners
/// of all matches form one group, and all matched fingerprints are marked
/// so they seed no further group.  Groups with fewer than two owners are
/// dropped.
pub open spec fn groups_from(
    ns: Seq<IndexNode>,
    radius: u64,
    i: int,
    assigned: Seq<bool>,
) -> Seq<(Seq<u8>, Seq<usize>)>
    decreases ns.len() - i,
{
    if i < 0 || i >= ns.len() {
        Seq::empty()
    } else if assigned[i] {
        groups_from(ns, radius, i + 1, assigned)
    } else {
        let q = ns[i].key@;
        let ow = owners_within(ns, q, radius, ns.len() as int);
        let rest = groups_from(ns, radius, i + 1, marked(assigned, ns, q, radius));
        if ow.len() >= 2 {
            seq![(q, ow)] + rest
        } else {
            rest
        }
    }
}

/// Copies a byte key.
fn clone_bytes(v: &Vec<u8>) -> (r: Vec<u8>)
    ensures
        r@ == v@,
{
    let mut r: Vec<u8> = Vec::new();
    let mut i: usize = 0;
    while i < v.len()
        invariant
            i <= v@.len(),
            r@ == v@.subrange(0, i as int),
        decreases v@.len() - i,
    {
        r.push(v[i]);
        proof {
            assert(v@.subrange(0, i + 1 as int) =~= v@.subrange(0, i as int).push(v@[i as int]));
        }
        i = i + 1;
    }
    proof {
        assert(v@.subrange(0, v@.len() as int) =~= v@);
    }
    r
}

/// Membership helper on a vector of arena indices.
fn vec_has(v: &Vec<usize>, x: usize) -> (r: bool)
    ensures
        r <==> v@.contains(x),
{
    let mut i: usize = 0;
    while i < v.len()
        invariant
            i <= v@.len(),
            forall|w: int| 0 <= w < i ==> v@[w] != x,
        decreases v@.len() - i,
    {
        if v[i] == x {
            proof {
                assert(v@[i as int] == x);
            }
            return true;
        }
        i = i + 1;
    }
    proof {
        if v@.contains(x) {
            let w = choose|w: int| 0 <= w < v@.len() && v@[w] == x;
            assert(false);
        }
    }
    false
}

impl FingerprintIndex {
    /// Builds the similarity groups at the given radius, following the
    /// grouping policy `groups_from`.
    #[verifier::rlimit(60)]
    pub fn build_groups(&self, radius: u64) -> (r: Vec<KeyGroup>)
        requires
            self.wf(),
        ensures
            ({
                let gs = groups_from(
                    self.nodes@,
                    radius,
                    0,
                    Seq::new(self.nodes@.len(), |m: int| false),
                );
                &&& r@.len() == gs.len()
                &&& forall|t: int|
                    0 <= t < gs.len() ==> (#[trigger] r@[t]).representative@ == gs[t].0
                        && r@[t].owners@ == gs[t].1
            }),
    {
        let ghost ns = self.nodes@;
        let n = self.nodes.len();
        let mut assigned: Vec<bool> = Vec::new();
        let mut w: usize = 0;
        while w < n
            invariant
                w <= n,
                assigned@.len() == w,
                forall|m: int| 0 <= m < w ==> !assigned@[m],
            decreases n - w,
        {
            assigned.push(false);
            w = w + 1;
        }
        proof {
            assert(assigned@ =~= Seq::new(ns.len(), |m: int| false));
        }
        let ghost gfull = groups_from(ns, radius, 0, Seq::new(ns.len(), |m: int| false));
        let mut out: Vec<KeyGroup> = Vec::new();
        let mut i: usize = 0;
        while i < n
            invariant
                self.wf(),
                ns == self.nodes@,
                n == ns.len(),
                i <= n,
                assigned@.len() == n,
                gfull == groups_from(ns, radius, 0, Seq::new(ns.len(), |m: int| false)),
                groups_from(ns, radius, i as int, assigned@) == gfull.skip(out@.len() as int),
                out@.len() <= gfull.len(),
                forall|t: int|
                    0 <= t < out@.len() ==> (#[trigger] out@[t]).representative@ == gfull[t].0
                        && out@[t].owners@ == gfull[t].1,
            decreases n - i,
        {
            let seed_taken = assigned[i];
            if seed_taken {
                proof {
                    assert(groups_from(ns, radius, i + 1 as int, assigned@) == groups_from(
                        ns,
                        radius,
                        i as int,
                        assigned@,
                    ));
                }
                i = i + 1;
            } else {
                let ghost assigned_before = assigned@;
                let ghost q = ns[i as int].key@;
                let ms = self.matching_nodes(&self.nodes[i].key, radius);
                let mut ow: Vec<usize> = Vec::new();
                let mut m: usize = 0;
                while m < n
                    invariant
                        self.wf(),
                        ns == self.nodes@,
                        n == ns.len(),
                        i < n,
                        q == ns[i as int].key@,
                        m <= n,
                        assigned@.len() == n,
                        assigned_before.len() == n,
                        forall|mm: usize| ms@.contains(mm) <==> match_node(ns, q, radius, mm as int),
                        ow@ == owners_within(ns, q, radius, m as int),
                        forall|mm: int|
                            0 <= mm < n ==> #[trigger] assigned@[mm] == (assigned_before[mm] || (mm
                                < m && match_node(ns, q, radius, mm))),
                    decreases n - m,
                {
                    let ghost asg_entry = assigned@;
                    let is_match = vec_has(&ms, m);
                    proof {
                        assert(is_match <==> match_node(ns, q, radius, m as int));
                    }
                    if is_match {
                        let owner_count = self.nodes[m].owners.len();
                        let ghost ow_entry = ow@;
                        let mut t: usize = 0;
                        while t < owner_count
                            invariant
                                self.wf(),
                                ns == self.nodes@,
                                m < n,
                                n == ns.len(),
                                owner_count == ns[m as int].owners@.len(),
                                t <= owner_count,
                                ow@ == ow_entry + ns[m as int].owners@.subrange(0, t as int),
                            decreases owner_count - t,
                        {
                            ow.push(self.nodes[m].owners[t]);
                            proof {
                                let owm = ns[m as int].owners@;
                                assert(owm.subrange(0, t + 1 as int) =~= owm.subrange(
                                    0,
                                    t as int,
                                ).push(owm[t as int]));
                            }
                            t = t + 1;
                        }
                        proof {
                            assert(ns[m as int].owners@.subrange(
                                0,
                                ns[m as int].owners@.len() as int,
                            ) =~= ns[m as int].owners@);
                        }
                        assigned.set(m, true);
                    } else {
                        proof {
                            assert(ow@ + Seq::<usize>::empty() =~= ow@);
                        }
                    }
                    proof {
                        let step = owners_within(ns, q, radius, m + 1 as int);
                        assert(step == owners_within(ns, q, radius, m as int) + (if match_node(
                            ns,
                            q,
                            radius,
                            m as int,
                        ) {
                            ns[m as int].owners@
                        } else {
                            Seq::<usize>::empty()
                        }));
                        assert(ow@ == step);
                        assert forall|mm: int| 0 <= mm < n implies #[trigger] assigned@[mm] == (
                        assigned_before[mm] || (mm < m + 1 && match_node(ns, q, radius, mm))) by {
                            assert(asg_entry[mm] == (assigned_before[mm] || (mm < m as int
                                && match_node(ns, q, radius, mm))));
                            if mm == m as int {
                                if is_match {
                                    assert(assigned@[mm]);
                                } else {
                                    assert(assigned@[mm] == asg_entry[mm]);
                                }
                            } else {
                                assert(assigned@[mm] == asg_entry[mm]);
                            }
                        };
                    }
                    m = m + 1;
                }
                proof {
                    assert(assigned@ =~= marked(assigned_before, ns, q, radius)) by {
                        assert forall|mm: int| 0 <= mm < n implies assigned@[mm] == marked(
                            assigned_before,
                            ns,
                            q,
                            radius,
                        )[mm] by {
                            assert(marked(assigned_before, ns, q, radius)[mm] == (
                            assigned_before[mm] || match_node(ns, q, radius, mm)));
                        };
                    };
                }
                if ow.len() >= 2 {
                    let representative = clone_bytes(&self.nodes[i].key);
                    let ghost out_before = out@;
                    out.push(KeyGroup { representative, owners: ow });
                    proof {
                        let tail = groups_from(ns, radius, i + 1 as int, assigned@);
                        let whole = groups_from(ns, radius, i as int, assigned_before);
                        assert(whole == seq![(q, owners_within(ns, q, radius, ns.len() as int))]
                            + tail);
                        assert(whole.len() == 1 + tail.len());
                        assert(whole[0] == ((q, owners_within(ns, q, radius, ns.len() as int))));
                        assert(gfull.skip(out_before.len() as int) == whole);
                        assert(gfull[out_before.len() as int] == whole[0]);
                        assert(tail =~= gfull.skip(out@.len() as int)) by {
                            assert forall|u: int| 0 <= u < tail.len() implies tail[u] == gfull.skip(
                                out@.len() as int,
                            )[u] by {
                                assert(whole[u + 1] == tail[u]);
                                assert(gfull.skip(out_before.len() as int)[u + 1] == gfull[
                                    out_before.len() + u + 1]);
                            };
                        };
                    }
                } else {
                    proof {
                        let tail = groups_from(ns, radius, i + 1 as int, assigned@);
                        let whole = groups_from(ns, radius, i as int, assigned_before);
                        assert(whole == tail);
                    }
                }
                i = i + 1;
            }
        }
        proof {
            assert(groups_from(ns, radius, n as int, assigned@).len() == 0);
            assert(gfull.skip(out@.len() as int).len() == 0);
            assert(out@.len() == gfull.len());
        }
        out
    }
}

/// Holds of any two sequences of insertions that are permutations of each
/// other: the pair sets they build are equal, so by the contracts of
/// `insert` and `query_within` the two indexes answer every query with
/// the same owner set, whatever order the keys arrived in.
pub proof fn lemma_insertion_order_immaterial(
    s1: Seq<(Seq<u8>, usize)>,
    s2: Seq<(Seq<u8>, usize)>,
    q: Seq<u8>,
    radius: u64,
)
    requires
        s1.to_multiset() == s2.to_multiset(),
    ensures
        s1.to_set() == s2.to_set(),
        within_owners(s1.to_set(), q, radius) == within_owners(s2.to_set(), q, radius),
{
    s1.to_multiset_ensures();
    s2.to_multiset_ensures();
    assert(s1.to_set() =~= s2.to_set()) by {
        assert forall|p: (Seq<u8>, usize)| s1.contains(p) <==> s2.contains(p) by {
            assert(s1.contains(p) <==> s1.to_multiset().count(p) > 0);
            assert(s2.contains(p) <==> s2.to_multiset().count(p) > 0);
        };
    };
}

} // verus!
