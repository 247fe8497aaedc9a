//! The edge-list graph: a dense range of node indices `[0, max_node]` and a
//! sequence of directed edge records, two per undirected connection.

use vstd::prelude::*;

verus! {

/// Index of a node; the graph addresses the dense range `[0, max_node]`.
pub type NodeIndex = usize;

/// Weight carried by an undirected connection.
pub type Weight = i32;

/// One directed edge record `(source, target, weight)`.
pub type EdgeRecord = (NodeIndex, NodeIndex, Weight);

/// True if the record at position `i` of `s` connects `a` and `b`,
/// in either direction.
pub open spec fn record_links(s: Seq<EdgeRecord>, i: int, a: NodeIndex, b: NodeIndex) -> bool {
    (s[i].0 == a && s[i].1 == b) || (s[i].0 == b && s[i].1 == a)
}

/// Every endpoint in `s` lies in `[0, max]`.
pub open spec fn edges_bounded(s: Seq<EdgeRecord>, max: NodeIndex) -> bool {
    forall|i: int| 0 <= i < s.len()
        ==> (#[trigger] s[i]).0 <= max && s[i].1 <= max
}

/// Each ordered pair `(source, target)` occurs at most once in `s`.
pub open spec fn edges_unique(s: Seq<EdgeRecord>) -> bool {
    forall|i: int, j: int|
        0 <= i < s.len() && 0 <= j < s.len() && i != j
        ==> !((#[trigger] s[i]).0 == (#[trigger] s[j]).0 && s[i].1 == s[j].1)
}

/// The record at position `i` of `s` has a reverse record with the same weight.
pub open spec fn has_reverse(s: Seq<EdgeRecord>, i: int) -> bool {
    exists|j: int|
        0 <= j < s.len()
        && (#[trigger] s[j]).0 == s[i].1
        && s[j].1 == s[i].0
        && s[j].2 == s[i].2
}

/// Every record in `s` has a reverse record with the same weight.
pub open spec fn edges_symmetric(s: Seq<EdgeRecord>) -> bool {
    forall|i: int| 0 <= i < s.len() ==> has_reverse(s, i)
}

/// True if `{a, b}` and `{c, d}` are the same unordered pair of nodes.
pub open spec fn same_pair(a: NodeIndex, b: NodeIndex, c: NodeIndex, d: NodeIndex) -> bool {
    (a == c && b == d) || (a == d && b == c)
}

/// Position of the unique record with source `a` and target `b`, if any.
fn find_directed(adjs: &Vec<EdgeRecord>, a: NodeIndex, b: NodeIndex) -> (r: Option<usize>)
    ensures
        match r {
            Some(i) => i < adjs@.len() && adjs@[i as int].0 == a && adjs@[i as int].1 == b,
            None => forall|i: int| 0 <= i < adjs@.len()
                ==> !((#[trigger] adjs@[i]).0 == a && adjs@[i].1 == b),
        },
{
    let n = adjs.len();
    let mut k: usize = 0;
    while k < n
        invariant
            n == adjs@.len(),
            k <= n,
            forall|i: int| 0 <= i < k
                ==> !((#[trigger] adjs@[i]).0 == a && adjs@[i].1 == b),
        decreases n - k,
    {
        let e = adjs[k];
        if e.0 == a && e.1 == b {
            return Some(k);
        }
        k = k + 1;
    }
    None
}

/// Position of some record linking `a` and `b` in either direction, if any.
fn find_linking(adjs: &Vec<EdgeRecord>, a: NodeIndex, b: NodeIndex) -> (r: Option<usize>)
    ensures
        match r {
            Some(i) => i < adjs@.len() && record_links(adjs@, i as int, a, b),
            None => forall|i: int| 0 <= i < adjs@.len() ==> !record_links(adjs@, i, a, b),
        },
{
    let n = adjs.len();
    let mut k: usize = 0;
    while k < n
        invariant
            n == adjs@.len(),
            k <= n,
            forall|i: int| 0 <= i < k ==> !record_links(adjs@, i, a, b),
        decreases n - k,
    {
        let e = adjs[k];
        if (e.0 == a && e.1 == b) || (e.0 == b && e.1 == a) {
            return Some(k);
        }
        k = k + 1;
    }
    None
}

/// Overwrites the weight of the record `(a, b, _)`, or appends `(a, b, w)`
/// where no such record exists. Returns the overwritten position, if any.
fn upsert_directed(adjs: &mut Vec<EdgeRecord>, a: NodeIndex, b: NodeIndex, w: Weight) -> (r: Option<
    usize,
>)
    ensures
        match r {
            Some(i) => i < old(adjs)@.len()
                && old(adjs)@[i as int].0 == a
                && old(adjs)@[i as int].1 == b
                && final(adjs)@ == old(adjs)@.update(i as int, (a, b, w)),
            None => (forall|i: int|
                0 <= i < old(adjs)@.len()
                    ==> !((#[trigger] old(adjs)@[i]).0 == a && old(adjs)@[i].1 == b))
                && final(adjs)@ == old(adjs)@.push((a, b, w)),
        },
{
    match find_directed(adjs, a, b) {
        Some(i) => {
            let e = adjs[i];
            adjs.set(i, (e.0, e.1, w));
            Some(i)
        },
        None => {
            adjs.push((a, b, w));
            None
        },
    }
}

/// The targets of the records of `s` whose source is `n`, in record order.
pub open spec fn neighbours_of(s: Seq<EdgeRecord>, n: NodeIndex) -> Seq<NodeIndex>
    decreases s.len(),
{
    if s.len() == 0 {
        Seq::empty()
    } else {
        let rest = neighbours_of(s.drop_last(), n);
        if s.last().0 == n {
            rest.push(s.last().1)
        } else {
            rest
        }
    }
}

/// Membership in `neighbours_of` is exactly having a record with source `n`.
proof fn lemma_neighbours_of_members(s: Seq<EdgeRecord>, n: NodeIndex, v: NodeIndex)
    ensures
        neighbours_of(s, n).contains(v) <==> exists|i: int|
            0 <= i < s.len() && (#[trigger] s[i]).0 == n && s[i].1 == v,
    decreases s.len(),
{
    if s.len() > 0 {
        let s0 = s.drop_last();
        lemma_neighbours_of_members(s0, n, v);
        let e = s.last();
        let rest = neighbours_of(s0, n);
        if neighbours_of(s, n).contains(v) {
            if e.0 == n && e.1 == v {
                assert(s[s.len() - 1].0 == n && s[s.len() - 1].1 == v);
            } else {
                assert(rest.contains(v)) by {
                    let p = choose|p: int|
                        0 <= p < neighbours_of(s, n).len() && neighbours_of(s, n)[p] == v;
                    if e.0 == n {
                        assert(neighbours_of(s, n) == rest.push(e.1));
                        assert(p < rest.len());
                        assert(rest[p] == v);
                    }
                }
                let i = choose|i: int| 0 <= i < s0.len() && (#[trigger] s0[i]).0 == n && s0[i].1 == v;
                assert(s[i].0 == n && s[i].1 == v);
            }
        }
        if exists|i: int| 0 <= i < s.len() && (#[trigger] s[i]).0 == n && s[i].1 == v {
            let i = choose|i: int| 0 <= i < s.len() && (#[trigger] s[i]).0 == n && s[i].1 == v;
            if i == s.len() - 1 {
                assert(neighbours_of(s, n) == rest.push(v));
                assert(neighbours_of(s, n)[rest.len() as int] == v);
            } else {
                assert(s0[i].0 == n && s0[i].1 == v);
                assert(rest.contains(v));
                let p = choose|p: int| 0 <= p < rest.len() && rest[p] == v;
                assert(neighbours_of(s, n)[p] == v);
            }
            assert(neighbours_of(s, n).contains(v));
        }
    }
}

/// An undirected weighted graph backed by an ordered edge list.
///
/// Every undirected connection between distinct nodes `a` and `b` is held as
/// exactly two records, `(a, b, w)` and `(b, a, w)`, with the same weight; a
/// self-loop on `a` is held as the single record `(a, a, w)`.
#[derive(Debug)]
pub struct AdjList {
    max_node: NodeIndex,
    adjs: Vec<EdgeRecord>,
}

impl AdjList {
    /// Largest addressable node index.
    pub closed spec fn spec_max_node(self) -> NodeIndex {
        self.max_node
    }

    /// The stored edge records, in insertion order.
    pub closed spec fn edges(self) -> Seq<EdgeRecord> {
        self.adjs@
    }

    /// Number of node slots in use: `max_node + 1`.
    pub open spec fn spec_len(self) -> int {
        self.spec_max_node() + 1
    }

    /// True if some record connects `a` and `b` in either direction.
    pub open spec fn spec_connected(self, a: NodeIndex, b: NodeIndex) -> bool {
        exists|i: int| 0 <= i < self.edges().len() && record_links(self.edges(), i, a, b)
    }

    /// The weight of the connection between `a` and `b`: the weight of an
    /// arbitrary record linking them, which under `wf` is the weight of every
    /// such record.
    pub open spec fn spec_distance(self, a: NodeIndex, b: NodeIndex) -> Weight {
        let i = choose|i: int| 0 <= i < self.edges().len() && record_links(self.edges(), i, a, b);
        self.edges()[i].2
    }

    /// Structural invariant of the edge list:
    /// every endpoint is addressable, each ordered pair occurs at most once,
    /// and every record has a reverse record with the same weight.
    pub open spec fn wf(self) -> bool {
        &&& edges_bounded(self.edges(), self.spec_max_node())
        &&& edges_unique(self.edges())
        &&& edges_symmetric(self.edges())
    }

    /// Under `wf`, every record linking `a` and `b` carries the same weight,
    /// so `spec_distance` speaks for all of them.
    pub proof fn lemma_distance_unique(self, a: NodeIndex, b: NodeIndex)
        requires
            self.wf(),
        ensures
            forall|i: int|
                0 <= i < self.edges().len() && record_links(self.edges(), i, a, b)
                ==> (#[trigger] self.edges()[i]).2 == self.spec_distance(a, b),
    {
        let s = self.edges();
        assert forall|i: int, j: int|
            0 <= i < s.len() && record_links(s, i, a, b)
            && 0 <= j < s.len() && record_links(s, j, a, b)
            implies (#[trigger] s[i]).2 == (#[trigger] s[j]).2 by {
            if s[i].0 == s[j].0 && s[i].1 == s[j].1 {
                // same ordered pair: uniqueness forces i == j
            } else {
                // opposite directions: the reverse record of i must be the record at j
                assert(has_reverse(s, i));
                let k = choose|k: int|
                    0 <= k < s.len()
                    && (#[trigger] s[k]).0 == s[i].1
                    && s[k].1 == s[i].0
                    && s[k].2 == s[i].2;
                assert(s[k].0 == s[j].0 && s[k].1 == s[j].1);
            }
        }
    }

    /// The connection relation is symmetric, and on a well-formed graph the
    /// observed weight is the same in both directions. Together with the
    /// contract of `connect` this says that after `connect(n1, n2, w)` both
    /// `nodes_connected(n1, n2)` and `nodes_connected(n2, n1)` hold and the
    /// distance is `w` either way round.
    pub proof fn lemma_pair_symmetric(self, a: NodeIndex, b: NodeIndex)
        ensures
            self.spec_connected(a, b) <==> self.spec_connected(b, a),
            self.wf() && self.spec_connected(a, b) ==> self.spec_distance(a, b)
                == self.spec_distance(b, a),
    {
        let s = self.edges();
        assert forall|i: int| 0 <= i < s.len() && record_links(s, i, a, b)
            implies record_links(s, i, b, a) by {}
        assert forall|i: int| 0 <= i < s.len() && record_links(s, i, b, a)
            implies record_links(s, i, a, b) by {}
        if self.spec_connected(a, b) {
            assert(self.spec_connected(b, a));
        }
        if self.spec_connected(b, a) {
            assert(self.spec_connected(a, b));
        }
        if self.wf() && self.spec_connected(a, b) {
            self.lemma_distance_unique(a, b);
            let i = choose|i: int| 0 <= i < s.len() && record_links(s, i, b, a);
            assert(record_links(s, i, b, a));
            assert(record_links(s, i, a, b));
            assert(self.spec_distance(b, a) == s[i].2);
        }
    }

    /// An empty graph: no edges, one implicit node slot (index 0).
    pub fn new() -> (g: Self)
        ensures
            g.wf(),
            g.spec_max_node() == 0,
            g.edges() =~= Seq::<EdgeRecord>::empty(),
    {
        AdjList { max_node: 0, adjs: Vec::new() }
    }

    /// Number of node slots in use.
    pub fn len(&self) -> (n: usize)
        requires
            self.spec_max_node() < usize::MAX,
        ensures
            n == self.spec_len(),
    {
        self.max_node + 1
    }

    /// Raises `max_node` to `node` if it is larger; otherwise a no-op.
    /// Creates no edge.
    pub fn add_node(&mut self, node: NodeIndex)
        ensures
            final(self).spec_max_node() == if node > old(self).spec_max_node() {
                node
            } else {
                old(self).spec_max_node()
            },
            final(self).edges() == old(self).edges(),
            old(self).wf() ==> final(self).wf(),
    {
        if node > self.max_node {
            self.max_node = node;
        }
    }

    /// Under `wf`, a connected pair has directed records in both directions,
    /// each carrying the pair's weight.
    pub proof fn lemma_connected_directed(self, a: NodeIndex, b: NodeIndex)
        requires
            self.wf(),
            self.spec_connected(a, b),
        ensures
            exists|i: int|
                0 <= i < self.edges().len() && (#[trigger] self.edges()[i]).0 == a
                    && self.edges()[i].1 == b && self.edges()[i].2 == self.spec_distance(a, b),
            exists|i: int|
                0 <= i < self.edges().len() && (#[trigger] self.edges()[i]).0 == b
                    && self.edges()[i].1 == a && self.edges()[i].2 == self.spec_distance(a, b),
    {
        let s = self.edges();
        self.lemma_distance_unique(a, b);
        let k = choose|k: int| 0 <= k < s.len() && record_links(s, k, a, b);
        assert(record_links(s, k, a, b));
        assert(has_reverse(s, k));
        let j = choose|j: int|
            0 <= j < s.len() && (#[trigger] s[j]).0 == s[k].1 && s[j].1 == s[k].0 && s[j].2
                == s[k].2;
        assert(record_links(s, j, a, b));
        if s[k].0 == a && s[k].1 == b {
            assert(s[j].0 == b && s[j].1 == a);
        } else {
            assert(s[k].0 == b && s[k].1 == a);
            assert(s[j].0 == a && s[j].1 == b);
        }
    }

    /// From the structural description of an upsert of `(n1, n2, w)` —
    /// linking records rewritten in place, fresh records appended —
    /// derives well-formedness and the pair-level consequences.
    proof fn lemma_upsert_derived(pre: Self, post: Self, n1: NodeIndex, n2: NodeIndex, w: Weight)
        requires
            pre.wf(),
            n1 <= pre.spec_max_node(),
            n2 <= pre.spec_max_node(),
            post.spec_max_node() == pre.spec_max_node(),
            forall|i: int|
                0 <= i < pre.edges().len() ==> #[trigger] post.edges()[i] == if record_links(
                    pre.edges(),
                    i,
                    n1,
                    n2,
                ) {
                    (pre.edges()[i].0, pre.edges()[i].1, w)
                } else {
                    pre.edges()[i]
                },
            pre.spec_connected(n1, n2) ==> post.edges().len() == pre.edges().len(),
            !pre.spec_connected(n1, n2) && n1 != n2 ==> post.edges() == pre.edges() + seq![
                (n1, n2, w),
                (n2, n1, w),
            ],
            !pre.spec_connected(n1, n2) && n1 == n2 ==> post.edges() == pre.edges().push(
                (n1, n1, w),
            ),
        ensures
            post.wf(),
            post.spec_connected(n1, n2),
            post.spec_distance(n1, n2) == w,
            forall|a: NodeIndex, b: NodeIndex|
                !same_pair(a, b, n1, n2) ==> (#[trigger] post.spec_connected(a, b)
                    <==> pre.spec_connected(a, b)),
            forall|a: NodeIndex, b: NodeIndex|
                !same_pair(a, b, n1, n2) && pre.spec_connected(a, b)
                    ==> #[trigger] post.spec_distance(a, b) == pre.spec_distance(a, b),
    {
        let s0 = pre.edges();
        let s2 = post.edges();
        let n = s0.len() as int;
        let was = pre.spec_connected(n1, n2);

        // endpoints of the first n records are untouched
        assert forall|i: int| 0 <= i < n implies (#[trigger] s2[i]).0 == s0[i].0 && s2[i].1
            == s0[i].1 by {}
        // every appended record is one of the two fresh ones
        assert forall|i: int| n <= i < s2.len() implies s2[i] == (n1, n2, w) || s2[i] == (
            n2,
            n1,
            w,
        ) by {}
        // every record linking the pair now carries weight w
        assert forall|i: int|
            0 <= i < s2.len() && record_links(s2, i, n1, n2) implies (#[trigger] s2[i]).2 == w by {
            if i < n {
                assert(record_links(s0, i, n1, n2));
            }
        }

        // the connection exists afterwards
        if was {
            pre.lemma_connected_directed(n1, n2);
            let k = choose|k: int|
                0 <= k < s0.len() && (#[trigger] s0[k]).0 == n1 && s0[k].1 == n2 && s0[k].2
                    == pre.spec_distance(n1, n2);
            assert(record_links(s0, k, n1, n2));
            assert(record_links(s2, k, n1, n2));
        } else {
            assert(s2[n] == (n1, n2, w));
            assert(record_links(s2, n, n1, n2));
        }
        assert(post.spec_connected(n1, n2));

        // well-formedness: bounds
        assert forall|i: int| 0 <= i < s2.len() implies (#[trigger] s2[i]).0
            <= post.spec_max_node() && s2[i].1 <= post.spec_max_node() by {
            if i < n {
            } else {
            }
        }
        // well-formedness: ordered pairs stay unique
        assert forall|i: int, j: int|
            0 <= i < s2.len() && 0 <= j < s2.len() && i != j implies !((#[trigger] s2[i]).0 == (
        #[trigger] s2[j]).0 && s2[i].1 == s2[j].1) by {
            if i < n && j < n {
                assert(!(s0[i].0 == s0[j].0 && s0[i].1 == s0[j].1));
            } else if i < n && j >= n {
                if s2[i].0 == s2[j].0 && s2[i].1 == s2[j].1 {
                    assert(record_links(s0, i, n1, n2));
                    assert(pre.spec_connected(n1, n2));
                    assert(s2.len() == n);
                }
            } else if i >= n && j < n {
                if s2[i].0 == s2[j].0 && s2[i].1 == s2[j].1 {
                    assert(record_links(s0, j, n1, n2));
                    assert(pre.spec_connected(n1, n2));
                    assert(s2.len() == n);
                }
            } else {
                // two appended records exist only in the distinct-node append,
                // and there they carry the two distinct ordered pairs
                assert(!was);
                if n1 == n2 {
                    assert(s2.len() == n + 1);
                } else {
                    assert(s2[n] == (n1, n2, w) && s2[n + 1] == (n2, n1, w));
                }
            }
        }
        // well-formedness: symmetry
        assert forall|i: int| 0 <= i < s2.len() implies has_reverse(s2, i) by {
            if record_links(s2, i, n1, n2) {
                if was {
                    pre.lemma_connected_directed(n1, n2);
                    let j21 = choose|j: int|
                        0 <= j < s0.len() && (#[trigger] s0[j]).0 == n2 && s0[j].1 == n1 && s0[j].2
                            == pre.spec_distance(n1, n2);
                    let j12 = choose|j: int|
                        0 <= j < s0.len() && (#[trigger] s0[j]).0 == n1 && s0[j].1 == n2 && s0[j].2
                            == pre.spec_distance(n1, n2);
                    assert(record_links(s0, j21, n1, n2));
                    assert(record_links(s0, j12, n1, n2));
                    assert(s2[j21] == (n2, n1, w));
                    assert(s2[j12] == (n1, n2, w));
                    if s2[i].0 == n1 && s2[i].1 == n2 {
                        assert(0 <= j21 < s2.len() && s2[j21].0 == s2[i].1 && s2[j21].1 == s2[i].0
                            && s2[j21].2 == s2[i].2);
                    } else {
                        assert(0 <= j12 < s2.len() && s2[j12].0 == s2[i].1 && s2[j12].1 == s2[i].0
                            && s2[j12].2 == s2[i].2);
                    }
                } else if n1 == n2 {
                    assert(i == n) by {
                        if i < n {
                            assert(record_links(s0, i, n1, n2));
                        }
                    }
                    assert(s2[n] == (n1, n1, w));
                    assert(0 <= n < s2.len() && s2[n].0 == s2[i].1 && s2[n].1 == s2[i].0 && s2[n].2
                        == s2[i].2);
                } else {
                    assert(i == n || i == n + 1) by {
                        if i < n {
                            assert(record_links(s0, i, n1, n2));
                        }
                    }
                    if i == n {
                        assert(0 <= n + 1 < s2.len() && s2[n + 1].0 == s2[i].1 && s2[n + 1].1
                            == s2[i].0 && s2[n + 1].2 == s2[i].2);
                    } else {
                        assert(0 <= n < s2.len() && s2[n].0 == s2[i].1 && s2[n].1 == s2[i].0
                            && s2[n].2 == s2[i].2);
                    }
                }
            } else {
                assert(i < n) by {
                    if i >= n {
                        assert(record_links(s2, i, n1, n2));
                    }
                }
                assert(has_reverse(s0, i));
                let j = choose|j: int|
                    0 <= j < s0.len() && (#[trigger] s0[j]).0 == s0[i].1 && s0[j].1 == s0[i].0
                        && s0[j].2 == s0[i].2;
                assert(!record_links(s0, j, n1, n2)) by {
                    if record_links(s0, j, n1, n2) {
                        assert(record_links(s0, i, n1, n2));
                        assert(record_links(s2, i, n1, n2));
                    }
                }
                assert(s2[j] == s0[j]);
                assert(s2[i] == s0[i]);
                assert(0 <= j < s2.len() && s2[j].0 == s2[i].1 && s2[j].1 == s2[i].0 && s2[j].2
                    == s2[i].2);
            }
        }
        assert(post.wf());

        // the new weight is observable
        assert(post.spec_distance(n1, n2) == w) by {
            let i = choose|i: int|
                0 <= i < s2.len() && record_links(s2, i, n1, n2);
            assert(record_links(s2, i, n1, n2));
        }

        // other pairs: connections preserved both ways
        assert forall|a: NodeIndex, b: NodeIndex| !same_pair(a, b, n1, n2) implies (
        #[trigger] post.spec_connected(a, b) <==> pre.spec_connected(a, b)) by {
            if post.spec_connected(a, b) {
                let i = choose|i: int| 0 <= i < s2.len() && record_links(s2, i, a, b);
                assert(record_links(s2, i, a, b));
                assert(i < n) by {
                    if i >= n {
                        assert(s2[i] == (n1, n2, w) || s2[i] == (n2, n1, w));
                    }
                }
                assert(record_links(s0, i, a, b));
            }
            if pre.spec_connected(a, b) {
                let i = choose|i: int| 0 <= i < s0.len() && record_links(s0, i, a, b);
                assert(record_links(s0, i, a, b));
                assert(s2.len() >= n);
                assert(record_links(s2, i, a, b));
            }
        }

        // other pairs: distances preserved
        assert forall|a: NodeIndex, b: NodeIndex|
            !same_pair(a, b, n1, n2) && pre.spec_connected(a, b)
            implies #[trigger] post.spec_distance(a, b) == pre.spec_distance(a, b) by {
            pre.lemma_distance_unique(a, b);
            assert(post.spec_connected(a, b));
            let i = choose|i: int| 0 <= i < s2.len() && record_links(s2, i, a, b);
            assert(record_links(s2, i, a, b));
            assert(i < n) by {
                if i >= n {
                    assert(s2[i] == (n1, n2, w) || s2[i] == (n2, n1, w));
                }
            }
            assert(record_links(s0, i, a, b));
            assert(!record_links(s0, i, n1, n2)) by {
                if record_links(s0, i, n1, n2) {
                    assert(same_pair(a, b, n1, n2));
                }
            }
            assert(s2[i] == s0[i]);
            assert(post.spec_distance(a, b) == s2[i].2);
        }
    }

    /// Upserts the undirected connection between `n1` and `n2` with `weight`:
    /// records linking the pair keep their direction and take the new weight;
    /// where no record exists, records are appended — two for distinct nodes,
    /// one for a self-loop. Both endpoints must already be addressable.
    pub fn connect(&mut self, n1: NodeIndex, n2: NodeIndex, weight: Weight)
        requires
            old(self).wf(),
            n1 <= old(self).spec_max_node(),
            n2 <= old(self).spec_max_node(),
        ensures
            final(self).wf(),
            final(self).spec_max_node() == old(self).spec_max_node(),
            // records in place: linking records take the new weight, others stay
            forall|i: int| 0 <= i < old(self).edges().len()
                ==> #[trigger] final(self).edges()[i] == if record_links(old(self).edges(), i, n1, n2) {
                    (old(self).edges()[i].0, old(self).edges()[i].1, weight)
                } else {
                    old(self).edges()[i]
                },
            // the length: unchanged on overwrite, otherwise one or two appended
            old(self).spec_connected(n1, n2)
                ==> final(self).edges().len() == old(self).edges().len(),
            !old(self).spec_connected(n1, n2) && n1 != n2
                ==> final(self).edges() =~= old(self).edges()
                    + seq![(n1, n2, weight), (n2, n1, weight)],
            !old(self).spec_connected(n1, n2) && n1 == n2
                ==> final(self).edges() =~= old(self).edges().push((n1, n1, weight)),
            // the connection now exists with the given weight, both ways round
            final(self).spec_connected(n1, n2),
            final(self).spec_connected(n2, n1),
            final(self).spec_distance(n1, n2) == weight,
            final(self).spec_distance(n2, n1) == weight,
            // no other pair is disturbed
            forall|a: NodeIndex, b: NodeIndex| !same_pair(a, b, n1, n2)
                ==> (#[trigger] final(self).spec_connected(a, b)
                    <==> old(self).spec_connected(a, b)),
            forall|a: NodeIndex, b: NodeIndex|
                !same_pair(a, b, n1, n2) && old(self).spec_connected(a, b)
                ==> #[trigger] final(self).spec_distance(a, b) == old(self).spec_distance(a, b),
    {
        let ghost s0 = self.adjs@;
        let r1 = upsert_directed(&mut self.adjs, n1, n2, weight);
        let ghost s1 = self.adjs@;
        let r2 = upsert_directed(&mut self.adjs, n2, n1, weight);
        proof {
            let s2 = self.adjs@;
            let n = s0.len() as int;
            let was = old(self).spec_connected(n1, n2);
            match (r1, r2) {
                (Some(i1), Some(i2)) => {
                    let i1 = i1 as int;
                    let i2 = i2 as int;
                    // the pair was connected before: records rewritten in place
                    assert(record_links(s0, i1, n1, n2));
                    assert(was);
                    assert(s1 == s0.update(i1, (n1, n2, weight)));
                    if n1 == n2 {
                        // the self-loop record is rewritten twice at one position
                        assert(i2 == i1) by {
                            if i2 != i1 {
                                assert(s1[i2].0 == s0[i2].0 && s1[i2].1 == s0[i2].1);
                                assert(s0[i2].0 == n2 && s0[i2].1 == n1);
                                assert(s0[i1].0 == s0[i2].0 && s0[i1].1 == s0[i2].1);
                            }
                        }
                        assert(s2 =~= s1);
                        assert forall|i: int| 0 <= i < n implies #[trigger] s2[i]
                            == if record_links(s0, i, n1, n2) {
                                (s0[i].0, s0[i].1, weight)
                            } else {
                                s0[i]
                            } by {
                            if record_links(s0, i, n1, n2) && i != i1 {
                                assert(s0[i].0 == s0[i1].0 && s0[i].1 == s0[i1].1);
                            }
                        }
                    } else {
                        assert(i2 != i1);
                        assert(s0[i2] == s1[i2]);
                        assert(s0[i2].0 == n2 && s0[i2].1 == n1);
                        assert(s2 == s1.update(i2, (n2, n1, weight)));
                        assert forall|i: int| 0 <= i < n implies #[trigger] s2[i]
                            == if record_links(s0, i, n1, n2) {
                                (s0[i].0, s0[i].1, weight)
                            } else {
                                s0[i]
                            } by {
                            if record_links(s0, i, n1, n2) && i != i1 && i != i2 {
                                if s0[i].0 == n1 && s0[i].1 == n2 {
                                    assert(s0[i].0 == s0[i1].0 && s0[i].1 == s0[i1].1);
                                } else {
                                    assert(s0[i].0 == s0[i2].0 && s0[i].1 == s0[i2].1);
                                }
                            }
                        }
                    }
                },
                (Some(i1), None) => {
                    // impossible: the first rewrite leaves a record that the
                    // second scan must find
                    let i1 = i1 as int;
                    assert(record_links(s0, i1, n1, n2));
                    assert(was);
                    old(self).lemma_connected_directed(n1, n2);
                    let j21 = choose|j: int|
                        0 <= j < s0.len() && (#[trigger] s0[j]).0 == n2 && s0[j].1 == n1 && s0[j].2
                            == old(self).spec_distance(n1, n2);
                    assert(s1[j21].0 == n2 && s1[j21].1 == n1);
                },
                (None, Some(i2)) => {
                    // fresh self-loop: the appended record is found by the
                    // second scan and rewritten with the same weight
                    let i2 = i2 as int;
                    assert(!was) by {
                        if was {
                            old(self).lemma_connected_directed(n1, n2);
                        }
                    }
                    assert(s1 == s0.push((n1, n2, weight)));
                    assert(i2 == n && n1 == n2) by {
                        if i2 < n {
                            assert(s0[i2].0 == n2 && s0[i2].1 == n1);
                            assert(record_links(s0, i2, n1, n2));
                        }
                    }
                    assert(s2 =~= s0.push((n1, n1, weight)));
                },
                (None, None) => {
                    assert(!was) by {
                        if was {
                            old(self).lemma_connected_directed(n1, n2);
                        }
                    }
                    assert(s1 == s0.push((n1, n2, weight)));
                    assert(n1 != n2) by {
                        if n1 == n2 {
                            assert(s1[n].0 == n2 && s1[n].1 == n1);
                        }
                    }
                    assert(s2 =~= s0 + seq![(n1, n2, weight), (n2, n1, weight)]);
                },
            }
            Self::lemma_upsert_derived(*old(self), *self, n1, n2, weight);
            self.lemma_pair_symmetric(n1, n2);
        }
    }

    /// True if a record links `n1` and `n2` in either direction. An index
    /// outside the addressable range is simply never linked.
    pub fn nodes_connected(&self, n1: NodeIndex, n2: NodeIndex) -> (r: bool)
        ensures
            r == self.spec_connected(n1, n2),
    {
        match find_linking(&self.adjs, n1, n2) {
            Some(i) => {
                proof {
                    assert(record_links(self.edges(), i as int, n1, n2));
                }
                true
            },
            None => false,
        }
    }

    /// The weight of the connection between `n1` and `n2`. Callers must
    /// check `nodes_connected` first: asking for a missing edge is a
    /// contract violation, not a runtime condition.
    pub fn distance(&self, n1: NodeIndex, n2: NodeIndex) -> (w: Weight)
        requires
            self.wf(),
            self.spec_connected(n1, n2),
        ensures
            w == self.spec_distance(n1, n2),
    {
        proof {
            self.lemma_distance_unique(n1, n2);
        }
        match find_linking(&self.adjs, n1, n2) {
            Some(i) => self.adjs[i].2,
            None => 0,  // never reached: some record links the pair
        }
    }

    /// Every target reachable from `n` by one record whose source is `n`,
    /// in record order.
    pub fn node_neighbours(&self, n: NodeIndex) -> (r: Vec<NodeIndex>)
        ensures
            r@ == neighbours_of(self.edges(), n),
    {
        let mut out: Vec<NodeIndex> = Vec::new();
        let m = self.adjs.len();
        let mut k: usize = 0;
        while k < m
            invariant
                m == self.adjs@.len(),
                k <= m,
                out@ == neighbours_of(self.adjs@.take(k as int), n),
            decreases m - k,
        {
            let e = self.adjs[k];
            if e.0 == n {
                out.push(e.1);
            }
            k = k + 1;
            proof {
                assert(self.adjs@.take(k as int).drop_last() =~= self.adjs@.take(k as int - 1));
                assert(self.adjs@.take(k as int).last() == self.adjs@[k as int - 1]);
            }
        }
        proof {
            assert(self.adjs@.take(m as int) =~= self.adjs@);
        }
        out
    }

    /// On a well-formed graph the neighbour list of `n` holds exactly the
    /// nodes connected to `n`: every connection leaves a record whose
    /// source is `n`.
    pub proof fn lemma_neighbours_exactly_connected(self, n: NodeIndex, v: NodeIndex)
        requires
            self.wf(),
        ensures
            neighbours_of(self.edges(), n).contains(v) <==> self.spec_connected(n, v),
    {
        lemma_neighbours_of_members(self.edges(), n, v);
        if self.spec_connected(n, v) {
            self.lemma_connected_directed(n, v);
        }
        if exists|i: int|
            0 <= i < self.edges().len() && (#[trigger] self.edges()[i]).0 == n
                && self.edges()[i].1 == v {
            let i = choose|i: int|
                0 <= i < self.edges().len() && (#[trigger] self.edges()[i]).0 == n
                    && self.edges()[i].1 == v;
            assert(record_links(self.edges(), i, n, v));
        }
    }

    /// How many records have `n` as their source.
    pub fn num_neighbours(&self, n: NodeIndex) -> (c: usize)
        ensures
            c == neighbours_of(self.edges(), n).len(),
    {
        self.node_neighbours(n).len()
    }

    /// How many directed records are stored.
    pub fn edge_count(&self) -> (c: usize)
        ensures
            c == self.edges().len(),
    {
        self.adjs.len()
    }

    /// The record at position `i` of the edge list.
    pub fn edge_at(&self, i: usize) -> (e: EdgeRecord)
        requires
            i < self.edges().len(),
        ensures
            e == self.edges()[i as int],
    {
        self.adjs[i]
    }

    /// Storage estimate: the records held times the size of one record
    /// (saturating; no allocator overhead, no accounting for `max_node`).
    pub fn memory(&self) -> (m: usize)
        ensures
            self.edges().len() * vstd::layout::size_of::<EdgeRecord>() <= usize::MAX ==> m
                == self.edges().len() * vstd::layout::size_of::<EdgeRecord>(),
            self.edges().len() * vstd::layout::size_of::<EdgeRecord>() > usize::MAX ==> m
                == usize::MAX,
    {
        match self.adjs.len().checked_mul(core::mem::size_of::<EdgeRecord>()) {
            Some(m) => m,
            None => usize::MAX,
        }
    }
}

} // verus!
