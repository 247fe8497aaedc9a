//! Reachability along stored connections, and the law that a spanning chain
//! makes every pair of nodes reachable from every other.

use vstd::prelude::*;
use vstd::set_lib::lemma_int_range;
use vstd::set_lib::lemma_len_subset;
use vstd::set_lib::set_int_range;

use crate::graph::record_links;
use crate::graph::AdjList;
use crate::graph::NodeIndex;

verus! {

/// `b` can be reached from `a` in at most `k` connection steps.
pub open spec fn reachable_within(g: AdjList, a: NodeIndex, b: NodeIndex, k: nat) -> bool
    decreases k,
{
    a == b || (k > 0 && exists|m: NodeIndex|
        g.spec_connected(a, m) && reachable_within(g, m, b, (k - 1) as nat))
}

/// `b` can be reached from `a` along stored connections.
pub open spec fn reachable(g: AdjList, a: NodeIndex, b: NodeIndex) -> bool {
    exists|k: nat| reachable_within(g, a, b, k)
}

/// A step budget can always be enlarged.
proof fn lemma_within_mono(g: AdjList, a: NodeIndex, b: NodeIndex, k1: nat, k2: nat)
    requires
        reachable_within(g, a, b, k1),
        k1 <= k2,
    ensures
        reachable_within(g, a, b, k2),
    decreases k1,
{
    if a != b {
        let m = choose|m: NodeIndex|
            g.spec_connected(a, m) && reachable_within(g, m, b, (k1 - 1) as nat);
        lemma_within_mono(g, m, b, (k1 - 1) as nat, (k2 - 1) as nat);
    }
}

/// Every node reaches itself.
pub proof fn lemma_reachable_refl(g: AdjList, a: NodeIndex)
    ensures
        reachable(g, a, a),
{
    assert(reachable_within(g, a, a, 0));
}

/// A stored connection is a reachability step.
pub proof fn lemma_reachable_step(g: AdjList, a: NodeIndex, b: NodeIndex)
    requires
        g.spec_connected(a, b),
    ensures
        reachable(g, a, b),
{
    assert(reachable_within(g, b, b, 0));
    assert(reachable_within(g, a, b, 1));
}

/// Reachability is transitive.
pub proof fn lemma_reachable_trans(g: AdjList, a: NodeIndex, b: NodeIndex, c: NodeIndex)
    requires
        reachable(g, a, b),
        reachable(g, b, c),
    ensures
        reachable(g, a, c),
{
    let k1 = choose|k: nat| reachable_within(g, a, b, k);
    let k2 = choose|k: nat| reachable_within(g, b, c, k);
    lemma_within_trans(g, a, b, c, k1, k2);
    assert(reachable_within(g, a, c, (k1 + k2) as nat));
}

proof fn lemma_within_trans(g: AdjList, a: NodeIndex, b: NodeIndex, c: NodeIndex, k1: nat, k2: nat)
    requires
        reachable_within(g, a, b, k1),
        reachable_within(g, b, c, k2),
    ensures
        reachable_within(g, a, c, (k1 + k2) as nat),
    decreases k1,
{
    if a == b {
        lemma_within_mono(g, b, c, k2, (k1 + k2) as nat);
    } else {
        let m = choose|m: NodeIndex|
            g.spec_connected(a, m) && reachable_within(g, m, b, (k1 - 1) as nat);
        lemma_within_trans(g, m, b, c, (k1 - 1) as nat, k2);
    }
}

/// Reachability is symmetric, because every stored connection is.
pub proof fn lemma_reachable_sym(g: AdjList, a: NodeIndex, b: NodeIndex)
    requires
        reachable(g, a, b),
    ensures
        reachable(g, b, a),
{
    let k = choose|k: nat| reachable_within(g, a, b, k);
    lemma_within_sym(g, a, b, k);
}

proof fn lemma_within_sym(g: AdjList, a: NodeIndex, b: NodeIndex, k: nat)
    requires
        reachable_within(g, a, b, k),
    ensures
        reachable(g, b, a),
    decreases k,
{
    if a == b {
        lemma_reachable_refl(g, a);
    } else {
        let m = choose|m: NodeIndex|
            g.spec_connected(a, m) && reachable_within(g, m, b, (k - 1) as nat);
        lemma_within_sym(g, m, b, (k - 1) as nat);
        g.lemma_pair_symmetric(a, m);
        lemma_reachable_step(g, m, a);
        lemma_reachable_trans(g, b, m, a);
    }
}

/// A visiting order of all of `[0, n)`: each index appears exactly once.
pub open spec fn is_node_order(order: Seq<NodeIndex>, n: nat) -> bool {
    &&& order.len() == n
    &&& order.no_duplicates()
    &&& forall|i: int| 0 <= i < order.len() ==> (#[trigger] order[i]) < n
}

/// The graph connects every consecutive pair of `order`.
pub open spec fn chain_connects(g: AdjList, order: Seq<NodeIndex>) -> bool {
    forall|k: int| 0 <= k < order.len() - 1
        ==> #[trigger] g.spec_connected(order[k], order[k + 1])
}

/// `v` occurs somewhere in `order`.
pub open spec fn appears(order: Seq<NodeIndex>, v: NodeIndex) -> bool {
    exists|i: int| 0 <= i < order.len() && (#[trigger] order[i]) == v
}

/// A visiting order of all of `[0, n)` hits every index below `n`:
/// `n` distinct values drawn from `n` slots leave no slot out.
pub proof fn lemma_order_covers(order: Seq<NodeIndex>, n: nat)
    requires
        is_node_order(order, n),
    ensures
        forall|v: NodeIndex| v < n ==> #[trigger] appears(order, v),
{
    let m = order.map_values(|x: NodeIndex| x as int);
    assert(m.no_duplicates()) by {
        assert forall|i: int, j: int|
            0 <= i < m.len() && 0 <= j < m.len() && i != j implies m[i] != m[j] by {
            assert(order[i] != order[j]);
        }
    }
    m.unique_seq_to_set();
    lemma_int_range(0, n as int);
    assert(m.to_set().subset_of(set_int_range(0, n as int)));
    assert forall|v: NodeIndex| v < n implies #[trigger] appears(order, v) by {
        assert(set_int_range(0, n as int).contains(v as int));
        if !m.to_set().contains(v as int) {
            m.to_set().lemma_subset_not_in_lt(set_int_range(0, n as int), v as int);
        }
        assert(m.to_set().contains(v as int));
        assert(m.contains(v as int));
        let i = choose|i: int| 0 <= i < m.len() && m[i] == v as int;
        assert(order[i] == v);
    }
}

/// The head of `order` reaches the entry at `i`, stepping along the chain.
proof fn lemma_head_reaches(g: AdjList, order: Seq<NodeIndex>, i: int)
    requires
        chain_connects(g, order),
        0 <= i < order.len(),
    ensures
        reachable(g, order[0], order[i]),
    decreases i,
{
    if i == 0 {
        lemma_reachable_refl(g, order[0]);
    } else {
        lemma_head_reaches(g, order, i - 1);
        let k = i - 1;
        assert(g.spec_connected(order[k], order[k + 1]));
        lemma_reachable_step(g, order[i - 1], order[i]);
        lemma_reachable_trans(g, order[0], order[i - 1], order[i]);
    }
}

/// The law of the spanning chain: a graph that connects every consecutive
/// pair of a visiting order of all of `[0, n)` has every node below `n`
/// reachable from every other.
pub proof fn lemma_chain_reachable(g: AdjList, order: Seq<NodeIndex>, n: nat)
    requires
        n >= 1,
        is_node_order(order, n),
        chain_connects(g, order),
    ensures
        forall|a: NodeIndex, b: NodeIndex| a < n && b < n ==> #[trigger] reachable(g, a, b),
{
    // the head of the order reaches every entry, by induction along the chain
    assert forall|i: int| 0 <= i < order.len() implies #[trigger] reachable(
        g,
        order[0],
        order[i],
    ) by {
        lemma_head_reaches(g, order, i);
    }
    lemma_order_covers(order, n);
    assert forall|a: NodeIndex, b: NodeIndex| a < n && b < n implies #[trigger] reachable(
        g,
        a,
        b,
    ) by {
        assert(appears(order, a) && appears(order, b));
        let i = choose|i: int| 0 <= i < order.len() && (#[trigger] order[i]) == a;
        let j = choose|j: int| 0 <= j < order.len() && (#[trigger] order[j]) == b;
        assert(reachable(g, order[0], a));
        assert(reachable(g, order[0], b));
        lemma_reachable_sym(g, order[0], a);
        lemma_reachable_trans(g, a, order[0], b);
    }
}

/// The indices marked true in `s`.
spec fn visited_set(s: Seq<bool>) -> Set<int> {
    Set::new(|i: int| 0 <= i < s.len() && s[i])
}

proof fn lemma_visited_set_bound(s: Seq<bool>)
    ensures
        visited_set(s).finite(),
        visited_set(s).len() <= s.len(),
{
    lemma_int_range(0, s.len() as int);
    assert(visited_set(s).subset_of(set_int_range(0, s.len() as int)));
    lemma_len_subset(visited_set(s), set_int_range(0, s.len() as int));
}

/// No record leads from a marked node to an unmarked one.
spec fn closed_under_records(g: AdjList, visited: Seq<bool>) -> bool {
    forall|i: int|
        0 <= i < g.edges().len() && visited[(#[trigger] g.edges()[i]).0 as int]
            ==> visited[g.edges()[i].1 as int]
}

proof fn lemma_closed_within(g: AdjList, visited: Seq<bool>, a: NodeIndex, b: NodeIndex, k: nat)
    requires
        g.wf(),
        visited.len() == g.spec_max_node() + 1,
        closed_under_records(g, visited),
        a <= g.spec_max_node(),
        visited[a as int],
        reachable_within(g, a, b, k),
    ensures
        b <= g.spec_max_node() && visited[b as int],
    decreases k,
{
    if a != b {
        let m = choose|m: NodeIndex|
            g.spec_connected(a, m) && reachable_within(g, m, b, (k - 1) as nat);
        let s = g.edges();
        let i = choose|i: int| 0 <= i < s.len() && record_links(s, i, a, m);
        assert(record_links(s, i, a, m));
        assert(visited[m as int]) by {
            if s[i].0 == a && s[i].1 == m {
            } else {
                assert(crate::graph::has_reverse(s, i));
                let j = choose|j: int|
                    0 <= j < s.len() && (#[trigger] s[j]).0 == s[i].1 && s[j].1 == s[i].0
                        && s[j].2 == s[i].2;
                assert(s[j].0 == a && s[j].1 == m);
            }
        }
        lemma_closed_within(g, visited, m, b, (k - 1) as nat);
    }
}

/// A marking that contains node 0 and is closed under the records contains
/// every node reachable from 0.
proof fn lemma_closure_complete(g: AdjList, visited: Seq<bool>, b: NodeIndex)
    requires
        g.wf(),
        visited.len() == g.spec_max_node() + 1,
        visited[0],
        closed_under_records(g, visited),
        reachable(g, 0, b),
    ensures
        visited[b as int],
{
    let k = choose|k: nat| reachable_within(g, 0, b, k);
    lemma_closed_within(g, visited, 0, b, k);
}

impl AdjList {
    /// Every addressable node is reachable from node 0.
    pub open spec fn spec_graph_connected(self) -> bool {
        forall|b: NodeIndex| b <= self.spec_max_node() ==> #[trigger] reachable(self, 0, b)
    }

    /// When every addressable node is reachable from node 0, every pair of
    /// addressable nodes can reach each other, and conversely.
    pub proof fn lemma_graph_connected_all_pairs(self)
        ensures
            self.spec_graph_connected() <==> (forall|a: NodeIndex, b: NodeIndex|
                a <= self.spec_max_node() && b <= self.spec_max_node() ==> #[trigger] reachable(
                    self,
                    a,
                    b,
                )),
    {
        if self.spec_graph_connected() {
            assert forall|a: NodeIndex, b: NodeIndex|
                a <= self.spec_max_node() && b <= self.spec_max_node() implies #[trigger] reachable(
                self,
                a,
                b,
            ) by {
                lemma_reachable_sym(self, 0, a);
                lemma_reachable_trans(self, a, 0, b);
            }
        }
        if forall|a: NodeIndex, b: NodeIndex|
            a <= self.spec_max_node() && b <= self.spec_max_node() ==> #[trigger] reachable(
                self,
                a,
                b,
            ) {
            assert forall|b: NodeIndex| b <= self.spec_max_node() implies #[trigger] reachable(
                self,
                0,
                b,
            ) by {
                assert(reachable(self, 0 as NodeIndex, b));
            }
        }
    }

    /// One sweep over the records: marks every unmarked target whose source
    /// is marked. Reports whether anything new was marked.
    fn relax_pass(&self, visited: &mut Vec<bool>, num_visited: &mut usize) -> (changed: bool)
        requires
            self.wf(),
            self.spec_max_node() < usize::MAX,
            old(visited)@.len() == self.spec_max_node() + 1,
            forall|v: int|
                0 <= v < old(visited)@.len() && old(visited)@[v] ==> reachable(
                    *self,
                    0,
                    v as NodeIndex,
                ),
            *old(num_visited) == visited_set(old(visited)@).len(),
        ensures
            final(visited)@.len() == old(visited)@.len(),
            forall|v: int| 0 <= v < old(visited)@.len() && old(visited)@[v] ==> final(visited)@[v],
            forall|v: int|
                0 <= v < final(visited)@.len() && final(visited)@[v] ==> reachable(
                    *self,
                    0,
                    v as NodeIndex,
                ),
            *final(num_visited) == visited_set(final(visited)@).len(),
            changed ==> *final(num_visited) > *old(num_visited),
            !changed ==> final(visited)@ == old(visited)@ && closed_under_records(
                *self,
                old(visited)@,
            ),
    {
        let mut changed = false;
        let m = self.edge_count();
        let mut t: usize = 0;
        while t < m
            invariant
                self.wf(),
                self.spec_max_node() < usize::MAX,
                old(visited)@.len() == self.spec_max_node() + 1,
                visited@.len() == old(visited)@.len(),
                m == self.edges().len(),
                t <= m,
                forall|v: int| 0 <= v < old(visited)@.len() && old(visited)@[v] ==> visited@[v],
                forall|v: int|
                    0 <= v < visited@.len() && visited@[v] ==> reachable(*self, 0, v as NodeIndex),
                *old(num_visited) == visited_set(old(visited)@).len(),
                *num_visited == visited_set(visited@).len(),
                changed ==> *num_visited > *old(num_visited),
                !changed ==> visited@ == old(visited)@,
                !changed ==> forall|i: int|
                    0 <= i < t && old(visited)@[(#[trigger] self.edges()[i]).0 as int] ==> old(
                        visited,
                    )@[self.edges()[i].1 as int],
            decreases m - t,
        {
            let e = self.edge_at(t);
            let u = e.0;
            let v = e.1;
            proof {
                assert(u <= self.spec_max_node() && v <= self.spec_max_node());
            }
            if visited[u] && !visited[v] {
                let ghost vpre = visited@;
                visited.set(v, true);
                proof {
                    lemma_visited_set_bound(vpre);
                    lemma_int_range(0, vpre.len() as int);
                    assert(!visited_set(vpre).contains(v as int));
                    visited_set(vpre).lemma_subset_not_in_lt(
                        set_int_range(0, vpre.len() as int),
                        v as int,
                    );
                    assert(visited_set(visited@) =~= visited_set(vpre).insert(v as int));
                    // the new node is reachable: its source is, and the
                    // record at t connects them
                    assert(record_links(self.edges(), t as int, u, v));
                    assert(self.spec_connected(u, v));
                    lemma_reachable_step(*self, u, v);
                    lemma_reachable_trans(*self, 0, u, v);
                }
                *num_visited = *num_visited + 1;
                changed = true;
            }
            t = t + 1;
        }
        changed
    }

    /// Whether the whole graph is one connected component: every addressable
    /// node reachable from node 0. Decided by marking nodes until no record
    /// leads out of the marked region.
    pub fn graph_connected(&self) -> (r: bool)
        requires
            self.wf(),
            self.spec_max_node() < usize::MAX,
        ensures
            r == self.spec_graph_connected(),
    {
        let n = self.len();
        let mut visited: Vec<bool> = Vec::new();
        let mut i: usize = 0;
        while i < n
            invariant
                i <= n,
                visited@.len() == i,
                forall|j: int| 0 <= j < i ==> !(#[trigger] visited@[j]),
            decreases n - i,
        {
            visited.push(false);
            i = i + 1;
        }
        proof {
            assert(visited_set(visited@) =~= Set::<int>::empty());
        }
        let ghost v0 = visited@;
        visited.set(0, true);
        proof {
            assert(visited_set(visited@) =~= visited_set(v0).insert(0));
            lemma_visited_set_bound(v0);
            lemma_reachable_refl(*self, 0);
        }
        let mut num_visited: usize = 1;
        loop
            invariant
                self.wf(),
                self.spec_max_node() < usize::MAX,
                visited@.len() == self.spec_max_node() + 1,
                visited@[0],
                num_visited == visited_set(visited@).len(),
                num_visited <= visited@.len(),
                forall|v: int|
                    0 <= v < visited@.len() && visited@[v] ==> reachable(*self, 0, v as NodeIndex),
            ensures
                visited@.len() == self.spec_max_node() + 1,
                visited@[0],
                num_visited == visited_set(visited@).len(),
                forall|v: int|
                    0 <= v < visited@.len() && visited@[v] ==> reachable(*self, 0, v as NodeIndex),
                closed_under_records(*self, visited@),
            decreases visited@.len() - num_visited,
        {
            let changed = self.relax_pass(&mut visited, &mut num_visited);
            proof {
                lemma_visited_set_bound(visited@);
            }
            if !changed {
                break;
            }
        }
        if num_visited == n {
            proof {
                assert forall|b: NodeIndex| b <= self.spec_max_node() implies #[trigger] reachable(
                    *self,
                    0,
                    b,
                ) by {
                    if !visited@[b as int] {
                        lemma_visited_set_bound(visited@);
                        lemma_int_range(0, visited@.len() as int);
                        visited_set(visited@).lemma_subset_not_in_lt(
                            set_int_range(0, visited@.len() as int),
                            b as int,
                        );
                    }
                }
            }
            true
        } else {
            proof {
                assert(exists|v: int| 0 <= v < visited@.len() && !visited@[v]) by {
                    if forall|v: int| 0 <= v < visited@.len() ==> visited@[v] {
                        assert(visited_set(visited@) =~= set_int_range(
                            0,
                            visited@.len() as int,
                        ));
                        lemma_int_range(0, visited@.len() as int);
                    }
                }
                let b = choose|v: int| 0 <= v < visited@.len() && !visited@[v];
                if reachable(*self, 0, b as NodeIndex) {
                    lemma_closure_complete(*self, visited@, b as NodeIndex);
                }
                assert(!reachable(*self, 0, b as NodeIndex));
                assert(b as NodeIndex <= self.spec_max_node());
            }
            false
        }
    }
}

} // verus!
