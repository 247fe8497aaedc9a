//! Randomly connected graphs: a uniformly shuffled visiting order of all
//! nodes, joined into a spanning chain with uniformly drawn weights.

use vstd::prelude::*;
use vstd::seq_lib::group_to_multiset_ensures;

use rand::distributions::Distribution;
use rand::distributions::Uniform;
use rand::rngs::SmallRng;
use rand::seq::SliceRandom;

use crate::connectivity::chain_connects;
use crate::connectivity::is_node_order;
use crate::connectivity::lemma_chain_reachable;
use crate::connectivity::reachable;
use crate::graph::same_pair;
use crate::graph::AdjList;
use crate::graph::EdgeRecord;
use crate::graph::NodeIndex;
use crate::graph::Weight;

verus! {

/// Smallest weight the generator draws.
pub const MIN_WEIGHT: Weight = 1;

/// Largest weight the generator draws.
pub const MAX_WEIGHT: Weight = 20;

#[verifier::external_type_specification]
#[verifier::external_body]
pub struct ExSmallRng(SmallRng);

/// Relies on rand's `SliceRandom::shuffle`: a Fisher-Yates pass of swaps
/// that rearranges the slice in place, so the elements held are unchanged
/// as a multiset.
#[verifier::external_body]
fn shuffle_nodes(v: &mut Vec<NodeIndex>, rng: &mut SmallRng)
    ensures
        final(v)@.to_multiset() == old(v)@.to_multiset(),
{
    v.shuffle(rng);
}

/// Relies on rand's `Uniform::from` over an inclusive range and
/// `Distribution::sample`: the draw lies between the two bounds.
#[verifier::external_body]
fn sample_weight(lo: Weight, hi: Weight, rng: &mut SmallRng) -> (w: Weight)
    requires
        lo <= hi,
    ensures
        lo <= w <= hi,
{
    Uniform::from(lo..=hi).sample(rng)
}

/// The records laid down by joining consecutive entries of `order` with the
/// weights of `ws`, in insertion order: two records per connection.
pub open spec fn chain_edges(order: Seq<NodeIndex>, ws: Seq<Weight>) -> Seq<EdgeRecord>
    decreases ws.len(),
{
    if ws.len() == 0 {
        Seq::empty()
    } else {
        let k = ws.len() - 1;
        chain_edges(order, ws.drop_last()).push((order[k], order[k + 1], ws[k])).push(
            (order[k + 1], order[k], ws[k]),
        )
    }
}

/// `{a, b}` is one of the first `m` consecutive pairs of `order`.
pub open spec fn chain_pair_upto(
    order: Seq<NodeIndex>,
    m: int,
    a: NodeIndex,
    b: NodeIndex,
) -> bool {
    exists|k: int| 0 <= k < m && #[trigger] same_pair(a, b, order[k], order[k + 1])
}

/// The chain construction is deterministic: `from_spanning_order` pins its
/// records to `chain_edges` of the inputs alone, so two graphs built from
/// equal orders and weights hold identical edge lists. Randomly connected
/// graphs therefore differ only through what the random source supplied.
pub proof fn lemma_chain_deterministic(
    g1: AdjList,
    g2: AdjList,
    order: Seq<NodeIndex>,
    ws: Seq<Weight>,
)
    requires
        g1.edges() == chain_edges(order, ws),
        g2.edges() == chain_edges(order, ws),
    ensures
        g1.edges() == g2.edges(),
{
}

impl AdjList {
    /// Joins consecutive entries of `order` — a visiting order of all the
    /// nodes — into a spanning chain with the given weights. The result is
    /// exactly that chain: nothing else is connected.
    pub fn from_spanning_order(order: &Vec<NodeIndex>, weights: &Vec<Weight>) -> (g: AdjList)
        requires
            order@.len() >= 1,
            weights@.len() == order@.len() - 1,
            order@.no_duplicates(),
            forall|i: int| 0 <= i < order@.len() ==> (#[trigger] order@[i]) < order@.len(),
        ensures
            g.wf(),
            g.spec_max_node() == order@.len() - 1,
            g.edges() == chain_edges(order@, weights@),
            g.edges().len() == 2 * weights@.len(),
            forall|a: NodeIndex, b: NodeIndex|
                #[trigger] g.spec_connected(a, b) <==> chain_pair_upto(
                    order@,
                    weights@.len() as int,
                    a,
                    b,
                ),
            forall|j: int|
                0 <= j < weights@.len() ==> #[trigger] g.spec_distance(order@[j], order@[j + 1])
                    == weights@[j],
            chain_connects(g, order@),
    {
        let n = order.len();
        let m = weights.len();
        let mut g = AdjList::new();
        g.add_node(n - 1);
        proof {
            assert(weights@.take(0) =~= Seq::<Weight>::empty());
        }
        let mut k: usize = 0;
        while k < m
            invariant
                n == order@.len(),
                m == weights@.len(),
                n >= 1,
                m == n - 1,
                order@.no_duplicates(),
                forall|i: int| 0 <= i < order@.len() ==> (#[trigger] order@[i]) < order@.len(),
                k <= m,
                g.wf(),
                g.spec_max_node() == n - 1,
                g.edges() == chain_edges(order@, weights@.take(k as int)),
                g.edges().len() == 2 * k,
                forall|a: NodeIndex, b: NodeIndex|
                    #[trigger] g.spec_connected(a, b) <==> chain_pair_upto(order@, k as int, a, b),
                forall|j: int|
                    0 <= j < k ==> #[trigger] g.spec_distance(order@[j], order@[j + 1])
                        == weights@[j],
            decreases m - k,
        {
            let ghost gpre = g;
            let ghost o = order@;
            let ghost ws = weights@;
            let ghost ki = k as int;
            let n1 = order[k];
            let n2 = order[k + 1];
            let w = weights[k];
            proof {
                // the new pair is fresh: its nodes are distinct and no earlier
                // chain pair uses both, by distinctness of the order
                assert(n1 != n2) by {
                    if o[ki] == o[ki + 1] {
                        assert(false);
                    }
                }
                assert(!gpre.spec_connected(n1, n2)) by {
                    if gpre.spec_connected(n1, n2) {
                        let j = choose|j: int|
                            0 <= j < ki && #[trigger] same_pair(n1, n2, o[j], o[j + 1]);
                        if o[j] == o[ki] {
                            assert(j == ki);
                        } else {
                            assert(o[j] == o[ki + 1] && o[j + 1] == o[ki]);
                            assert(j == ki + 1 && j + 1 == ki);
                        }
                    }
                }
            }
            g.connect(n1, n2, w);
            k = k + 1;
            proof {
                let kj = k as int;
                // the two appended records extend the chain prefix
                assert(ws.take(kj).drop_last() =~= ws.take(ki));
                assert(ws.take(kj).last() == ws[ki]);
                assert(g.edges() =~= chain_edges(o, ws.take(kj)));
                // the connected pairs are now the chain pairs below k
                assert forall|a: NodeIndex, b: NodeIndex| #[trigger]
                    g.spec_connected(a, b) <==> chain_pair_upto(o, kj, a, b) by {
                    if same_pair(a, b, n1, n2) {
                        g.lemma_pair_symmetric(n1, n2);
                        assert(g.spec_connected(a, b));
                        assert(same_pair(a, b, o[ki], o[ki + 1]));
                        assert(chain_pair_upto(o, kj, a, b));
                    } else {
                        if chain_pair_upto(o, kj, a, b) {
                            let j = choose|j: int|
                                0 <= j < kj && #[trigger] same_pair(a, b, o[j], o[j + 1]);
                            if j == ki {
                                assert(same_pair(a, b, n1, n2));
                            }
                            assert(chain_pair_upto(o, ki, a, b));
                        }
                        if chain_pair_upto(o, ki, a, b) {
                            let j = choose|j: int|
                                0 <= j < ki && #[trigger] same_pair(a, b, o[j], o[j + 1]);
                            assert(chain_pair_upto(o, kj, a, b));
                        }
                    }
                }
                // earlier weights are untouched, the new one is in place
                assert forall|j: int|
                    0 <= j < kj implies #[trigger] g.spec_distance(o[j], o[j + 1]) == ws[j] by {
                    if j == ki {
                    } else {
                        assert(!same_pair(o[j], o[j + 1], n1, n2)) by {
                            if o[j] == o[ki] {
                                assert(j == ki);
                            } else if o[j] == o[ki + 1] {
                                assert(j == ki + 1);
                                assert(o[j + 1] == o[ki]);
                            }
                        }
                        assert(same_pair(o[j], o[j + 1], o[j], o[j + 1]));
                        assert(chain_pair_upto(o, ki, o[j], o[j + 1]));
                        assert(gpre.spec_connected(o[j], o[j + 1]));
                    }
                }
            }
        }
        proof {
            assert(weights@.take(m as int) =~= weights@);
            assert forall|j: int| 0 <= j < order@.len() - 1 implies #[trigger] g.spec_connected(
                order@[j],
                order@[j + 1],
            ) by {
                assert(same_pair(order@[j], order@[j + 1], order@[j], order@[j + 1]));
                assert(chain_pair_upto(order@, m as int, order@[j], order@[j + 1]));
            }
        }
        g
    }

    /// A randomly connected graph on `num_nodes` nodes: a uniformly random
    /// spanning chain with weights drawn from `[MIN_WEIGHT, MAX_WEIGHT]`.
    /// Every node is reachable from every other, and exactly `num_nodes - 1`
    /// undirected connections (two records each) are laid down — the minimum
    /// for a connected graph; no further edges are added beyond the chain.
    pub fn random_connected(num_nodes: usize, rng: &mut SmallRng) -> (g: AdjList)
        requires
            num_nodes >= 1,
        ensures
            g.wf(),
            g.spec_len() == num_nodes,
            g.edges().len() == 2 * (num_nodes - 1),
            exists|order: Seq<NodeIndex>|
                #[trigger] is_node_order(order, num_nodes as nat) && chain_connects(g, order),
            forall|a: NodeIndex, b: NodeIndex|
                a < num_nodes && b < num_nodes ==> #[trigger] reachable(g, a, b),
            forall|a: NodeIndex, b: NodeIndex|
                #[trigger] g.spec_connected(a, b) ==> MIN_WEIGHT <= g.spec_distance(a, b)
                    <= MAX_WEIGHT,
    {
        let mut order: Vec<NodeIndex> = Vec::new();
        let mut i: usize = 0;
        while i < num_nodes
            invariant
                i <= num_nodes,
                order@.len() == i,
                forall|j: int| 0 <= j < i ==> (#[trigger] order@[j]) == j,
            decreases num_nodes - i,
        {
            order.push(i);
            i = i + 1;
        }
        let ghost before = order@;
        shuffle_nodes(&mut order, rng);
        proof {
            broadcast use group_to_multiset_ensures;

            // the shuffle keeps the elements: still all of [0, num_nodes),
            // each exactly once
            assert(before.no_duplicates());
            before.lemma_multiset_has_no_duplicates();
            assert(order@.len() == num_nodes) by {
                assert(order@.to_multiset().len() == before.to_multiset().len());
            }
            assert forall|x: NodeIndex| order@.to_multiset().contains(x) implies order@.to_multiset().count(
                x,
            ) == 1 by {
                assert(before.to_multiset().contains(x));
            }
            order@.lemma_multiset_has_no_duplicates_conv();
            assert forall|j: int| 0 <= j < order@.len() implies (#[trigger] order@[j])
                < num_nodes by {
                assert(order@.contains(order@[j]));
                assert(order@.to_multiset().count(order@[j]) > 0);
                assert(before.to_multiset().count(order@[j]) > 0);
                assert(before.contains(order@[j]));
                let idx = choose|idx: int| 0 <= idx < before.len() && before[idx] == order@[j];
                assert(before[idx] == idx);
            }
            assert(is_node_order(order@, num_nodes as nat));
        }
        let mut weights: Vec<Weight> = Vec::new();
        let mut k: usize = 0;
        while k < num_nodes - 1
            invariant
                num_nodes >= 1,
                k <= num_nodes - 1,
                weights@.len() == k,
                forall|j: int|
                    0 <= j < k ==> MIN_WEIGHT <= (#[trigger] weights@[j]) <= MAX_WEIGHT,
            decreases num_nodes - 1 - k,
        {
            let w = sample_weight(MIN_WEIGHT, MAX_WEIGHT, rng);
            weights.push(w);
            k = k + 1;
        }
        let g = AdjList::from_spanning_order(&order, &weights);
        proof {
            lemma_chain_reachable(g, order@, num_nodes as nat);
            assert forall|a: NodeIndex, b: NodeIndex| #[trigger]
                g.spec_connected(a, b) implies MIN_WEIGHT <= g.spec_distance(a, b)
                <= MAX_WEIGHT by {
                let o = order@;
                let j = choose|j: int|
                    0 <= j < weights@.len() && #[trigger] same_pair(a, b, o[j], o[j + 1]);
                assert(same_pair(a, b, o[j], o[j + 1]));
                g.lemma_pair_symmetric(o[j], o[j + 1]);
                if a == o[j] && b == o[j + 1] {
                } else {
                    assert(a == o[j + 1] && b == o[j]);
                    assert(g.spec_distance(a, b) == g.spec_distance(o[j], o[j + 1]));
                }
            }
        }
        g
    }
}

} // verus!
