use vstd::prelude::*;
use vstd::multiset::Multiset;
use petgraph::graph::NodeIndex;
use petgraph::stable_graph::{StableDiGraph, StableGraph};
use crate::ocdg::Ocdg;

verus! {

#[verifier::external_type_specification]
#[verifier::external_body]
#[verifier::reject_recursive_types(N)]
#[verifier::reject_recursive_types(E)]
#[verifier::reject_recursive_types(Ty)]
#[verifier::reject_recursive_types(Ix)]
pub struct ExStableGraph<N, E, Ty, Ix>(StableGraph<N, E, Ty, Ix>);

#[verifier::external_type_specification]
#[verifier::external_body]
pub struct ExDirected(petgraph::Directed);

#[verifier::external_type_specification]
#[verifier::external_body]
#[verifier::reject_recursive_types(Ix)]
pub struct ExNodeIndex<Ix>(NodeIndex<Ix>);

/// The weights of the nodes of a graph, by the position of their index.
pub uninterp spec fn node_weights(g: StableDiGraph<usize, usize>) -> Map<usize, usize>;

/// The edges of a graph, each as the pair of the weights of its endpoints.
pub uninterp spec fn edge_pairs(g: StableDiGraph<usize, usize>) -> Multiset<(usize, usize)>;

/// The position of a node index.
pub uninterp spec fn node_pos(n: NodeIndex) -> usize;

/// Relies on StableGraph::new: a graph without nodes and without edges.
#[verifier::external_body]
fn net_new() -> (r: StableDiGraph<usize, usize>)
    ensures
        node_weights(r).dom().finite(),
        node_weights(r).dom().len() == 0,
        edge_pairs(r) =~= Multiset::empty(),
{
    StableDiGraph::new()
}

/// Relies on StableGraph::add_node: the new node's index has a position that
/// no node of the graph has, and the edges stay. It panics only when the graph
/// already holds `u32::MAX` node slots, none of them vacant.
#[verifier::external_body]
fn net_add_node(g: &mut StableDiGraph<usize, usize>, weight: usize) -> (r: NodeIndex)
    requires
        node_weights(*old(g)).dom().finite(),
        node_weights(*old(g)).dom().len() < u32::MAX,
    ensures
        !node_weights(*old(g)).dom().contains(node_pos(r)),
        node_weights(*final(g)) == node_weights(*old(g)).insert(node_pos(r), weight),
        edge_pairs(*final(g)) == edge_pairs(*old(g)),
{
    g.add_node(weight)
}

/// Relies on StableGraph::add_edge: one more edge from the node `a` to the node
/// `b`, and the nodes stay. It panics when `a` or `b` is not a node, or when
/// the graph already holds `u32::MAX` edge slots, none of them vacant.
#[verifier::external_body]
fn net_add_edge(g: &mut StableDiGraph<usize, usize>, a: NodeIndex, b: NodeIndex)
    requires
        node_weights(*old(g)).dom().contains(node_pos(a)),
        node_weights(*old(g)).dom().contains(node_pos(b)),
        edge_pairs(*old(g)).len() < u32::MAX,
    ensures
        node_weights(*final(g)) == node_weights(*old(g)),
        edge_pairs(*final(g)) == edge_pairs(*old(g)).insert(
            (node_weights(*old(g))[node_pos(a)], node_weights(*old(g))[node_pos(b)]),
        ),
{
    g.add_edge(a, b, 0);
}

/// Some node of the graph with these node weights has the weight `o`.
pub open spec fn has_node_weight(weights: Map<usize, usize>, o: usize) -> bool {
    exists|p: usize| weights.dom().contains(p) && #[trigger] weights[p] == o
}

/// The graph's adjacency as a petgraph graph, for traversals: one node for
/// each node of `g`, weighted by its object id, and one edge for each pair of
/// `net`, from the source's node to the target's.
pub fn to_stable_graph(g: &Ocdg) -> (r: StableDiGraph<usize, usize>)
    requires
        g.wf(),
        g.node_attributes.len() < u32::MAX,
        g.net.len() < u32::MAX,
    ensures
        forall|p: usize| #[trigger] node_weights(r).dom().contains(p) ==> g.is_node(node_weights(r)[p]),
        forall|o: usize| #[trigger] g.is_node(o) ==> has_node_weight(node_weights(r), o),
        forall|p: usize, q: usize|
            #[trigger] node_weights(r).dom().contains(p) && #[trigger] node_weights(r).dom().contains(q)
                && p != q ==> node_weights(r)[p] != node_weights(r)[q],
        edge_pairs(r) == g.net@.to_multiset(),
{
    let mut net = net_new();
    let mut index: Vec<Option<NodeIndex>> = Vec::new();
    let mut o: usize = 0;
    while o < g.node_attributes.len()
        invariant
            g.node_attributes.len() < u32::MAX,
            o <= g.node_attributes.len(),
            index.len() == o,
            node_weights(net).dom().finite(),
            node_weights(net).dom().len() <= o,
            edge_pairs(net) =~= Multiset::empty(),
            forall|q: int| 0 <= q < o ==> ((#[trigger] index@[q]) is Some <==> g.is_node(q as usize)),
            forall|q: int|
                0 <= q < o && (#[trigger] index@[q]) is Some ==> node_weights(net).dom().contains(
                    node_pos(index@[q]->Some_0),
                ) && node_weights(net)[node_pos(index@[q]->Some_0)] == q,
            forall|p: usize|
                #[trigger] node_weights(net).dom().contains(p) ==> node_weights(net)[p] < o && index@[node_weights(net)[p] as int] is Some
                    && node_pos(index@[node_weights(net)[p] as int]->Some_0) == p,
        decreases g.node_attributes.len() - o,
    {
        let ghost w0 = node_weights(net);
        if g.node_attributes[o].is_some() {
            let n = net_add_node(&mut net, o);
            index.push(Some(n));
            proof {
                assert(w0.insert(node_pos(n), o).dom() =~= w0.dom().insert(node_pos(n)));
                assert forall|q: int|
                    0 <= q < o + 1 && (#[trigger] index@[q]) is Some implies node_weights(net).dom().contains(
                        node_pos(index@[q]->Some_0),
                    ) && node_weights(net)[node_pos(index@[q]->Some_0)] == q by {
                    if q < o {
                        assert(w0.dom().contains(node_pos(index@[q]->Some_0)));
                    }
                }
                assert forall|p: usize|
                    #[trigger] node_weights(net).dom().contains(p) implies node_weights(net)[p] < o + 1 && index@[node_weights(net)[p] as int] is Some
                        && node_pos(index@[node_weights(net)[p] as int]->Some_0) == p by {
                    if p != node_pos(n) {
                        assert(w0.dom().contains(p));
                    }
                }
            }
        } else {
            index.push(None);
        }
        o = o + 1;
    }
    proof {
        let empty = g.net@.subrange(0, 0);
        assert(empty.len() == 0);
        empty.to_multiset_ensures();
        assert(empty.to_multiset() =~= Multiset::empty());
    }
    let mut i: usize = 0;
    while i < g.net.len()
        invariant
            g.wf(),
            g.net.len() < u32::MAX,
            i <= g.net.len(),
            index.len() == g.node_attributes.len(),
            forall|q: int| 0 <= q < index.len() ==> ((#[trigger] index@[q]) is Some <==> g.is_node(q as usize)),
            forall|q: int|
                0 <= q < index.len() && (#[trigger] index@[q]) is Some ==> node_weights(net).dom().contains(
                    node_pos(index@[q]->Some_0),
                ) && node_weights(net)[node_pos(index@[q]->Some_0)] == q,
            forall|p: usize|
                #[trigger] node_weights(net).dom().contains(p) ==> index@[node_weights(net)[p] as int] is Some
                    && node_pos(index@[node_weights(net)[p] as int]->Some_0) == p && node_weights(net)[p] < index.len(),
            edge_pairs(net) == g.net@.subrange(0, i as int).to_multiset(),
        decreases g.net.len() - i,
    {
        let (s, t) = g.net[i];
        proof {
            assert(g.net@.contains((s, t)));
            assert(g.related(s, t));
            let j = choose|j: int| 0 <= j < g.irels.len() && (#[trigger] g.irels@[j]).source == s && g.irels@[j].target == t;
            assert(g.is_node(g.irels@[j].source));
            g.net@.subrange(0, i as int).to_multiset_ensures();
        }
        match (index[s], index[t]) {
            (Some(a), Some(b)) => {
                let ghost e0 = edge_pairs(net);
                net_add_edge(&mut net, a, b);
                proof {
                    assert(g.net@.subrange(0, i + 1) =~= g.net@.subrange(0, i as int).push((s, t)));
                    g.net@.subrange(0, i as int).to_multiset_ensures();
                }
            },
            _ => {
                proof {
                    assert(false);
                }
            },
        }
        i = i + 1;
    }
    proof {
        assert(g.net@.subrange(0, g.net.len() as int) =~= g.net@);
        assert forall|p: usize| #[trigger] node_weights(net).dom().contains(p) implies g.is_node(node_weights(net)[p]) by {
            let w = node_weights(net)[p];
            assert(index@[w as int] is Some);
        }
        assert forall|o2: usize| #[trigger] g.is_node(o2) implies has_node_weight(node_weights(net), o2) by {
            assert(index@[o2 as int] is Some);
            let p = node_pos(index@[o2 as int]->Some_0);
            assert(node_weights(net).dom().contains(p) && node_weights(net)[p] == o2);
        }
    }
    net
}

} // verus!
