//! The undirected graph that fixes port numbers. Edges are stored by
//! petgraph; the port order of a vertex is the reverse of the order in which
//! petgraph walks the vertex's edges.
use vstd::prelude::*;

use crate::network::{degree, has_self_loop, normalized};

use petgraph::graph::NodeIndex;
use petgraph::visit::EdgeRef;

verus! {

#[verifier::external_type_specification]
#[verifier::external_body]
#[verifier::reject_recursive_types(N)]
#[verifier::reject_recursive_types(E)]
#[verifier::reject_recursive_types(Ty)]
#[verifier::reject_recursive_types(Ix)]
pub struct ExGraph<N, E, Ty, Ix>(petgraph::Graph<N, E, Ty, Ix>);

#[verifier::external_type_specification]
#[verifier::external_body]
pub struct ExUndirected(petgraph::Undirected);

/// The undirected graph of the network, without weights.
pub type Network = petgraph::Graph<(), (), petgraph::Undirected, u32>;

/// The edges of a graph as `(source, target)` pairs, in insertion order.
pub uninterp spec fn graph_edges(g: petgraph::Graph<(), (), petgraph::Undirected, u32>) -> Seq<(u32, u32)>;

/// The graph was built by `Graph::new_undirected`, `Graph::add_node` and
/// `Graph::add_edge` alone, so every edge sits in its ends' adjacency chains
/// in the order it was added.
pub uninterp spec fn graph_appended_only(g: petgraph::Graph<(), (), petgraph::Undirected, u32>) -> bool;

/// The number of vertices of a graph.
pub uninterp spec fn graph_node_count(g: petgraph::Graph<(), (), petgraph::Undirected, u32>) -> nat;

/// The edges whose source is `v`, in insertion order, as
/// `(edge index, target)`.
pub open spec fn out_edges(es: Seq<(u32, u32)>, v: u32) -> Seq<(u32, u32)>
    decreases es.len(),
{
    if es.len() == 0 {
        Seq::empty()
    } else {
        let rest = out_edges(es.drop_last(), v);
        if es.last().0 == v {
            rest.push(((es.len() - 1) as u32, es.last().1))
        } else {
            rest
        }
    }
}

/// The edges whose target is `v` (other than loops), in insertion order, as
/// `(edge index, source)`.
pub open spec fn in_edges(es: Seq<(u32, u32)>, v: u32) -> Seq<(u32, u32)>
    decreases es.len(),
{
    if es.len() == 0 {
        Seq::empty()
    } else {
        let rest = in_edges(es.drop_last(), v);
        if es.last().1 == v && es.last().0 != v {
            rest.push(((es.len() - 1) as u32, es.last().0))
        } else {
            rest
        }
    }
}

/// The order in which petgraph visits the edges of `v` in an undirected
/// graph: the chain of edges leaving `v`, newest first, then the chain of
/// edges entering `v`, newest first, each as `(edge index, other end)`.
pub open spec fn petgraph_walk(es: Seq<(u32, u32)>, v: u32) -> Seq<(u32, u32)> {
    out_edges(es, v).reverse() + in_edges(es, v).reverse()
}

/// The ports of `v`, port 1 first, as `(edge index, neighbour)`: the edges
/// entering `v` and then those leaving it, each in insertion order.
pub open spec fn port_list(es: Seq<(u32, u32)>, v: u32) -> Seq<(u32, u32)> {
    in_edges(es, v) + out_edges(es, v)
}

/// Relies on `Graph::new_undirected`: a graph without vertices and edges.
#[verifier::external_body]
pub(crate) fn new_network() -> (g: Network)
    ensures
        graph_edges(g) == Seq::<(u32, u32)>::empty(),
        graph_node_count(g) == 0,
        graph_appended_only(g),
{
    petgraph::Graph::new_undirected()
}

/// Relies on `Graph::add_node`: appends a vertex and returns its index. It
/// panics when the index would reach `u32::MAX`.
#[verifier::external_body]
pub(crate) fn add_vertex(g: &mut Network) -> (i: u32)
    requires
        graph_node_count(*old(g)) < u32::MAX,
        graph_appended_only(*old(g)),
    ensures
        graph_appended_only(*final(g)),
        graph_node_count(*final(g)) == graph_node_count(*old(g)) + 1,
        graph_edges(*final(g)) == graph_edges(*old(g)),
        i == graph_node_count(*old(g)),
{
    g.add_node(()).index() as u32
}

/// Relies on `Graph::add_edge`: appends the edge `(a, b)` and returns its
/// index. It panics on a missing vertex or when the index would reach
/// `u32::MAX`.
#[verifier::external_body]
pub(crate) fn add_link(g: &mut Network, a: u32, b: u32) -> (e: u32)
    requires
        a < graph_node_count(*old(g)),
        b < graph_node_count(*old(g)),
        graph_edges(*old(g)).len() < u32::MAX,
        graph_appended_only(*old(g)),
    ensures
        graph_appended_only(*final(g)),
        graph_edges(*final(g)) == graph_edges(*old(g)).push((a, b)),
        graph_node_count(*final(g)) == graph_node_count(*old(g)),
        e == graph_edges(*old(g)).len(),
{
    g.add_edge(NodeIndex::new(a as usize), NodeIndex::new(b as usize), ()).index() as u32
}

/// Relies on `Graph::edges` of an undirected graph: the edges of `v` as
/// `(edge index, other end)`, in the order of petgraph's adjacency chains,
/// which for a graph built only by adding is newest first.
#[verifier::external_body]
pub(crate) fn incident_edges(g: &Network, v: u32) -> (r: Vec<(u32, u32)>)
    requires
        v < graph_node_count(*g),
        graph_appended_only(*g),
    ensures
        r@ == petgraph_walk(graph_edges(*g), v),
{
    g.edges(NodeIndex::new(v as usize)).map(|e| (e.id().index() as u32, e.target().index() as u32)).collect()
}

/// The ports of `v` in order, as `(edge index, neighbour)`.
pub(crate) fn port_order(g: &Network, v: u32) -> (r: Vec<(u32, u32)>)
    requires
        v < graph_node_count(*g),
        graph_appended_only(*g),
    ensures
        r@ == port_list(graph_edges(*g), v),
{
    let w = incident_edges(g, v);
    let ghost o = out_edges(graph_edges(*g), v);
    let ghost i_ = in_edges(graph_edges(*g), v);
    let n = w.len();
    let mut r: Vec<(u32, u32)> = Vec::new();
    let mut k: usize = 0;
    while k < n
        invariant
            n == w.len(),
            w@ == o.reverse() + i_.reverse(),
            k <= n,
            r.len() == k,
            forall|j: int| 0 <= j < k ==> r@[j] == w@[n - 1 - j],
        decreases n - k,
    {
        r.push(w[n - 1 - k]);
        k = k + 1;
    }
    assert(r@ =~= i_ + o);
    r
}

/// Each endpoint of an edge lists it among its ports.
pub proof fn lemma_edge_in_ports(es: Seq<(u32, u32)>, i: int)
    requires
        0 <= i < es.len() <= u32::MAX,
        es[i].0 != es[i].1,
    ensures
        out_edges(es, es[i].0).contains((i as u32, es[i].1)),
        in_edges(es, es[i].1).contains((i as u32, es[i].0)),
    decreases es.len(),
{
    let last = es.len() - 1;
    if i == last {
        let o = out_edges(es.drop_last(), es[i].0);
        let n = in_edges(es.drop_last(), es[i].1);
        assert(o.push((i as u32, es[i].1))[o.len() as int] == (i as u32, es[i].1));
        assert(n.push((i as u32, es[i].0))[n.len() as int] == (i as u32, es[i].0));
    } else {
        assert(es.drop_last()[i] == es[i]);
        lemma_edge_in_ports(es.drop_last(), i);
        let o = out_edges(es.drop_last(), es[i].0);
        let n = in_edges(es.drop_last(), es[i].1);
        let ko = choose|k: int| 0 <= k < o.len() && o[k] == (i as u32, es[i].1);
        let kn = choose|k: int| 0 <= k < n.len() && n[k] == (i as u32, es[i].0);
        assert(out_edges(es, es[i].0)[ko] == (i as u32, es[i].1));
        assert(in_edges(es, es[i].1)[kn] == (i as u32, es[i].0));
    }
}

/// Each port of `v` is an edge of `v`, listed with its other end.
pub proof fn lemma_port_entry(es: Seq<(u32, u32)>, v: u32, k: int)
    requires
        0 <= k < port_list(es, v).len(),
        es.len() <= u32::MAX,
    ensures
        0 <= port_list(es, v)[k].0 < es.len(),
        ({
            let (e, w) = port_list(es, v)[k];
            (es[e as int].0 == v && es[e as int].1 == w) || (es[e as int].1 == v && es[e as int].0 == w
                && w != v)
        }),
    decreases es.len(),
{
    let rest = es.drop_last();
    let i = in_edges(es, v);
    let o = out_edges(es, v);
    let ri = in_edges(rest, v);
    let ro = out_edges(rest, v);
    let last = (es.len() - 1) as u32;
    if k < i.len() {
        if k < ri.len() {
            assert(port_list(rest, v)[k] == ri[k]);
            lemma_port_entry(rest, v, k);
            assert(rest[ri[k].0 as int] == es[ri[k].0 as int]);
        }
    } else {
        let j = k - i.len();
        if j < ro.len() {
            assert(port_list(rest, v)[ri.len() + j] == ro[j]);
            lemma_port_entry(rest, v, ri.len() + j);
            assert(rest[ro[j].0 as int] == es[ro[j].0 as int]);
        }
    }
}

/// The edges entering `v`, in increasing order of index.
pub proof fn lemma_in_edges(es: Seq<(u32, u32)>, v: u32)
    requires
        es.len() <= u32::MAX,
    ensures
        forall|a: int|
            0 <= a < in_edges(es, v).len() ==> {
                let (e, w) = #[trigger] in_edges(es, v)[a];
                &&& (e as int) < es.len()
                &&& es[e as int].1 == v
                &&& es[e as int].0 == w
                &&& w != v
            },
        forall|a: int, b: int|
            0 <= a < b < in_edges(es, v).len() ==> #[trigger] in_edges(es, v)[a].0 < #[trigger] in_edges(
                es,
                v,
            )[b].0,
    decreases es.len(),
{
    if es.len() > 0 {
        let rest = es.drop_last();
        lemma_in_edges(rest, v);
        assert forall|a: int| 0 <= a < in_edges(rest, v).len() implies rest[in_edges(rest, v)[a].0 as int]
            == es[in_edges(rest, v)[a].0 as int] by {}
    }
}

/// The edges leaving `v`, in increasing order of index.
pub proof fn lemma_out_edges(es: Seq<(u32, u32)>, v: u32)
    requires
        es.len() <= u32::MAX,
    ensures
        forall|a: int|
            0 <= a < out_edges(es, v).len() ==> {
                let (e, w) = #[trigger] out_edges(es, v)[a];
                &&& (e as int) < es.len()
                &&& es[e as int].0 == v
                &&& es[e as int].1 == w
            },
        forall|a: int, b: int|
            0 <= a < b < out_edges(es, v).len() ==> #[trigger] out_edges(es, v)[a].0 < #[trigger] out_edges(
                es,
                v,
            )[b].0,
    decreases es.len(),
{
    if es.len() > 0 {
        let rest = es.drop_last();
        lemma_out_edges(rest, v);
        assert forall|a: int| 0 <= a < out_edges(rest, v).len() implies rest[out_edges(rest, v)[a].0 as int]
            == es[out_edges(rest, v)[a].0 as int] by {}
    }
}

/// No edge sits at two ports of the same vertex.
pub proof fn lemma_ports_distinct(es: Seq<(u32, u32)>, v: u32, k1: int, k2: int)
    requires
        es.len() <= u32::MAX,
        0 <= k1 < k2 < port_list(es, v).len(),
    ensures
        port_list(es, v)[k1].0 != port_list(es, v)[k2].0,
{
    lemma_in_edges(es, v);
    lemma_out_edges(es, v);
    let i = in_edges(es, v);
    let o = out_edges(es, v);
    if k2 < i.len() {
        assert(i[k1].0 < i[k2].0);
    } else if k1 >= i.len() {
        assert(o[k1 - i.len()].0 < o[k2 - i.len()].0);
    } else {
        let x = i[k1];
        let y = o[k2 - i.len()];
    }
}

/// A vertex has at most as many ports as there are edges.
pub proof fn lemma_port_bound(es: Seq<(u32, u32)>, v: u32)
    ensures
        port_list(es, v).len() <= es.len(),
    decreases es.len(),
{
    if es.len() > 0 {
        lemma_port_bound(es.drop_last(), v);
    }
}

/// A vertex of a simple edge list has as many ports as incident edges.
pub proof fn lemma_port_count(es: Seq<(u32, u32)>, v: u32)
    requires
        !has_self_loop(es),
    ensures
        port_list(normalized(es), v).len() == degree(es, v),
    decreases es.len(),
{
    if es.len() > 0 {
        let rest = es.drop_last();
        assert(!has_self_loop(rest)) by {
            if has_self_loop(rest) {
                let i = choose|i: int| 0 <= i < rest.len() && rest[i].0 == rest[i].1;
                assert(es[i] == rest[i]);
            }
        }
        assert(normalized(es).drop_last() =~= normalized(rest));
        assert(es.last() == es[es.len() - 1]);
        lemma_port_count(rest, v);
    }
}

} // verus!
