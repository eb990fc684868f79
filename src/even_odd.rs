//! Port lists built from an edge list, seen as the even/odd networks on
//! which bipartite maximal matching runs.
use vstd::prelude::*;

use crate::algorithms::bipartite::color_of;
use crate::graph::{
    in_edges, lemma_edge_in_ports, lemma_port_bound, lemma_port_entry, lemma_ports_distinct,
    out_edges, port_list,
};
use crate::matching::{back, is_even_odd_network, nb, port_ok, same_edge};
use crate::simulator::{port_of, DaSimulator};
use crate::types::{DistributedAlgorithm, Message, State};

verus! {

/// The first port of `v` holding the edge at its port `k` is `k` itself.
proof fn lemma_port_of_unique(es: Seq<(u32, u32)>, v: u32, k: int)
    requires
        es.len() <= u32::MAX,
        0 <= k < port_list(es, v).len(),
    ensures
        port_of(port_list(es, v), port_list(es, v)[k].0) == k,
{
    let ps = port_list(es, v);
    let e = ps[k].0;
    assert forall|j: int| 0 <= j < k implies ps[j].0 != e by {
        lemma_ports_distinct(es, v, j, k);
    }
    let c = port_of(ps, e);
    if c != k {
        if c < k {
            lemma_ports_distinct(es, v, c, k);
        } else {
            lemma_ports_distinct(es, v, k, c);
        }
    }
}

/// Port `k` of `v` leads to another vertex of the network, which lists the
/// same edge at a port leading back to `v`.
pub open spec fn port_link(ports: Seq<Seq<(u32, u32)>>, v: int, k: int) -> bool {
    let w = nb(ports, v, k);
    let j = back(ports, v, k);
    &&& 0 <= w < ports.len()
    &&& w != v
    &&& 0 <= j < ports[w].len()
    &&& ports[w][j].0 == ports[v][k].0
    &&& ports[w][j].1 == v
}

/// The port lists describe an undirected graph without parallel edges at a
/// vertex: every port is linked to a port of its neighbour, and no vertex
/// lists an edge twice.
pub open spec fn is_port_graph(ports: Seq<Seq<(u32, u32)>>) -> bool {
    &&& ports.len() <= u32::MAX
    &&& forall|v: int| 0 <= v < ports.len() ==> (#[trigger] ports[v]).len() < u32::MAX
    &&& forall|v: int, k: int|
        0 <= v < ports.len() && 0 <= k < ports[v].len() ==> #[trigger] port_link(ports, v, k)
    &&& forall|v: int, k1: int, k2: int|
        0 <= v < ports.len() && 0 <= k1 < k2 < ports[v].len() ==> #[trigger] ports[v][k1].0
            != #[trigger] ports[v][k2].0
}

proof fn lemma_port_link_of_edges(ports: Seq<Seq<(u32, u32)>>, es: Seq<(u32, u32)>, v: int, k: int)
    requires
        es.len() < u32::MAX,
        ports.len() <= u32::MAX,
        forall|x: int| 0 <= x < ports.len() ==> #[trigger] ports[x] == port_list(es, x as u32),
        forall|i: int| 0 <= i < es.len() ==> #[trigger] es[i].0 < es[i].1 < ports.len(),
        0 <= v < ports.len(),
        0 <= k < ports[v].len(),
    ensures
        port_link(ports, v, k),
        back(ports, nb(ports, v, k), back(ports, v, k)) == k,
        color_of(v as u32) != color_of(nb(ports, v, k) as u32) <==> ({
            let e = ports[v][k].0 as int;
            color_of(es[e].0) != color_of(es[e].1)
        }),
{
    let e = ports[v][k].0;
    let w = ports[v][k].1;
    lemma_port_entry(es, v as u32, k);
    assert(es[e as int].0 < es[e as int].1 < ports.len());
    lemma_edge_in_ports(es, e as int);
    let pw = port_list(es, w);
    let j: int = if es[e as int].1 == w {
        choose|j: int| 0 <= j < in_edges(es, w).len() && in_edges(es, w)[j] == (e, es[e as int].0)
    } else {
        let ko = choose|j: int|
            0 <= j < out_edges(es, w).len() && out_edges(es, w)[j] == (e, es[e as int].1);
        in_edges(es, w).len() + ko
    };
    assert(pw[j] == (e, v as u32));
    assert(ports[w as int] == pw);
    lemma_port_of_unique(es, w, j);
    lemma_port_of_unique(es, v as u32, k);
    assert(ports[v] == port_list(es, v as u32));
}

proof fn lemma_port_ok_of_edges(ports: Seq<Seq<(u32, u32)>>, es: Seq<(u32, u32)>, v: int, k: int)
    requires
        es.len() < u32::MAX,
        ports.len() <= u32::MAX,
        forall|x: int| 0 <= x < ports.len() ==> #[trigger] ports[x] == port_list(es, x as u32),
        forall|i: int|
            0 <= i < es.len() ==> #[trigger] es[i].0 < es[i].1 < ports.len() && color_of(es[i].0)
                != color_of(es[i].1),
        0 <= v < ports.len(),
        0 <= k < ports[v].len(),
    ensures
        port_ok(ports, v, k),
        same_edge(ports, v, k),
{
    lemma_port_link_of_edges(ports, es, v, k);
    lemma_port_entry(es, v as u32, k);
}

/// The port lists of every network form a port graph.
pub proof fn lemma_network_is_port_graph<A: DistributedAlgorithm<S, M>, S: State, M: Message>(
    sim: DaSimulator<A, S, M>,
)
    requires
        sim.wf(),
    ensures
        is_port_graph(sim.spec_ports()),
{
    let ports = sim.spec_ports();
    let es = sim.spec_edges();
    assert forall|v: int| 0 <= v < ports.len() implies (#[trigger] ports[v]).len() < u32::MAX by {
        lemma_port_bound(es, v as u32);
    }
    assert forall|v: int, k: int| 0 <= v < ports.len() && 0 <= k < ports[v].len() implies #[trigger] port_link(
        ports,
        v,
        k,
    ) by {
        lemma_port_link_of_edges(ports, es, v, k);
    }
    assert forall|v: int, k1: int, k2: int|
        0 <= v < ports.len() && 0 <= k1 < k2 < ports[v].len() implies #[trigger] ports[v][k1].0
        != #[trigger] ports[v][k2].0 by {
        assert(ports[v] == port_list(es, v as u32));
        lemma_ports_distinct(es, v as u32, k1, k2);
    }
}

/// The port lists of a network whose edges all join an even and an odd
/// vertex satisfy `is_even_odd_network`.
pub proof fn lemma_network_is_even_odd<A: DistributedAlgorithm<S, M>, S: State, M: Message>(
    sim: DaSimulator<A, S, M>,
)
    requires
        sim.wf(),
        forall|i: int|
            0 <= i < sim.spec_edges().len() ==> color_of(#[trigger] sim.spec_edges()[i].0) != color_of(
                sim.spec_edges()[i].1,
            ),
    ensures
        is_even_odd_network(sim.spec_ports()),
{
    let ports = sim.spec_ports();
    let es = sim.spec_edges();
    assert forall|v: int| 0 <= v < ports.len() implies (#[trigger] ports[v]).len() < u32::MAX by {
        lemma_port_bound(es, v as u32);
    }
    assert forall|v: int, k: int| 0 <= v < ports.len() && 0 <= k < ports[v].len() implies #[trigger] port_ok(
        ports,
        v,
        k,
    ) && same_edge(ports, v, k) by {
        lemma_port_ok_of_edges(ports, es, v, k);
    }
    assert forall|v: int, k: int| 0 <= v < ports.len() && 0 <= k < ports[v].len() implies #[trigger] same_edge(
        ports,
        v,
        k,
    ) by {
        lemma_port_ok_of_edges(ports, es, v, k);
    }
}

} // verus!
