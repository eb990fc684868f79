//! Runs of the vertex cover 3-approximation seen as runs of bipartite
//! maximal matching on the virtual bipartite double cover: vertex `2v` is
//! the white copy of `v`, vertex `2v + 1` its black copy.
use vstd::prelude::*;
use vstd::relations::injective_on;
use vstd::set_lib::{
    lemma_int_range, lemma_len_subset, lemma_len_union, lemma_map_size, lemma_map_size_bound,
    set_int_range,
};

use crate::algorithms::bipartite::{bp_initial, color_of, BpMessage, BpState, NodeColor};
use crate::algorithms::mvc_3approx::{firsts, seconds, Mvc3approxMessage, Mvc3approxState};
use crate::algorithms::{BipartiteMaximalMatching, Mvc3approx};
use crate::even_odd::{is_port_graph, port_link};
use crate::matching::{
    all_stopped, back, is_bmm_run, is_even_odd_network, is_initial_config, lemma_matching_maximal,
    lemma_matching_symmetric, ms, nb, port_ok, same_edge,
};
use crate::runs::is_run;
use crate::simulator::{inbox, is_round, port_of};
use crate::types::{DistributedAlgorithm, Input, State};

verus! {

/// The double cover: port `k` of either copy of `v` leads, over the same
/// edge, to the copy of the other colour of `v`'s neighbour at port `k`.
pub open spec fn double_cover(ports: Seq<Seq<(u32, u32)>>) -> Seq<Seq<(u32, u32)>> {
    Seq::new(
        2 * ports.len(),
        |x: int|
            Seq::new(
                ports[x / 2].len(),
                |k: int| (ports[x / 2][k].0, (2 * ports[x / 2][k].1 + (1 - x % 2)) as u32),
            ),
    )
}

/// The states of the copies: the white copy of `v` at `2v`, the black one at
/// `2v + 1`.
pub open spec fn split_states(c: Seq<Mvc3approxState>) -> Seq<BpState> {
    Seq::new(
        2 * c.len(),
        |x: int|
            if x % 2 == 0 {
                c[x / 2].s1
            } else {
                c[x / 2].s2
            },
    )
}

/// A port list that holds each edge once finds an edge at its own port.
proof fn lemma_port_of_at(ps: Seq<(u32, u32)>, j: int)
    requires
        0 <= j < ps.len(),
        forall|k1: int, k2: int| 0 <= k1 < k2 < ps.len() ==> ps[k1].0 != ps[k2].0,
    ensures
        port_of(ps, ps[j].0) == j,
{
    let e = ps[j].0;
    assert forall|k: int| 0 <= k < j implies ps[k].0 != e by {}
    let c = port_of(ps, e);
    if c < j {
        assert(ps[c].0 != ps[j].0);
    } else if c > j {
        assert(ps[j].0 != ps[c].0);
    }
}

/// Where port `k` of copy `x` leads in the double cover.
proof fn lemma_cover_port(ports: Seq<Seq<(u32, u32)>>, x: int, k: int)
    requires
        is_port_graph(ports),
        2 * ports.len() <= u32::MAX,
        0 <= x < 2 * ports.len(),
        0 <= k < ports[x / 2].len(),
    ensures
        ({
            let dc = double_cover(ports);
            let v = x / 2;
            let y = nb(dc, x, k);
            &&& dc[x].len() == ports[v].len()
            &&& y == 2 * nb(ports, v, k) + (1 - x % 2)
            &&& back(dc, x, k) == back(ports, v, k)
            &&& port_ok(dc, x, k)
            &&& same_edge(dc, x, k)
        }),
{
    let dc = double_cover(ports);
    let v = x / 2;
    assert(port_link(ports, v, k));
    let w = nb(ports, v, k);
    let j = back(ports, v, k);
    let y = 2 * w + (1 - x % 2);
    assert(dc[x][k] == (ports[v][k].0, y as u32));
    assert(y / 2 == w);
    assert(dc[y][j] == (ports[w][j].0, (2 * ports[w][j].1 + (1 - y % 2)) as u32));
    assert forall|k1: int, k2: int| 0 <= k1 < k2 < dc[y].len() implies dc[y][k1].0 != dc[y][k2].0 by {
        assert(ports[w][k1].0 != ports[w][k2].0);
    }
    assert forall|k1: int, k2: int| 0 <= k1 < k2 < dc[x].len() implies dc[x][k1].0 != dc[x][k2].0 by {
        assert(ports[v][k1].0 != ports[v][k2].0);
    }
    lemma_port_of_at(dc[y], j);
    lemma_port_of_at(dc[x], k);
    assert(ports[w].len() < u32::MAX);
}

/// The double cover of a port graph joins even and odd copies only.
proof fn lemma_cover_is_even_odd(ports: Seq<Seq<(u32, u32)>>)
    requires
        is_port_graph(ports),
        2 * ports.len() <= u32::MAX,
    ensures
        is_even_odd_network(double_cover(ports)),
{
    let dc = double_cover(ports);
    assert forall|x: int| 0 <= x < dc.len() implies (#[trigger] dc[x]).len() < u32::MAX by {
        assert(ports[x / 2].len() < u32::MAX);
    }
    assert forall|x: int, k: int| 0 <= x < dc.len() && 0 <= k < dc[x].len() implies #[trigger] port_ok(
        dc,
        x,
        k,
    ) by {
        lemma_cover_port(ports, x, k);
    }
    assert forall|x: int, k: int| 0 <= x < dc.len() && 0 <= k < dc[x].len() implies #[trigger] same_edge(
        dc,
        x,
        k,
    ) by {
        lemma_cover_port(ports, x, k);
    }
}

/// What arrives at a copy is what the vertex receives for that copy.
proof fn lemma_cover_inbox(ports: Seq<Seq<(u32, u32)>>, c: Seq<Mvc3approxState>, x: int)
    requires
        is_port_graph(ports),
        2 * ports.len() <= u32::MAX,
        c.len() == ports.len(),
        0 <= x < 2 * ports.len(),
    ensures
        inbox::<BipartiteMaximalMatching, BpState, BpMessage>(
            double_cover(ports),
            split_states(c),
            x,
        ) == if x % 2 == 0 {
            firsts(inbox::<Mvc3approx, Mvc3approxState, Mvc3approxMessage>(ports, c, x / 2))
        } else {
            seconds(inbox::<Mvc3approx, Mvc3approxState, Mvc3approxMessage>(ports, c, x / 2))
        },
{
    let dc = double_cover(ports);
    let sc = split_states(c);
    let v = x / 2;
    let a = inbox::<BipartiteMaximalMatching, BpState, BpMessage>(dc, sc, x);
    let m = inbox::<Mvc3approx, Mvc3approxState, Mvc3approxMessage>(ports, c, v);
    assert forall|k: int| 0 <= k < a.len() implies a[k] == if x % 2 == 0 {
        firsts(m)[k]
    } else {
        seconds(m)[k]
    } by {
        lemma_cover_port(ports, x, k);
        assert(port_link(ports, v, k));
        let y = nb(dc, x, k);
        assert(y / 2 == nb(ports, v, k));
    }
    if x % 2 == 0 {
        assert(a =~= firsts(m));
    } else {
        assert(a =~= seconds(m));
    }
}

/// A round of the approximation is a round of matching on the double cover.
proof fn lemma_cover_round(
    ports: Seq<Seq<(u32, u32)>>,
    c: Seq<Mvc3approxState>,
    c2: Seq<Mvc3approxState>,
)
    requires
        is_port_graph(ports),
        2 * ports.len() <= u32::MAX,
        c.len() == ports.len(),
        is_round::<Mvc3approx, Mvc3approxState, Mvc3approxMessage>(ports, c, c2),
    ensures
        is_round::<BipartiteMaximalMatching, BpState, BpMessage>(
            double_cover(ports),
            split_states(c),
            split_states(c2),
        ),
{
    let dc = double_cover(ports);
    let sc = split_states(c);
    let sc2 = split_states(c2);
    assert forall|x: int| 0 <= x < sc.len() implies BipartiteMaximalMatching::is_successor(
        sc[x],
        inbox::<BipartiteMaximalMatching, BpState, BpMessage>(dc, sc, x),
        #[trigger] sc2[x],
    ) by {
        lemma_cover_inbox(ports, c, x);
        assert(Mvc3approx::is_successor(
            c[x / 2],
            inbox::<Mvc3approx, Mvc3approxState, Mvc3approxMessage>(ports, c, x / 2),
            c2[x / 2],
        ));
    }
}

/// `runs` is a run of the approximation from its initial configuration, short
/// enough for round counters, on a network small enough to double.
pub open spec fn is_mvc_run(ports: Seq<Seq<(u32, u32)>>, runs: Seq<Seq<Mvc3approxState>>) -> bool {
    &&& is_port_graph(ports)
    &&& 2 * ports.len() <= u32::MAX
    &&& is_run::<Mvc3approx, Mvc3approxState, Mvc3approxMessage>(ports, runs)
    &&& forall|v: int|
        0 <= v < ports.len() ==> Mvc3approx::is_initial(
            Input { node_id: v as u32, node_count: ports.len() as u32, node_degree: ports[v].len() as u32 },
            #[trigger] runs[0][v],
        )
    &&& runs.len() <= 0x1_0000_0000
}

proof fn lemma_run_lengths(ports: Seq<Seq<(u32, u32)>>, runs: Seq<Seq<Mvc3approxState>>, t: int)
    requires
        is_run::<Mvc3approx, Mvc3approxState, Mvc3approxMessage>(ports, runs),
        0 <= t < runs.len(),
    ensures
        runs[t].len() == ports.len(),
    decreases t,
{
    if t > 0 {
        lemma_run_lengths(ports, runs, t - 1);
        assert(is_round::<Mvc3approx, Mvc3approxState, Mvc3approxMessage>(ports, runs[t - 1], runs[t]));
    }
}

/// The copies of a run of the approximation form a run of matching on the
/// double cover.
proof fn lemma_cover_run(ports: Seq<Seq<(u32, u32)>>, runs: Seq<Seq<Mvc3approxState>>)
    requires
        is_mvc_run(ports, runs),
    ensures
        is_bmm_run(
            double_cover(ports),
            Seq::new(runs.len(), |t: int| split_states(runs[t])),
        ),
{
    let dc = double_cover(ports);
    let sruns = Seq::new(runs.len(), |t: int| split_states(runs[t]));
    lemma_cover_is_even_odd(ports);
    assert forall|t: int| 0 <= t < sruns.len() - 1 implies is_round::<
        BipartiteMaximalMatching,
        BpState,
        BpMessage,
    >(dc, #[trigger] sruns[t], sruns[t + 1]) by {
        lemma_run_lengths(ports, runs, t);
        assert(is_round::<Mvc3approx, Mvc3approxState, Mvc3approxMessage>(ports, runs[t], runs[t + 1]));
        lemma_cover_round(ports, runs[t], runs[t + 1]);
    }
    lemma_run_lengths(ports, runs, 0);
    assert forall|x: int| 0 <= x < sruns[0].len() implies bp_initial(
        Input {
            node_id: x as u32,
            node_count: sruns[0].len() as u32,
            node_degree: dc[x].len() as u32,
        },
        #[trigger] sruns[0][x],
    ) by {
        assert(Mvc3approx::is_initial(
            Input {
                node_id: (x / 2) as u32,
                node_count: ports.len() as u32,
                node_degree: ports[x / 2].len() as u32,
            },
            runs[0][x / 2],
        ));
        assert(color_of(x as u32) == if x % 2 == 0 {
            NodeColor::White
        } else {
            NodeColor::Black
        });
    }
    assert(is_initial_config(dc, sruns[0]));
}

/// The vertices in the cover cover every edge: in a run of the vertex cover
/// 3-approximation, once every vertex has stopped, every edge has an end in
/// the cover.
pub proof fn lemma_cover(ports: Seq<Seq<(u32, u32)>>, runs: Seq<Seq<Mvc3approxState>>, t: int)
    requires
        is_mvc_run(ports, runs),
        0 <= t < runs.len(),
        forall|v: int| 0 <= v < ports.len() ==> (#[trigger] runs[t][v]).spec_is_output(),
    ensures
        forall|v: int, k: int|
            0 <= v < ports.len() && 0 <= k < ports[v].len() ==> runs[t][v].spec_in_cover()
                || #[trigger] runs[t][nb(ports, v, k)].spec_in_cover(),
{
    let dc = double_cover(ports);
    let sruns = Seq::new(runs.len(), |t: int| split_states(runs[t]));
    lemma_cover_run(ports, runs);
    lemma_run_lengths(ports, runs, t);
    let c = runs[t];
    let sc = sruns[t];
    assert forall|x: int| 0 <= x < sc.len() implies #[trigger] ms(sc, x) is Us || ms(sc, x) is Ms by {
        assert(c[x / 2].spec_is_output());
    }
    assert(all_stopped(sc));
    lemma_matching_maximal(dc, sruns, t);
    assert forall|v: int, k: int| 0 <= v < ports.len() && 0 <= k < ports[v].len() implies c[v].spec_in_cover()
        || #[trigger] c[nb(ports, v, k)].spec_in_cover() by {
        lemma_cover_port(ports, 2 * v, k);
        assert(ms(sc, 2 * v) is Ms || ms(sc, nb(dc, 2 * v, k)) is Ms);
        assert(nb(dc, 2 * v, k) / 2 == nb(ports, v, k));
    }
}

/// The vertices in the cover (printed as `1`).
pub open spec fn cover_set(c: Seq<Mvc3approxState>) -> Set<int> {
    Set::new(|v: int| 0 <= v < c.len() && c[v].spec_in_cover())
}

/// `k` holds an end of every edge of the network.
pub open spec fn is_vertex_cover(ports: Seq<Seq<(u32, u32)>>, k: Set<int>) -> bool {
    forall|v: int, p: int|
        0 <= v < ports.len() && 0 <= p < ports[v].len() ==> k.contains(v) || #[trigger] k.contains(
            nb(ports, v, p),
        )
}

/// The vertex whose black copy the white copy of `v` is matched to.
spec fn white_partner(ports: Seq<Seq<(u32, u32)>>, c: Seq<Mvc3approxState>, v: int) -> int {
    nb(ports, v, c[v].s1.spec_matching()->Ms_0 as int)
}

/// The vertex whose white copy the black copy of `v` is matched to.
spec fn black_partner(ports: Seq<Seq<(u32, u32)>>, c: Seq<Mvc3approxState>, v: int) -> int {
    nb(ports, v, c[v].s2.spec_matching()->Ms_0 as int)
}

/// Matched copies come in pairs over an edge of the network.
proof fn lemma_partners(ports: Seq<Seq<(u32, u32)>>, runs: Seq<Seq<Mvc3approxState>>, t: int, v: int)
    requires
        is_mvc_run(ports, runs),
        0 <= t < runs.len(),
        forall|w: int| 0 <= w < ports.len() ==> (#[trigger] runs[t][w]).spec_is_output(),
        0 <= v < ports.len(),
    ensures
        runs[t][v].s1.spec_matching() is Ms ==> {
            let w = white_partner(ports, runs[t], v);
            &&& 0 <= runs[t][v].s1.spec_matching()->Ms_0 < ports[v].len()
            &&& 0 <= w < ports.len()
            &&& runs[t][w].s2.spec_matching() is Ms
            &&& black_partner(ports, runs[t], w) == v
        },
        runs[t][v].s2.spec_matching() is Ms ==> {
            let u = black_partner(ports, runs[t], v);
            &&& 0 <= runs[t][v].s2.spec_matching()->Ms_0 < ports[v].len()
            &&& 0 <= u < ports.len()
            &&& runs[t][u].s1.spec_matching() is Ms
            &&& white_partner(ports, runs[t], u) == v
        },
{
    let dc = double_cover(ports);
    let sruns = Seq::new(runs.len(), |t: int| split_states(runs[t]));
    let c = runs[t];
    let sc = sruns[t];
    lemma_cover_run(ports, runs);
    lemma_run_lengths(ports, runs, t);
    assert forall|x: int| 0 <= x < sc.len() implies #[trigger] ms(sc, x) is Us || ms(sc, x) is Ms by {
        assert(c[x / 2].spec_is_output());
    }
    assert(all_stopped(sc));
    if c[v].s1.spec_matching() is Ms {
        let i = c[v].s1.spec_matching()->Ms_0 as int;
        assert(ms(sc, 2 * v) == c[v].s1.spec_matching());
        lemma_matching_symmetric(dc, sruns, t, 2 * v);
        lemma_cover_port(ports, 2 * v, i);
        let y = nb(dc, 2 * v, i);
        let j = back(dc, 2 * v, i);
        assert(y == 2 * white_partner(ports, c, v) + 1);
        lemma_cover_port(ports, y, j);
        assert(ms(sc, y) == c[y / 2].s2.spec_matching());
    }
    if c[v].s2.spec_matching() is Ms {
        let q = c[v].s2.spec_matching()->Ms_0 as int;
        assert(ms(sc, 2 * v + 1) == c[v].s2.spec_matching());
        lemma_matching_symmetric(dc, sruns, t, 2 * v + 1);
        lemma_cover_port(ports, 2 * v + 1, q);
        let y = nb(dc, 2 * v + 1, q);
        let j = back(dc, 2 * v + 1, q);
        assert(y == 2 * black_partner(ports, c, v));
        lemma_cover_port(ports, y, j);
        assert(ms(sc, y) == c[y / 2].s1.spec_matching());
    }
}

/// Where a vertex of the cover is charged: to itself if it is in `k`, else
/// to the partner of its white copy, else to the partner of its black copy;
/// the remainder modulo 3 tells the three apart.
spec fn charge(ports: Seq<Seq<(u32, u32)>>, c: Seq<Mvc3approxState>, k: Set<int>, v: int) -> int {
    if k.contains(v) {
        3 * v
    } else if c[v].s1.spec_matching() is Ms {
        3 * white_partner(ports, c, v) + 1
    } else {
        3 * black_partner(ports, c, v) + 2
    }
}

/// The cover is at most three times as large as any vertex cover: in a run
/// of the vertex cover 3-approximation, once every vertex has stopped, the
/// vertices printed as `1` are at most three times as many as the vertices
/// of any vertex cover `k` of the network.
pub proof fn lemma_cover_size(
    ports: Seq<Seq<(u32, u32)>>,
    runs: Seq<Seq<Mvc3approxState>>,
    t: int,
    k: Set<int>,
)
    requires
        is_mvc_run(ports, runs),
        0 <= t < runs.len(),
        forall|v: int| 0 <= v < ports.len() ==> (#[trigger] runs[t][v]).spec_is_output(),
        k.finite(),
        is_vertex_cover(ports, k),
    ensures
        cover_set(runs[t]).len() <= 3 * k.len(),
{
    let c = runs[t];
    lemma_run_lengths(ports, runs, t);
    let cs = cover_set(c);
    let f = |v: int| charge(ports, c, k, v);
    let k0 = k.map(|a: int| 3 * a);
    let k1 = k.map(|a: int| 3 * a + 1);
    let k2 = k.map(|a: int| 3 * a + 2);
    let all = k0.union(k1).union(k2);
    lemma_int_range(0, c.len() as int);
    lemma_len_subset(cs, set_int_range(0, c.len() as int));
    lemma_map_size_bound(k, k0, |a: int| 3 * a);
    lemma_map_size_bound(k, k1, |a: int| 3 * a + 1);
    lemma_map_size_bound(k, k2, |a: int| 3 * a + 2);
    lemma_len_union(k0, k1);
    lemma_len_union(k0.union(k1), k2);
    assert forall|v1: int, v2: int|
        cs.contains(v1) && cs.contains(v2) && #[trigger] f(v1) == #[trigger] f(v2) implies v1 == v2 by {
        lemma_partners(ports, runs, t, v1);
        lemma_partners(ports, runs, t, v2);
    }
    assert(injective_on(f, cs));
    lemma_map_size(cs, cs.map(f), f);
    assert forall|z: int| cs.map(f).contains(z) implies all.contains(z) by {
        let v = choose|v: int| cs.contains(v) && f(v) == z;
        lemma_partners(ports, runs, t, v);
        if k.contains(v) {
            assert(k0.contains(3 * v));
        } else if c[v].s1.spec_matching() is Ms {
            let i = c[v].s1.spec_matching()->Ms_0 as int;
            assert(k.contains(v) || k.contains(nb(ports, v, i)));
            assert(k1.contains(3 * white_partner(ports, c, v) + 1));
        } else {
            let q = c[v].s2.spec_matching()->Ms_0 as int;
            assert(k.contains(v) || k.contains(nb(ports, v, q)));
            assert(k2.contains(3 * black_partner(ports, c, v) + 2));
        }
    }
    lemma_len_subset(cs.map(f), all);
}

} // verus!
