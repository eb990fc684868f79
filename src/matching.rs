//! Runs of bipartite maximal matching on a whole network: the stopped
//! vertices form a maximal matching, partners agree on their shared edge,
//! and every vertex stops within `2 * max_degree + 1` rounds.
use vstd::prelude::*;

use crate::algorithms::bipartite::{
    bp_initial, bp_send, bp_successor, color_of, first_accept, lemma_first_accept,
    lemma_first_accept_at, lemma_m_set_min, ports_with, set_min, BpMessage, BpState,
    MatchingState, NodeColor,
};
use crate::algorithms::BipartiteMaximalMatching;
use crate::runs::is_run;
use crate::simulator::{inbox, is_round, port_of};
use crate::types::Input;

verus! {

/// The neighbour of `v` at its port `k`.
pub open spec fn nb(ports: Seq<Seq<(u32, u32)>>, v: int, k: int) -> int {
    ports[v][k].1 as int
}

/// The port by which the neighbour of `v` at port `k` sees the same edge.
pub open spec fn back(ports: Seq<Seq<(u32, u32)>>, v: int, k: int) -> int {
    port_of(ports[nb(ports, v, k)], ports[v][k].0)
}

/// Port `k` of `v` leads to another vertex of the network, of the other
/// colour, which sees the same edge at a port leading back.
pub open spec fn port_ok(ports: Seq<Seq<(u32, u32)>>, v: int, k: int) -> bool {
    let w = nb(ports, v, k);
    let j = back(ports, v, k);
    &&& 0 <= w < ports.len()
    &&& 0 <= j < ports[w].len()
    &&& nb(ports, w, j) == v
    &&& back(ports, w, j) == k
    &&& color_of(v as u32) != color_of(w as u32)
}

/// Both ends of port `k` of `v` name the same edge.
pub open spec fn same_edge(ports: Seq<Seq<(u32, u32)>>, v: int, k: int) -> bool {
    ports[nb(ports, v, k)][back(ports, v, k)].0 == ports[v][k].0
}

/// The ports describe an undirected graph whose edges join an even and an
/// odd vertex.
pub open spec fn is_even_odd_network(ports: Seq<Seq<(u32, u32)>>) -> bool {
    &&& ports.len() <= u32::MAX
    &&& forall|v: int| 0 <= v < ports.len() ==> (#[trigger] ports[v]).len() < u32::MAX
    &&& forall|v: int, k: int|
        0 <= v < ports.len() && 0 <= k < ports[v].len() ==> #[trigger] port_ok(ports, v, k)
    &&& forall|v: int, k: int|
        0 <= v < ports.len() && 0 <= k < ports[v].len() ==> #[trigger] same_edge(ports, v, k)
}

/// The matching state of vertex `v`.
pub open spec fn ms(c: Seq<BpState>, v: int) -> MatchingState {
    c[v].spec_matching()
}

/// The ports of black `b` whose white neighbour is running and proposed to
/// it in the round before the odd round `t`.
pub open spec fn proposers(ports: Seq<Seq<(u32, u32)>>, c: Seq<BpState>, t: int, b: int) -> Set<u32> {
    Set::new(
        |q: u32|
            (q as int) < ports[b].len() && ms(c, nb(ports, b, q as int)) == MatchingState::Ur
                && back(ports, b, q as int) == (t - 1) / 2,
    )
}

/// The ports of black `b` whose white neighbour has not stopped matched.
pub open spec fn unmatched_ports(ports: Seq<Seq<(u32, u32)>>, c: Seq<BpState>, b: int) -> Set<u32> {
    Set::new(|q: u32| (q as int) < ports[b].len() && !(ms(c, nb(ports, b, q as int)) is Ms))
}

/// What holds of white `u` after `t` rounds.
pub open spec fn white_ok(ports: Seq<Seq<(u32, u32)>>, c: Seq<BpState>, t: int, u: int) -> bool {
    let d = ports[u].len();
    &&& ms(c, u) == MatchingState::Ur ==> t <= 2 * d && (forall|p: int|
        0 <= p < d && 2 * p + 2 <= t ==> #[trigger] ms(c, nb(ports, u, p)) is Ms)
    &&& ms(c, u) matches MatchingState::Mr(i) ==> t % 2 == 0 && t <= 2 * d + 1 && i < d && ms(
        c,
        nb(ports, u, i as int),
    ) == MatchingState::Ms(back(ports, u, i as int) as u32)
    &&& ms(c, u) matches MatchingState::Ms(i) ==> i < d && ms(c, nb(ports, u, i as int))
        == MatchingState::Ms(back(ports, u, i as int) as u32)
    &&& ms(c, u) is Us ==> forall|p: int| 0 <= p < d ==> #[trigger] ms(c, nb(ports, u, p)) is Ms
}

/// What holds of black `b` after `t` rounds.
pub open spec fn black_ok(ports: Seq<Seq<(u32, u32)>>, c: Seq<BpState>, t: int, b: int) -> bool {
    let d = ports[b].len();
    &&& !(ms(c, b) is Mr)
    &&& ms(c, b) matches MatchingState::Ms(q) ==> q < d && (ms(c, nb(ports, b, q as int))
        == MatchingState::Mr(back(ports, b, q as int) as u32) || ms(c, nb(ports, b, q as int))
        == MatchingState::Ms(back(ports, b, q as int) as u32))
    &&& ms(c, b) == MatchingState::Ur ==> c[b].spec_m_set() == if t % 2 == 0 {
        Set::<u32>::empty()
    } else {
        proposers(ports, c, t, b)
    }
    &&& ms(c, b) == MatchingState::Ur ==> c[b].spec_x_set() == unmatched_ports(ports, c, b)
    &&& ms(c, b) is Us ==> forall|q: int| 0 <= q < d ==> #[trigger] ms(c, nb(ports, b, q)) is Ms
}

/// The invariant of a run after `t` rounds.
pub open spec fn bmm_inv(ports: Seq<Seq<(u32, u32)>>, c: Seq<BpState>, t: int) -> bool {
    &&& c.len() == ports.len()
    &&& 0 <= t < 0x1_0000_0000
    &&& forall|v: int|
        0 <= v < c.len() ==> {
            &&& (#[trigger] c[v]).spec_round() == t
            &&& c[v].spec_degree() == ports[v].len()
            &&& c[v].spec_color() == color_of(v as u32)
        }
    &&& forall|v: int|
        0 <= v < c.len() && color_of(v as u32) == NodeColor::White ==> #[trigger] white_ok(
            ports,
            c,
            t,
            v,
        )
    &&& forall|v: int|
        0 <= v < c.len() && color_of(v as u32) == NodeColor::Black ==> #[trigger] black_ok(
            ports,
            c,
            t,
            v,
        )
}

/// Every vertex starts as bipartite maximal matching initialises it.
pub open spec fn is_initial_config(ports: Seq<Seq<(u32, u32)>>, c: Seq<BpState>) -> bool {
    &&& c.len() == ports.len()
    &&& forall|v: int|
        0 <= v < c.len() ==> bp_initial(
            Input {
                node_id: v as u32,
                node_count: c.len() as u32,
                node_degree: ports[v].len() as u32,
            },
            #[trigger] c[v],
        )
}

proof fn lemma_inv_init(ports: Seq<Seq<(u32, u32)>>, c: Seq<BpState>)
    requires
        is_even_odd_network(ports),
        is_initial_config(ports, c),
    ensures
        bmm_inv(ports, c, 0),
{
    assert forall|v: int| 0 <= v < c.len() implies {
        &&& (#[trigger] c[v]).spec_round() == 0
        &&& c[v].spec_degree() == ports[v].len()
        &&& c[v].spec_color() == color_of(v as u32)
    } by {
        assert(ports[v].len() < u32::MAX);
    }
    assert forall|v: int| 0 <= v < c.len() && color_of(v as u32) == NodeColor::Black implies #[trigger] black_ok(
        ports,
        c,
        0,
        v,
    ) by {
        assert(ports[v].len() < u32::MAX);
        assert(c[v].spec_x_set() =~= unmatched_ports(ports, c, v)) by {
            assert forall|q: u32| (q as int) < ports[v].len() implies !(ms(
                c,
                nb(ports, v, q as int),
            ) is Ms) by {
                assert(port_ok(ports, v, q as int));
                assert(bp_initial(
                    Input {
                        node_id: nb(ports, v, q as int) as u32,
                        node_count: c.len() as u32,
                        node_degree: ports[nb(ports, v, q as int)].len() as u32,
                    },
                    c[nb(ports, v, q as int)],
                ));
            }
        }
    }
}

/// The message arriving at port `k` of `v` after `t` rounds.
pub open spec fn arriving(ports: Seq<Seq<(u32, u32)>>, c: Seq<BpState>, v: int, k: int) -> BpMessage {
    inbox::<BipartiteMaximalMatching, BpState, BpMessage>(ports, c, v)[k]
}

proof fn lemma_arriving(ports: Seq<Seq<(u32, u32)>>, c: Seq<BpState>, t: int, v: int, k: int)
    requires
        is_even_odd_network(ports),
        bmm_inv(ports, c, t),
        0 <= v < ports.len(),
        0 <= k < ports[v].len(),
    ensures
        ({
            let m = arriving(ports, c, v, k);
            let w = nb(ports, v, k);
            let j = back(ports, v, k);
            &&& m == bp_send(c[w], j)
            &&& m == BpMessage::Proposal <==> (color_of(w as u32) == NodeColor::White && ms(c, w)
                == MatchingState::Ur && t % 2 == 0 && t / 2 < ports[w].len() && j == t / 2)
            &&& m == BpMessage::Matched <==> (color_of(w as u32) == NodeColor::White && ms(c, w) is Mr
                && t % 2 == 0)
            &&& m == BpMessage::Accept ==> (color_of(w as u32) == NodeColor::Black && ms(c, w)
                == MatchingState::Ur && t % 2 == 1 && c[w].spec_m_set().contains(j as u32) && j
                == set_min(c[w].spec_m_set()))
        }),
{
    let w = nb(ports, v, k);
    assert(port_ok(ports, v, k));
    assert(c[w].spec_round() == t);
    let m = arriving(ports, c, v, k);
    if m == BpMessage::Accept {
        lemma_m_set_min(c[w]);
    }
}

/// The state of `v` after the round: its successor on what arrived.
proof fn lemma_next(
    ports: Seq<Seq<(u32, u32)>>,
    c: Seq<BpState>,
    c2: Seq<BpState>,
    t: int,
    v: int,
)
    requires
        bmm_inv(ports, c, t),
        is_round::<BipartiteMaximalMatching, BpState, BpMessage>(ports, c, c2),
        0 <= v < ports.len(),
    ensures
        bp_successor(c[v], inbox::<BipartiteMaximalMatching, BpState, BpMessage>(ports, c, v), c2[v]),
        c[v].spec_round() == t,
        c[v].spec_degree() == ports[v].len(),
        c[v].spec_color() == color_of(v as u32),
        ms(c, v) is Us ==> ms(c2, v) == ms(c, v),
        ms(c, v) is Ms ==> ms(c2, v) == ms(c, v),
{
    assert(c[v].spec_round() == t);
}

/// A white vertex keeps or gains "stopped matched" in an odd round; in an
/// even round it gains it exactly from "matched and running".
proof fn lemma_white_matched_next(
    ports: Seq<Seq<(u32, u32)>>,
    c: Seq<BpState>,
    c2: Seq<BpState>,
    t: int,
    u: int,
)
    requires
        is_even_odd_network(ports),
        bmm_inv(ports, c, t),
        is_round::<BipartiteMaximalMatching, BpState, BpMessage>(ports, c, c2),
        0 <= u < ports.len(),
        color_of(u as u32) == NodeColor::White,
    ensures
        t % 2 == 1 ==> ((ms(c2, u) is Ms) <==> (ms(c, u) is Ms)),
        t % 2 == 0 ==> ((ms(c2, u) is Ms) <==> (ms(c, u) is Ms || ms(c, u) is Mr)),
        ms(c2, u) == MatchingState::Ur ==> ms(c, u) == MatchingState::Ur,
        ms(c, u) matches MatchingState::Mr(i) ==> ms(c2, u) == MatchingState::Ms(i),
{
    lemma_next(ports, c, c2, t, u);
    assert(white_ok(ports, c, t, u));
}

proof fn lemma_white_step_even(
    ports: Seq<Seq<(u32, u32)>>,
    c: Seq<BpState>,
    c2: Seq<BpState>,
    t: int,
    u: int,
)
    requires
        is_even_odd_network(ports),
        bmm_inv(ports, c, t),
        is_round::<BipartiteMaximalMatching, BpState, BpMessage>(ports, c, c2),
        t + 1 < 0x1_0000_0000,
        0 <= u < ports.len(),
        color_of(u as u32) == NodeColor::White,
        ms(c, u) == MatchingState::Ur,
        t % 2 == 0,
    ensures
        white_ok(ports, c2, t + 1, u),
{
    let d = ports[u].len();
    lemma_next(ports, c, c2, t, u);
    assert(white_ok(ports, c, t, u));
    assert forall|p: int| 0 <= p < d && 2 * p + 2 <= t implies #[trigger] ms(
        c2,
        nb(ports, u, p),
    ) is Ms by {
        assert(port_ok(ports, u, p));
        assert(ms(c, nb(ports, u, p)) is Ms);
        lemma_next(ports, c, c2, t, nb(ports, u, p));
    }
    if t / 2 + 1 > d {
        assert(ms(c2, u) is Us);
        assert forall|p: int| 0 <= p < d implies #[trigger] ms(c2, nb(ports, u, p)) is Ms by {
            assert(2 * p + 2 <= t);
        }
    } else {
        assert(ms(c2, u) == MatchingState::Ur);
        assert forall|p: int| 0 <= p < d && 2 * p + 2 <= t + 1 implies #[trigger] ms(
            c2,
            nb(ports, u, p),
        ) is Ms by {
            assert(2 * p + 2 <= t);
        }
    }
}

proof fn lemma_white_step_odd_unmatched(
    ports: Seq<Seq<(u32, u32)>>,
    c: Seq<BpState>,
    c2: Seq<BpState>,
    t: int,
    u: int,
)
    requires
        is_even_odd_network(ports),
        bmm_inv(ports, c, t),
        is_round::<BipartiteMaximalMatching, BpState, BpMessage>(ports, c, c2),
        t + 1 < 0x1_0000_0000,
        0 <= u < ports.len(),
        color_of(u as u32) == NodeColor::White,
        ms(c, u) == MatchingState::Ur,
        t % 2 == 1,
        ms(c2, u) == MatchingState::Ur,
    ensures
        white_ok(ports, c2, t + 1, u),
{
    let d = ports[u].len();
    lemma_next(ports, c, c2, t, u);
    assert(white_ok(ports, c, t, u));
    assert forall|p: int| 0 <= p < d && 2 * p + 2 <= t + 1 implies #[trigger] ms(
        c2,
        nb(ports, u, p),
    ) is Ms by {
        let b = nb(ports, u, p);
        let j = back(ports, u, p);
        assert(port_ok(ports, u, p));
        lemma_next(ports, c, c2, t, b);
        if 2 * p + 2 <= t {
            assert(ms(c, b) is Ms);
        } else {
            assert(black_ok(ports, c, t, b));
            assert(port_ok(ports, b, j));
            if ms(c, b) is Us {
                assert(ms(c, nb(ports, b, j)) is Ms);
            } else if ms(c, b) == MatchingState::Ur {
                assert(proposers(ports, c, t, b).contains(j as u32));
                assert(c[b].spec_m_set().contains(j as u32));
                assert(!c[b].spec_m_set().is_empty());
            }
        }
    }
}

#[verifier::rlimit(100)]
proof fn lemma_white_step_odd_matched(
    ports: Seq<Seq<(u32, u32)>>,
    c: Seq<BpState>,
    c2: Seq<BpState>,
    t: int,
    u: int,
    i: int,
)
    requires
        is_even_odd_network(ports),
        bmm_inv(ports, c, t),
        is_round::<BipartiteMaximalMatching, BpState, BpMessage>(ports, c, c2),
        t + 1 < 0x1_0000_0000,
        0 <= u < ports.len(),
        color_of(u as u32) == NodeColor::White,
        ms(c, u) == MatchingState::Ur,
        t % 2 == 1,
        0 <= i < ports[u].len(),
        arriving(ports, c, u, i) == BpMessage::Accept,
        ms(c2, u) == MatchingState::Mr(i as u32),
    ensures
        white_ok(ports, c2, t + 1, u),
{
    assert(white_ok(ports, c, t, u));
    lemma_arriving(ports, c, t, u, i);
    let b = nb(ports, u, i);
    assert(port_ok(ports, u, i));
    lemma_next(ports, c, c2, t, b);
    assert(ms(c2, b) == MatchingState::Ms(back(ports, u, i) as u32));
}

proof fn lemma_white_step_odd(
    ports: Seq<Seq<(u32, u32)>>,
    c: Seq<BpState>,
    c2: Seq<BpState>,
    t: int,
    u: int,
)
    requires
        is_even_odd_network(ports),
        bmm_inv(ports, c, t),
        is_round::<BipartiteMaximalMatching, BpState, BpMessage>(ports, c, c2),
        t + 1 < 0x1_0000_0000,
        0 <= u < ports.len(),
        color_of(u as u32) == NodeColor::White,
        ms(c, u) == MatchingState::Ur,
        t % 2 == 1,
    ensures
        white_ok(ports, c2, t + 1, u),
{
    let msgs = inbox::<BipartiteMaximalMatching, BpState, BpMessage>(ports, c, u);
    lemma_next(ports, c, c2, t, u);
    assert(white_ok(ports, c, t, u));
    lemma_first_accept(msgs);
    if first_accept(msgs) is Some {
        let i = first_accept(msgs)->Some_0;
        assert(ms(c2, u) == MatchingState::Mr(i as u32));
        assert(arriving(ports, c, u, i) == BpMessage::Accept);
        lemma_white_step_odd_matched(ports, c, c2, t, u, i);
    } else {
        lemma_white_step_odd_unmatched(ports, c, c2, t, u);
    }
}

proof fn lemma_white_step(
    ports: Seq<Seq<(u32, u32)>>,
    c: Seq<BpState>,
    c2: Seq<BpState>,
    t: int,
    u: int,
)
    requires
        is_even_odd_network(ports),
        bmm_inv(ports, c, t),
        is_round::<BipartiteMaximalMatching, BpState, BpMessage>(ports, c, c2),
        t + 1 < 0x1_0000_0000,
        0 <= u < ports.len(),
        color_of(u as u32) == NodeColor::White,
    ensures
        white_ok(ports, c2, t + 1, u),
{
    let d = ports[u].len();
    lemma_next(ports, c, c2, t, u);
    assert(white_ok(ports, c, t, u));
    match ms(c, u) {
        MatchingState::Ur => {
            if t % 2 == 0 {
                lemma_white_step_even(ports, c, c2, t, u);
            } else {
                lemma_white_step_odd(ports, c, c2, t, u);
            }
        },
        MatchingState::Mr(i) => {
            let b = nb(ports, u, i as int);
            assert(port_ok(ports, u, i as int));
            lemma_next(ports, c, c2, t, b);
        },
        MatchingState::Ms(i) => {
            let b = nb(ports, u, i as int);
            assert(port_ok(ports, u, i as int));
            lemma_next(ports, c, c2, t, b);
        },
        MatchingState::Us => {
            assert forall|p: int| 0 <= p < d implies #[trigger] ms(c2, nb(ports, u, p)) is Ms by {
                assert(port_ok(ports, u, p));
                assert(ms(c, nb(ports, u, p)) is Ms);
                lemma_next(ports, c, c2, t, nb(ports, u, p));
            }
        },
    }
}

/// The white neighbour whose proposal a black vertex accepts gets that
/// `Accept` as its first one.
#[verifier::rlimit(100)]
proof fn lemma_accept_reaches_proposer(
    ports: Seq<Seq<(u32, u32)>>,
    c: Seq<BpState>,
    c2: Seq<BpState>,
    t: int,
    b: int,
)
    requires
        is_even_odd_network(ports),
        bmm_inv(ports, c, t),
        is_round::<BipartiteMaximalMatching, BpState, BpMessage>(ports, c, c2),
        t + 1 < 0x1_0000_0000,
        0 <= b < ports.len(),
        color_of(b as u32) == NodeColor::Black,
        ms(c, b) == MatchingState::Ur,
        t % 2 == 1,
        !c[b].spec_m_set().is_empty(),
    ensures
        ({
            let q = set_min(c[b].spec_m_set()) as int;
            &&& 0 <= q < ports[b].len()
            &&& ms(c2, nb(ports, b, q)) == MatchingState::Mr(back(ports, b, q) as u32)
        }),
{
    assert(black_ok(ports, c, t, b));
    lemma_m_set_min(c[b]);
    let q = set_min(c[b].spec_m_set()) as int;
    assert(proposers(ports, c, t, b).contains(q as u32));
    let u = nb(ports, b, q);
    let p = back(ports, b, q);
    assert(port_ok(ports, b, q));
    let msgs = inbox::<BipartiteMaximalMatching, BpState, BpMessage>(ports, c, u);
    lemma_arriving(ports, c, t, u, p);
    assert(c[b].spec_round() == t);
    assert(msgs[p] == BpMessage::Accept);
    assert forall|j: int| 0 <= j < p implies msgs[j] != BpMessage::Accept by {
        if msgs[j] == BpMessage::Accept {
            assert(arriving(ports, c, u, j) == BpMessage::Accept);
            lemma_arriving(ports, c, t, u, j);
            let b2 = nb(ports, u, j);
            assert(port_ok(ports, u, j));
            assert(black_ok(ports, c, t, b2));
            assert(proposers(ports, c, t, b2).contains(back(ports, u, j) as u32));
        }
    }
    lemma_first_accept_at(msgs, p);
    lemma_next(ports, c, c2, t, u);
    assert(white_ok(ports, c, t, u));
}

#[verifier::rlimit(100)]
proof fn lemma_black_step_odd(
    ports: Seq<Seq<(u32, u32)>>,
    c: Seq<BpState>,
    c2: Seq<BpState>,
    t: int,
    b: int,
)
    requires
        is_even_odd_network(ports),
        bmm_inv(ports, c, t),
        is_round::<BipartiteMaximalMatching, BpState, BpMessage>(ports, c, c2),
        t + 1 < 0x1_0000_0000,
        0 <= b < ports.len(),
        color_of(b as u32) == NodeColor::Black,
        ms(c, b) == MatchingState::Ur,
        t % 2 == 1,
    ensures
        black_ok(ports, c2, t + 1, b),
{
    let d = ports[b].len();
    lemma_next(ports, c, c2, t, b);
    assert(black_ok(ports, c, t, b));
    if !c[b].spec_m_set().is_empty() {
        lemma_accept_reaches_proposer(ports, c, c2, t, b);
    } else if c[b].spec_x_set().is_empty() {
        assert(ms(c2, b) is Us);
        assert forall|q: int| 0 <= q < d implies #[trigger] ms(c2, nb(ports, b, q)) is Ms by {
            assert(port_ok(ports, b, q));
            assert(!unmatched_ports(ports, c, b).contains(q as u32));
            lemma_next(ports, c, c2, t, nb(ports, b, q));
        }
    } else {
        assert(ms(c2, b) == MatchingState::Ur);
        assert(c2[b].spec_m_set() =~= Set::<u32>::empty());
        assert(unmatched_ports(ports, c2, b) =~= unmatched_ports(ports, c, b)) by {
            assert forall|q: u32| (q as int) < d implies (ms(c2, nb(ports, b, q as int)) is Ms) == (ms(
                c,
                nb(ports, b, q as int),
            ) is Ms) by {
                assert(port_ok(ports, b, q as int));
                lemma_white_matched_next(ports, c, c2, t, nb(ports, b, q as int));
            }
        }
    }
}

#[verifier::rlimit(100)]
proof fn lemma_black_step_even(
    ports: Seq<Seq<(u32, u32)>>,
    c: Seq<BpState>,
    c2: Seq<BpState>,
    t: int,
    b: int,
)
    requires
        is_even_odd_network(ports),
        bmm_inv(ports, c, t),
        is_round::<BipartiteMaximalMatching, BpState, BpMessage>(ports, c, c2),
        t + 1 < 0x1_0000_0000,
        0 <= b < ports.len(),
        color_of(b as u32) == NodeColor::Black,
        ms(c, b) == MatchingState::Ur,
        t % 2 == 0,
    ensures
        black_ok(ports, c2, t + 1, b),
{
    let d = ports[b].len();
    let msgs = inbox::<BipartiteMaximalMatching, BpState, BpMessage>(ports, c, b);
    lemma_next(ports, c, c2, t, b);
    assert(black_ok(ports, c, t, b));
    assert(ms(c2, b) == MatchingState::Ur);
    assert(c2[b].spec_m_set() =~= proposers(ports, c2, t + 1, b)) by {
        assert forall|q: u32| #[trigger] ports_with(msgs, BpMessage::Proposal).contains(q) == proposers(
            ports,
            c2,
            t + 1,
            b,
        ).contains(q) by {
            if (q as int) < d {
                assert(port_ok(ports, b, q as int));
                assert(arriving(ports, c, b, q as int) == msgs[q as int]);
                lemma_arriving(ports, c, t, b, q as int);
                lemma_white_matched_next(ports, c, c2, t, nb(ports, b, q as int));
                lemma_next(ports, c, c2, t, nb(ports, b, q as int));
                assert(white_ok(ports, c, t, nb(ports, b, q as int)));
            }
        }
    }
    assert(c2[b].spec_x_set() =~= unmatched_ports(ports, c2, b)) by {
        assert forall|q: u32| #[trigger] unmatched_ports(ports, c2, b).contains(q) == (unmatched_ports(
            ports,
            c,
            b,
        ).contains(q) && !ports_with(msgs, BpMessage::Matched).contains(q)) by {
            if (q as int) < d {
                assert(port_ok(ports, b, q as int));
                assert(arriving(ports, c, b, q as int) == msgs[q as int]);
                lemma_arriving(ports, c, t, b, q as int);
                lemma_white_matched_next(ports, c, c2, t, nb(ports, b, q as int));
            }
        }
    }
}

proof fn lemma_black_step(
    ports: Seq<Seq<(u32, u32)>>,
    c: Seq<BpState>,
    c2: Seq<BpState>,
    t: int,
    b: int,
)
    requires
        is_even_odd_network(ports),
        bmm_inv(ports, c, t),
        is_round::<BipartiteMaximalMatching, BpState, BpMessage>(ports, c, c2),
        t + 1 < 0x1_0000_0000,
        0 <= b < ports.len(),
        color_of(b as u32) == NodeColor::Black,
    ensures
        black_ok(ports, c2, t + 1, b),
{
    let d = ports[b].len();
    lemma_next(ports, c, c2, t, b);
    assert(black_ok(ports, c, t, b));
    match ms(c, b) {
        MatchingState::Ur => {
            if t % 2 == 0 {
                lemma_black_step_even(ports, c, c2, t, b);
            } else {
                lemma_black_step_odd(ports, c, c2, t, b);
            }
        },
        MatchingState::Mr(_) => {},
        MatchingState::Ms(q) => {
            let u = nb(ports, b, q as int);
            assert(port_ok(ports, b, q as int));
            lemma_white_matched_next(ports, c, c2, t, u);
            lemma_next(ports, c, c2, t, u);
            assert(white_ok(ports, c, t, u));
        },
        MatchingState::Us => {
            assert forall|q: int| 0 <= q < d implies #[trigger] ms(c2, nb(ports, b, q)) is Ms by {
                assert(port_ok(ports, b, q));
                assert(ms(c, nb(ports, b, q)) is Ms);
                lemma_next(ports, c, c2, t, nb(ports, b, q));
            }
        },
    }
}

proof fn lemma_inv_step(ports: Seq<Seq<(u32, u32)>>, c: Seq<BpState>, c2: Seq<BpState>, t: int)
    requires
        is_even_odd_network(ports),
        bmm_inv(ports, c, t),
        is_round::<BipartiteMaximalMatching, BpState, BpMessage>(ports, c, c2),
        t + 1 < 0x1_0000_0000,
    ensures
        bmm_inv(ports, c2, t + 1),
{
    assert forall|v: int| 0 <= v < c2.len() implies {
        &&& (#[trigger] c2[v]).spec_round() == t + 1
        &&& c2[v].spec_degree() == ports[v].len()
        &&& c2[v].spec_color() == color_of(v as u32)
    } by {
        lemma_next(ports, c, c2, t, v);
    }
    assert forall|v: int| 0 <= v < c2.len() && color_of(v as u32) == NodeColor::White implies #[trigger] white_ok(
        ports,
        c2,
        t + 1,
        v,
    ) by {
        lemma_white_step(ports, c, c2, t, v);
    }
    assert forall|v: int| 0 <= v < c2.len() && color_of(v as u32) == NodeColor::Black implies #[trigger] black_ok(
        ports,
        c2,
        t + 1,
        v,
    ) by {
        lemma_black_step(ports, c, c2, t, v);
    }
}

/// `runs` is a run of bipartite maximal matching from the initial
/// configuration on an even/odd network, short enough for round counters.
pub open spec fn is_bmm_run(ports: Seq<Seq<(u32, u32)>>, runs: Seq<Seq<BpState>>) -> bool {
    &&& is_even_odd_network(ports)
    &&& is_run::<BipartiteMaximalMatching, BpState, BpMessage>(ports, runs)
    &&& is_initial_config(ports, runs[0])
    &&& runs.len() <= 0x1_0000_0000
}

/// Every vertex is in a stopping state.
pub open spec fn all_stopped(c: Seq<BpState>) -> bool {
    forall|v: int| 0 <= v < c.len() ==> #[trigger] ms(c, v) is Us || ms(c, v) is Ms
}

proof fn lemma_inv_run(ports: Seq<Seq<(u32, u32)>>, runs: Seq<Seq<BpState>>, t: int)
    requires
        is_bmm_run(ports, runs),
        0 <= t < runs.len(),
    ensures
        bmm_inv(ports, runs[t], t),
    decreases t,
{
    if t == 0 {
        lemma_inv_init(ports, runs[0]);
    } else {
        lemma_inv_run(ports, runs, t - 1);
        assert(is_round::<BipartiteMaximalMatching, BpState, BpMessage>(ports, runs[t - 1], runs[t]));
        lemma_inv_step(ports, runs[t - 1], runs[t], t - 1);
    }
}

/// Partners agree: in a run of bipartite maximal matching on an even/odd
/// network, once every vertex has stopped, a vertex matched over port `p`
/// has at the other end of that edge a vertex matched over its own port for
/// the same edge.
pub proof fn lemma_matching_symmetric(ports: Seq<Seq<(u32, u32)>>, runs: Seq<Seq<BpState>>, t: int, v: int)
    requires
        is_bmm_run(ports, runs),
        0 <= t < runs.len(),
        all_stopped(runs[t]),
        0 <= v < ports.len(),
        ms(runs[t], v) is Ms,
    ensures
        ({
            let p = ms(runs[t], v)->Ms_0 as int;
            let w = nb(ports, v, p);
            let j = back(ports, v, p);
            &&& 0 <= p < ports[v].len()
            &&& 0 <= w < ports.len()
            &&& 0 <= j < ports[w].len()
            &&& ports[w][j].0 == ports[v][p].0
            &&& nb(ports, w, j) == v
            &&& ms(runs[t], w) == MatchingState::Ms(j as u32)
        }),
{
    let c = runs[t];
    lemma_inv_run(ports, runs, t);
    let p = ms(c, v)->Ms_0 as int;
    if color_of(v as u32) == NodeColor::White {
        assert(white_ok(ports, c, t, v));
    } else {
        assert(black_ok(ports, c, t, v));
    }
    assert(port_ok(ports, v, p));
    assert(same_edge(ports, v, p));
    assert(ms(c, nb(ports, v, p)) is Us || ms(c, nb(ports, v, p)) is Ms);
}

/// The matching is maximal: in a run of bipartite maximal matching on an
/// even/odd network, once every vertex has stopped, every edge has an end
/// that stopped matched.
pub proof fn lemma_matching_maximal(ports: Seq<Seq<(u32, u32)>>, runs: Seq<Seq<BpState>>, t: int)
    requires
        is_bmm_run(ports, runs),
        0 <= t < runs.len(),
        all_stopped(runs[t]),
    ensures
        forall|v: int, k: int|
            0 <= v < ports.len() && 0 <= k < ports[v].len() ==> ms(runs[t], v) is Ms || #[trigger] ms(
                runs[t],
                nb(ports, v, k),
            ) is Ms,
{
    let c = runs[t];
    lemma_inv_run(ports, runs, t);
    assert forall|v: int, k: int| 0 <= v < ports.len() && 0 <= k < ports[v].len() implies ms(c, v) is Ms
        || #[trigger] ms(c, nb(ports, v, k)) is Ms by {
        assert(ms(c, v) is Us || ms(c, v) is Ms);
        if color_of(v as u32) == NodeColor::White {
            assert(white_ok(ports, c, t, v));
        } else {
            assert(black_ok(ports, c, t, v));
        }
    }
}

/// A black vertex running at round `t` was running at every earlier round.
proof fn lemma_black_running_before(
    ports: Seq<Seq<(u32, u32)>>,
    runs: Seq<Seq<BpState>>,
    s: int,
    t: int,
    b: int,
)
    requires
        is_bmm_run(ports, runs),
        0 <= s <= t < runs.len(),
        0 <= b < ports.len(),
        ms(runs[t], b) == MatchingState::Ur,
    ensures
        ms(runs[s], b) == MatchingState::Ur,
    decreases t - s,
{
    if s < t {
        lemma_black_running_before(ports, runs, s + 1, t, b);
        lemma_inv_run(ports, runs, s);
        assert(is_round::<BipartiteMaximalMatching, BpState, BpMessage>(ports, runs[s], runs[s + 1]));
        lemma_next(ports, runs[s], runs[s + 1], s, b);
        if color_of(b as u32) == NodeColor::White {
            lemma_white_matched_next(ports, runs[s], runs[s + 1], s, b);
        } else {
            assert(black_ok(ports, runs[s], s, b));
        }
    }
}

/// After an odd round `s > 2 * max_degree`, no black vertex is running.
proof fn lemma_black_stops(
    ports: Seq<Seq<(u32, u32)>>,
    runs: Seq<Seq<BpState>>,
    s: int,
    dmax: nat,
    b: int,
)
    requires
        is_bmm_run(ports, runs),
        forall|v: int| 0 <= v < ports.len() ==> (#[trigger] ports[v]).len() <= dmax,
        0 <= s,
        s % 2 == 1,
        2 * dmax <= s + 1,
        s + 1 < runs.len(),
        0 <= b < ports.len(),
        color_of(b as u32) == NodeColor::Black,
    ensures
        ms(runs[s + 1], b) != MatchingState::Ur,
{
    let c = runs[s];
    lemma_inv_run(ports, runs, s);
    assert(is_round::<BipartiteMaximalMatching, BpState, BpMessage>(ports, c, runs[s + 1]));
    lemma_next(ports, c, runs[s + 1], s, b);
    assert(black_ok(ports, c, s, b));
    if ms(c, b) == MatchingState::Ur && c[b].spec_m_set().is_empty() && !c[b].spec_x_set().is_empty() {
        let q = choose|q: u32| c[b].spec_x_set().contains(q);
        assert(unmatched_ports(ports, c, b).contains(q));
        let u = nb(ports, b, q as int);
        assert(port_ok(ports, b, q as int));
        assert(white_ok(ports, c, s, u));
        assert(ports[u].len() <= dmax);
        let p = back(ports, b, q as int);
        assert(port_ok(ports, u, p));
        if ms(c, u) == MatchingState::Ur {
            if 2 * p + 2 <= s {
                assert(ms(c, nb(ports, u, p)) is Ms);
            } else {
                assert(p == (s - 1) / 2);
                assert(proposers(ports, c, s, b).contains(q));
            }
        }
    }
}

proof fn lemma_white_stopped(
    ports: Seq<Seq<(u32, u32)>>,
    runs: Seq<Seq<BpState>>,
    dmax: nat,
    t: int,
    v: int,
)
    requires
        is_bmm_run(ports, runs),
        ports[v].len() <= dmax,
        2 * dmax + 1 <= t < runs.len(),
        2 <= t,
        0 <= v < ports.len(),
        color_of(v as u32) == NodeColor::White,
    ensures
        ms(runs[t], v) is Us || ms(runs[t], v) is Ms,
{
    lemma_inv_run(ports, runs, t);
    let c = runs[t];
    let d = ports[v].len();
    assert(white_ok(ports, c, t, v));
    if ms(c, v) == MatchingState::Ur {
        assert(t <= 2 * d);
    } else if ms(c, v) is Mr {
        assert(t % 2 == 0 && t <= 2 * d + 1);
        assert(t == 2 * dmax + 1);
    }
}

proof fn lemma_black_not_running(
    ports: Seq<Seq<(u32, u32)>>,
    runs: Seq<Seq<BpState>>,
    dmax: nat,
    t: int,
    v: int,
)
    requires
        is_bmm_run(ports, runs),
        forall|w: int| 0 <= w < ports.len() ==> (#[trigger] ports[w]).len() <= dmax,
        2 * dmax + 1 <= t < runs.len(),
        2 <= t,
        0 <= v < ports.len(),
        color_of(v as u32) == NodeColor::Black,
    ensures
        ms(runs[t], v) != MatchingState::Ur,
{
    if ms(runs[t], v) == MatchingState::Ur {
        let s = if t % 2 == 0 {
            t - 1
        } else {
            t - 2
        };
        assert(0 <= s && s % 2 == 1 && 2 * dmax <= s + 1 && s + 1 <= t);
        lemma_black_stops(ports, runs, s, dmax, v);
        lemma_black_running_before(ports, runs, s + 1, t, v);
    }
}

proof fn lemma_black_stopped(
    ports: Seq<Seq<(u32, u32)>>,
    runs: Seq<Seq<BpState>>,
    dmax: nat,
    t: int,
    v: int,
)
    requires
        is_bmm_run(ports, runs),
        forall|w: int| 0 <= w < ports.len() ==> (#[trigger] ports[w]).len() <= dmax,
        2 * dmax + 1 <= t < runs.len(),
        2 <= t,
        0 <= v < ports.len(),
        color_of(v as u32) == NodeColor::Black,
    ensures
        ms(runs[t], v) is Us || ms(runs[t], v) is Ms,
{
    lemma_black_not_running(ports, runs, dmax, t, v);
    lemma_inv_run(ports, runs, t);
    assert(black_ok(ports, runs[t], t, v));
}

/// Bipartite maximal matching terminates: on an even/odd network whose
/// degrees are at most `dmax`, every vertex has stopped after
/// `2 * dmax + 1` rounds (and at least 2, for a lone black vertex).
pub proof fn lemma_bmm_terminates(
    ports: Seq<Seq<(u32, u32)>>,
    runs: Seq<Seq<BpState>>,
    dmax: nat,
    t: int,
)
    requires
        is_bmm_run(ports, runs),
        forall|v: int| 0 <= v < ports.len() ==> (#[trigger] ports[v]).len() <= dmax,
        2 * dmax + 1 <= t < runs.len(),
        2 <= t,
    ensures
        all_stopped(runs[t]),
{
    lemma_inv_run(ports, runs, t);
    assert forall|v: int| 0 <= v < runs[t].len() implies #[trigger] ms(runs[t], v) is Us || ms(
        runs[t],
        v,
    ) is Ms by {
        assert(ports[v].len() <= dmax);
        if color_of(v as u32) == NodeColor::White {
            lemma_white_stopped(ports, runs, dmax, t, v);
        } else {
            lemma_black_stopped(ports, runs, dmax, t, v);
        }
    }
}

} // verus!
