//! Properties of whole runs: sequences of states of one vertex, and sequences
//! of configurations of the network linked by synchronous rounds, as
//! `DaSimulator::round` and `DaSimulator::run_rounds` take them. A threaded
//! run that exchanges messages over channels goes through the same rounds
//! only if its channels deliver each round's messages as `inbox` says.
use vstd::prelude::*;

use vstd::arithmetic::power::{lemma_pow_increases, pow};

use crate::algorithms::bipartite::{
    bp_initial, bp_successor, color_of, BpMessage, BpState, NodeColor,
};
use crate::algorithms::isomorphic::{sum_numbers, InMessage, InState, IsomorphicNeighborhood};
use crate::simulator::{inbox, is_round};
use crate::algorithms::BipartiteMaximalMatching;
use crate::types::{DistributedAlgorithm, Input, Message, State};

verus! {

/// Stopping is absorbing along any run of a vertex: once the state at step
/// `i` is a stopping state, every later state is a stopping state that
/// compares equal to it.
pub proof fn lemma_stop_absorption_run<A: DistributedAlgorithm<S, M>, S: State, M: Message>(
    states: Seq<S>,
    inboxes: Seq<Seq<M>>,
    i: int,
    j: int,
)
    requires
        states.len() == inboxes.len() + 1,
        forall|t: int|
            0 <= t < inboxes.len() ==> A::is_successor(
                states[t],
                #[trigger] inboxes[t],
                states[t + 1],
            ),
        0 <= i <= j < states.len(),
        states[i].spec_is_output(),
    ensures
        states[j].spec_is_output(),
        states[i].spec_same(&states[j]),
    decreases j - i,
{
    if i == j {
        S::lemma_same_equivalence(&states[i], &states[i], &states[i]);
    } else {
        lemma_stop_absorption_run::<A, S, M>(states, inboxes, i, j - 1);
        A::lemma_stop_absorbing(states[j - 1], inboxes[j - 1], states[j]);
        S::lemma_same_equivalence(&states[i], &states[j - 1], &states[j]);
    }
}

/// The neighbours named by the ports are vertices of the network.
pub open spec fn ports_in_range(ports: Seq<Seq<(u32, u32)>>) -> bool {
    forall|v: int, k: int|
        0 <= v < ports.len() && 0 <= k < ports[v].len() ==> (#[trigger] ports[v][k]).1 < ports.len()
}

/// `runs` is a run of the network: a configuration per step, each one
/// synchronous round after the previous one.
pub open spec fn is_run<A: DistributedAlgorithm<S, M>, S: State, M: Message>(
    ports: Seq<Seq<(u32, u32)>>,
    runs: Seq<Seq<S>>,
) -> bool {
    &&& runs.len() > 0
    &&& runs[0].len() == ports.len()
    &&& forall|t: int|
        0 <= t < runs.len() - 1 ==> is_round::<A, S, M>(ports, #[trigger] runs[t], runs[t + 1])
}

proof fn lemma_run_lengths<A: DistributedAlgorithm<S, M>, S: State, M: Message>(
    ports: Seq<Seq<(u32, u32)>>,
    runs: Seq<Seq<S>>,
    t: int,
)
    requires
        is_run::<A, S, M>(ports, runs),
        0 <= t < runs.len(),
    ensures
        runs[t].len() == ports.len(),
    decreases t,
{
    if t > 0 {
        lemma_run_lengths::<A, S, M>(ports, runs, t - 1);
        assert(is_round::<A, S, M>(ports, runs[t - 1], runs[t]));
    }
}

/// Isomorphic neighbourhood at depth `D` takes exactly `D` rounds on any
/// network: from a configuration where no vertex has counted a round, after
/// `t <= D` rounds every vertex has counted `t`, and it is stopped exactly
/// when `t == D`.
pub proof fn lemma_depth_rounds<const D: u32>(
    ports: Seq<Seq<(u32, u32)>>,
    runs: Seq<Seq<InState<D>>>,
    t: int,
)
    requires
        is_run::<IsomorphicNeighborhood<D>, InState<D>, InMessage>(ports, runs),
        forall|v: int| 0 <= v < ports.len() ==> (#[trigger] runs[0][v]).spec_rounds() == 0,
        0 <= t < runs.len(),
        t <= D,
    ensures
        runs[t].len() == ports.len(),
        forall|v: int| 0 <= v < ports.len() ==> (#[trigger] runs[t][v]).spec_rounds() == t,
        forall|v: int| 0 <= v < ports.len() ==> (#[trigger] runs[t][v]).spec_is_output() == (t == D),
    decreases t,
{
    lemma_run_lengths::<IsomorphicNeighborhood<D>, InState<D>, InMessage>(ports, runs, t);
    if t > 0 {
        lemma_depth_rounds::<D>(ports, runs, t - 1);
        assert(is_round::<IsomorphicNeighborhood<D>, InState<D>, InMessage>(
            ports,
            runs[t - 1],
            runs[t],
        ));
        assert forall|v: int| 0 <= v < ports.len() implies (#[trigger] runs[t][v]).spec_rounds()
            == t by {
            assert(runs[t - 1][v].spec_rounds() == t - 1);
        }
    }
}

/// The sum of `k` copies of the same number.
proof fn lemma_sum_of_equal(msgs: Seq<InMessage>, c: u32)
    requires
        forall|j: int| 0 <= j < msgs.len() ==> #[trigger] msgs[j] == InMessage::Number(c),
    ensures
        sum_numbers(msgs) == msgs.len() * c,
    decreases msgs.len(),
{
    if msgs.len() > 0 {
        lemma_sum_of_equal(msgs.drop_last(), c);
        assert(msgs.last() == msgs[msgs.len() - 1]);
        assert((msgs.len() - 1) * c + c == msgs.len() * c) by (nonlinear_arith);
    }
}

/// On a `k`-regular network, isomorphic neighbourhood at depth `D` started
/// from `Count(0, k)` everywhere holds `Count(t, k^(t+1))` at every vertex
/// after `t <= D` rounds, so `Count(D, k^(D+1))` at the end (as long as
/// `k^(D+1)` fits in 32 bits).
pub proof fn lemma_regular_powers<const D: u32>(
    ports: Seq<Seq<(u32, u32)>>,
    runs: Seq<Seq<InState<D>>>,
    k: nat,
    t: int,
)
    requires
        is_run::<IsomorphicNeighborhood<D>, InState<D>, InMessage>(ports, runs),
        ports_in_range(ports),
        forall|v: int| 0 <= v < ports.len() ==> (#[trigger] ports[v]).len() == k,
        forall|v: int| 0 <= v < ports.len() ==> #[trigger] runs[0][v] == InState::<D>::Count(0, k as u32),
        pow(k as int, (D + 1) as nat) <= u32::MAX,
        0 <= t < runs.len(),
        t <= D,
    ensures
        forall|v: int|
            0 <= v < ports.len() ==> #[trigger] runs[t][v] == InState::<D>::Count(
                t as u32,
                pow(k as int, (t + 1) as nat) as u32,
            ),
    decreases t,
{
    lemma_run_lengths::<IsomorphicNeighborhood<D>, InState<D>, InMessage>(ports, runs, t);
    reveal(pow);
    if t > 0 {
        let prev = runs[t - 1];
        let c = pow(k as int, t as nat);
        lemma_regular_powers::<D>(ports, runs, k, t - 1);
        lemma_run_lengths::<IsomorphicNeighborhood<D>, InState<D>, InMessage>(ports, runs, t - 1);
        assert(is_round::<IsomorphicNeighborhood<D>, InState<D>, InMessage>(ports, prev, runs[t]));
        assert(pow(k as int, (t + 1) as nat) == k * c) by {
            reveal(pow);
        }
        assert(0 <= c <= u32::MAX && k * c <= u32::MAX) by {
            if k > 0 {
                lemma_pow_increases(k, (t + 1) as nat, (D + 1) as nat);
                lemma_pow_increases(k, t as nat, (t + 1) as nat);
                lemma_pow_increases(k, 0, t as nat);
                assert(pow(k as int, (t + 1) as nat) <= u32::MAX);
                assert(pow(k as int, 0) == 1);
                assert(c >= 1);
                assert(c <= pow(k as int, (t + 1) as nat));
            } else {
                assert(c == 0 * pow(0, (t - 1) as nat));
            }
        }
        assert forall|v: int| 0 <= v < ports.len() implies #[trigger] runs[t][v]
            == InState::<D>::Count(t as u32, pow(k as int, (t + 1) as nat) as u32) by {
            let msgs = inbox::<IsomorphicNeighborhood<D>, InState<D>, InMessage>(ports, prev, v);
            assert forall|j: int| 0 <= j < msgs.len() implies #[trigger] msgs[j] == InMessage::Number(
                c as u32,
            ) by {
                assert(0 <= j < ports[v].len());
                assert(ports[v][j].1 < ports.len());
                assert(prev[ports[v][j].1 as int] == InState::<D>::Count((t - 1) as u32, c as u32));
            }
            lemma_sum_of_equal(msgs, c as u32);
            assert(prev[v] == InState::<D>::Count((t - 1) as u32, c as u32));
            assert(k * c <= u32::MAX);
        }
    }
}

/// The shape of a white vertex's state after `s <= 2 * degree + 1` rounds of
/// bipartite maximal matching.
spec fn white_after(st: BpState, d: u32, s: int) -> bool {
    &&& st.spec_color() == NodeColor::White
    &&& st.spec_degree() == d
    &&& st.spec_round() == s
    &&& st.spec_matching() is Mr ==> s % 2 == 0
    &&& st.spec_matching() is Us ==> s > 2 * d
}

proof fn lemma_white_shape(
    states: Seq<BpState>,
    inboxes: Seq<Seq<BpMessage>>,
    info: Input,
    s: int,
)
    requires
        states.len() == inboxes.len() + 1,
        forall|t: int|
            0 <= t < inboxes.len() ==> bp_successor(states[t], #[trigger] inboxes[t], states[t + 1]),
        bp_initial(info, states[0]),
        color_of(info.node_id) == NodeColor::White,
        2 * info.node_degree + 1 < 0x1_0000_0000,
        0 <= s < states.len(),
        s <= 2 * info.node_degree + 1,
    ensures
        white_after(states[s], info.node_degree, s),
        s == 2 * info.node_degree + 1 ==> states[s].spec_is_output(),
    decreases s,
{
    if s > 0 {
        lemma_white_shape(states, inboxes, info, s - 1);
        assert(bp_successor(states[s - 1], inboxes[s - 1], states[s]));
    }
}

/// A white vertex of bipartite maximal matching is stopped after at most
/// `2 * degree + 1` rounds, whatever messages it receives.
pub proof fn lemma_white_stops(
    states: Seq<BpState>,
    inboxes: Seq<Seq<BpMessage>>,
    info: Input,
    t: int,
)
    requires
        states.len() == inboxes.len() + 1,
        forall|i: int|
            0 <= i < inboxes.len() ==> bp_successor(states[i], #[trigger] inboxes[i], states[i + 1]),
        bp_initial(info, states[0]),
        color_of(info.node_id) == NodeColor::White,
        2 * info.node_degree + 1 < 0x1_0000_0000,
        2 * info.node_degree + 1 <= t < states.len(),
    ensures
        states[t].spec_is_output(),
{
    let s = 2 * info.node_degree + 1;
    lemma_white_shape(states, inboxes, info, s);
    assert forall|i: int| 0 <= i < inboxes.len() implies BipartiteMaximalMatching::is_successor(
        states[i],
        #[trigger] inboxes[i],
        states[i + 1],
    ) by {
        assert(bp_successor(states[i], inboxes[i], states[i + 1]));
    }
    lemma_stop_absorption_run::<BipartiteMaximalMatching, BpState, BpMessage>(
        states,
        inboxes,
        s,
        t,
    );
}

} // verus!
