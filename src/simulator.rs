//! The network a simulation runs on, and the decisions each vertex's worker
//! takes in a round. Channels, threads and timing are left to the caller,
//! which performs the actions these functions decide on.
use vstd::prelude::*;

use core::marker::PhantomData;

use crate::graph::{
    add_link, add_vertex, graph_appended_only, graph_edges, graph_node_count, in_edges, lemma_edge_in_ports,
    lemma_port_bound, lemma_port_count, lemma_port_entry, lemma_ports_distinct, new_network, out_edges, port_list,
    port_order,
};
use crate::network::{
    check_simple, count_degrees, degree, is_simple, lemma_max_vertex, lemma_max_vertex_bound,
    max_vertex_of, normalized, vertex_count,
};
use crate::types::{DistributedAlgorithm, Input, Message, State};

verus! {

/// `p` is the first port (from 1) of the port list `ports` that holds edge
/// `e`.
pub open spec fn is_port_of(ports: Seq<(u32, u32)>, e: u32, p: u32) -> bool {
    &&& 1 <= p <= ports.len()
    &&& ports[p - 1].0 == e
    &&& forall|k: int| 0 <= k < p - 1 ==> ports[k].0 != e
}

/// The first port (from 1) that holds edge `e`.
fn find_port(ports: &Vec<(u32, u32)>, e: u32) -> (p: u32)
    requires
        ports.len() < u32::MAX,
        exists|k: int| 0 <= k < ports.len() && ports@[k].0 == e,
    ensures
        is_port_of(ports@, e, p),
{
    let mut k: usize = 0;
    while k < ports.len()
        invariant
            k <= ports.len() < u32::MAX,
            forall|j: int| 0 <= j < k ==> ports@[j].0 != e,
            exists|j: int| 0 <= j < ports.len() && ports@[j].0 == e,
        decreases ports.len() - k,
    {
        if ports[k].0 == e {
            return (k + 1) as u32;
        }
        k = k + 1;
    }
    proof {
        let j = choose|j: int| 0 <= j < ports.len() && ports@[j].0 == e;
        assert(ports@[j].0 != e);
    }
    0
}

/// The index (from 0) of the first port in `ports` that holds edge `e`.
pub open spec fn port_of(ports: Seq<(u32, u32)>, e: u32) -> int {
    choose|j: int|
        0 <= j < ports.len() && ports[j].0 == e && (forall|k: int| 0 <= k < j ==> ports[k].0 != e)
}

/// The messages arriving at the ports of `v`, in port order: at each port,
/// what the neighbour there sends on its own port for the same edge.
pub open spec fn inbox<A: DistributedAlgorithm<S, M>, S: State, M: Message>(
    ports: Seq<Seq<(u32, u32)>>,
    states: Seq<S>,
    v: int,
) -> Seq<M> {
    Seq::new(
        ports[v].len(),
        |k: int|
            A::spec_send(
                states[ports[v][k].1 as int],
                port_of(ports[ports[v][k].1 as int], ports[v][k].0),
            ),
    )
}

/// `next` is the configuration one synchronous round after `states`: every
/// vertex sends on all its ports, then receives from all of them.
pub open spec fn is_round<A: DistributedAlgorithm<S, M>, S: State, M: Message>(
    ports: Seq<Seq<(u32, u32)>>,
    states: Seq<S>,
    next: Seq<S>,
) -> bool {
    &&& next.len() == states.len()
    &&& forall|v: int|
        0 <= v < states.len() ==> A::is_successor(
            states[v],
            inbox::<A, S, M>(ports, states, v),
            #[trigger] next[v],
        )
}

/// Edge `e` of `es` has `v` as an end.
pub open spec fn touches(es: Seq<(u32, u32)>, e: int, v: u32) -> bool {
    0 <= e < es.len() && (es[e].0 == v || es[e].1 == v)
}

/// `runs` leads from `first` to `last` in `r` synchronous rounds, each taken
/// while some vertex was still running.
pub open spec fn rounds_between<A: DistributedAlgorithm<S, M>, S: State, M: Message>(
    ports: Seq<Seq<(u32, u32)>>,
    runs: Seq<Seq<S>>,
    first: Seq<S>,
    last: Seq<S>,
    r: int,
) -> bool {
    &&& runs.len() == r + 1
    &&& runs[0] == first
    &&& runs[r] == last
    &&& forall|t: int|
        0 <= t < r ==> is_round::<A, S, M>(ports, #[trigger] runs[t], runs[t + 1]) && running_count(
            runs[t],
        ) > 0
}

/// The number of states that are not stopping states.
pub open spec fn running_count<S: State>(states: Seq<S>) -> nat
    decreases states.len(),
{
    if states.len() == 0 {
        0
    } else {
        running_count(states.drop_last()) + if states.last().spec_is_output() {
            0nat
        } else {
            1nat
        }
    }
}

/// A transition out of a stopping state that leaves it: the algorithm broke
/// the absorbing-stop rule.
#[derive(Clone, Copy, Debug, PartialEq, Eq, Structural)]
pub enum PostStopTransition {
    Detected,
}

/// The decisions of the worker of one vertex: what to send, what to make of
/// what arrived, and when to stop.
pub struct Worker<S> {
    state: S,
    degree: u32,
    stopping: Option<S>,
    iterations: u32,
    round_limit: u32,
}

impl<S: State> Worker<S> {
    pub closed spec fn spec_state(&self) -> S {
        self.state
    }

    pub closed spec fn spec_degree(&self) -> u32 {
        self.degree
    }

    /// The copy of the first stopping state reached, if any.
    pub closed spec fn spec_stopping(&self) -> Option<S> {
        self.stopping
    }

    pub closed spec fn spec_iterations(&self) -> u32 {
        self.iterations
    }

    pub closed spec fn spec_round_limit(&self) -> u32 {
        self.round_limit
    }

    /// Once the worker has recorded a stopping state, the current state is a
    /// stopping state equal to it.
    pub open spec fn inv(&self) -> bool {
        self.spec_stopping() matches Some(st) ==> st.spec_same(&self.spec_state())
            && self.spec_state().spec_is_output()
    }

    /// A worker for a vertex in `state` with `degree` ports; a round limit of
    /// 0 means none.
    pub fn new(state: S, degree: u32, round_limit: u32) -> (w: Self)
        ensures
            w.spec_state() == state,
            w.spec_degree() == degree,
            w.spec_stopping() is None,
            w.spec_iterations() == 0,
            w.spec_round_limit() == round_limit,
            w.inv(),
    {
        Worker { state, degree, stopping: None, iterations: 0, round_limit }
    }

    /// The messages to send this round: one per port, in port order, the
    /// first `degree` items of the algorithm's sequence.
    pub fn outgoing<A: DistributedAlgorithm<S, M>, M: Message>(&self) -> (r: Vec<M>)
        ensures
            r.len() == self.spec_degree(),
            forall|k: int| 0 <= k < r.len() ==> r@[k] == A::spec_send(self.spec_state(), k),
    {
        let mut r: Vec<M> = Vec::new();
        let mut k: u32 = 0;
        while k < self.degree
            invariant
                k <= self.degree,
                r.len() == k,
                forall|j: int| 0 <= j < k ==> r@[j] == A::spec_send(self.spec_state(), j),
            decreases self.degree - k,
        {
            r.push(A::send(&self.state, k));
            k = k + 1;
        }
        r
    }

    /// Takes the messages of a round, one per port in port order, and moves
    /// to the next state. Returns whether the vertex has just reached its
    /// first stopping state, or an error if the state left the recorded
    /// stopping state.
    pub fn deliver<A: DistributedAlgorithm<S, M>, M: Message>(&mut self, messages: Vec<M>) -> (r:
        Result<bool, PostStopTransition>)
        requires
            messages.len() == old(self).spec_degree(),
        ensures
            A::is_successor(old(self).spec_state(), messages@, final(self).spec_state()),
            final(self).spec_degree() == old(self).spec_degree(),
            final(self).spec_iterations() == old(self).spec_iterations(),
            final(self).spec_round_limit() == old(self).spec_round_limit(),
            old(self).spec_stopping() matches Some(st) ==> {
                &&& final(self).spec_stopping() == old(self).spec_stopping()
                &&& r is Err <==> !st.spec_same(&final(self).spec_state())
                &&& r is Ok ==> r == Ok::<bool, PostStopTransition>(false)
            },
            old(self).spec_stopping() is None ==> {
                &&& r == Ok::<bool, PostStopTransition>(final(self).spec_state().spec_is_output())
                &&& final(self).spec_state().spec_is_output() ==> (final(self).spec_stopping() matches Some(
                    st,
                ) && final(self).spec_state().spec_same(&st))
                &&& !final(self).spec_state().spec_is_output() ==> final(self).spec_stopping() is None
            },
            old(self).inv() ==> r is Ok && final(self).inv(),
    {
        let ghost before = self.state;
        let next = A::receive(&self.state, messages);
        self.state = next;
        match &self.stopping {
            Some(st) => {
                proof {
                    if st.spec_same(&before) && before.spec_is_output() {
                        A::lemma_stop_absorbing(before, messages@, self.state);
                        S::lemma_same_equivalence(st, &before, &self.state);
                    }
                }
                if !st.same(&self.state) {
                    return Err(PostStopTransition::Detected);
                }
                Ok(false)
            },
            None => {
                if self.state.is_output() {
                    let snap = self.state.snapshot();
                    proof {
                        S::lemma_same_equivalence(&self.state, &snap, &self.state);
                    }
                    self.stopping = Some(snap);
                    Ok(true)
                } else {
                    Ok(false)
                }
            },
        }
    }

    /// After a round: whether to leave. All vertices have stopped when
    /// `stopped_total` reaches `node_count`; otherwise the round is counted
    /// and the round limit, if any, decides.
    pub fn should_exit(&mut self, stopped_total: u32, node_count: u32) -> (r: bool)
        ensures
            final(self).spec_state() == old(self).spec_state(),
            final(self).spec_stopping() == old(self).spec_stopping(),
            final(self).spec_degree() == old(self).spec_degree(),
            final(self).spec_round_limit() == old(self).spec_round_limit(),
            stopped_total >= node_count ==> r && final(self).spec_iterations() == old(
                self,
            ).spec_iterations(),
            stopped_total < node_count ==> {
                &&& final(self).spec_iterations() == if old(self).spec_iterations() < u32::MAX {
                    (old(self).spec_iterations() + 1) as u32
                } else {
                    u32::MAX
                }
                &&& r == (final(self).spec_round_limit() > 0 && final(self).spec_iterations()
                    >= final(self).spec_round_limit())
            },
    {
        if stopped_total >= node_count {
            return true;
        }
        self.iterations = self.iterations.saturating_add(1);
        self.round_limit > 0 && self.iterations >= self.round_limit
    }

    /// The current state.
    pub fn state(&self) -> (r: &S)
        ensures
            *r == self.spec_state(),
    {
        &self.state
    }

    /// The current state, giving up the worker.
    pub fn into_state(self) -> (r: S)
        ensures
            r == self.spec_state(),
    {
        self.state
    }
}

/// Why an edge list was refused.
#[derive(Clone, Copy, Debug, PartialEq, Eq, Structural)]
pub enum NetworkError {
    /// The list holds no edge.
    NoEdges,
    /// The list holds a self-loop or two edges between the same vertices.
    NotSimple,
}

/// A network of vertices running the algorithm `A`, with its port numbering.
pub struct DaSimulator<A, S, M> {
    a: PhantomData<A>,
    m: PhantomData<M>,
    node_count: u32,
    edges: Vec<(u32, u32)>,
    ports: Vec<Vec<(u32, u32)>>,
    states: Vec<S>,
    timeout_millis: u64,
}

impl<A: DistributedAlgorithm<S, M>, S: State, M: Message> DaSimulator<A, S, M> {
    /// The number of vertices.
    pub closed spec fn spec_node_count(&self) -> nat {
        self.node_count as nat
    }

    /// The edges, smaller end first, in the order given.
    pub closed spec fn spec_edges(&self) -> Seq<(u32, u32)> {
        self.edges@
    }

    /// The ports of every vertex, as `(edge index, neighbour)`.
    pub closed spec fn spec_ports(&self) -> Seq<Seq<(u32, u32)>> {
        Seq::new(self.ports@.len(), |v: int| self.ports@[v]@)
    }

    /// The state of every vertex.
    pub closed spec fn spec_states(&self) -> Seq<S> {
        self.states@
    }

    pub closed spec fn spec_timeout_millis(&self) -> u64 {
        self.timeout_millis
    }

    /// The network is consistent: one port list and one state per vertex,
    /// port lists as the edges fix them, and edges between existing vertices.
    pub open spec fn wf(&self) -> bool {
        &&& self.ports_wf()
        &&& self.spec_states().len() == self.spec_node_count()
    }

    /// The network without its states is consistent: one port list per
    /// vertex, port lists as the edges fix them, and edges between existing
    /// vertices. This holds while a run has the states.
    pub open spec fn ports_wf(&self) -> bool {
        &&& self.spec_ports().len() == self.spec_node_count()
        &&& self.spec_edges().len() < u32::MAX
        &&& self.spec_node_count() <= u32::MAX
        &&& forall|v: int|
            0 <= v < self.spec_node_count() ==> #[trigger] self.spec_ports()[v] == port_list(
                self.spec_edges(),
                v as u32,
            )
        &&& forall|i: int|
            0 <= i < self.spec_edges().len() ==> #[trigger] self.spec_edges()[i].0
                < self.spec_edges()[i].1 < self.spec_node_count()
    }

    /// Builds the network of the given edges (whose order fixes the port
    /// numbering). Vertex `v` starts in the state `A` gives it for its input.
    /// The timeout is kept for the run.
    pub fn from_network(edges: &Vec<(u32, u32)>, timeout_millis: u64) -> (r: Result<
        Self,
        NetworkError,
    >)
        requires
            edges.len() < u32::MAX,
            forall|i: int| 0 <= i < edges.len() ==> edges@[i].0 < u32::MAX && edges@[i].1 < u32::MAX,
        ensures
            r == Err::<Self, NetworkError>(NetworkError::NoEdges) <==> edges.len() == 0,
            r == Err::<Self, NetworkError>(NetworkError::NotSimple) <==> edges.len() > 0
                && !is_simple(edges@),
            r is Ok <==> edges.len() > 0 && is_simple(edges@),
            r matches Ok(sim) ==> {
                &&& sim.wf()
                &&& sim.spec_node_count() == vertex_count(edges@)
                &&& sim.spec_edges() == normalized(edges@)
                &&& sim.spec_timeout_millis() == timeout_millis
                &&& forall|v: int|
                    0 <= v < sim.spec_node_count() ==> A::is_initial(
                        Input {
                            node_id: v as u32,
                            node_count: sim.spec_node_count() as u32,
                            node_degree: degree(edges@, v as u32) as u32,
                        },
                        #[trigger] sim.spec_states()[v],
                    )
                &&& forall|v: int|
                    0 <= v < sim.spec_node_count() ==> #[trigger] sim.spec_ports()[v].len()
                        == degree(edges@, v as u32)
            },
    {
        if edges.len() == 0 {
            return Err(NetworkError::NoEdges);
        }
        if !check_simple(edges) {
            return Err(NetworkError::NotSimple);
        }
        let top = max_vertex_of(edges);
        proof {
            lemma_max_vertex(edges@);
            lemma_max_vertex_bound(edges@, u32::MAX);
        }
        let n = top + 1;
        let degrees = count_degrees(edges, n);

        let mut states: Vec<S> = Vec::new();
        let mut v: u32 = 0;
        while v < n
            invariant
                v <= n,
                degrees.len() == n,
                states.len() == v,
                forall|w: int|
                    0 <= w < v ==> A::is_initial(
                        Input { node_id: w as u32, node_count: n, node_degree: degrees@[w] },
                        #[trigger] states@[w],
                    ),
            decreases n - v,
        {
            let s = A::init(&Input { node_id: v, node_count: n, node_degree: degrees[v as usize] });
            states.push(s);
            v = v + 1;
        }

        let mut g = new_network();
        let mut k: u32 = 0;
        while k < n
            invariant
                k <= n <= u32::MAX,
                graph_node_count(g) == k,
                graph_edges(g) == Seq::<(u32, u32)>::empty(),
                graph_appended_only(g),
            decreases n - k,
        {
            add_vertex(&mut g);
            k = k + 1;
        }

        let mut normal: Vec<(u32, u32)> = Vec::new();
        let mut i: usize = 0;
        while i < edges.len()
            invariant
                i <= edges.len() < u32::MAX,
                graph_node_count(g) == n,
                forall|j: int| 0 <= j < edges.len() ==> edges@[j].0 < n && edges@[j].1 < n,
                normal@ == normalized(edges@).subrange(0, i as int),
                graph_edges(g) == normal@,
                graph_appended_only(g),
            decreases edges.len() - i,
        {
            let (a, b) = edges[i];
            let e = if a > b {
                (b, a)
            } else {
                (a, b)
            };
            add_link(&mut g, e.0, e.1);
            normal.push(e);
            i = i + 1;
        }
        assert(normalized(edges@).subrange(0, edges.len() as int) == normalized(edges@));

        let mut ports: Vec<Vec<(u32, u32)>> = Vec::new();
        let mut v: u32 = 0;
        while v < n
            invariant
                v <= n,
                graph_node_count(g) == n,
                graph_edges(g) == normal@,
                graph_appended_only(g),
                ports.len() == v,
                forall|w: int| 0 <= w < v ==> #[trigger] ports@[w]@ == port_list(normal@, w as u32),
            decreases n - v,
        {
            let p = port_order(&g, v);
            ports.push(p);
            v = v + 1;
        }

        let sim = DaSimulator {
            a: PhantomData,
            m: PhantomData,
            node_count: n,
            edges: normal,
            ports,
            states,
            timeout_millis,
        };
        proof {
            assert forall|v: int| 0 <= v < n implies #[trigger] sim.spec_ports()[v].len() == degree(
                edges@,
                v as u32,
            ) by {
                lemma_port_count(edges@, v as u32);
            }
            assert forall|j: int| 0 <= j < sim.spec_edges().len() implies #[trigger] sim.spec_edges()[j].0
                < sim.spec_edges()[j].1 < sim.spec_node_count() by {
                assert(edges@[j].0 != edges@[j].1);
            }
        }
        Ok(sim)
    }

    /// The number of vertices.
    pub fn node_count(&self) -> (r: u32)
        ensures
            r == self.spec_node_count(),
    {
        self.node_count
    }

    /// The number of edges.
    pub fn edge_count(&self) -> (r: usize)
        ensures
            r == self.spec_edges().len(),
    {
        self.edges.len()
    }

    /// The timeout of a run, in milliseconds.
    pub fn timeout_millis(&self) -> (r: u64)
        ensures
            r == self.spec_timeout_millis(),
    {
        self.timeout_millis
    }

    /// The ends of edge `e`, smaller first.
    pub fn edge(&self, e: usize) -> (r: (u32, u32))
        requires
            e < self.spec_edges().len(),
        ensures
            r == self.spec_edges()[e as int],
    {
        self.edges[e]
    }

    /// The edges at the ports of `v`, port 1 first.
    pub fn port_edges(&self, v: u32) -> (r: Vec<u32>)
        requires
            self.ports_wf(),
            v < self.spec_node_count(),
        ensures
            r.len() == self.spec_ports()[v as int].len(),
            forall|k: int| 0 <= k < r.len() ==> r@[k] == #[trigger] self.spec_ports()[v as int][k].0,
            forall|k1: int, k2: int| 0 <= k1 < k2 < r.len() ==> r@[k1] != r@[k2],
            forall|k: int|
                0 <= k < r.len() ==> (r@[k] as int) < self.spec_edges().len() && (
                #[trigger] self.spec_edges()[r@[k] as int].0 == v || self.spec_edges()[r@[k] as int].1
                    == v),
            forall|e: int|
                #[trigger] touches(self.spec_edges(), e, v) ==> exists|k: int|
                    0 <= k < r.len() && r@[k] == e,
    {
        let p = &self.ports[v as usize];
        let mut r: Vec<u32> = Vec::new();
        let mut k: usize = 0;
        while k < p.len()
            invariant
                k <= p.len(),
                p@ == self.spec_ports()[v as int],
                r.len() == k,
                forall|j: int| 0 <= j < k ==> r@[j] == p@[j].0,
            decreases p.len() - k,
        {
            r.push(p[k].0);
            k = k + 1;
        }
        let ghost es = self.spec_edges();
        proof {
            assert(self.spec_ports()[v as int] == port_list(es, v));
            assert forall|k1: int, k2: int| 0 <= k1 < k2 < port_list(es, v).len() implies port_list(
                es,
                v,
            )[k1].0 != port_list(es, v)[k2].0 by {
                lemma_ports_distinct(es, v, k1, k2);
            }
            assert forall|k: int| 0 <= k < port_list(es, v).len() implies (port_list(es, v)[k].0 as int)
                < es.len() && (es[port_list(es, v)[k].0 as int].0 == v || es[port_list(es, v)[k].0 as int].1
                == v) by {
                lemma_port_entry(es, v, k);
            }
            assert forall|e: int| 0 <= e < es.len() && (es[e].0 == v || es[e].1 == v) implies exists|k: int|
                0 <= k < port_list(es, v).len() && port_list(es, v)[k].0 == e by {
                lemma_edge_in_ports(es, e);
                if es[e].0 == v {
                    let ko = choose|j: int|
                        0 <= j < out_edges(es, v).len() && out_edges(es, v)[j] == (e as u32, es[e].1);
                    assert(port_list(es, v)[in_edges(es, v).len() + ko].0 == e);
                } else {
                    let ki = choose|j: int|
                        0 <= j < in_edges(es, v).len() && in_edges(es, v)[j] == (e as u32, es[e].0);
                    assert(port_list(es, v)[ki].0 == e);
                }
            }
        }
        proof {
            assert(self.spec_ports()[v as int] == port_list(es, v));
            assert forall|e: int| #[trigger] touches(es, e, v) implies exists|k: int|
                0 <= k < r.len() && r@[k] == e by {
                let k = choose|k: int| 0 <= k < port_list(es, v).len() && port_list(es, v)[k].0 == e;
                assert(r@[k] == e);
            }
        }
        r
    }

    /// The port numbers (from 1) of edge `e` at its smaller end and at its
    /// larger end: the DOT tail and head labels of the edge.
    pub fn port_labels(&self, e: u32) -> (r: (u32, u32))
        requires
            self.ports_wf(),
            e < self.spec_edges().len(),
        ensures
            is_port_of(self.spec_ports()[self.spec_edges()[e as int].0 as int], e, r.0),
            is_port_of(self.spec_ports()[self.spec_edges()[e as int].1 as int], e, r.1),
    {
        let (a, b) = self.edges[e as usize];
        proof {
            let es = self.spec_edges();
            lemma_edge_in_ports(es, e as int);
            let ko = choose|k: int| 0 <= k < out_edges(es, a).len() && out_edges(es, a)[k] == (e, b);
            assert(port_list(es, a)[in_edges(es, a).len() + ko].0 == e);
            let ki = choose|k: int| 0 <= k < in_edges(es, b).len() && in_edges(es, b)[k] == (e, a);
            assert(port_list(es, b)[ki].0 == e);
            lemma_port_bound(es, a);
            lemma_port_bound(es, b);
            assert(self.ports@[a as int]@ == self.spec_ports()[a as int]);
            assert(self.ports@[b as int]@ == self.spec_ports()[b as int]);
        }
        let tail = find_port(&self.ports[a as usize], e);
        let head = find_port(&self.ports[b as usize], e);
        (tail, head)
    }

    /// A worker for every vertex, taking over its state, with its degree and
    /// the round limit (0 for none). The states stay with the workers until
    /// `finish` puts them back.
    pub fn start(&mut self, round_limit: u32) -> (r: Vec<Worker<S>>)
        requires
            old(self).wf(),
        ensures
            final(self).ports_wf(),
            final(self).spec_states().len() == 0,
            final(self).spec_node_count() == old(self).spec_node_count(),
            final(self).spec_edges() == old(self).spec_edges(),
            final(self).spec_ports() == old(self).spec_ports(),
            final(self).spec_timeout_millis() == old(self).spec_timeout_millis(),
            r.len() == old(self).spec_node_count(),
            forall|v: int|
                0 <= v < r.len() ==> {
                    &&& (#[trigger] r@[v]).inv()
                    &&& r@[v].spec_state() == old(self).spec_states()[v]
                    &&& r@[v].spec_degree() == old(self).spec_ports()[v].len()
                    &&& r@[v].spec_stopping() is None
                    &&& r@[v].spec_iterations() == 0
                    &&& r@[v].spec_round_limit() == round_limit
                },
    {
        let ghost orig = self.spec_states();
        let mut states: Vec<S> = Vec::new();
        core::mem::swap(&mut self.states, &mut states);
        let n = states.len();
        let mut rev: Vec<Worker<S>> = Vec::new();
        while states.len() > 0
            invariant
                self.ports_wf(),
                self.spec_ports() == old(self).spec_ports(),
                self.spec_edges() == old(self).spec_edges(),
                self.spec_node_count() == old(self).spec_node_count(),
                n == orig.len() == self.spec_node_count(),
                states@ == orig.subrange(0, states.len() as int),
                rev.len() + states.len() == n,
                forall|j: int|
                    0 <= j < rev.len() ==> {
                        &&& #[trigger] rev@[j].inv()
                        &&& rev@[j].spec_state() == orig[n - 1 - j]
                        &&& rev@[j].spec_degree() == self.spec_ports()[n - 1 - j].len()
                        &&& rev@[j].spec_stopping() is None
                        &&& rev@[j].spec_iterations() == 0
                        &&& rev@[j].spec_round_limit() == round_limit
                    },
            decreases states.len(),
        {
            let v = states.len() - 1;
            proof {
                lemma_port_bound(self.spec_edges(), v as u32);
                assert(self.ports@[v as int]@ == self.spec_ports()[v as int]);
            }
            let d = self.ports[v].len() as u32;
            match states.pop() {
                Some(s) => {
                    rev.push(Worker::new(s, d, round_limit));
                },
                None => {},
            }
        }
        let ghost rev0 = rev@;
        let mut r: Vec<Worker<S>> = Vec::new();
        while rev.len() > 0
            invariant
                rev0.len() == n,
                n == orig.len(),
                orig == old(self).spec_states(),
                forall|j: int|
                    0 <= j < n ==> {
                        &&& #[trigger] rev0[j].inv()
                        &&& rev0[j].spec_state() == orig[n - 1 - j]
                        &&& rev0[j].spec_degree() == old(self).spec_ports()[n - 1 - j].len()
                        &&& rev0[j].spec_stopping() is None
                        &&& rev0[j].spec_iterations() == 0
                        &&& rev0[j].spec_round_limit() == round_limit
                    },
                rev@ == rev0.subrange(0, rev.len() as int),
                r.len() + rev.len() == n,
                forall|j: int| 0 <= j < r.len() ==> r@[j] == rev0[n - 1 - j],
            decreases rev.len(),
        {
            match rev.pop() {
                Some(w) => {
                    r.push(w);
                },
                None => {},
            }
        }
        assert forall|v: int| 0 <= v < r.len() implies {
            &&& (#[trigger] r@[v]).inv()
            &&& r@[v].spec_state() == old(self).spec_states()[v]
            &&& r@[v].spec_degree() == old(self).spec_ports()[v].len()
            &&& r@[v].spec_stopping() is None
            &&& r@[v].spec_iterations() == 0
            &&& r@[v].spec_round_limit() == round_limit
        } by {
            assert(r@[v] == rev0[n - 1 - v]);
            assert(rev0[n - 1 - v].inv());
        }
        r
    }

    /// Puts the final states of a run in place.
    pub fn finish(&mut self, states: Vec<S>)
        requires
            old(self).ports_wf(),
            states.len() == old(self).spec_node_count(),
        ensures
            final(self).wf(),
            final(self).spec_states() == states@,
            final(self).spec_node_count() == old(self).spec_node_count(),
            final(self).spec_edges() == old(self).spec_edges(),
            final(self).spec_ports() == old(self).spec_ports(),
            final(self).spec_timeout_millis() == old(self).spec_timeout_millis(),
    {
        self.states = states;
    }

    /// The number of vertices whose state is not a stopping state.
    pub fn unfinished(&self) -> (r: u32)
        requires
            self.wf(),
        ensures
            r == running_count(self.spec_states()),
    {
        let mut c: u32 = 0;
        let mut v: usize = 0;
        while v < self.states.len()
            invariant
                self.wf(),
                v <= self.states.len() == self.spec_node_count(),
                c == running_count(self.spec_states().subrange(0, v as int)),
                c <= v,
            decreases self.states.len() - v,
        {
            assert(self.spec_states().subrange(0, v + 1 as int).drop_last()
                == self.spec_states().subrange(0, v as int));
            if !self.states[v].is_output() {
                c = c + 1;
            }
            v = v + 1;
        }
        assert(self.spec_states().subrange(0, self.states.len() as int) == self.spec_states());
        c
    }

    /// The messages that arrive at the ports of `v` this round.
    fn inbox_of(&self, v: u32) -> (r: Vec<M>)
        requires
            self.wf(),
            v < self.spec_node_count(),
        ensures
            r@ == inbox::<A, S, M>(self.spec_ports(), self.spec_states(), v as int),
            r.len() <= u32::MAX,
    {
        let ghost es = self.spec_edges();
        let ghost ports = self.spec_ports();
        let ps = &self.ports[v as usize];
        assert(ps@ == ports[v as int]);
        proof {
            lemma_port_bound(es, v);
        }
        let mut r: Vec<M> = Vec::new();
        let mut k: usize = 0;
        while k < ps.len()
            invariant
                self.wf(),
                es == self.spec_edges(),
                ports == self.spec_ports(),
                v < self.spec_node_count(),
                ps@ == ports[v as int],
                ps.len() <= es.len(),
                k <= ps.len(),
                r.len() == k,
                forall|j: int|
                    0 <= j < k ==> r@[j] == #[trigger] inbox::<A, S, M>(
                        ports,
                        self.spec_states(),
                        v as int,
                    )[j],
            decreases ps.len() - k,
        {
            let (e, w) = ps[k];
            proof {
                lemma_port_entry(es, v, k as int);
                lemma_edge_in_ports(es, e as int);
                lemma_port_bound(es, w);
                let pw = port_list(es, w);
                if es[e as int].1 == w {
                    let ki = choose|j: int|
                        0 <= j < in_edges(es, w).len() && in_edges(es, w)[j] == (e, es[e as int].0);
                    assert(pw[ki].0 == e);
                } else {
                    let ko = choose|j: int|
                        0 <= j < out_edges(es, w).len() && out_edges(es, w)[j] == (e, es[e as int].1);
                    assert(pw[in_edges(es, w).len() + ko].0 == e);
                }
                assert(self.ports@[w as int]@ == ports[w as int]);
            }
            let p = find_port(&self.ports[w as usize], e);
            proof {
                let pw = ports[w as int];
                let c = port_of(pw, e);
                assert(0 <= p - 1 < pw.len() && pw[p - 1].0 == e && (forall|j: int|
                    0 <= j < p - 1 ==> pw[j].0 != e));
                assert(c == p - 1) by {
                    if c < p - 1 {
                        assert(pw[c].0 != e);
                    } else if c > p - 1 {
                        assert(pw[p - 1].0 != e);
                    }
                }
            }
            r.push(A::send(&self.states[w as usize], p - 1));
            k = k + 1;
        }
        assert(r@ =~= inbox::<A, S, M>(ports, self.spec_states(), v as int));
        r
    }

    /// One synchronous round of the whole network: every vertex sends on all
    /// its ports, then every vertex receives what its neighbours sent.
    pub fn round(&mut self)
        requires
            old(self).wf(),
        ensures
            final(self).wf(),
            is_round::<A, S, M>(old(self).spec_ports(), old(self).spec_states(), final(self).spec_states()),
            final(self).spec_node_count() == old(self).spec_node_count(),
            final(self).spec_edges() == old(self).spec_edges(),
            final(self).spec_ports() == old(self).spec_ports(),
            final(self).spec_timeout_millis() == old(self).spec_timeout_millis(),
    {
        let mut next: Vec<S> = Vec::new();
        let mut v: u32 = 0;
        while v < self.node_count
            invariant
                self.wf(),
                v <= self.spec_node_count(),
                next.len() == v,
                forall|w: int|
                    0 <= w < v ==> A::is_successor(
                        self.spec_states()[w],
                        inbox::<A, S, M>(self.spec_ports(), self.spec_states(), w),
                        #[trigger] next@[w],
                    ),
            decreases self.spec_node_count() - v,
        {
            let msgs = self.inbox_of(v);
            let s = A::receive(&self.states[v as usize], msgs);
            next.push(s);
            v = v + 1;
        }
        self.states = next;
    }

    /// Runs synchronous rounds until every vertex is in a stopping state or
    /// `max_rounds` rounds have passed; returns the number of rounds run.
    pub fn run_rounds(&mut self, max_rounds: u32) -> (r: u32)
        requires
            old(self).wf(),
        ensures
            final(self).wf(),
            r <= max_rounds,
            running_count(final(self).spec_states()) == 0 || r == max_rounds,
            exists|runs: Seq<Seq<S>>|
                rounds_between::<A, S, M>(
                    old(self).spec_ports(),
                    runs,
                    old(self).spec_states(),
                    final(self).spec_states(),
                    r as int,
                ),
            final(self).spec_node_count() == old(self).spec_node_count(),
            final(self).spec_edges() == old(self).spec_edges(),
            final(self).spec_ports() == old(self).spec_ports(),
            final(self).spec_timeout_millis() == old(self).spec_timeout_millis(),
    {
        let mut r: u32 = 0;
        let ghost mut runs: Seq<Seq<S>> = seq![self.spec_states()];
        while r < max_rounds && self.unfinished() > 0
            invariant
                self.wf(),
                r <= max_rounds,
                rounds_between::<A, S, M>(
                    old(self).spec_ports(),
                    runs,
                    old(self).spec_states(),
                    self.spec_states(),
                    r as int,
                ),
                self.spec_node_count() == old(self).spec_node_count(),
                self.spec_edges() == old(self).spec_edges(),
                self.spec_ports() == old(self).spec_ports(),
                self.spec_timeout_millis() == old(self).spec_timeout_millis(),
            decreases max_rounds - r,
        {
            let ghost before = self.spec_states();
            self.round();
            proof {
                let prev = runs;
                runs = runs.push(self.spec_states());
                assert forall|t: int| 0 <= t < r + 1 implies is_round::<A, S, M>(
                    old(self).spec_ports(),
                    #[trigger] runs[t],
                    runs[t + 1],
                ) && running_count(runs[t]) > 0 by {
                    if t < r {
                        assert(runs[t] == prev[t] && runs[t + 1] == prev[t + 1]);
                    } else {
                        assert(runs[t] == before);
                    }
                }
            }
            r = r + 1;
        }
        assert(rounds_between::<A, S, M>(
            old(self).spec_ports(),
            runs,
            old(self).spec_states(),
            self.spec_states(),
            r as int,
        ));
        r
    }

    /// The state of vertex `v`.
    pub fn state(&self, v: u32) -> (r: &S)
        requires
            v < self.spec_states().len(),
        ensures
            *r == self.spec_states()[v as int],
    {
        &self.states[v as usize]
    }
}

} // verus!
