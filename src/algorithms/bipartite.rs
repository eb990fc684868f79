//! Bipartite maximal matching in the port numbering model. The network must
//! be bipartite with respect to even and odd vertices: even vertices are
//! white and propose, odd vertices are black and accept.
use vstd::prelude::*;

use crate::text::{decimal, decimal_string};
use crate::types::{DistributedAlgorithm, Input, Message, State};

verus! {

/// Bipartite maximal matching. Every edge must join an even and an odd vertex.
pub struct BipartiteMaximalMatching;

/// The side of the bipartition a vertex belongs to.
#[derive(Clone, Copy, Debug, PartialEq, Eq, Structural)]
pub enum NodeColor {
    White,
    Black,
}

/// The colour of the vertex with the given identifier: even vertices are white.
pub open spec fn color_of(id: u32) -> NodeColor {
    if id % 2 == 0 {
        NodeColor::White
    } else {
        NodeColor::Black
    }
}

impl NodeColor {
    /// The colour of the vertex with the given identifier.
    pub fn from_id(i: u32) -> (c: NodeColor)
        ensures
            c == color_of(i),
    {
        if i % 2 == 0 {
            NodeColor::White
        } else {
            NodeColor::Black
        }
    }
}

/// The four matching states; ports are counted from 0.
#[derive(Clone, Copy, Debug, PartialEq, Eq, Structural)]
pub enum MatchingState {
    /// Unmatched and running.
    Ur,
    /// Matched over the given port and running.
    Mr(u32),
    /// Unmatched and stopped.
    Us,
    /// Matched over the given port and stopped.
    Ms(u32),
}

/// The state of a vertex. `m_set` and `x_set` are sets of ports, held as
/// vectors whose order and repetitions carry no meaning.
pub struct BpState {
    degree: u32,
    color: NodeColor,
    round: u32,
    matching_state: MatchingState,
    m_set: Vec<u32>,
    x_set: Vec<u32>,
}

/// The messages of the negotiation.
#[derive(Clone, Copy, Debug, PartialEq, Eq, Structural)]
pub enum BpMessage {
    Noop,
    Proposal,
    Accept,
    Matched,
}

impl Message for BpMessage {

}

/// The least element of a finite, non-empty set of ports.
pub open spec fn set_min(s: Set<u32>) -> u32 {
    choose|x: u32| s.contains(x) && (forall|y: u32| s.contains(y) ==> x <= y)
}

/// The index of the first `Accept` among the messages, if any.
pub open spec fn first_accept(msgs: Seq<BpMessage>) -> Option<int> {
    if exists|i: int| 0 <= i < msgs.len() && msgs[i] == BpMessage::Accept {
        Some(
            choose|i: int|
                0 <= i < msgs.len() && msgs[i] == BpMessage::Accept && (forall|j: int|
                    0 <= j < i ==> msgs[j] != BpMessage::Accept),
        )
    } else {
        None
    }
}

/// The ports on which a given message arrived.
pub open spec fn ports_with(msgs: Seq<BpMessage>, m: BpMessage) -> Set<u32> {
    Set::new(|i: u32| (i as int) < msgs.len() && msgs[i as int] == m)
}

impl BpState {
    pub closed spec fn spec_degree(&self) -> u32 {
        self.degree
    }

    pub closed spec fn spec_color(&self) -> NodeColor {
        self.color
    }

    pub closed spec fn spec_round(&self) -> u32 {
        self.round
    }

    pub closed spec fn spec_matching(&self) -> MatchingState {
        self.matching_state
    }

    /// The ports that proposed to this (black) vertex.
    pub closed spec fn spec_m_set(&self) -> Set<u32> {
        self.m_set@.to_set()
    }

    /// The ports not yet known to be matched elsewhere (black vertices).
    pub closed spec fn spec_x_set(&self) -> Set<u32> {
        self.x_set@.to_set()
    }

    /// Whether the vertex has stopped matched.
    pub fn matched(&self) -> (r: bool)
        ensures
            r == (self.spec_matching() is Ms),
    {
        match self.matching_state {
            MatchingState::Ms(_) => true,
            _ => false,
        }
    }

    /// The text a vertex in this state is labelled with.
    pub fn label(&self) -> (r: String)
        ensures
            r@ == matching_label(self.spec_matching()),
    {
        match self.matching_state {
            MatchingState::Ur => String::from_str("UR"),
            MatchingState::Mr(i) => port_label("MR(", i),
            MatchingState::Us => String::from_str("US"),
            MatchingState::Ms(i) => port_label("MS(", i),
        }
    }

    /// The current matching state.
    pub fn matching_state(&self) -> (r: MatchingState)
        ensures
            r == self.spec_matching(),
    {
        self.matching_state
    }

    /// The number of rounds received so far (modulo 2^32).
    pub fn round(&self) -> (r: u32)
        ensures
            r == self.spec_round(),
    {
        self.round
    }

    /// The colour of the vertex.
    pub fn color(&self) -> (r: NodeColor)
        ensures
            r == self.spec_color(),
    {
        self.color
    }

    /// The degree the vertex was initialised with.
    pub fn degree(&self) -> (r: u32)
        ensures
            r == self.spec_degree(),
    {
        self.degree
    }
}

/// The label of a matching state; ports are shown from 1.
pub open spec fn matching_label(ms: MatchingState) -> Seq<char> {
    match ms {
        MatchingState::Ur => "UR"@,
        MatchingState::Mr(i) => "MR("@ + decimal((i + 1) as nat) + ")"@,
        MatchingState::Us => "US"@,
        MatchingState::Ms(i) => "MS("@ + decimal((i + 1) as nat) + ")"@,
    }
}

/// `prefix`, then port `i` counted from 1, then a closing parenthesis.
fn port_label(prefix: &str, i: u32) -> (r: String)
    ensures
        r@ == prefix@ + decimal((i + 1) as nat) + ")"@,
{
    let mut r = String::from_str(prefix);
    let d = decimal_string(i as u64 + 1);
    r.append(d.as_str());
    r.append(")");
    r
}

/// Whether a matching state is a stopping state.
pub open spec fn is_stopped(ms: MatchingState) -> bool {
    ms is Us || ms is Ms
}

impl State for BpState {
    open spec fn spec_is_output(&self) -> bool {
        is_stopped(self.spec_matching())
    }

    /// Two states compare equal when their matching states do.
    open spec fn spec_same(&self, other: &Self) -> bool {
        self.spec_matching() == other.spec_matching()
    }

    fn is_output(&self) -> (r: bool) {
        match self.matching_state {
            MatchingState::Us => true,
            MatchingState::Ms(_) => true,
            _ => false,
        }
    }

    fn same(&self, other: &Self) -> (r: bool) {
        self.matching_state == other.matching_state
    }

    proof fn lemma_same_equivalence(a: &Self, b: &Self, c: &Self) {
    }

    fn snapshot(&self) -> (r: Self) {
        BpState {
            degree: self.degree,
            color: self.color,
            round: self.round,
            matching_state: self.matching_state,
            m_set: copy_ports(&self.m_set),
            x_set: copy_ports(&self.x_set),
        }
    }
}

fn copy_ports(v: &Vec<u32>) -> (r: Vec<u32>)
    ensures
        r@ == v@,
{
    let mut r: Vec<u32> = Vec::new();
    let mut i: usize = 0;
    while i < v.len()
        invariant
            i <= v.len(),
            r@ == v@.subrange(0, i as int),
        decreases v.len() - i,
    {
        r.push(v[i]);
        i = i + 1;
    }
    assert(v@.subrange(0, v.len() as int) == v@);
    r
}

/// The message a vertex in `s` sends on port `p`.
pub open spec fn bp_send(s: BpState, p: int) -> BpMessage {
    let r = s.spec_round();
    let d = s.spec_degree();
    let ms = s.spec_matching();
    if s.spec_color() == NodeColor::White && r % 2 == 0 && ms == MatchingState::Ur && r / 2 < d {
        if p == r / 2 {
            BpMessage::Proposal
        } else {
            BpMessage::Noop
        }
    } else if s.spec_color() == NodeColor::White && r % 2 == 0 && ms is Mr {
        BpMessage::Matched
    } else if s.spec_color() == NodeColor::Black && r % 2 != 0 && ms == MatchingState::Ur
        && !s.spec_m_set().is_empty() {
        if p == set_min(s.spec_m_set()) {
            BpMessage::Accept
        } else {
            BpMessage::Noop
        }
    } else {
        BpMessage::Noop
    }
}

/// The matching state after receiving `msgs` in state `s`.
pub open spec fn bp_next_matching(s: BpState, msgs: Seq<BpMessage>) -> MatchingState {
    let r = s.spec_round();
    let d = s.spec_degree();
    let ms = s.spec_matching();
    let white = s.spec_color() == NodeColor::White;
    if white && r % 2 == 0 && ms == MatchingState::Ur && r / 2 + 1 > d {
        MatchingState::Us
    } else if white && r % 2 == 0 && ms is Mr {
        MatchingState::Ms(ms->Mr_0)
    } else if white && r % 2 != 0 && ms == MatchingState::Ur && first_accept(msgs) is Some {
        MatchingState::Mr(first_accept(msgs)->Some_0 as u32)
    } else if !white && r % 2 != 0 && ms == MatchingState::Ur && !s.spec_m_set().is_empty() {
        MatchingState::Ms(set_min(s.spec_m_set()))
    } else if !white && r % 2 != 0 && ms == MatchingState::Ur && s.spec_x_set().is_empty() {
        MatchingState::Us
    } else {
        ms
    }
}

/// Whether the receive step of `s` updates the port sets (a black, running
/// vertex in an even round).
pub open spec fn updates_sets(s: BpState) -> bool {
    s.spec_color() == NodeColor::Black && s.spec_round() % 2 == 0 && s.spec_matching()
        == MatchingState::Ur
}

/// `t` is the state after receiving `msgs` in state `s`.
pub open spec fn bp_successor(s: BpState, msgs: Seq<BpMessage>, t: BpState) -> bool {
    &&& t.spec_degree() == s.spec_degree()
    &&& t.spec_color() == s.spec_color()
    &&& t.spec_round() == (s.spec_round() + 1) % 0x1_0000_0000
    &&& t.spec_matching() == bp_next_matching(s, msgs)
    &&& t.spec_m_set() == if updates_sets(s) {
        s.spec_m_set().union(ports_with(msgs, BpMessage::Proposal))
    } else {
        s.spec_m_set()
    }
    &&& t.spec_x_set() == if updates_sets(s) {
        s.spec_x_set().difference(ports_with(msgs, BpMessage::Matched))
    } else {
        s.spec_x_set()
    }
}

/// `s` is the initial state for `info`.
pub open spec fn bp_initial(info: Input, s: BpState) -> bool {
    &&& s.spec_degree() == info.node_degree
    &&& s.spec_color() == color_of(info.node_id)
    &&& s.spec_round() == 0
    &&& s.spec_matching() == MatchingState::Ur
    &&& s.spec_m_set() == Set::<u32>::empty()
    &&& s.spec_x_set() == if color_of(info.node_id) == NodeColor::White {
        Set::<u32>::empty()
    } else {
        Set::new(|p: u32| p < info.node_degree)
    }
}

spec fn least_at(v: Seq<u32>, k: int) -> bool {
    0 <= k < v.len() && (forall|j: int| 0 <= j < v.len() ==> v[k] <= v[j])
}

proof fn lemma_seq_has_min(v: Seq<u32>)
    requires
        v.len() > 0,
    ensures
        exists|k: int| least_at(v, k),
    decreases v.len(),
{
    if v.len() > 1 {
        let r = v.drop_last();
        lemma_seq_has_min(r);
        let k = choose|k: int| least_at(r, k);
        if v.last() < r[k] {
            assert forall|j: int| 0 <= j < v.len() implies v[v.len() - 1] <= #[trigger] v[j] by {
                if j < v.len() - 1 {
                    assert(v[j] == r[j]);
                }
            }
            assert(least_at(v, v.len() - 1));
        } else {
            assert forall|j: int| 0 <= j < v.len() implies v[k] <= v[j] by {
                if j < v.len() - 1 {
                    assert(v[j] == r[j]);
                }
            }
            assert(least_at(v, k));
        }
    } else {
        assert(least_at(v, 0));
    }
}

/// A state with a proposing port has a least one, which `set_min` picks.
pub proof fn lemma_m_set_min(s: BpState)
    requires
        !s.spec_m_set().is_empty(),
    ensures
        s.spec_m_set().contains(set_min(s.spec_m_set())),
        forall|y: u32| s.spec_m_set().contains(y) ==> set_min(s.spec_m_set()) <= y,
{
    let v = s.m_set@;
    lemma_ports_empty(v);
    lemma_seq_has_min(v);
    let k = choose|k: int| least_at(v, k);
    let m = v.to_set();
    assert(m.contains(v[k]));
    assert forall|y: u32| m.contains(y) implies v[k] <= y by {
        let j = choose|j: int| 0 <= j < v.len() && v[j] == y;
    }
    let c = set_min(m);
    assert(m.contains(c) && (forall|y: u32| m.contains(y) ==> c <= y));
}

proof fn lemma_first_accept_exists(msgs: Seq<BpMessage>, w: int)
    requires
        0 <= w < msgs.len(),
        msgs[w] == BpMessage::Accept,
    ensures
        exists|i: int|
            0 <= i < msgs.len() && msgs[i] == BpMessage::Accept && (forall|j: int|
                0 <= j < i ==> msgs[j] != BpMessage::Accept),
    decreases w,
{
    if exists|j: int| 0 <= j < w && msgs[j] == BpMessage::Accept {
        let j = choose|j: int| 0 <= j < w && msgs[j] == BpMessage::Accept;
        lemma_first_accept_exists(msgs, j);
    } else {
        assert(forall|j: int| 0 <= j < w ==> msgs[j] != BpMessage::Accept);
    }
}

/// `first_accept` finds the first `Accept`, exactly when there is one.
pub proof fn lemma_first_accept(msgs: Seq<BpMessage>)
    ensures
        first_accept(msgs) matches Some(i) ==> 0 <= i < msgs.len() && msgs[i] == BpMessage::Accept
            && (forall|j: int| 0 <= j < i ==> msgs[j] != BpMessage::Accept),
        first_accept(msgs) is Some <==> exists|i: int|
            0 <= i < msgs.len() && msgs[i] == BpMessage::Accept,
{
    if exists|i: int| 0 <= i < msgs.len() && msgs[i] == BpMessage::Accept {
        let w = choose|i: int| 0 <= i < msgs.len() && msgs[i] == BpMessage::Accept;
        lemma_first_accept_exists(msgs, w);
    }
}

/// An `Accept` with none before it is the first one.
pub proof fn lemma_first_accept_at(msgs: Seq<BpMessage>, p: int)
    requires
        0 <= p < msgs.len(),
        msgs[p] == BpMessage::Accept,
        forall|j: int| 0 <= j < p ==> msgs[j] != BpMessage::Accept,
    ensures
        first_accept(msgs) == Some(p),
{
    lemma_first_accept(msgs);
    let f = first_accept(msgs)->Some_0;
    if f < p {
        assert(msgs[f] != BpMessage::Accept);
    } else if f > p {
        assert(msgs[p] != BpMessage::Accept);
    }
}

/// A port list holds no port exactly when it is empty.
proof fn lemma_ports_empty(v: Seq<u32>)
    ensures
        v.to_set().is_empty() <==> v.len() == 0,
{
    if v.len() > 0 {
        assert(v.to_set().contains(v[0]));
    } else {
        assert(v.to_set() =~= Set::<u32>::empty());
    }
}

/// The least port of a non-empty port list.
fn min_port(v: &Vec<u32>) -> (m: u32)
    requires
        v.len() > 0,
    ensures
        v@.to_set().contains(m),
        m == set_min(v@.to_set()),
{
    let mut m = v[0];
    let mut i: usize = 1;
    while i < v.len()
        invariant
            1 <= i <= v.len(),
            exists|k: int| 0 <= k < i && v@[k] == m,
            forall|j: int| 0 <= j < i ==> m <= v@[j],
        decreases v.len() - i,
    {
        if v[i] < m {
            m = v[i];
        }
        i = i + 1;
    }
    let ghost s = v@.to_set();
    let ghost k = choose|k: int| 0 <= k < v.len() && v@[k] == m;
    assert(s.contains(v@[k]));
    assert forall|y: u32| s.contains(y) implies m <= y by {
        let j = choose|j: int| 0 <= j < v.len() && v@[j] == y;
    }
    let ghost c = set_min(s);
    assert(s.contains(c) && (forall|y: u32| s.contains(y) ==> c <= y));
    assert(c <= m && m <= c);
    m
}

/// The index of the first `Accept` in `msgs`, if any.
fn find_accept(msgs: &Vec<BpMessage>) -> (r: Option<u32>)
    requires
        msgs.len() <= u32::MAX,
    ensures
        r matches Some(i) ==> first_accept(msgs@) == Some(i as int),
        r is None ==> first_accept(msgs@) is None,
{
    let mut i: usize = 0;
    while i < msgs.len()
        invariant
            i <= msgs.len() <= u32::MAX,
            forall|j: int| 0 <= j < i ==> msgs@[j] != BpMessage::Accept,
        decreases msgs.len() - i,
    {
        if msgs[i] == BpMessage::Accept {
            let ghost w = choose|k: int|
                0 <= k < msgs@.len() && msgs@[k] == BpMessage::Accept && (forall|j: int|
                    0 <= j < k ==> msgs@[j] != BpMessage::Accept);
            assert(0 <= i < msgs@.len() && msgs@[i as int] == BpMessage::Accept);
            assert(w == i) by {
                if w < i {
                } else if w > i {
                    assert(msgs@[i as int] != BpMessage::Accept);
                }
            }
            return Some(i as u32);
        }
        i = i + 1;
    }
    None
}

/// Removes every occurrence of port `p`.
fn remove_port(v: &Vec<u32>, p: u32) -> (r: Vec<u32>)
    ensures
        r@.to_set() == v@.to_set().remove(p),
{
    let mut r: Vec<u32> = Vec::new();
    let mut i: usize = 0;
    while i < v.len()
        invariant
            i <= v.len(),
            r@.to_set() == v@.subrange(0, i as int).to_set().remove(p),
        decreases v.len() - i,
    {
        proof {
            assert(v@.subrange(0, i + 1 as int) == v@.subrange(0, i as int).push(v@[i as int]));
            v@.subrange(0, i as int).lemma_push_to_set_commute(v@[i as int]);
        }
        if v[i] != p {
            proof {
                r@.lemma_push_to_set_commute(v@[i as int]);
            }
            r.push(v[i]);
            assert(r@.to_set() =~= v@.subrange(0, i + 1 as int).to_set().remove(p));
        } else {
            assert(r@.to_set() =~= v@.subrange(0, i + 1 as int).to_set().remove(p));
        }
        i = i + 1;
    }
    assert(v@.subrange(0, v.len() as int) == v@);
    r
}

/// Adds port `p`.
fn insert_port(v: &mut Vec<u32>, p: u32)
    ensures
        final(v)@.to_set() == old(v)@.to_set().insert(p),
{
    proof {
        v@.lemma_push_to_set_commute(p);
    }
    v.push(p);
}

impl DistributedAlgorithm<BpState, BpMessage> for BipartiteMaximalMatching {
    open spec fn is_initial(info: Input, s: BpState) -> bool {
        bp_initial(info, s)
    }

    open spec fn spec_send(state: BpState, port: int) -> BpMessage {
        bp_send(state, port)
    }

    open spec fn is_successor(state: BpState, messages: Seq<BpMessage>, next: BpState) -> bool {
        bp_successor(state, messages, next)
    }

    fn name() -> (r: String)
        ensures
            r@ == "Bipartite Maximal Matching"@,
    {
        String::from_str("Bipartite Maximal Matching")
    }

    fn init(info: &Input) -> (s: BpState) {
        let degree = info.node_degree;
        let color = NodeColor::from_id(info.node_id);
        let mut x_set: Vec<u32> = Vec::new();
        if color == NodeColor::Black {
            let mut p: u32 = 0;
            while p < degree
                invariant
                    p <= degree,
                    x_set@ == Seq::new(p as nat, |i: int| i as u32),
                decreases degree - p,
            {
                x_set.push(p);
                p = p + 1;
            }
            assert(x_set@.to_set() =~= Set::new(|q: u32| q < degree)) by {
                assert forall|q: u32| q < degree implies x_set@.to_set().contains(q) by {
                    assert(x_set@[q as int] == q);
                }
            }
        }
        let s = BpState {
            degree,
            color,
            round: 0,
            matching_state: MatchingState::Ur,
            m_set: Vec::new(),
            x_set,
        };
        assert(s.m_set@.to_set() =~= Set::<u32>::empty());
        assert(color == NodeColor::White ==> s.x_set@.to_set() =~= Set::<u32>::empty());
        s
    }

    fn send(state: &BpState, port: u32) -> (m: BpMessage) {
        let r = state.round;
        let white = state.color == NodeColor::White;
        let even = r % 2 == 0;
        if white && even && state.matching_state == MatchingState::Ur && r / 2 < state.degree {
            if port == r / 2 {
                BpMessage::Proposal
            } else {
                BpMessage::Noop
            }
        } else if white && even && matches!(state.matching_state, MatchingState::Mr(_)) {
            BpMessage::Matched
        } else if !white && !even && state.matching_state == MatchingState::Ur
            && state.m_set.len() > 0 {
            proof {
                lemma_ports_empty(state.m_set@);
            }
            if port == min_port(&state.m_set) {
                BpMessage::Accept
            } else {
                BpMessage::Noop
            }
        } else {
            BpMessage::Noop
        }
    }

    fn receive(state: &BpState, messages: Vec<BpMessage>) -> (s: BpState) {
        let r = state.round;
        let d = state.degree;
        let white = state.color == NodeColor::White;
        let even = r % 2 == 0;
        let ms = state.matching_state;
        let mut m_set = copy_ports(&state.m_set);
        let mut x_set = copy_ports(&state.x_set);
        let mut next = ms;
        proof {
            lemma_ports_empty(state.m_set@);
            lemma_ports_empty(state.x_set@);
        }
        if white {
            if even && ms == MatchingState::Ur && r / 2 + 1 > d {
                next = MatchingState::Us;
            } else if even && matches!(ms, MatchingState::Mr(_)) {
                if let MatchingState::Mr(i) = ms {
                    next = MatchingState::Ms(i);
                }
            } else if !even && ms == MatchingState::Ur {
                if let Some(i) = find_accept(&messages) {
                    next = MatchingState::Mr(i);
                }
            }
        } else if !even && ms == MatchingState::Ur && state.m_set.len() > 0 {
            next = MatchingState::Ms(min_port(&state.m_set));
        } else if !even && ms == MatchingState::Ur && state.x_set.len() == 0 {
            next = MatchingState::Us;
        } else if even && ms == MatchingState::Ur {
            let mut i: usize = 0;
            while i < messages.len()
                invariant
                    i <= messages.len() <= u32::MAX,
                    m_set@.to_set() == state.m_set@.to_set().union(
                        ports_with(messages@.subrange(0, i as int), BpMessage::Proposal),
                    ),
                    x_set@.to_set() == state.x_set@.to_set().difference(
                        ports_with(messages@.subrange(0, i as int), BpMessage::Matched),
                    ),
                decreases messages.len() - i,
            {
                let ghost pre = messages@.subrange(0, i as int);
                let ghost post = messages@.subrange(0, i + 1 as int);
                if messages[i] == BpMessage::Matched {
                    x_set = remove_port(&x_set, i as u32);
                } else if messages[i] == BpMessage::Proposal {
                    insert_port(&mut m_set, i as u32);
                }
                assert(ports_with(post, BpMessage::Proposal) =~= if messages@[i as int]
                    == BpMessage::Proposal {
                    ports_with(pre, BpMessage::Proposal).insert(i as u32)
                } else {
                    ports_with(pre, BpMessage::Proposal)
                });
                assert(ports_with(post, BpMessage::Matched) =~= if messages@[i as int]
                    == BpMessage::Matched {
                    ports_with(pre, BpMessage::Matched).insert(i as u32)
                } else {
                    ports_with(pre, BpMessage::Matched)
                });
                assert(m_set@.to_set() =~= state.m_set@.to_set().union(
                    ports_with(post, BpMessage::Proposal),
                ));
                assert(x_set@.to_set() =~= state.x_set@.to_set().difference(
                    ports_with(post, BpMessage::Matched),
                ));
                i = i + 1;
            }
            assert(messages@.subrange(0, messages.len() as int) == messages@);
        }
        let res = BpState {
            degree: d,
            color: state.color,
            round: r.wrapping_add(1),
            matching_state: next,
            m_set,
            x_set,
        };
        res
    }

    proof fn lemma_stop_absorbing(state: BpState, messages: Seq<BpMessage>, next: BpState) {
    }
}

} // verus!
