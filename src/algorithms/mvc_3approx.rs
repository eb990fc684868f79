//! Minimum vertex cover 3-approximation: bipartite maximal matching on the
//! virtual bipartite double cover of the network.
use vstd::prelude::*;

use super::bipartite::{bp_initial, bp_send, bp_successor, BipartiteMaximalMatching, BpMessage, BpState};
use crate::types::{DistributedAlgorithm, Input, Message, State};

verus! {

/// Minimum vertex cover 3-approximation. Each vertex runs a white and a black
/// copy of bipartite maximal matching; the two copies of a vertex's neighbour
/// are swapped on the wire.
pub struct Mvc3approx {}

/// The states of the white (`s1`) and the black (`s2`) copy of a vertex.
pub struct Mvc3approxState {
    pub s1: BpState,
    pub s2: BpState,
}

/// The messages for the two virtual edges of a port: `m1` is read by the
/// receiver's white copy, `m2` by its black copy.
#[derive(Clone, Copy, Debug, PartialEq, Eq, Structural)]
pub struct Mvc3approxMessage {
    pub m1: BpMessage,
    pub m2: BpMessage,
}

impl Message for Mvc3approxMessage {

}

impl Mvc3approxState {
    /// Whether the vertex is in the cover: either copy ended matched.
    pub open spec fn spec_in_cover(&self) -> bool {
        self.s1.spec_matching() is Ms || self.s2.spec_matching() is Ms
    }

    /// The text the vertex is labelled with: `1` in the cover, else `0`.
    pub fn label(&self) -> (r: String)
        ensures
            r@ == if self.spec_in_cover() {
                "1"@
            } else {
                "0"@
            },
    {
        if self.in_cover() {
            String::from_str("1")
        } else {
            String::from_str("0")
        }
    }

    /// Whether the vertex is in the cover (printed as `1`, else `0`).
    pub fn in_cover(&self) -> (r: bool)
        ensures
            r == self.spec_in_cover(),
    {
        self.s1.matched() || self.s2.matched()
    }
}

impl State for Mvc3approxState {
    /// Both copies have stopped.
    open spec fn spec_is_output(&self) -> bool {
        self.s1.spec_is_output() && self.s2.spec_is_output()
    }

    open spec fn spec_same(&self, other: &Self) -> bool {
        self.s1.spec_same(&other.s1) && self.s2.spec_same(&other.s2)
    }

    fn is_output(&self) -> (r: bool) {
        self.s1.is_output() && self.s2.is_output()
    }

    fn same(&self, other: &Self) -> (r: bool) {
        self.s1.same(&other.s1) && self.s2.same(&other.s2)
    }

    proof fn lemma_same_equivalence(a: &Self, b: &Self, c: &Self) {
    }

    fn snapshot(&self) -> (r: Self) {
        Mvc3approxState { s1: self.s1.snapshot(), s2: self.s2.snapshot() }
    }
}

/// The message on port `p`: the black copy's message travels to the
/// neighbour's white copy and the white copy's to the neighbour's black copy.
pub open spec fn mvc_send(s: Mvc3approxState, p: int) -> Mvc3approxMessage {
    Mvc3approxMessage { m1: bp_send(s.s2, p), m2: bp_send(s.s1, p) }
}

/// The first components of the messages.
pub open spec fn firsts(msgs: Seq<Mvc3approxMessage>) -> Seq<BpMessage> {
    Seq::new(msgs.len(), |i: int| msgs[i].m1)
}

/// The second components of the messages.
pub open spec fn seconds(msgs: Seq<Mvc3approxMessage>) -> Seq<BpMessage> {
    Seq::new(msgs.len(), |i: int| msgs[i].m2)
}

/// Splits the pair messages into the two port-ordered streams.
fn unzip_messages(messages: &Vec<Mvc3approxMessage>) -> (r: (Vec<BpMessage>, Vec<BpMessage>))
    ensures
        r.0@ == firsts(messages@),
        r.1@ == seconds(messages@),
{
    let mut m1: Vec<BpMessage> = Vec::new();
    let mut m2: Vec<BpMessage> = Vec::new();
    let mut i: usize = 0;
    while i < messages.len()
        invariant
            i <= messages.len(),
            m1.len() == i,
            m2.len() == i,
            forall|j: int| 0 <= j < i ==> m1@[j] == messages@[j].m1 && m2@[j] == messages@[j].m2,
        decreases messages.len() - i,
    {
        m1.push(messages[i].m1);
        m2.push(messages[i].m2);
        i = i + 1;
    }
    assert(m1@ =~= firsts(messages@));
    assert(m2@ =~= seconds(messages@));
    (m1, m2)
}

impl DistributedAlgorithm<Mvc3approxState, Mvc3approxMessage> for Mvc3approx {
    /// The white copy starts as an even vertex, the black copy as an odd one.
    open spec fn is_initial(info: Input, s: Mvc3approxState) -> bool {
        &&& bp_initial(Input { node_id: 0, ..info }, s.s1)
        &&& bp_initial(Input { node_id: 1, ..info }, s.s2)
    }

    open spec fn spec_send(state: Mvc3approxState, port: int) -> Mvc3approxMessage {
        mvc_send(state, port)
    }

    open spec fn is_successor(
        state: Mvc3approxState,
        messages: Seq<Mvc3approxMessage>,
        next: Mvc3approxState,
    ) -> bool {
        &&& bp_successor(state.s1, firsts(messages), next.s1)
        &&& bp_successor(state.s2, seconds(messages), next.s2)
    }

    fn name() -> (r: String)
        ensures
            r@ == "Minimum Vertex Cover 3-Approximation"@,
    {
        String::from_str("Minimum Vertex Cover 3-Approximation")
    }

    fn init(info: &Input) -> (s: Mvc3approxState) {
        Mvc3approxState {
            s1: BipartiteMaximalMatching::init(&Input { node_id: 0, ..*info }),
            s2: BipartiteMaximalMatching::init(&Input { node_id: 1, ..*info }),
        }
    }

    fn send(state: &Mvc3approxState, port: u32) -> (m: Mvc3approxMessage) {
        let m2 = BipartiteMaximalMatching::send(&state.s1, port);
        let m1 = BipartiteMaximalMatching::send(&state.s2, port);
        Mvc3approxMessage { m1, m2 }
    }

    fn receive(state: &Mvc3approxState, messages: Vec<Mvc3approxMessage>) -> (s: Mvc3approxState) {
        let (m1, m2) = unzip_messages(&messages);
        Mvc3approxState {
            s1: BipartiteMaximalMatching::receive(&state.s1, m1),
            s2: BipartiteMaximalMatching::receive(&state.s2, m2),
        }
    }

    proof fn lemma_stop_absorbing(
        state: Mvc3approxState,
        messages: Seq<Mvc3approxMessage>,
        next: Mvc3approxState,
    ) {
        BipartiteMaximalMatching::lemma_stop_absorbing(state.s1, firsts(messages), next.s1);
        BipartiteMaximalMatching::lemma_stop_absorbing(state.s2, seconds(messages), next.s2);
    }
}

} // verus!
