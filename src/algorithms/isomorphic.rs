//! Isomorphic neighbourhood up to depth `D`: every vertex repeatedly replaces
//! its number by the sum of its neighbours' numbers, for `D` rounds.
use vstd::prelude::*;

use crate::text::{decimal, decimal_string};
use crate::types::{DistributedAlgorithm, Input, Message, State};

verus! {

/// Isomorphic neighbourhood gathering up to depth `D`.
pub struct IsomorphicNeighborhood<const D: u32>;

/// `Count(rounds, sum)`.
#[derive(Clone, Copy)]
pub enum InState<const D: u32> {
    Count(u32, u32),
}

/// A single number sent to a neighbour.
#[derive(Clone, Copy, Debug, PartialEq, Eq, Structural)]
pub enum InMessage {
    Number(u32),
}

impl Message for InMessage {

}

impl<const D: u32> InState<D> {
    /// The number of rounds taken so far.
    pub open spec fn spec_rounds(self) -> u32 {
        match self {
            InState::Count(i, _) => i,
        }
    }

    /// The number held.
    pub open spec fn spec_value(self) -> u32 {
        match self {
            InState::Count(_, n) => n,
        }
    }

    /// The number held, as printed for the vertex.
    pub fn value(&self) -> (r: u32)
        ensures
            r == self.spec_value(),
    {
        match self {
            InState::Count(_, n) => *n,
        }
    }

    /// The text a vertex in this state is labelled with: its number.
    pub fn label(&self) -> (r: String)
        ensures
            r@ == decimal(self.spec_value() as nat),
    {
        decimal_string(self.value() as u64)
    }

    /// The number of rounds taken so far.
    pub fn rounds(&self) -> (r: u32)
        ensures
            r == self.spec_rounds(),
    {
        match self {
            InState::Count(i, _) => *i,
        }
    }
}

impl<const D: u32> State for InState<D> {
    /// The target depth is reached.
    open spec fn spec_is_output(&self) -> bool {
        self.spec_rounds() == D
    }

    open spec fn spec_same(&self, other: &Self) -> bool {
        *self == *other
    }

    fn is_output(&self) -> (r: bool) {
        match self {
            InState::Count(i, _) => *i == D,
        }
    }

    fn same(&self, other: &Self) -> (r: bool) {
        match (self, other) {
            (InState::Count(a, b), InState::Count(c, d)) => *a == *c && *b == *d,
        }
    }

    proof fn lemma_same_equivalence(a: &Self, b: &Self, c: &Self) {
    }

    fn snapshot(&self) -> (r: Self) {
        *self
    }
}

/// The sum of the numbers in `msgs`.
pub open spec fn sum_numbers(msgs: Seq<InMessage>) -> int
    decreases msgs.len(),
{
    if msgs.len() == 0 {
        0
    } else {
        sum_numbers(msgs.drop_last()) + match msgs.last() {
            InMessage::Number(n) => n as int,
        }
    }
}

/// The state after receiving `msgs`: a stopped vertex stays as it is, any
/// other one counts a round and holds the sum of the numbers received
/// (arithmetic on 32 bits wraps around).
pub open spec fn in_receive<const D: u32>(s: InState<D>, msgs: Seq<InMessage>) -> InState<D> {
    if s.spec_rounds() == D {
        s
    } else {
        InState::Count(
            ((s.spec_rounds() + 1) % 0x1_0000_0000) as u32,
            (sum_numbers(msgs) % 0x1_0000_0000) as u32,
        )
    }
}

fn wrapping_sum(messages: &Vec<InMessage>) -> (r: u32)
    ensures
        r == sum_numbers(messages@) % 0x1_0000_0000,
{
    let mut acc: u32 = 0;
    let mut i: usize = 0;
    while i < messages.len()
        invariant
            i <= messages.len(),
            acc == sum_numbers(messages@.subrange(0, i as int)) % 0x1_0000_0000,
        decreases messages.len() - i,
    {
        let ghost pre = messages@.subrange(0, i as int);
        let ghost post = messages@.subrange(0, i + 1 as int);
        assert(post.drop_last() == pre);
        let n = match messages[i] {
            InMessage::Number(n) => n,
        };
        proof {
            let t = sum_numbers(pre);
            assert((t % 0x1_0000_0000 + n) % 0x1_0000_0000 == (t + n) % 0x1_0000_0000) by {
                vstd::arithmetic::div_mod::lemma_add_mod_noop(t, n as int, 0x1_0000_0000);
                vstd::arithmetic::div_mod::lemma_mod_twice(n as int, 0x1_0000_0000);
            }
        }
        acc = acc.wrapping_add(n);
        i = i + 1;
    }
    assert(messages@.subrange(0, messages.len() as int) == messages@);
    acc
}

impl<const D: u32> DistributedAlgorithm<InState<D>, InMessage> for IsomorphicNeighborhood<D> {
    /// The sum starts at the vertex's degree.
    open spec fn is_initial(info: Input, s: InState<D>) -> bool {
        s == InState::<D>::Count(0, info.node_degree)
    }

    /// Every neighbour gets the same number.
    open spec fn spec_send(state: InState<D>, port: int) -> InMessage {
        InMessage::Number(state.spec_value())
    }

    open spec fn is_successor(state: InState<D>, messages: Seq<InMessage>, next: InState<D>) -> bool {
        next == in_receive(state, messages)
    }

    fn name() -> (r: String)
        ensures
            r@ == "Isomorphic Neighborhood (depth "@ + crate::text::decimal(D as nat) + ")"@,
    {
        let mut r = String::from_str("Isomorphic Neighborhood (depth ");
        let d = decimal_string(D as u64);
        r.append(d.as_str());
        r.append(")");
        r
    }

    fn init(info: &Input) -> (s: InState<D>) {
        InState::Count(0, info.node_degree)
    }

    fn send(state: &InState<D>, port: u32) -> (m: InMessage) {
        InMessage::Number(state.value())
    }

    fn receive(state: &InState<D>, messages: Vec<InMessage>) -> (s: InState<D>) {
        match state {
            InState::Count(i, _) => {
                if *i == D {
                    *state
                } else {
                    InState::Count(i.wrapping_add(1), wrapping_sum(&messages))
                }
            },
        }
    }

    proof fn lemma_stop_absorbing(state: InState<D>, messages: Seq<InMessage>, next: InState<D>) {
    }
}

} // verus!
