//! The algorithm contract shared by the network builder, the round logic and
//! the algorithms.
use vstd::prelude::*;

use crossbeam_channel::{Receiver, Sender};

verus! {

/// A value that travels over a single edge in one round.
pub trait Message: Sized {

}

/// The configuration of a single vertex of the state machine.
pub trait State: Sized {
    /// Whether the state is a stopping state.
    spec fn spec_is_output(&self) -> bool;

    /// What the equality of two states means (stopping states must be absorbing
    /// with respect to it).
    spec fn spec_same(&self, other: &Self) -> bool;

    /// Determines if the state is a stopping state.
    fn is_output(&self) -> (r: bool)
        ensures
            r == self.spec_is_output(),
    ;

    /// Compares two states.
    fn same(&self, other: &Self) -> (r: bool)
        ensures
            r == self.spec_same(other),
    ;

    /// State comparison is an equivalence that keeps stopping.
    proof fn lemma_same_equivalence(a: &Self, b: &Self, c: &Self)
        ensures
            a.spec_same(a),
            a.spec_same(b) ==> b.spec_same(a),
            a.spec_same(b) && b.spec_same(c) ==> a.spec_same(c),
            a.spec_same(b) ==> a.spec_is_output() == b.spec_is_output(),
    ;

    /// A copy of the state that compares equal to it.
    fn snapshot(&self) -> (r: Self)
        ensures
            self.spec_same(&r),
            r.spec_is_output() == self.spec_is_output(),
    ;
}

#[verifier::external_type_specification]
#[verifier::external_body]
#[verifier::reject_recursive_types(T)]
pub struct ExSender<T>(crossbeam_channel::Sender<T>);

#[verifier::external_type_specification]
#[verifier::external_body]
#[verifier::reject_recursive_types(T)]
pub struct ExReceiver<T>(crossbeam_channel::Receiver<T>);

/// Relies on `crossbeam_channel::bounded` with capacity 1, which does not
/// panic: a sender and the receiver of one single-slot buffer.
#[verifier::external_body]
fn single_slot<M>() -> (Sender<M>, Receiver<M>) {
    crossbeam_channel::bounded(1)
}

/// A bidirectional channel between the two ends of an edge: two single-slot
/// buffers, one per direction, each the sender and receiver of one
/// `single_slot` call. Each end acquires its sender and receiver once.
#[verifier::reject_recursive_types(M)]
pub struct Edge<M> {
    channel: Option<(Sender<M>, Receiver<M>)>,
    connected: bool,
    to_first: Ghost<(Sender<M>, Receiver<M>)>,
    to_second: Ghost<(Sender<M>, Receiver<M>)>,
}

impl<M> Edge<M> {
    /// How many ends have been acquired (0, 1 or 2).
    pub closed spec fn acquired(&self) -> nat {
        if self.connected {
            2
        } else if self.channel is Some {
            1
        } else {
            0
        }
    }

    /// Once one end is acquired, the kept pair is the mirror of that end's:
    /// the sender into the first end's buffer and the receiver of the other.
    pub closed spec fn wf(&self) -> bool {
        !self.connected && self.channel is Some ==> self.channel == Some(
            (self.to_first@.0, self.to_second@.1),
        )
    }

    /// The buffer that carries messages to the first end acquired.
    pub closed spec fn to_first(&self) -> (Sender<M>, Receiver<M>) {
        self.to_first@
    }

    /// The buffer that carries messages to the second end acquired.
    pub closed spec fn to_second(&self) -> (Sender<M>, Receiver<M>) {
        self.to_second@
    }

    /// An edge whose ends are not acquired yet.
    pub fn new() -> (e: Self)
        ensures
            e.acquired() == 0,
            e.wf(),
    {
        Edge { channel: None, connected: false, to_first: Ghost(arbitrary()), to_second: Ghost(arbitrary()) }
    }

    /// Acquires one end. The first call creates both buffers; the first end
    /// sends into the buffer read by the second end and reads the buffer the
    /// second end sends into, and the second call hands out the mirror pair.
    /// A third end does not exist.
    pub fn endpoint(&mut self) -> (r: (Sender<M>, Receiver<M>))
        requires
            old(self).wf(),
            old(self).acquired() < 2,
        ensures
            final(self).wf(),
            final(self).acquired() == old(self).acquired() + 1,
            old(self).acquired() == 0 ==> r == (final(self).to_second().0, final(self).to_first().1),
            old(self).acquired() == 1 ==> {
                &&& final(self).to_first() == old(self).to_first()
                &&& final(self).to_second() == old(self).to_second()
                &&& r == (old(self).to_first().0, old(self).to_second().1)
            },
    {
        match self.channel.take() {
            Some(pair) => {
                self.connected = true;
                pair
            },
            None => {
                let (s1, r1) = single_slot();
                let (s2, r2) = single_slot();
                self.to_first = Ghost((s1, r1));
                self.to_second = Ghost((s2, r2));
                self.channel = Some((s1, r2));
                (s2, r1)
            },
        }
    }
}

/// Graph and vertex data handed to `init`. Algorithms of the port numbering
/// model must not use `node_id` as a unique identifier.
#[derive(Clone, Copy, Debug, PartialEq, Eq)]
pub struct Input {
    pub node_id: u32,
    pub node_count: u32,
    pub node_degree: u32,
}

/// A distributed algorithm: an initial state per vertex, the message sent on
/// each port, and the transition on the messages received from all ports.
pub trait DistributedAlgorithm<S: State, M: Message> {
    /// `s` is the initial state of a vertex with the given input.
    spec fn is_initial(info: Input, s: S) -> bool;

    /// The message that a vertex in `state` sends on port `port` (from 0).
    /// The sequence over all ports is unbounded; a vertex uses its first
    /// `degree` items.
    spec fn spec_send(state: S, port: int) -> M;

    /// `next` is the state after receiving `messages`, one per port in port
    /// order.
    spec fn is_successor(state: S, messages: Seq<M>, next: S) -> bool;

    /// Human readable name of the algorithm.
    fn name() -> String;

    /// The initial state of a vertex; depends on `info` alone.
    fn init(info: &Input) -> (s: S)
        ensures
            Self::is_initial(*info, s),
    ;

    /// The message for the given port; the sequence over the ports stands in
    /// for a lazy stream of messages.
    fn send(state: &S, port: u32) -> (m: M)
        ensures
            m == Self::spec_send(*state, port as int),
    ;

    /// The transition on the messages of all ports, in port order.
    fn receive(state: &S, messages: Vec<M>) -> (s: S)
        requires
            messages.len() <= u32::MAX,
        ensures
            Self::is_successor(*state, messages@, s),
    ;

    /// Stopping states are absorbing: a transition out of one keeps the
    /// vertex stopped and equal to the state it left.
    proof fn lemma_stop_absorbing(state: S, messages: Seq<M>, next: S)
        requires
            state.spec_is_output(),
            Self::is_successor(state, messages, next),
        ensures
            next.spec_is_output(),
            state.spec_same(&next),
    ;
}

} // verus!
