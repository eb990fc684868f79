use pn_sim::algorithms::bipartite::{BpMessage, BpState, MatchingState, NodeColor};
use pn_sim::algorithms::isomorphic::{InMessage, InState};
use pn_sim::algorithms::mvc_3approx::{Mvc3approxMessage, Mvc3approxState};
use pn_sim::algorithms::{BipartiteMaximalMatching, IsomorphicNeighborhood, Mvc3approx};
use pn_sim::simulator::DaSimulator;
use pn_sim::types::{DistributedAlgorithm, Input, State};

type Bmm = DaSimulator<BipartiteMaximalMatching, BpState, BpMessage>;
type Mvc = DaSimulator<Mvc3approx, Mvc3approxState, Mvc3approxMessage>;

fn input(id: u32, degree: u32) -> Input {
    Input { node_id: id, node_count: 10, node_degree: degree }
}

/// The vertex matched to `v` along its stopping port, if any.
fn partner(sim: &Bmm, v: u32) -> Option<u32> {
    match sim.state(v).matching_state() {
        MatchingState::Ms(p) => {
            let e = sim.port_edges(v)[p as usize];
            let (a, b) = sim.edge(e as usize);
            Some(if a == v { b } else { a })
        }
        _ => None,
    }
}

fn assert_maximal_matching(sim: &Bmm, edges: &[(u32, u32)]) {
    for v in 0..sim.node_count() {
        assert!(sim.state(v).is_output());
        if let Some(w) = partner(sim, v) {
            assert_eq!(partner(sim, w), Some(v));
        }
    }
    for &(a, b) in edges {
        assert!(partner(sim, a).is_some() || partner(sim, b).is_some());
    }
}

#[test]
fn bmm_names_itself() {
    assert_eq!(BipartiteMaximalMatching::name(), "Bipartite Maximal Matching");
}

#[test]
fn bmm_colours_by_parity() {
    assert_eq!(NodeColor::from_id(4), NodeColor::White);
    assert_eq!(NodeColor::from_id(7), NodeColor::Black);
}

#[test]
fn bmm_initial_states() {
    let w = BipartiteMaximalMatching::init(&input(0, 3));
    assert_eq!(w.color(), NodeColor::White);
    assert_eq!(w.matching_state(), MatchingState::Ur);
    assert_eq!(w.round(), 0);
    assert_eq!(w.degree(), 3);
    let b = BipartiteMaximalMatching::init(&input(1, 2));
    assert_eq!(b.color(), NodeColor::Black);
    assert!(!b.is_output());
}

#[test]
fn bmm_white_proposes_along_ports() {
    let w = BipartiteMaximalMatching::init(&input(2, 3));
    assert_eq!(BipartiteMaximalMatching::send(&w, 0), BpMessage::Proposal);
    assert_eq!(BipartiteMaximalMatching::send(&w, 1), BpMessage::Noop);
    let w = BipartiteMaximalMatching::receive(&w, vec![BpMessage::Noop; 3]);
    assert_eq!(BipartiteMaximalMatching::send(&w, 0), BpMessage::Noop);
    let w = BipartiteMaximalMatching::receive(&w, vec![BpMessage::Noop; 3]);
    assert_eq!(w.round(), 2);
    assert_eq!(BipartiteMaximalMatching::send(&w, 1), BpMessage::Proposal);
    assert_eq!(BipartiteMaximalMatching::send(&w, 0), BpMessage::Noop);
}

#[test]
fn bmm_white_matches_on_first_accept() {
    let w = BipartiteMaximalMatching::init(&input(0, 3));
    let w = BipartiteMaximalMatching::receive(&w, vec![BpMessage::Noop; 3]);
    let w = BipartiteMaximalMatching::receive(
        &w,
        vec![BpMessage::Noop, BpMessage::Accept, BpMessage::Accept],
    );
    assert_eq!(w.matching_state(), MatchingState::Mr(1));
    assert_eq!(BipartiteMaximalMatching::send(&w, 2), BpMessage::Matched);
    let w = BipartiteMaximalMatching::receive(&w, vec![BpMessage::Noop; 3]);
    assert_eq!(w.matching_state(), MatchingState::Ms(1));
    assert!(w.matched());
    assert!(w.is_output());
}

#[test]
fn bmm_white_gives_up_after_all_ports() {
    let mut w = BipartiteMaximalMatching::init(&input(0, 1));
    for _ in 0..2 {
        w = BipartiteMaximalMatching::receive(&w, vec![BpMessage::Noop]);
    }
    assert_eq!(w.matching_state(), MatchingState::Ur);
    w = BipartiteMaximalMatching::receive(&w, vec![BpMessage::Noop]);
    assert_eq!(w.matching_state(), MatchingState::Us);
    assert!(!w.matched());
}

#[test]
fn bmm_white_without_ports_stops_at_once() {
    let w = BipartiteMaximalMatching::init(&input(0, 0));
    let w = BipartiteMaximalMatching::receive(&w, vec![]);
    assert_eq!(w.matching_state(), MatchingState::Us);
}

#[test]
fn bmm_black_accepts_smallest_proposing_port() {
    let b = BipartiteMaximalMatching::init(&input(1, 4));
    let b = BipartiteMaximalMatching::receive(
        &b,
        vec![BpMessage::Noop, BpMessage::Noop, BpMessage::Proposal, BpMessage::Proposal],
    );
    assert_eq!(BipartiteMaximalMatching::send(&b, 2), BpMessage::Accept);
    assert_eq!(BipartiteMaximalMatching::send(&b, 3), BpMessage::Noop);
    let b = BipartiteMaximalMatching::receive(&b, vec![BpMessage::Noop; 4]);
    assert_eq!(b.matching_state(), MatchingState::Ms(2));
}

#[test]
fn bmm_black_stops_unmatched_when_all_neighbours_matched() {
    let b = BipartiteMaximalMatching::init(&input(3, 2));
    let b = BipartiteMaximalMatching::receive(&b, vec![BpMessage::Matched, BpMessage::Matched]);
    assert_eq!(b.matching_state(), MatchingState::Ur);
    let b = BipartiteMaximalMatching::receive(&b, vec![BpMessage::Noop; 2]);
    assert_eq!(b.matching_state(), MatchingState::Us);
}

#[test]
fn bmm_stopped_state_is_absorbing() {
    let b = BipartiteMaximalMatching::init(&input(3, 2));
    let b = BipartiteMaximalMatching::receive(&b, vec![BpMessage::Matched, BpMessage::Matched]);
    let b = BipartiteMaximalMatching::receive(&b, vec![BpMessage::Noop; 2]);
    let c = BipartiteMaximalMatching::receive(&b, vec![BpMessage::Proposal, BpMessage::Accept]);
    assert!(c.is_output());
    assert!(b.same(&c));
    let d = c.snapshot();
    assert!(d.same(&c));
}

#[test]
fn bmm_bipartite_network_one() {
    let edges = vec![(0, 1), (2, 1), (4, 1), (3, 2), (5, 2)];
    let mut sim = Bmm::from_network(&edges, 5000).ok().unwrap();
    sim.run_rounds(100);
    assert_eq!(sim.unfinished(), 0);
    let p1 = partner(&sim, 1).unwrap();
    assert!([0, 2, 4].contains(&p1));
    let p2 = partner(&sim, 2).unwrap();
    assert!([3, 5].contains(&p2));
    assert_maximal_matching(&sim, &edges);
}

#[test]
fn bmm_square_is_perfectly_matched() {
    let edges = vec![(0, 1), (1, 2), (2, 3), (0, 3)];
    let mut sim = Bmm::from_network(&edges, 5000).ok().unwrap();
    let rounds = sim.run_rounds(100);
    assert!(rounds <= 2 * 2 + 1);
    for v in 0..4 {
        assert!(sim.state(v).matched());
    }
    assert_maximal_matching(&sim, &edges);
}

#[test]
fn bmm_stops_within_twice_max_degree_plus_two() {
    let edges = vec![(0, 1), (1, 2), (1, 4), (2, 3), (2, 5)];
    let mut sim = Bmm::from_network(&edges, 5000).ok().unwrap();
    let rounds = sim.run_rounds(100);
    // The largest degree is 3.
    assert!(rounds <= 2 * 3 + 1);
    assert_eq!(sim.unfinished(), 0);
    assert_maximal_matching(&sim, &edges);
}

#[test]
fn bmm_star_matches_one_leaf() {
    let edges: Vec<(u32, u32)> = (0..10).map(|i| (0, 2 * i + 1)).collect();
    let mut sim = Bmm::from_network(&edges, 5000).ok().unwrap();
    sim.run_rounds(100);
    assert_eq!(sim.unfinished(), 0);
    assert_maximal_matching(&sim, &edges);
    assert_eq!((0..sim.node_count()).filter(|&v| sim.state(v).matched()).count(), 2);
}

#[test]
fn in_names_its_depth() {
    assert_eq!(IsomorphicNeighborhood::<5>::name(), "Isomorphic Neighborhood (depth 5)");
    assert_eq!(IsomorphicNeighborhood::<12>::name(), "Isomorphic Neighborhood (depth 12)");
}

#[test]
fn in_state_steps() {
    let s: InState<2> = IsomorphicNeighborhood::<2>::init(&input(0, 3));
    assert_eq!(s.value(), 3);
    assert_eq!(IsomorphicNeighborhood::<2>::send(&s, 7), InMessage::Number(3));
    let s = IsomorphicNeighborhood::<2>::receive(&s, vec![InMessage::Number(4), InMessage::Number(5)]);
    assert_eq!((s.rounds(), s.value()), (1, 9));
    let s = IsomorphicNeighborhood::<2>::receive(&s, vec![InMessage::Number(1)]);
    assert!(s.is_output());
    let t = IsomorphicNeighborhood::<2>::receive(&s, vec![InMessage::Number(100)]);
    assert_eq!((t.rounds(), t.value()), (2, 1));
    assert!(t.same(&s));
}

#[test]
fn in_sum_wraps_on_32_bits() {
    let s: InState<3> = InState::Count(0, 0);
    let t = IsomorphicNeighborhood::<3>::receive(&s, vec![InMessage::Number(u32::MAX), InMessage::Number(2)]);
    assert_eq!(t.value(), 1);
}

#[test]
fn in_six_cycle_depth_five() {
    let edges = vec![(0, 1), (1, 2), (2, 3), (3, 4), (4, 5), (5, 0)];
    let mut sim =
        DaSimulator::<IsomorphicNeighborhood<5>, InState<5>, InMessage>::from_network(&edges, 5000)
            .ok()
            .unwrap();
    let mut seen = vec![];
    for _ in 0..5 {
        seen.push(sim.state(0).value());
        sim.round();
    }
    seen.push(sim.state(0).value());
    assert_eq!(seen, vec![2, 4, 8, 16, 32, 64]);
    for v in 0..6 {
        assert_eq!(sim.state(v).value(), 64);
        assert!(sim.state(v).is_output());
    }
    assert_eq!(sim.unfinished(), 0);
}

#[test]
fn in_complete_graph_depth_four() {
    let edges = vec![(0, 2), (0, 1), (0, 3), (1, 2), (1, 3), (2, 3)];
    let mut sim =
        DaSimulator::<IsomorphicNeighborhood<4>, InState<4>, InMessage>::from_network(&edges, 5000)
            .ok()
            .unwrap();
    let rounds = sim.run_rounds(50);
    assert_eq!(rounds, 4);
    for v in 0..4 {
        assert_eq!(sim.state(v).value(), 243);
    }
}

#[test]
fn mvc_names_itself() {
    assert_eq!(Mvc3approx::name(), "Minimum Vertex Cover 3-Approximation");
}

#[test]
fn mvc_copies_start_white_and_black() {
    let s = Mvc3approx::init(&input(7, 2));
    assert_eq!(s.s1.color(), NodeColor::White);
    assert_eq!(s.s2.color(), NodeColor::Black);
    assert_eq!(s.s1.degree(), 2);
    let m = Mvc3approx::send(&s, 0);
    assert_eq!(m, Mvc3approxMessage { m1: BpMessage::Noop, m2: BpMessage::Proposal });
    assert!(!s.in_cover());
}

#[test]
fn mvc_network_two_is_covered() {
    let edges = vec![
        (0, 1), (0, 2), (1, 3), (2, 3), (2, 4), (3, 4),
        (1, 5), (4, 5), (4, 6), (5, 6), (6, 7), (6, 8),
    ];
    let mut sim = Mvc::from_network(&edges, 5000).ok().unwrap();
    sim.run_rounds(100);
    assert_eq!(sim.unfinished(), 0);
    for &(a, b) in &edges {
        assert!(sim.state(a).in_cover() || sim.state(b).in_cover());
    }
}

#[test]
fn mvc_star_cover_is_at_most_three_times_optimal() {
    // The centre alone covers the star.
    let edges: Vec<(u32, u32)> = (1..6).map(|i| (0, i)).collect();
    let mut sim = Mvc::from_network(&edges, 5000).ok().unwrap();
    sim.run_rounds(100);
    assert_eq!(sim.unfinished(), 0);
    let cover = (0..sim.node_count()).filter(|&v| sim.state(v).in_cover()).count();
    assert!(cover <= 3);
    assert!(sim.state(0).in_cover());
}

#[test]
fn mvc_triangle_is_covered() {
    let edges = vec![(0, 1), (1, 2), (0, 2)];
    let mut sim = Mvc::from_network(&edges, 5000).ok().unwrap();
    sim.run_rounds(100);
    assert_eq!(sim.unfinished(), 0);
    let cover = (0..3).filter(|&v| sim.state(v).in_cover()).count();
    assert!(cover >= 2);
}

#[test]
fn labels_show_states() {
    let w = BipartiteMaximalMatching::init(&input(0, 3));
    assert_eq!(w.label(), "UR");
    let w = BipartiteMaximalMatching::receive(&w, vec![BpMessage::Noop; 3]);
    let w = BipartiteMaximalMatching::receive(
        &w,
        vec![BpMessage::Noop, BpMessage::Noop, BpMessage::Accept],
    );
    assert_eq!(w.label(), "MR(3)");
    let w = BipartiteMaximalMatching::receive(&w, vec![BpMessage::Noop; 3]);
    assert_eq!(w.label(), "MS(3)");
    let b = BipartiteMaximalMatching::init(&input(1, 0));
    let b = BipartiteMaximalMatching::receive(&b, vec![]);
    let b = BipartiteMaximalMatching::receive(&b, vec![]);
    assert_eq!(b.label(), "US");
    let s: InState<2> = InState::Count(2, 4096);
    assert_eq!(s.label(), "4096");
    let m = Mvc3approx::init(&input(3, 1));
    assert_eq!(m.label(), "0");
}
