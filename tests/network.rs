use pn_sim::algorithms::bipartite::{BpMessage, BpState};
use pn_sim::algorithms::isomorphic::InState;
use pn_sim::algorithms::{BipartiteMaximalMatching, IsomorphicNeighborhood};
use pn_sim::simulator::{DaSimulator, NetworkError};
use pn_sim::types::Edge;

type Bmm = DaSimulator<BipartiteMaximalMatching, BpState, BpMessage>;
type In5 = DaSimulator<IsomorphicNeighborhood<5>, InState<5>, pn_sim::algorithms::isomorphic::InMessage>;

fn network2() -> Vec<(u32, u32)> {
    vec![
        (0, 1), (0, 2), (1, 3), (2, 3), (2, 4), (3, 4),
        (1, 5), (4, 5), (4, 6), (5, 6), (6, 7), (6, 8),
    ]
}

#[test]
fn empty_edge_list_is_refused() {
    let r = Bmm::from_network(&vec![], 5000);
    assert!(matches!(r, Err(NetworkError::NoEdges)));
}

#[test]
fn duplicate_edges_are_refused() {
    let r = Bmm::from_network(&vec![(0, 1), (0, 1)], 5000);
    assert!(matches!(r, Err(NetworkError::NotSimple)));
}

#[test]
fn reversed_duplicate_edges_are_refused() {
    let r = Bmm::from_network(&vec![(0, 1), (2, 1), (1, 0)], 5000);
    assert!(matches!(r, Err(NetworkError::NotSimple)));
}

#[test]
fn self_loops_are_refused() {
    let r = Bmm::from_network(&vec![(0, 1), (2, 2)], 5000);
    assert!(matches!(r, Err(NetworkError::NotSimple)));
}

#[test]
fn simple_edge_list_is_accepted() {
    let sim = Bmm::from_network(&network2(), 5000).ok().unwrap();
    assert_eq!(sim.node_count(), 9);
    assert_eq!(sim.edge_count(), 12);
    assert_eq!(sim.timeout_millis(), 5000);
}

#[test]
fn gaps_in_vertex_indices_take_a_slot() {
    let sim = Bmm::from_network(&vec![(0, 3)], 10).ok().unwrap();
    assert_eq!(sim.node_count(), 4);
    assert_eq!(sim.port_edges(1).len(), 0);
    assert_eq!(sim.port_edges(0), vec![0]);
}

#[test]
fn port_count_equals_degree() {
    let sim = Bmm::from_network(&network2(), 5000).ok().unwrap();
    let degrees = [2, 3, 3, 3, 4, 3, 4, 1, 1];
    for v in 0..9u32 {
        assert_eq!(sim.port_edges(v).len(), degrees[v as usize]);
        assert_eq!(sim.state(v).degree(), degrees[v as usize] as u32);
    }
}

#[test]
fn edges_are_stored_smaller_end_first() {
    let sim = Bmm::from_network(&vec![(0, 1), (2, 1), (4, 1)], 5000).ok().unwrap();
    assert_eq!(sim.edge(0), (0, 1));
    assert_eq!(sim.edge(1), (1, 2));
    assert_eq!(sim.edge(2), (1, 4));
}

#[test]
fn port_order_puts_edges_from_smaller_vertices_first() {
    // At vertex 1 the edge to 2 was given first, but the edge from 0 comes
    // first in the port order.
    let sim = Bmm::from_network(&vec![(1, 2), (0, 1), (1, 3)], 5000).ok().unwrap();
    assert_eq!(sim.port_edges(1), vec![1, 0, 2]);
    assert_eq!(sim.port_edges(0), vec![1]);
    assert_eq!(sim.port_edges(2), vec![0]);
}

#[test]
fn port_labels_match_port_order() {
    let edges = vec![(0, 2), (0, 1), (0, 3), (1, 2), (1, 3), (2, 3)];
    let sim = Bmm::from_network(&edges, 5000).ok().unwrap();
    for e in 0..edges.len() {
        let (a, b) = sim.edge(e);
        let (tail, head) = sim.port_labels(e as u32);
        assert_eq!(sim.port_edges(a)[tail as usize - 1], e as u32);
        assert_eq!(sim.port_edges(b)[head as usize - 1], e as u32);
    }
    // Vertex 0 sees (0,2), (0,1), (0,3) in that order.
    assert_eq!(sim.port_labels(0).0, 1);
    assert_eq!(sim.port_labels(1).0, 2);
    assert_eq!(sim.port_labels(2).0, 3);
    // Vertex 2 sees (0,2), (1,2), (2,3).
    assert_eq!(sim.port_labels(0).1, 1);
    assert_eq!(sim.port_labels(3).1, 2);
    assert_eq!(sim.port_labels(5).0, 3);
}

#[test]
fn workers_send_one_message_per_port() {
    let mut sim = Bmm::from_network(&network2(), 5000).ok().unwrap();
    let workers = sim.start(0);
    assert_eq!(workers.len(), 9);
    for (v, w) in workers.iter().enumerate() {
        let out = w.outgoing::<BipartiteMaximalMatching, BpMessage>();
        assert_eq!(out.len(), sim.port_edges(v as u32).len());
    }
    // White vertex 0 proposes on its first port in round 0.
    let out = workers[0].outgoing::<BipartiteMaximalMatching, BpMessage>();
    assert_eq!(out, vec![BpMessage::Proposal, BpMessage::Noop]);
}

#[test]
fn worker_reports_first_stop_once() {
    let mut sim = In5::from_network(&vec![(0, 1)], 5000).ok().unwrap();
    let mut workers = sim.start(0);
    let w = &mut workers[0];
    let num = pn_sim::algorithms::isomorphic::InMessage::Number(1);
    for _ in 0..4 {
        assert_eq!(w.deliver::<IsomorphicNeighborhood<5>, _>(vec![num]), Ok(false));
        assert!(!w.should_exit(0, 2));
    }
    assert_eq!(w.deliver::<IsomorphicNeighborhood<5>, _>(vec![num]), Ok(true));
    assert_eq!(w.deliver::<IsomorphicNeighborhood<5>, _>(vec![num]), Ok(false));
    assert_eq!(w.state().rounds(), 5);
    assert!(w.should_exit(2, 2));
}

#[test]
fn worker_respects_round_limit() {
    let mut sim = In5::from_network(&vec![(0, 1)], 5000).ok().unwrap();
    let mut workers = sim.start(2);
    let w = &mut workers[0];
    assert!(!w.should_exit(0, 2));
    assert!(w.should_exit(0, 2));
}

#[test]
fn finish_puts_states_in_place() {
    let mut sim = In5::from_network(&vec![(0, 1)], 5000).ok().unwrap();
    assert_eq!(sim.unfinished(), 2);
    let states = vec![InState::Count(5, 7), InState::Count(3, 9)];
    sim.finish(states);
    assert_eq!(sim.state(0).value(), 7);
    assert_eq!(sim.unfinished(), 1);
}

#[test]
fn edge_ends_are_paired() {
    let mut e: Edge<u32> = Edge::new();
    let (s1, r1) = e.endpoint();
    let (s2, r2) = e.endpoint();
    s1.send(7).unwrap();
    s2.send(9).unwrap();
    assert_eq!(r2.recv().unwrap(), 7);
    assert_eq!(r1.recv().unwrap(), 9);
}

#[test]
fn edge_buffers_hold_one_message() {
    let mut e: Edge<u32> = Edge::new();
    let (s1, _r1) = e.endpoint();
    let (_s2, _r2) = e.endpoint();
    s1.send(1).unwrap();
    assert!(s1.try_send(2).is_err());
}

#[test]
fn decimal_strings() {
    assert_eq!(pn_sim::text::decimal_string(0), "0");
    assert_eq!(pn_sim::text::decimal_string(907), "907");
    assert_eq!(pn_sim::text::decimal_string(u32::MAX as u64), "4294967295");
    assert_eq!(pn_sim::text::decimal_string(u64::MAX), "18446744073709551615");
}

#[test]
fn port_edges_list_each_incident_edge_once() {
    let edges = network2();
    let sim = Bmm::from_network(&edges, 5000).ok().unwrap();
    for v in 0..sim.node_count() {
        let mut ports = sim.port_edges(v);
        for &e in &ports {
            let (a, b) = sim.edge(e as usize);
            assert!(a == v || b == v);
        }
        let incident = edges.iter().filter(|&&(a, b)| a == v || b == v).count();
        ports.sort();
        ports.dedup();
        assert_eq!(ports.len(), incident);
    }
}

#[test]
fn run_rounds_stops_early_when_all_stopped() {
    let edges = vec![(0, 1), (1, 2)];
    let mut sim = In5::from_network(&edges, 5000).ok().unwrap();
    assert_eq!(sim.run_rounds(100), 5);
    assert_eq!(sim.unfinished(), 0);
    assert_eq!(sim.run_rounds(100), 0);
}

#[test]
fn start_hands_states_over_and_finish_takes_them_back() {
    let mut sim = In5::from_network(&vec![(0, 1), (1, 2)], 5000).ok().unwrap();
    let workers = sim.start(0);
    assert_eq!(workers.len(), 3);
    assert_eq!(workers[1].state().value(), 2);
    assert_eq!(workers[0].state().value(), 1);
    let states: Vec<_> = workers.into_iter().map(|w| w.into_state()).collect();
    sim.finish(states);
    assert_eq!(sim.state(1).value(), 2);
    assert_eq!(sim.unfinished(), 3);
}
