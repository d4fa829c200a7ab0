use gridiron::automaton::{Automaton, Coordinator, RemoteValue, Status};
use vstd::prelude::{Seq, View};

struct ConcatenateNearestNeighbors {
    key: u32,
    group_size: u32,
    neighbors: Vec<String>,
}

impl ConcatenateNearestNeighbors {
    fn new(key: u32, group_size: u32) -> Self {
        Self { key, group_size, neighbors: Vec::new() }
    }

    fn neighbor_indexes(&self) -> (u32, u32) {
        let il = (self.key + self.group_size - 1) % self.group_size;
        let ir = (self.key + self.group_size + 1) % self.group_size;
        (il, ir)
    }
}

impl Automaton for ConcatenateNearestNeighbors {
    type Key = u32;
    type Message = String;
    type Value = String;

    fn key_spec(&self) -> u32 {
        self.key
    }

    fn inbox(&self) -> Seq<String> {
        self.neighbors.view()
    }

    fn ready(&self) -> bool {
        self.neighbors.len() == 2
    }

    fn key(&self) -> u32 {
        self.key
    }

    fn messages(&self) -> Vec<(u32, String)> {
        let (il, ir) = self.neighbor_indexes();
        vec![(il, format!("{}", self.key)), (ir, format!("{}", self.key))]
    }

    fn receive(&mut self, message: String) -> Status {
        self.neighbors.push(message);
        Status::eligible_if(self.neighbors.len() == 2)
    }

    fn value(self) -> String {
        let Self { mut neighbors, .. } = self;
        neighbors.sort();
        format!("{} {} {}", neighbors[0], self.key, neighbors[1])
    }
}

#[test]
fn status_reports_eligibility() {
    assert!(Status::eligible_if(true).is_eligible());
    assert!(!Status::eligible_if(false).is_eligible());
}

#[test]
fn remote_values_compare_with_the_local_range() {
    assert!(!5u32.is_remote((0, 10)));
    assert!(!10u32.is_remote((0, 10)));
    assert!(11u32.is_remote((0, 10)));
    assert!(!(2..5, 0..1).is_remote((0, 10)));
    assert!((2..12, 0..1).is_remote((0, 10)));
    assert!((-1..5, 0..1).is_remote((0, 10)));
}

#[test]
fn coordinator_releases_a_ring_of_automata() {
    let group_size = 10;
    let mut coordinator = Coordinator::new();
    let mut values = Vec::new();
    let mut remote = Vec::new();
    for n in 0..group_size {
        let (out, ready) = coordinator.step(ConcatenateNearestNeighbors::new(n, group_size), (0, 4));
        remote.extend(out);
        values.extend(ready.into_iter().map(|a| a.value()));
    }
    assert_eq!(values.len(), group_size as usize);
    assert_eq!(coordinator.num_waiting(), 0);
    assert!(values.contains(&"0 1 2".to_string()));
    assert!(values.contains(&"0 9 8".to_string()));
    // Messages addressed to keys 5..=9 are remote.
    assert_eq!(remote.len(), 10);
}

#[test]
fn coordinator_holds_automata_until_their_messages_arrive() {
    let mut coordinator = Coordinator::new();
    let (out, ready) = coordinator.step(ConcatenateNearestNeighbors::new(1, 3), (0, 10));
    assert!(out.is_empty());
    assert!(ready.is_empty());
    assert_eq!(coordinator.num_waiting(), 1);
    let (_, ready) = coordinator.step(ConcatenateNearestNeighbors::new(0, 3), (0, 10));
    assert!(ready.is_empty());
    assert_eq!(coordinator.num_waiting(), 2);
    let (_, ready) = coordinator.step(ConcatenateNearestNeighbors::new(2, 3), (0, 10));
    let values: Vec<String> = ready.into_iter().map(|a| a.value()).collect();
    assert_eq!(values, vec!["0 1 2".to_string(), "1 0 2".to_string(), "0 2 1".to_string()]);
    assert_eq!(coordinator.num_waiting(), 0);
}
