use gridiron::compute::{get_all, Compute, Scheduler};
use std::collections::HashMap;

#[derive(Clone, Debug, PartialEq)]
struct Task {
    key: u32,
    peers: Vec<u32>,
}

impl Compute for Task {
    type Key = u32;
    type Value = u32;

    fn peer_keys(&self) -> Vec<u32> {
        self.peers.clone()
    }

    fn key(&self) -> u32 {
        self.key
    }

    fn run(&self, peers: Vec<Self>) -> u32 {
        self.key + peers.iter().map(|p| p.key).sum::<u32>()
    }
}

#[test]
fn get_all_copies_every_value_or_none() {
    let mut map = HashMap::new();
    map.insert(1u32, "one".to_string());
    map.insert(2u32, "two".to_string());
    assert_eq!(get_all(&map, vec![2, 1, 2]), Some(vec!["two".to_string(), "one".to_string(), "two".to_string()]));
    assert_eq!(get_all(&map, vec![1, 3]), None);
    assert_eq!(get_all(&map, vec![]), Some(vec![]));
}

#[test]
fn scheduler_releases_tasks_once_their_peers_arrive() {
    let mut s = Scheduler::new();
    let a = Task { key: 1, peers: vec![2] };
    let b = Task { key: 2, peers: vec![1, 3] };
    let c = Task { key: 3, peers: vec![] };
    assert!(s.step(1, a.clone()).is_empty());
    let out = s.step(2, b.clone());
    assert_eq!(out, vec![(1, a.clone(), vec![b.clone()])]);
    assert_eq!(s.num_waiting(), 1);
    let out = s.step(3, c.clone());
    assert_eq!(out.len(), 2);
    assert_eq!(out[0].0, 2);
    assert_eq!(out[0].1, b);
    assert_eq!(out[0].2, vec![a.clone(), c.clone()]);
    assert_eq!(out[1].0, 3);
    assert_eq!(out[1].2, Vec::<Task>::new());
    assert_eq!(s.num_waiting(), 0);
    assert_eq!(out[0].1.run(out[0].2.clone()), 6);
}
