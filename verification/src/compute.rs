//! Execution of layered task graphs: each task of a group can run once the
//! peers it names have all arrived. The executors that run tasks on threads
//! live with the application; the library holds the bookkeeping that decides
//! which tasks are ready.
use vstd::prelude::*;
use std::collections::HashMap;
use std::hash::Hash;
use vstd::std_specs::hash::obeys_key_model;
use vstd::pervasive::strictly_cloned;

verus! {

broadcast use vstd::std_specs::hash::group_hash_axioms;

/// A task in a group of tasks, which can run given copies of the peers it
/// names, in the order it names them.
pub trait Compute: Sized {
    /// Identifies a task uniquely within its group.
    type Key;

    /// What a task yields when it runs.
    type Value;

    /// The keys of the peers it needs in order to run.
    fn peer_keys(&self) -> Vec<Self::Key>;

    /// Its own key.
    fn key(&self) -> Self::Key;

    /// Run it, given its peers in the order of `peer_keys`.
    fn run(&self, peers: Vec<Self>) -> Self::Value;
}

/// Cloning a key gives an equal key.
pub open spec fn exact_clone<K: Clone>() -> bool {
    forall|a: K, b: K| #[trigger] strictly_cloned(a, b) ==> a == b
}

/// `ks` is a list of peer keys that `c.peer_keys()` reports.
pub open spec fn peers_of<C: Compute>(c: C, ks: Vec<C::Key>) -> bool {
    call_ensures(C::peer_keys, (&c,), ks)
}

/// The elements of `s` whose flag equals `keep`, in order.
pub open spec fn select<T>(s: Seq<T>, flags: Seq<bool>, keep: bool) -> Seq<T>
    decreases s.len(),
{
    if s.len() == 0 {
        Seq::empty()
    } else if flags.last() == keep {
        select(s.drop_last(), flags.drop_last(), keep).push(s.last())
    } else {
        select(s.drop_last(), flags.drop_last(), keep)
    }
}

/// Copies of the values of `map` under `keys`, in order, if every key is in
/// the map; `None` otherwise.
pub fn get_all<K: Hash + Eq, V: Clone>(map: &HashMap<K, V>, keys: Vec<K>) -> (r: Option<Vec<V>>)
    requires
        obeys_key_model::<K>(),
    ensures
        r is Some <==> forall|i: int| 0 <= i < keys@.len() ==> map@.contains_key(#[trigger] keys@[i]),
        r matches Some(v) ==> v@.len() == keys@.len() && forall|i: int|
            0 <= i < keys@.len() ==> cloned(map@[keys@[i]], #[trigger] v@[i]),
{
    let mut out: Vec<V> = Vec::new();
    let mut i: usize = 0;
    while i < keys.len()
        invariant
            obeys_key_model::<K>(),
            i <= keys@.len(),
            out@.len() == i,
            forall|j: int| 0 <= j < i ==> map@.contains_key(#[trigger] keys@[j]),
            forall|j: int| 0 <= j < i ==> cloned(map@[keys@[j]], #[trigger] out@[j]),
        decreases keys@.len() - i,
    {
        match map.get(&keys[i]) {
            Some(v) => {
                let c = v.clone();
                out.push(c);
            },
            None => {
                return None;
            },
        }
        i += 1;
    }
    Some(out)
}

/// The tasks that have arrived, and the keys of those still waiting for
/// peers, in order of arrival.
pub struct Scheduler<C: Compute> {
    seen: HashMap<C::Key, C>,
    hold: Vec<C::Key>,
}

impl<C: Compute + Clone> Scheduler<C> where C::Key: Hash + Eq + Clone {
    /// The tasks that have arrived, by key.
    pub closed spec fn arrived(&self) -> Map<C::Key, C> {
        self.seen@
    }

    /// The keys of the tasks still waiting, in order of arrival.
    pub closed spec fn waiting(&self) -> Seq<C::Key> {
        self.hold@
    }

    /// Every waiting task has arrived.
    pub closed spec fn wf(&self) -> bool {
        forall|i: int| 0 <= i < self.hold@.len() ==> self.seen@.contains_key(#[trigger] self.hold@[i])
    }

    pub fn new() -> (s: Self)
        ensures
            s.wf(),
            s.arrived() == Map::<C::Key, C>::empty(),
            s.waiting() == Seq::<C::Key>::empty(),
    {
        Scheduler { seen: HashMap::new(), hold: Vec::new() }
    }

    /// The number of tasks still waiting.
    pub fn num_waiting(&self) -> (n: usize)
        ensures
            n == self.waiting().len(),
    {
        self.hold.len()
    }

    /// Take in a task. It is filed under `key` and queued; then every
    /// queued task whose peers have all arrived leaves the queue and is
    /// returned, in queue order, as its key, a copy of it, and copies of its
    /// peers. A task that stays queued names a peer that has not arrived.
    pub fn step(&mut self, key: C::Key, item: C) -> (out: Vec<(C::Key, C, Vec<C>)>)
        requires
            old(self).wf(),
            obeys_key_model::<C::Key>(),
            exact_clone::<C::Key>(),
        ensures
            final(self).wf(),
            final(self).arrived() == old(self).arrived().insert(key, item),
            exists|ready: Seq<bool>|
                #![trigger select(old(self).waiting().push(key), ready, true)]
                {
                    let queue = old(self).waiting().push(key);
                    &&& ready.len() == queue.len()
                    &&& final(self).waiting() == select(queue, ready, false)
                    &&& out@.map_values(|e: (C::Key, C, Vec<C>)| e.0) == select(queue, ready, true)
                },
            forall|m: int| #![trigger out@[m]] 0 <= m < out@.len() ==> ready_with(final(self).arrived(), out@[m]),
            forall|i: int|
                0 <= i < final(self).waiting().len() ==> missing_peer(
                    final(self).arrived(),
                    #[trigger] final(self).waiting()[i],
                ),
    {
        let k2 = key.clone();
        self.seen.insert(k2, item);
        self.hold.push(key);
        let ghost queue = self.hold@;
        let ghost seen = self.seen@;
        proof {
            assert(strictly_cloned(key, k2));
            assert(k2 == key);
            assert(seen == old(self).seen@.insert(key, item));
            assert forall|j: int| 0 <= j < queue.len() implies seen.contains_key(#[trigger] queue[j]) by {
                if j < queue.len() - 1 {
                    assert(old(self).hold@[j] == queue[j]);
                }
            }
        }
        let mut out: Vec<(C::Key, C, Vec<C>)> = Vec::new();
        let ghost mut ready: Seq<bool> = Seq::empty();
        let mut i: usize = 0;
        while i < self.hold.len()
            invariant
                obeys_key_model::<C::Key>(),
                self.seen@ == seen,
                0 <= i <= self.hold@.len(),
                ready.len() <= queue.len(),
                self.hold@.len() - i == queue.len() - ready.len(),
                self.hold@.take(i as int) == select(queue.take(ready.len() as int), ready, false),
                self.hold@.skip(i as int) == queue.skip(ready.len() as int),
                out@.map_values(|e: (C::Key, C, Vec<C>)| e.0) == select(queue.take(ready.len() as int), ready, true),
                forall|j: int| 0 <= j < queue.len() ==> seen.contains_key(#[trigger] queue[j]),
                forall|m: int| #![trigger out@[m]] 0 <= m < out@.len() ==> ready_with(seen, out@[m]),
                forall|t: int| 0 <= t < i ==> missing_peer(seen, #[trigger] self.hold@[t]),
                forall|t: int| 0 <= t < self.hold@.len() ==> seen.contains_key(#[trigger] self.hold@[t]),
            decreases self.hold@.len() - i,
        {
            let ghost r = ready.len() as int;
            let ghost hold0 = self.hold@;
            let ghost out0 = out@;
            proof {
                assert(hold0.skip(i as int)[0] == queue.skip(r)[0]);
                assert(hold0[i as int] == queue[r]);
                assert(queue.take(r + 1).drop_last() =~= queue.take(r));
                assert(queue.take(r + 1).last() == queue[r]);
            }
            let held = self.seen.get(&self.hold[i]).unwrap();
            let wanted = held.peer_keys();
            match get_all(&self.seen, wanted) {
                Some(peers) => {
                    let copy = held.clone();
                    let k = self.hold.remove(i);
                    out.push((k, copy, peers));
                    proof {
                        let ghost_ready = ready.push(true);
                        assert(ghost_ready.drop_last() =~= ready);
                        ready = ghost_ready;
                        assert(self.hold@.take(i as int) =~= hold0.take(i as int));
                        assert(self.hold@.skip(i as int) =~= queue.skip(r + 1)) by {
                            assert forall|t: int| 0 <= t < self.hold@.skip(i as int).len() implies
                                #[trigger] self.hold@.skip(i as int)[t] == queue.skip(r + 1)[t] by {
                                assert(hold0.skip(i as int)[t + 1] == queue.skip(r)[t + 1]);
                            }
                        }
                        assert(out@.map_values(|e: (C::Key, C, Vec<C>)| e.0) =~= out0.map_values(
                            |e: (C::Key, C, Vec<C>)| e.0,
                        ).push(k));
                        assert(held == seen[k]);
                        assert(peers_of(seen[k], wanted));
                        assert(cloned(seen[k], copy));
                        assert(out@[out@.len() - 1] == (k, copy, peers));
                        assert(ready_with(seen, out@[out@.len() - 1]));
                        assert forall|t: int| 0 <= t < self.hold@.len() implies seen.contains_key(#[trigger] self.hold@[t]) by {
                            if t < i {
                                assert(self.hold@[t] == hold0[t]);
                            } else {
                                assert(self.hold@[t] == hold0[t + 1]);
                            }
                        }
                        assert forall|t: int| 0 <= t < i implies missing_peer(seen, #[trigger] self.hold@[t]) by {
                            assert(self.hold@[t] == hold0[t]);
                        }
                    }
                },
                None => {
                    proof {
                        let ghost_ready = ready.push(false);
                        assert(ghost_ready.drop_last() =~= ready);
                        ready = ghost_ready;
                        assert(self.hold@.take(i as int + 1) =~= hold0.take(i as int).push(queue[r]));
                        assert(self.hold@.skip(i as int + 1) =~= queue.skip(r + 1)) by {
                            assert forall|t: int| 0 <= t < self.hold@.skip(i as int + 1).len() implies
                                #[trigger] self.hold@.skip(i as int + 1)[t] == queue.skip(r + 1)[t] by {
                                assert(hold0.skip(i as int)[t + 1] == queue.skip(r)[t + 1]);
                            }
                        }
                        assert(held == seen[hold0[i as int]]);
                        assert(peers_of(seen[hold0[i as int]], wanted));
                        assert(missing_peer(seen, self.hold@[i as int]));
                    }
                    i += 1;
                },
            }
        }
        proof {
            assert(ready.len() == queue.len());
            assert(queue.take(ready.len() as int) =~= queue);
            assert(self.hold@ =~= self.hold@.take(i as int));
            assert(queue == old(self).hold@.push(key));
            assert(out@.map_values(|e: (C::Key, C, Vec<C>)| e.0) == select(old(self).waiting().push(key), ready, true));
            assert(self.hold@ == select(old(self).waiting().push(key), ready, false));
        }
        out
    }
}

/// A returned task is filed under its key, is a copy of the task filed
/// there, and comes with copies of all the peers that task names.
pub open spec fn ready_with<C: Compute + Clone>(arrived: Map<C::Key, C>, e: (C::Key, C, Vec<C>)) -> bool
    where C::Key: Clone,
{
    let (k, c, peers) = e;
    &&& arrived.contains_key(k)
    &&& cloned(arrived[k], c)
    &&& exists|ks: Vec<C::Key>|
        #[trigger] peers_of(arrived[k], ks) && peers@.len() == ks@.len() && forall|j: int|
            0 <= j < ks@.len() ==> arrived.contains_key(#[trigger] ks@[j]) && cloned(arrived[ks@[j]], peers@[j])
}

/// The task filed under `k` names a peer that has not arrived.
pub open spec fn missing_peer<C: Compute>(arrived: Map<C::Key, C>, k: C::Key) -> bool {
    exists|ks: Vec<C::Key>|
        #[trigger] peers_of(arrived[k], ks) && exists|j: int| 0 <= j < ks@.len() && !arrived.contains_key(#[trigger] ks@[j])
}

/// Splitting a queue by flags loses and invents nothing: every element
/// lands on exactly one side.
pub proof fn law_select_partitions<T>(s: Seq<T>, flags: Seq<bool>)
    requires
        flags.len() == s.len(),
    ensures
        select(s, flags, true).len() + select(s, flags, false).len() == s.len(),
        select(s, flags, true).to_multiset().add(select(s, flags, false).to_multiset()) == s.to_multiset(),
    decreases s.len(),
{
    broadcast use vstd::multiset::group_multiset_axioms, vstd::seq_lib::group_to_multiset_ensures;
    if s.len() > 0 {
        let d = s.drop_last();
        law_select_partitions(d, flags.drop_last());
        assert(d.push(s.last()) =~= s);
        let t = select(d, flags.drop_last(), true);
        let f = select(d, flags.drop_last(), false);
        if flags.last() {
            assert(t.push(s.last()).to_multiset() =~= t.to_multiset().insert(s.last()));
        } else {
            assert(f.push(s.last()).to_multiset() =~= f.to_multiset().insert(s.last()));
        }
        assert(s.to_multiset() =~= d.to_multiset().insert(s.last()));
    }
}

} // verus!
