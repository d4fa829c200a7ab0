//! Message-passing automata and the bookkeeping that routes their messages.
//!
//! An automaton is a task that owns its data, sends messages to its peers
//! and becomes eligible to yield a value once it has received what it needs.
//! [`Coordinator`] holds the automata that are still waiting and the messages
//! whose recipients have not arrived yet; each call to [`Coordinator::step`]
//! takes one new automaton and reports which automata are now ready to run
//! and which messages must leave this process.
use vstd::prelude::*;
use std::collections::HashMap;
use std::hash::Hash;
use std::ops::Range;
use vstd::std_specs::hash::obeys_key_model;

verus! {

broadcast use vstd::std_specs::hash::group_hash_axioms;

/// Returned by [`Automaton::receive`] to tell whether a task may now be
/// evaluated.
pub enum Status {
    Eligible,
    Ineligible,
}

impl Status {
    pub fn eligible_if(condition: bool) -> (s: Self)
        ensures
            (s is Eligible) == condition,
    {
        if condition {
            Status::Eligible
        } else {
            Status::Ineligible
        }
    }

    pub fn is_eligible(&self) -> (b: bool)
        ensures
            b == (*self is Eligible),
    {
        match self {
            Status::Eligible => true,
            Status::Ineligible => false,
        }
    }
}

/// A key that can tell whether the automaton it names lives outside the
/// range of keys handled by this process.
pub trait RemoteValue {
    spec fn remote_spec(&self, local_range: (i64, i64)) -> bool;

    fn is_remote(&self, local_range: (i64, i64)) -> (r: bool)
        ensures
            r == self.remote_spec(local_range),
    ;
}

impl RemoteValue for (Range<i64>, Range<i64>) {
    /// A rectangle is local when its first axis lies inside the local range.
    open spec fn remote_spec(&self, local_range: (i64, i64)) -> bool {
        !(local_range.0 <= self.0.start && self.0.end <= local_range.1)
    }

    fn is_remote(&self, local_range: (i64, i64)) -> (r: bool)
        ensures
            r == !(local_range.0 <= self.0.start && self.0.end <= local_range.1),
    {
        !(local_range.0 <= self.0.start && self.0.end <= local_range.1)
    }
}

/// A rectangle key is remote exactly when its first range does not lie
/// inside the local range; its second range plays no part.
pub proof fn law_rectangle_remote_by_first_axis(di: Range<i64>, dj: Range<i64>, dk: Range<i64>, local_range: (i64, i64))
    ensures
        (di, dj).remote_spec(local_range) == !(local_range.0 <= di.start && di.end <= local_range.1),
        (di, dj).remote_spec(local_range) == (di, dk).remote_spec(local_range),
{
}

/// A numbered key is remote exactly when it lies outside the closed local
/// range.
pub proof fn law_number_remote(k: u32, local_range: (i64, i64))
    ensures
        k.remote_spec(local_range) == (k < local_range.0 || k > local_range.1),
{
}

impl RemoteValue for u32 {
    /// A number is local when it lies in the closed local range.
    open spec fn remote_spec(&self, local_range: (i64, i64)) -> bool {
        !(local_range.0 <= *self as i64 && *self as i64 <= local_range.1)
    }

    fn is_remote(&self, local_range: (i64, i64)) -> (r: bool)
        ensures
            r == (*self < local_range.0 || *self > local_range.1),
    {
        !(local_range.0 <= *self as i64 && *self as i64 <= local_range.1)
    }
}

/// An agent in a group of compute tasks that communicates with its peers by
/// passing owned messages, and yields a computationally intensive value once
/// it has received all of its incoming messages.
pub trait Automaton: Sized {
    /// Identifies this automaton uniquely within its group.
    type Key;

    /// A message passed between the automata of a group.
    type Message;

    /// The value yielded by this automaton.
    type Value;

    /// The key that identifies this automaton within the group.
    spec fn key_spec(&self) -> Self::Key;

    /// The messages this automaton has received, in order.
    spec fn inbox(&self) -> Seq<Self::Message>;

    /// Whether every incoming message has arrived.
    spec fn ready(&self) -> bool;

    /// Return the key that identifies this automaton within the group.
    fn key(&self) -> (k: Self::Key)
        ensures
            k == self.key_spec(),
    ;

    /// Return the messages to be sent to peers, each with its recipient.
    fn messages(&self) -> Vec<(Self::Key, Self::Message)>;

    /// Receive and keep a message from a peer, and tell whether every
    /// incoming message has now arrived. The message joins the inbox, the
    /// key stays the same, and the answer is whether the automaton is now
    /// ready.
    fn receive(&mut self, message: Self::Message) -> (s: Status)
        ensures
            final(self).key_spec() == old(self).key_spec(),
            final(self).inbox() == old(self).inbox().push(message),
            (s is Eligible) == final(self).ready(),
    ;

    /// Run the task.
    fn value(self) -> Self::Value;

    /// The worker thread this automaton prefers to run on, if any.
    fn worker_hint(&self) -> (h: Option<usize>)
        default_ensures
            h is None,
    {
        None
    }
}

/// `k` is the key of `a`.
pub open spec fn key_of<A: Automaton>(a: A, k: A::Key) -> bool {
    a.key_spec() == k
}

/// `after` is `before` once it has received `msgs` in order: the same key,
/// and the messages appended to its inbox.
pub open spec fn grown<A: Automaton>(before: A, after: A, msgs: Seq<A::Message>) -> bool {
    &&& after.key_spec() == before.key_spec()
    &&& after.inbox() == before.inbox() + msgs
}

/// `m` is a list of messages that `a.messages()` reports.
pub open spec fn messages_of<A: Automaton>(a: A, m: Vec<(A::Key, A::Message)>) -> bool {
    call_ensures(A::messages, (&a,), m)
}

/// How the messages of one automaton are routed, given the keys of the
/// automata that are waiting (`seen`), the messages that are waiting for
/// their recipients (`pending`), and, for each message, whether its
/// recipient (if it was waiting) turned eligible on receiving it. Returns
/// the keys still waiting, the messages still waiting, and the keys of the
/// automata released, in the order of release.
pub open spec fn route<K, M>(
    seen: Set<K>,
    pending: Map<K, Seq<M>>,
    msgs: Seq<(K, M)>,
    eligible: Seq<bool>,
) -> (Set<K>, Map<K, Seq<M>>, Seq<K>)
    decreases msgs.len(),
{
    if msgs.len() == 0 {
        (seen, pending, Seq::empty())
    } else {
        let (s, p, r) = route(seen, pending, msgs.drop_last(), eligible.drop_last());
        let d = msgs.last().0;
        let m = msgs.last().1;
        if s.contains(d) {
            if eligible.last() {
                (s.remove(d), p, r.push(d))
            } else {
                (s, p, r)
            }
        } else if p.contains_key(d) {
            (s, p.insert(d, p[d].push(m)), r)
        } else {
            (s, p.insert(d, seq![m]), r)
        }
    }
}

/// The deliveries made while routing `msgs`: one entry, in order, for each
/// message whose recipient was waiting when it came, holding the recipient's
/// key, the message, and whether the recipient reported itself eligible on
/// receiving it.
pub open spec fn route_deliveries<K, M>(
    seen: Set<K>,
    pending: Map<K, Seq<M>>,
    msgs: Seq<(K, M)>,
    eligible: Seq<bool>,
) -> Seq<(K, M, bool)>
    decreases msgs.len(),
{
    if msgs.len() == 0 {
        Seq::empty()
    } else {
        let prev = route_deliveries(seen, pending, msgs.drop_last(), eligible.drop_last());
        let (s, p, r) = route(seen, pending, msgs.drop_last(), eligible.drop_last());
        if s.contains(msgs.last().0) {
            prev.push((msgs.last().0, msgs.last().1, eligible.last()))
        } else {
            prev
        }
    }
}

/// `own` are the deliveries to a new automaton with key `key` of the
/// messages `queued` for it: in order, up to and including the first on
/// which it reported itself eligible, or all of them if it never did;
/// `done` tells whether it did.
pub open spec fn own_deliveries<K, M>(key: K, queued: Seq<M>, own: Seq<(K, M, bool)>, done: bool) -> bool {
    &&& own.len() <= queued.len()
    &&& forall|i: int| 0 <= i < own.len() ==> (#[trigger] own[i]).0 == key && own[i].1 == queued[i]
    &&& forall|i: int| 0 <= i < own.len() - 1 ==> !(#[trigger] own[i]).2
    &&& done == (own.len() > 0 && own.last().2)
    &&& !done ==> own.len() == queued.len()
}

/// The keys of the deliveries on which the recipient reported itself
/// eligible, in order.
pub open spec fn eligible_keys<K, M>(log: Seq<(K, M, bool)>) -> Seq<K>
    decreases log.len(),
{
    if log.len() == 0 {
        Seq::empty()
    } else if log.last().2 {
        eligible_keys(log.drop_last()).push(log.last().0)
    } else {
        eligible_keys(log.drop_last())
    }
}

/// The messages delivered to the recipient with key `d`, in order.
pub open spec fn messages_to<K, M>(log: Seq<(K, M, bool)>, d: K) -> Seq<M>
    decreases log.len(),
{
    if log.len() == 0 {
        Seq::empty()
    } else if log.last().0 == d {
        messages_to(log.drop_last(), d).push(log.last().1)
    } else {
        messages_to(log.drop_last(), d)
    }
}

/// One step of a [`Coordinator`] in terms of keys: the messages are routed,
/// each recipient that was waiting receiving its message and reporting
/// `eligible` on it; then the new automaton with key `key` receives the
/// messages queued for it (`own`), and is released (`done`) if it reported
/// itself eligible on one of them, or else waits. The delivery log grows by
/// exactly these deliveries; `released` counts the automata released.
pub open spec fn routed_step<K, M>(
    seen: Set<K>,
    pending: Map<K, Seq<M>>,
    msgs: Seq<(K, M)>,
    key: K,
    eligible: Seq<bool>,
    done: bool,
    own: Seq<(K, M, bool)>,
    waiting_after: Set<K>,
    pending_after: Map<K, Seq<M>>,
    released: nat,
    log_before: Seq<(K, M, bool)>,
    log_after: Seq<(K, M, bool)>,
) -> bool {
    let (s, p, r) = route(seen, pending, msgs, eligible);
    let queued = if p.contains_key(key) { p[key] } else { Seq::<M>::empty() };
    &&& eligible.len() == msgs.len()
    &&& (done ==> p.contains_key(key))
    &&& own_deliveries(key, queued, own, done)
    &&& pending_after == p.remove(key)
    &&& waiting_after == if done { s } else { s.insert(key) }
    &&& released == if done { r.len() + 1 } else { r.len() }
    &&& log_after == log_before + route_deliveries(seen, pending, msgs, eligible) + own
}

/// The messages of `msgs` addressed to `d`, in order.
pub open spec fn addressed_to<K, M>(msgs: Seq<(K, M)>, d: K) -> Seq<M>
    decreases msgs.len(),
{
    if msgs.len() == 0 {
        Seq::empty()
    } else if msgs.last().0 == d {
        addressed_to(msgs.drop_last(), d).push(msgs.last().1)
    } else {
        addressed_to(msgs.drop_last(), d)
    }
}

/// The messages of `msgs` whose recipient lives outside `local_range`, in
/// order.
pub open spec fn remote_messages<K: RemoteValue, M>(msgs: Seq<(K, M)>, local_range: (i64, i64)) -> Seq<M>
    decreases msgs.len(),
{
    if msgs.len() == 0 {
        Seq::empty()
    } else if msgs.last().0.remote_spec(local_range) {
        remote_messages(msgs.drop_last(), local_range).push(msgs.last().1)
    } else {
        remote_messages(msgs.drop_last(), local_range)
    }
}

/// Routing never loses a waiting automaton: each one is either still waiting
/// or released, never both, and none is released twice. Messages to a key
/// that is not waiting are queued for it in the order they were sent, and a
/// key never both waits and has queued messages.
pub proof fn law_route_conserves<K, M>(seen: Set<K>, pending: Map<K, Seq<M>>, msgs: Seq<(K, M)>, eligible: Seq<bool>)
    requires
        seen.disjoint(pending.dom()),
    ensures
        ({
            let (s, p, r) = route(seen, pending, msgs, eligible);
            &&& s.disjoint(p.dom())
            &&& s.disjoint(r.to_set())
            &&& s + r.to_set() == seen
            &&& r.no_duplicates()
            &&& forall|d: K| !seen.contains(d) ==> {
                let before = if pending.contains_key(d) { pending[d] } else { Seq::<M>::empty() };
                let after = if p.contains_key(d) { p[d] } else { Seq::<M>::empty() };
                after == before + addressed_to(msgs, d)
            }
            &&& forall|d: K| seen.contains(d) && #[trigger] p.contains_key(d) ==> r.contains(d)
        }),
    decreases msgs.len(),
{
    if msgs.len() > 0 {
        law_route_conserves(seen, pending, msgs.drop_last(), eligible.drop_last());
        let (s0, p0, r0) = route(seen, pending, msgs.drop_last(), eligible.drop_last());
        let (s, p, r) = route(seen, pending, msgs, eligible);
        let d = msgs.last().0;
        let m = msgs.last().1;
        if s0.contains(d) && eligible.last() {
            assert(r == r0.push(d));
            assert forall|x: K| r.to_set().contains(x) == r0.to_set().insert(d).contains(x) by {
                if r0.contains(x) {
                    let i = choose|i: int| 0 <= i < r0.len() && r0[i] == x;
                    assert(r[i] == x);
                }
                if x == d {
                    assert(r[r.len() - 1] == d);
                }
                if r.contains(x) {
                    let i = choose|i: int| 0 <= i < r.len() && r[i] == x;
                    if i < r0.len() {
                        assert(r0[i] == x);
                    }
                }
            }
            assert(r.to_set() =~= r0.to_set().insert(d));
            assert(s + r.to_set() =~= s0 + r0.to_set());
            assert(!r0.contains(d));
            assert forall|i: int, j: int| 0 <= i < j < r.len() implies r[i] != r[j] by {
                if j == r.len() - 1 {
                    assert(r0.contains(r[i]));
                }
            }
            assert(s.disjoint(r.to_set()));
        }
        assert forall|x: K| !seen.contains(x) implies {
            let before = if pending.contains_key(x) { pending[x] } else { Seq::<M>::empty() };
            let after = if p.contains_key(x) { p[x] } else { Seq::<M>::empty() };
            after == before + addressed_to(msgs, x)
        } by {
            let before = if pending.contains_key(x) { pending[x] } else { Seq::<M>::empty() };
            let mid = if p0.contains_key(x) { p0[x] } else { Seq::<M>::empty() };
            assert(mid == before + addressed_to(msgs.drop_last(), x));
            if x == d {
                assert(!s0.contains(d));
                assert(addressed_to(msgs, x) == addressed_to(msgs.drop_last(), x).push(m));
                assert(before + addressed_to(msgs, x) =~= (before + addressed_to(msgs.drop_last(), x)).push(m));
            }
        }
        assert forall|x: K| seen.contains(x) && #[trigger] p.contains_key(x) implies r.contains(x) by {
            if p0.contains_key(x) {
                assert(r0.contains(x));
                let i = choose|i: int| 0 <= i < r0.len() && r0[i] == x;
                assert(r[i] == x);
            } else {
                assert(x == d);
                assert(!s0.contains(d));
                assert(!(s0 + r0.to_set()).contains(d) ==> false);
                assert(r0.to_set().contains(d));
                let i = choose|i: int| 0 <= i < r0.len() && r0[i] == d;
                assert(r[i] == d);
            }
        }
    }
}

/// The automata that routing releases are exactly the recipients that
/// reported themselves eligible on a delivery, in the order of delivery.
pub proof fn law_released_are_eligible<K, M>(seen: Set<K>, pending: Map<K, Seq<M>>, msgs: Seq<(K, M)>, eligible: Seq<bool>)
    ensures
        route(seen, pending, msgs, eligible).2 == eligible_keys(route_deliveries(seen, pending, msgs, eligible)),
    decreases msgs.len(),
{
    if msgs.len() > 0 {
        law_released_are_eligible(seen, pending, msgs.drop_last(), eligible.drop_last());
        let prev = route_deliveries(seen, pending, msgs.drop_last(), eligible.drop_last());
        let e = (msgs.last().0, msgs.last().1, eligible.last());
        assert(prev.push(e).drop_last() =~= prev);
    }
}

/// While routing, an automaton that was waiting receives the messages
/// addressed to it in the order they were sent, up to the one it is released
/// on, and all of them if it is still waiting afterwards; a key that was not
/// waiting receives nothing.
pub proof fn law_delivered_in_order<K, M>(seen: Set<K>, pending: Map<K, Seq<M>>, msgs: Seq<(K, M)>, eligible: Seq<bool>, d: K)
    requires
        seen.disjoint(pending.dom()),
    ensures
        ({
            let (s, p, r) = route(seen, pending, msgs, eligible);
            let got = messages_to(route_deliveries(seen, pending, msgs, eligible), d);
            let sent = addressed_to(msgs, d);
            &&& !seen.contains(d) ==> got.len() == 0
            &&& got.len() <= sent.len()
            &&& got == sent.take(got.len() as int)
            &&& s.contains(d) ==> got == sent
        }),
    decreases msgs.len(),
{
    if msgs.len() > 0 {
        let pre = msgs.drop_last();
        let el = eligible.drop_last();
        law_delivered_in_order(seen, pending, pre, el, d);
        law_route_conserves(seen, pending, pre, el);
        law_route_conserves(seen, pending, msgs, eligible);
        let (s0, p0, r0) = route(seen, pending, pre, el);
        let (s, p, r) = route(seen, pending, msgs, eligible);
        let prev = route_deliveries(seen, pending, pre, el);
        let log = route_deliveries(seen, pending, msgs, eligible);
        let x = msgs.last().0;
        let m = msgs.last().1;
        let e = (x, m, eligible.last());
        let got0 = messages_to(prev, d);
        let sent0 = addressed_to(pre, d);
        assert(prev.push(e).drop_last() =~= prev);
        if d == x {
            assert(addressed_to(msgs, d) == sent0.push(m));
            if s0.contains(x) {
                assert(log == prev.push(e));
                assert(messages_to(log, d) == got0.push(m));
                assert(seen.contains(d)) by {
                    assert((s0 + r0.to_set()).contains(d));
                }
                assert(got0 == sent0);
                assert(got0.push(m) =~= sent0.push(m).take((got0.len() + 1) as int));
            } else {
                assert(log == prev);
                assert(got0 =~= sent0.push(m).take(got0.len() as int));
                assert(!s.contains(d));
            }
        } else {
            assert(addressed_to(msgs, d) == sent0);
            if s0.contains(x) {
                assert(log == prev.push(e));
                assert(messages_to(log, d) == got0);
            } else {
                assert(log == prev);
            }
            assert(s.contains(d) ==> s0.contains(d));
        }
    }
}

/// What a step does to the automata. `before` are the waiting automata
/// before it, `a` the new automaton with key `k`, `deliveries` the
/// deliveries made while routing, `own` those to the new automaton,
/// `released_keys` the keys released while routing, `released` the
/// automata returned as released, and `after` the waiting automata after it.
/// Each automaton released while routing is the one that waited under its
/// key, grown by the messages delivered to it, and ready; the new automaton,
/// grown by its own deliveries, comes last among the released ones and is
/// ready when `done`, and otherwise waits under `k`, not ready if it
/// received anything; every other waiting automaton has grown by the
/// messages delivered to it, and is not ready if it received one.
pub open spec fn automata_after<A: Automaton>(
    before: Map<A::Key, A>,
    a: A,
    k: A::Key,
    deliveries: Seq<(A::Key, A::Message, bool)>,
    own: Seq<(A::Key, A::Message, bool)>,
    done: bool,
    released_keys: Seq<A::Key>,
    released: Seq<A>,
    after: Map<A::Key, A>,
) -> bool {
    &&& released.len() == released_keys.len() + if done { 1int } else { 0int }
    &&& forall|i: int| 0 <= i < released_keys.len() ==>
        grown(before[#[trigger] released_keys[i]], released[i], messages_to(deliveries, released_keys[i]))
            && released[i].ready()
    &&& done ==> grown(a, released.last(), messages_to(own, k)) && released.last().ready()
    &&& forall|d: A::Key| #[trigger] after.dom().contains(d) && d != k ==>
        grown(before[d], after[d], messages_to(deliveries, d))
            && (messages_to(deliveries, d).len() > 0 ==> !after[d].ready())
    &&& !done ==> grown(a, after[k], messages_to(own, k)) && (own.len() > 0 ==> !after[k].ready())
}

/// The automata of one group that are waiting for messages, and the messages
/// that are waiting for automata that have not been seen yet.
pub struct Coordinator<A: Automaton> {
    seen: HashMap<A::Key, A>,
    undelivered: HashMap<A::Key, Vec<A::Message>>,
    log: Ghost<Seq<(A::Key, A::Message, bool)>>,
}

impl<A: Automaton> Coordinator<A> where A::Key: Hash + Eq + RemoteValue, A::Message: Clone {
    /// The keys of the automata that are waiting.
    pub open spec fn waiting(&self) -> Set<A::Key> {
        self.automata().dom()
    }

    /// The messages waiting for each recipient that has not been seen yet.
    pub closed spec fn pending(&self) -> Map<A::Key, Seq<A::Message>> {
        self.undelivered@.map_values(|v: Vec<A::Message>| v@)
    }

    /// Every message handed to an automaton's `receive`, in order, with the
    /// key of the automaton and whether it reported itself eligible on it.
    pub closed spec fn deliveries(&self) -> Seq<(A::Key, A::Message, bool)> {
        self.log@
    }

    /// The waiting automata, each under its key.
    pub closed spec fn automata(&self) -> Map<A::Key, A> {
        self.seen@
    }

    /// No key both waits and has messages queued for it, and every waiting
    /// automaton is stored under its own key.
    pub closed spec fn wf(&self) -> bool {
        &&& self.seen@.dom().disjoint(self.undelivered@.dom())
        &&& forall|d: A::Key| #[trigger] self.seen@.dom().contains(d) ==> self.seen@[d].key_spec() == d
    }

    pub fn new() -> (c: Self)
        ensures
            c.wf(),
            c.waiting() == Set::<A::Key>::empty(),
            c.pending() == Map::<A::Key, Seq<A::Message>>::empty(),
            c.deliveries() == Seq::<(A::Key, A::Message, bool)>::empty(),
    {
        let c = Coordinator { seen: HashMap::new(), undelivered: HashMap::new(), log: Ghost(Seq::empty()) };
        assert(c.pending() =~= Map::<A::Key, Seq<A::Message>>::empty());
        c
    }

    /// The number of automata that are waiting.
    pub fn num_waiting(&self) -> (n: usize)
        requires
            obeys_key_model::<A::Key>(),
        ensures
            n == self.waiting().len(),
    {
        self.seen.len()
    }

    /// Take in one automaton. Each of its messages is cloned into the first
    /// returned list when its recipient is remote, and is then handed to the
    /// waiting automaton it is addressed to, or queued for that recipient if
    /// it has not been seen yet; a waiting automaton that turns eligible on
    /// receiving is released. Then the messages queued under the new
    /// automaton's key are handed to it, up to the first one that makes it
    /// eligible; it is released if one did, and waits otherwise. The second
    /// returned list holds the released automata, in the order of release.
    pub fn step(&mut self, a: A, local_range: (i64, i64)) -> (out: (Vec<A::Message>, Vec<A>))
        requires
            old(self).wf(),
            obeys_key_model::<A::Key>(),
        ensures
            final(self).wf(),
            exists|msgs: Vec<(A::Key, A::Message)>, k: A::Key, eligible: Seq<bool>, done: bool, own: Seq<(A::Key, A::Message, bool)>|
                #![trigger messages_of(a, msgs), key_of(a, k), routed_step(old(self).waiting(), old(self).pending(), msgs@, k, eligible, done, own, final(self).waiting(), final(self).pending(), out.1@.len(), old(self).deliveries(), final(self).deliveries())]
                {
                    &&& messages_of(a, msgs)
                    &&& key_of(a, k)
                    &&& routed_step(
                        old(self).waiting(),
                        old(self).pending(),
                        msgs@,
                        k,
                        eligible,
                        done,
                        own,
                        final(self).waiting(),
                        final(self).pending(),
                        out.1@.len(),
                        old(self).deliveries(),
                        final(self).deliveries(),
                    )
                    &&& automata_after(
                        old(self).automata(),
                        a,
                        k,
                        route_deliveries(old(self).waiting(), old(self).pending(), msgs@, eligible),
                        own,
                        done,
                        route(old(self).waiting(), old(self).pending(), msgs@, eligible).2,
                        out.1@,
                        final(self).automata(),
                    )
                    &&& out.0@.len() == remote_messages(msgs@, local_range).len()
                    &&& forall|i: int| 0 <= i < out.0@.len() ==>
                        cloned(remote_messages(msgs@, local_range)[i], #[trigger] out.0@[i])
                },
    {
        let ghost a0 = a;
        let mut a = a;
        let msgs = a.messages();
        let k = a.key();
        let ghost msgs0 = msgs;
        let ghost all = msgs@;
        let ghost seen0 = self.waiting();
        let ghost pend0 = self.pending();
        let ghost log0 = self.deliveries();
        let ghost base = self.automata();
        let mut remote: Vec<A::Message> = Vec::new();
        let mut released: Vec<A> = Vec::new();
        let ghost mut el: Seq<bool> = Seq::empty();
        for pair in it: msgs
            invariant
                it.seq() == all,
                obeys_key_model::<A::Key>(),
                self.wf(),
                el.len() == it.index(),
                ({
                    let (s, p, r) = route(seen0, pend0, all.take(it.index() as int), el);
                    &&& self.waiting() == s
                    &&& self.pending() == p
                    &&& released@.len() == r.len()
                }),
                self.deliveries() == log0 + route_deliveries(seen0, pend0, all.take(it.index() as int), el),
                base.dom() == seen0,
                seen0.disjoint(pend0.dom()),
                forall|d: A::Key| #[trigger] self.seen@.dom().contains(d) ==> {
                    let got = messages_to(route_deliveries(seen0, pend0, all.take(it.index() as int), el), d);
                    &&& grown(base[d], self.seen@[d], got)
                    &&& got.len() > 0 ==> !self.seen@[d].ready()
                },
                forall|i: int| 0 <= i < released@.len() ==> {
                    let rk = route(seen0, pend0, all.take(it.index() as int), el).2;
                    &&& grown(base[rk[i]], #[trigger] released@[i],
                        messages_to(route_deliveries(seen0, pend0, all.take(it.index() as int), el), rk[i]))
                    &&& released@[i].ready()
                },
                remote@.len() == remote_messages(all.take(it.index() as int), local_range).len(),
                forall|i: int| 0 <= i < remote@.len() ==>
                    cloned(remote_messages(all.take(it.index() as int), local_range)[i], #[trigger] remote@[i]),
        {
            let ghost idx = it.index() as int;
            let ghost pre = all.take(idx);
            let ghost post = all.take(idx + 1);
            let ghost el0 = el;
            proof {
                assert(post.drop_last() =~= pre);
                assert(post.last() == all[idx]);
                assert(pair == all[idx]);
            }
            let (dest, data) = pair;
            let ghost seen_before = self.waiting();
            let ghost pend_before = self.pending();
            let ghost log_before = self.deliveries();
            let ghost map_before = self.seen@;
            let ghost rel_before = released@;
            proof {
                law_route_conserves(seen0, pend0, pre, el0);
            }
            if dest.is_remote(local_range) {
                let copy = data.clone();
                remote.push(copy);
                proof {
                    assert(remote_messages(post, local_range) == remote_messages(pre, local_range).push(data));
                }
            } else {
                proof {
                    assert(remote_messages(post, local_range) == remote_messages(pre, local_range));
                }
            }
            if self.seen.contains_key(&dest) {
                let mut peer = self.seen.remove(&dest).unwrap();
                let ghost peer0 = peer;
                let status = peer.receive(data);
                proof {
                    let d0 = route_deliveries(seen0, pend0, pre, el0);
                    assert(map_before[dest] == peer0);
                    assert(grown(base[dest], peer, messages_to(d0, dest).push(data))) by {
                        assert(base[dest].inbox() + messages_to(d0, dest).push(data)
                            =~= (base[dest].inbox() + messages_to(d0, dest)).push(data));
                    }
                }
                proof {
                    self.log@ = log_before.push((dest, data, status is Eligible));
                }
                if status.is_eligible() {
                    released.push(peer);
                    proof {
                        el = el.push(true);
                        assert(self.pending() =~= pend_before);
                    }
                } else {
                    self.seen.insert(dest, peer);
                    proof {
                        el = el.push(false);
                        assert(self.waiting() =~= seen_before);
                        assert(self.pending() =~= pend_before);
                    }
                }
            } else {
                let queued = self.undelivered.remove(&dest);
                match queued {
                    Some(mut v) => {
                        v.push(data);
                        self.undelivered.insert(dest, v);
                    },
                    None => {
                        let mut v: Vec<A::Message> = Vec::new();
                        v.push(data);
                        self.undelivered.insert(dest, v);
                    },
                }
                proof {
                    el = el.push(false);
                    assert(self.waiting() =~= seen_before);
                    if pend_before.contains_key(dest) {
                        assert(self.pending() =~= pend_before.insert(dest, pend_before[dest].push(data)));
                    } else {
                        assert(self.pending() =~= pend_before.insert(dest, seq![data]));
                    }
                }
            }
            proof {
                assert(el.drop_last() =~= el0);
                let (s, p, r) = route(seen0, pend0, post, el);
                assert(self.waiting() == s);
                assert(self.pending() == p);
                assert(released@.len() == r.len());
                let (s0, p0, r0) = route(seen0, pend0, pre, el0);
                assert(seen_before == s0);
                let d0 = route_deliveries(seen0, pend0, pre, el0);
                if s0.contains(dest) {
                    assert(self.deliveries() =~= log0 + d0.push((dest, data, el.last())));
                } else {
                    assert(self.deliveries() =~= log0 + d0);
                }
                assert(self.deliveries() =~= log0 + route_deliveries(seen0, pend0, post, el));
                let d1 = route_deliveries(seen0, pend0, post, el);
                assert forall|d: A::Key| d != dest || !s0.contains(dest) implies
                    #[trigger] messages_to(d1, d) == messages_to(d0, d) by {
                    if s0.contains(dest) {
                        assert(d1 == d0.push((dest, data, el.last())));
                        assert(d0.push((dest, data, el.last())).drop_last() =~= d0);
                    } else {
                        assert(d1 == d0);
                    }
                }
                if s0.contains(dest) {
                    assert(d1 == d0.push((dest, data, el.last())));
                    assert(d0.push((dest, data, el.last())).drop_last() =~= d0);
                    assert(messages_to(d1, dest) == messages_to(d0, dest).push(data));
                }
                assert forall|d: A::Key| #[trigger] self.seen@.dom().contains(d) implies {
                    let got = messages_to(d1, d);
                    &&& grown(base[d], self.seen@[d], got)
                    &&& got.len() > 0 ==> !self.seen@[d].ready()
                } by {
                    if d != dest || !s0.contains(dest) {
                        assert(map_before.dom().contains(d));
                    }
                }
                assert forall|i: int| 0 <= i < released@.len() implies {
                    &&& grown(base[r[i]], #[trigger] released@[i], messages_to(d1, r[i]))
                    &&& released@[i].ready()
                } by {
                    if i < r0.len() {
                        assert(r[i] == r0[i]);
                        assert(released@[i] == rel_before[i]);
                        assert(r0.to_set().contains(r0[i]));
                        assert(!s0.contains(r0[i]));
                    } else {
                        assert(r == r0.push(dest));
                    }
                }
            }
        }
        proof {
            assert(all.take(all.len() as int) =~= all);
        }
        let ghost (s1, p1, r1) = route(seen0, pend0, all, el);
        let mut eligible = false;
        let ghost log1 = self.deliveries();
        let ghost q = if p1.contains_key(k) { p1[k] } else { Seq::<A::Message>::empty() };
        let ghost mut own: Seq<(A::Key, A::Message, bool)> = Seq::empty();
        let ghost rel_mid = released@;
        proof {
            assert(a == a0);
            assert(messages_to(own, k) =~= Seq::<A::Message>::empty());
            assert(a.inbox() + messages_to(own, k) =~= a.inbox());
        }
        let queued = self.undelivered.remove(&k);
        match queued {
            Some(messages) => {
                let ghost seen_mid = self.seen@;
                let ghost und_mid = self.undelivered@;
                proof {
                    assert(messages@ == q);
                }
                for m in it: messages
                    invariant
                        it.seq() == q,
                        own.len() <= it.index(),
                        forall|i: int| 0 <= i < own.len() ==> (#[trigger] own[i]).0 == k && own[i].1 == q[i],
                        forall|i: int| 0 <= i < own.len() - 1 ==> !(#[trigger] own[i]).2,
                        eligible == (own.len() > 0 && own.last().2),
                        !eligible ==> own.len() == it.index(),
                        self.deliveries() == log1 + own,
                        self.seen@ == seen_mid,
                        self.undelivered@ == und_mid,
                        released@ == rel_mid,
                        grown(a0, a, messages_to(own, k)),
                        eligible ==> a.ready(),
                        own.len() > 0 && !eligible ==> !a.ready(),
                {
                    if !eligible {
                        let ghost idx = it.index() as int;
                        let ghost own0 = own;
                        let ghost a_before = a;
                        let status = a.receive(m);
                        proof {
                            own = own.push((k, m, status is Eligible));
                            assert(own.drop_last() =~= own0);
                            assert(messages_to(own, k) == messages_to(own0, k).push(m));
                            assert(a0.inbox() + messages_to(own0, k).push(m) =~= (a0.inbox() + messages_to(own0, k)).push(m));
                            self.log@ = log1 + own;
                            assert(m == q[idx]);
                            assert forall|i: int| 0 <= i < own.len() - 1 implies !(#[trigger] own[i]).2 by {
                                assert(own[i] == own0[i]);
                            }
                        }
                        if status.is_eligible() {
                            eligible = true;
                        }
                    }
                }
            },
            None => {},
        }
        proof {
            assert(self.pending() =~= p1.remove(k));
        }
        if eligible {
            released.push(a);
            proof {
                assert(self.waiting() =~= s1);
            }
        } else {
            self.seen.insert(k, a);
            proof {
                assert(self.waiting() =~= s1.insert(k));
            }
        }
        proof {
            law_route_conserves(seen0, pend0, all, el);
            assert(own_deliveries(k, q, own, eligible));
            assert(self.deliveries() =~= log0 + route_deliveries(seen0, pend0, all, el) + own);
            assert(routed_step(seen0, pend0, all, k, el, eligible, own, self.waiting(), self.pending(), released@.len(), log0, self.deliveries()));
            assert(automata_after(base, a0, k, route_deliveries(seen0, pend0, all, el), own, eligible, r1, released@, self.automata()));
            assert(messages_of(a0, msgs0));
            assert(key_of(a0, k));
            assert(msgs0@ == all);
        }
        let out = (remote, released);
        assert(out.0@.len() == remote_messages(msgs0@, local_range).len());
        assert(routed_step(seen0, pend0, msgs0@, k, el, eligible, own, self.waiting(), self.pending(), out.1@.len(), log0, self.deliveries()));
        out
    }
}

} // verus!
