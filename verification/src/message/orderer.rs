//! Ordering of incoming messages by iteration: a message for the current
//! iteration is handed on at once, one for a past iteration is dropped, and
//! one for a future iteration is kept until the local workers reach that
//! iteration.
use vstd::prelude::*;
use std::collections::HashMap;

verus! {

broadcast use vstd::std_specs::hash::group_hash_axioms;

/// A message tagged with the iteration it belongs to.
pub struct Envelope {
    pub iteration: usize,
    pub data: Vec<u8>,
}

/// What becomes of an arriving message.
pub enum Arrival {
    /// It belongs to an iteration that has already passed.
    Dropped,
    /// It belongs to the current iteration, and is handed on.
    Delivered(Vec<u8>),
    /// It belongs to a future iteration, and is kept until then.
    Buffered,
}

/// The state of an orderer: the current iteration, and for each future
/// iteration the messages that arrived for it, in order of arrival.
pub struct OrderState {
    cur_iteration: usize,
    buffer: HashMap<usize, Vec<Vec<u8>>>,
}

/// The state after a message for `iteration` arrives, and what becomes of
/// the message.
pub open spec fn arrive(
    current: usize,
    buffered: Map<usize, Seq<Vec<u8>>>,
    iteration: usize,
    data: Vec<u8>,
) -> (Map<usize, Seq<Vec<u8>>>, Arrival) {
    if iteration < current {
        (buffered, Arrival::Dropped)
    } else if iteration == current {
        (buffered, Arrival::Delivered(data))
    } else {
        let before = if buffered.contains_key(iteration) { buffered[iteration] } else { Seq::empty() };
        (buffered.insert(iteration, before.push(data)), Arrival::Buffered)
    }
}

/// The iteration after `current`, wrapping around at the largest `usize`.
pub open spec fn next_iteration(current: usize) -> usize {
    if current == usize::MAX {
        0
    } else {
        (current + 1) as usize
    }
}

/// The buffer after moving to the next iteration, and the messages handed on:
/// those kept for the new iteration, latest arrival first. The entry of the
/// new iteration stays, empty.
pub open spec fn advance(current: usize, buffered: Map<usize, Seq<Vec<u8>>>) -> (
    Map<usize, Seq<Vec<u8>>>,
    Seq<Vec<u8>>,
) {
    let next = next_iteration(current);
    if buffered.contains_key(next) {
        (buffered.insert(next, Seq::empty()), buffered[next].reverse())
    } else {
        (buffered, Seq::empty())
    }
}

impl OrderState {
    pub closed spec fn current(&self) -> usize {
        self.cur_iteration
    }

    /// The messages kept for each iteration, in order of arrival.
    pub closed spec fn buffered(&self) -> Map<usize, Seq<Vec<u8>>> {
        self.buffer@.map_values(|v: Vec<Vec<u8>>| v@)
    }

    pub fn new(initial_iteration: usize) -> (s: Self)
        ensures
            s.current() == initial_iteration,
            s.buffered() == Map::<usize, Seq<Vec<u8>>>::empty(),
    {
        let s = OrderState { cur_iteration: initial_iteration, buffer: HashMap::new() };
        assert(s.buffered() =~= Map::<usize, Seq<Vec<u8>>>::empty());
        s
    }

    pub fn current_iteration(&self) -> (i: usize)
        ensures
            i == self.current(),
    {
        self.cur_iteration
    }

    /// Decide what becomes of an arriving envelope (see [`arrive`]).
    pub fn receive(&mut self, env: Envelope) -> (a: Arrival)
        ensures
            final(self).current() == old(self).current(),
            (final(self).buffered(), a) == arrive(old(self).current(), old(self).buffered(), env.iteration, env.data),
    {
        let Envelope { iteration, data } = env;
        if iteration < self.cur_iteration {
            Arrival::Dropped
        } else if iteration == self.cur_iteration {
            Arrival::Delivered(data)
        } else {
            let ghost b0 = self.buffered();
            let queued = self.buffer.remove(&iteration);
            match queued {
                Some(mut v) => {
                    v.push(data);
                    self.buffer.insert(iteration, v);
                },
                None => {
                    let mut v: Vec<Vec<u8>> = Vec::new();
                    v.push(data);
                    self.buffer.insert(iteration, v);
                },
            }
            proof {
                let before = if b0.contains_key(iteration) { b0[iteration] } else { Seq::empty() };
                assert(self.buffered() =~= b0.insert(iteration, before.push(data)));
            }
            Arrival::Buffered
        }
    }

    /// Move to the next iteration and hand back the messages kept for it
    /// (see [`advance`]).
    pub fn increment(&mut self) -> (flushed: Vec<Vec<u8>>)
        ensures
            final(self).current() == next_iteration(old(self).current()),
            (final(self).buffered(), flushed@) == advance(old(self).current(), old(self).buffered()),
    {
        let ghost b0 = self.buffered();
        self.cur_iteration = self.cur_iteration.wrapping_add(1);
        proof {
            assert(self.cur_iteration == next_iteration(old(self).current()));
        }
        let i = self.cur_iteration;
        let mut flushed: Vec<Vec<u8>> = Vec::new();
        let queued = self.buffer.remove(&i);
        match queued {
            Some(mut msgs) => {
                let ghost all = msgs@;
                while msgs.len() > 0
                    invariant
                        all.len() == msgs@.len() + flushed@.len(),
                        msgs@ == all.take(msgs@.len() as int),
                        flushed@ == all.reverse().take(flushed@.len() as int),
                    decreases msgs.len(),
                {
                    let ghost k = flushed@.len() as int;
                    let msg = msgs.pop().unwrap();
                    flushed.push(msg);
                    proof {
                        assert(msgs@ =~= all.take(msgs@.len() as int));
                        assert(flushed@ =~= all.reverse().take(k + 1));
                    }
                }
                assert(msgs@ =~= Seq::<Vec<u8>>::empty());
                let ghost rest = self.buffer@;
                self.buffer.insert(i, msgs);
                proof {
                    assert(rest =~= old(self).buffer@.remove(i));
                    assert(flushed@ =~= all.reverse());
                    assert(self.buffered() =~= b0.insert(i, Seq::empty()));
                }
            },
            None => {
                proof {
                    assert(self.buffered() =~= b0);
                }
            },
        }
        flushed
    }
}

/// A message for the current iteration is handed on, one for a past
/// iteration is dropped, and one for a future iteration is kept; nothing is
/// handed on out of its iteration.
pub proof fn law_arrival_respects_iteration(
    current: usize,
    buffered: Map<usize, Seq<Vec<u8>>>,
    iteration: usize,
    data: Vec<u8>,
)
    ensures
        ({
            let (b, a) = arrive(current, buffered, iteration, data);
            &&& (a is Delivered) == (iteration == current)
            &&& (a is Dropped) == (iteration < current)
            &&& a is Buffered ==> b[iteration].last() == data && b.remove(iteration) == buffered.remove(
                iteration,
            )
            &&& !(a is Buffered) ==> b == buffered
        }),
{
    let (b, a) = arrive(current, buffered, iteration, data);
    if a is Buffered {
        assert(b.remove(iteration) =~= buffered.remove(iteration));
    }
}

/// A message kept for the iteration after the current one is handed on by
/// the next move to that iteration, and moving on loses no message kept for
/// any other iteration.
pub proof fn law_kept_messages_are_flushed(
    current: usize,
    buffered: Map<usize, Seq<Vec<u8>>>,
    data: Vec<u8>,
)
    requires
        current < usize::MAX,
    ensures
        ({
            let (b1, _) = arrive(current, buffered, (current + 1) as usize, data);
            let (b2, out) = advance(current, b1);
            &&& out.contains(data)
            &&& out.len() == b1[(current + 1) as usize].len()
            &&& b2.remove((current + 1) as usize) == b1.remove((current + 1) as usize)
        }),
{
    let next = (current + 1) as usize;
    let (b1, _) = arrive(current, buffered, next, data);
    let q = b1[next];
    assert(q.last() == data);
    let (b2, out) = advance(current, b1);
    assert(out == q.reverse());
    assert(out[0] == data);
    assert(b2.remove(next) =~= b1.remove(next));
}

} // verus!
