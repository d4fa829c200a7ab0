//! When a sender tries again to push a request, and which answers
//! acknowledge it.
use vstd::prelude::*;
use crate::host::msg::Status;

verus! {

/// The number of attempts to push one request before it is dropped.
pub const RETRY_LIMIT: usize = 3;

/// The wait before each attempt after the first, in milliseconds.
pub const RETRY_DELAY_MS: u64 = 1000;

/// How long a sender waits for an answer, and a receiver for a request, in
/// milliseconds.
pub const POLL_TIMEOUT_MS: i64 = 10000;

/// How long a closed socket keeps unsent messages, in milliseconds.
pub const LINGER_PERIOD_MS: i32 = 10000;

/// What a sender does on its next attempt to push a request.
#[derive(Clone, Copy, Debug, PartialEq, Eq, Structural)]
pub enum Attempt {
    /// Push it now: this is the first attempt.
    Send,
    /// Wait [`RETRY_DELAY_MS`], then push it again.
    WaitThenSend,
    /// Give up and drop the request: every attempt has been used.
    GiveUp,
}

/// Count one more attempt, after `attempts` attempts so far, and decide
/// what it is.
pub fn next_attempt(attempts: usize) -> (r: (usize, Attempt))
    requires
        attempts < usize::MAX,
    ensures
        r.0 == attempts + 1,
        r.1 == if r.0 > RETRY_LIMIT {
            Attempt::GiveUp
        } else if r.0 > 1 {
            Attempt::WaitThenSend
        } else {
            Attempt::Send
        },
{
    let attempts = attempts + 1;
    if attempts > RETRY_LIMIT {
        (attempts, Attempt::GiveUp)
    } else if attempts > 1 {
        (attempts, Attempt::WaitThenSend)
    } else {
        (attempts, Attempt::Send)
    }
}

/// Whether an answer acknowledges the request with id `request`.
pub fn acknowledges(status: Status, request: usize) -> (b: bool)
    ensures
        b == (status == Status::Good(request)),
{
    match status {
        Status::Good(id) => id == request,
        Status::Bad => false,
    }
}

/// What one attempt to push a request came to.
#[derive(Clone, Copy, Debug, PartialEq, Eq, Structural)]
pub enum Outcome {
    /// The peer acknowledged this request.
    Acknowledged,
    /// The peer acknowledged another request, with this id.
    WrongAck(usize),
    /// The peer answered that the request went wrong.
    Refused,
    /// No answer came in time: the sender replaces its socket and pushes
    /// the request again.
    TimedOut,
}

/// The outcome of an attempt to push the request with id `request`, given
/// the answer that came in time, if one did.
pub fn outcome(answer: Option<Status>, request: usize) -> (o: Outcome)
    ensures
        answer is None ==> o == Outcome::TimedOut,
        answer == Some(Status::Good(request)) ==> o == Outcome::Acknowledged,
        forall|id: usize| answer == Some(Status::Good(id)) && id != request ==> o == Outcome::WrongAck(id),
        answer == Some(Status::Bad) ==> o == Outcome::Refused,
{
    match answer {
        None => Outcome::TimedOut,
        Some(status) => {
            if acknowledges(status, request) {
                Outcome::Acknowledged
            } else {
                match status {
                    Status::Good(id) => Outcome::WrongAck(id),
                    Status::Bad => Outcome::Refused,
                }
            }
        },
    }
}

/// Whether the sender is done with a request after this outcome: any answer
/// settles it, and only a timeout sends it again.
pub fn settles(o: Outcome) -> (b: bool)
    ensures
        b == !(o is TimedOut),
{
    match o {
        Outcome::TimedOut => false,
        _ => true,
    }
}

} // verus!
