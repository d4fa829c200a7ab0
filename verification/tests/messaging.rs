use gridiron::host::delivery::{acknowledges, next_attempt, outcome, settles, Attempt, Outcome, RETRY_LIMIT};
use gridiron::host::msg::{Response, Status};
use gridiron::message::backoff::{retry_step, Delay, ExponentialBackoff, RetryAction};
use gridiron::message::comm::{broadcast_targets, reduce_plan};
use gridiron::message::orderer::{Arrival, Envelope, OrderState};
use gridiron::message::util::{ceil_log2, usize_from_le_bytes, usize_to_le_bytes};

#[test]
fn ceil_log2_rounds_up_to_a_power_of_two() {
    assert_eq!(ceil_log2(0), 0);
    assert_eq!(ceil_log2(1), 0);
    assert_eq!(ceil_log2(2), 1);
    assert_eq!(ceil_log2(3), 2);
    assert_eq!(ceil_log2(8), 3);
    assert_eq!(ceil_log2(9), 4);
    assert_eq!(ceil_log2(1 << 40), 40);
}

#[test]
fn broadcast_from_the_root_reaches_every_level() {
    assert_eq!(broadcast_targets(0, 8), vec![4, 2, 1]);
    assert_eq!(broadcast_targets(4, 8), vec![6, 5]);
    assert_eq!(broadcast_targets(6, 8), vec![7]);
    assert_eq!(broadcast_targets(7, 8), Vec::<usize>::new());
    assert_eq!(broadcast_targets(0, 1), Vec::<usize>::new());
}

#[test]
fn broadcast_stays_inside_the_group() {
    assert_eq!(broadcast_targets(0, 3), vec![2, 1]);
    assert_eq!(broadcast_targets(1, 3), Vec::<usize>::new());
    assert_eq!(broadcast_targets(2, 3), Vec::<usize>::new());
    for p in 1..20usize {
        let mut received = vec![0usize; p];
        for r in 0..p {
            for q in broadcast_targets(r, p) {
                assert!(r < q && q < p);
                received[q] += 1;
            }
        }
        assert_eq!(received[0], 0);
        assert!(received[1..].iter().all(|&n| n == 1));
    }
}

#[test]
fn reduce_plans_send_once_to_the_lowest_bit_below() {
    assert_eq!(reduce_plan(0, 8), (3, None));
    assert_eq!(reduce_plan(5, 8), (0, Some(4)));
    assert_eq!(reduce_plan(4, 8), (2, Some(0)));
    assert_eq!(reduce_plan(6, 8), (1, Some(4)));
    assert_eq!(reduce_plan(3, 8), (0, Some(2)));
    assert_eq!(reduce_plan(1, 3), (0, Some(0)));
    assert_eq!(reduce_plan(2, 3), (0, Some(0)));
    assert_eq!(reduce_plan(0, 3), (2, None));
    assert_eq!(reduce_plan(0, 1), (0, None));
    for p in 1..40usize {
        let mut sent_to = vec![0usize; p];
        let mut receives = vec![0usize; p];
        for r in 0..p {
            let (n, to) = reduce_plan(r, p);
            receives[r] = n;
            match to {
                Some(q) => {
                    assert!(r > 0 && q < r);
                    sent_to[q] += 1;
                }
                None => assert_eq!(r, 0),
            }
        }
        assert_eq!(sent_to, receives);
    }
}

#[test]
fn orderer_delivers_drops_and_buffers_by_iteration() {
    let mut state = OrderState::new(5);
    assert_eq!(state.current_iteration(), 5);
    assert!(matches!(state.receive(Envelope { iteration: 4, data: vec![1] }), Arrival::Dropped));
    match state.receive(Envelope { iteration: 5, data: vec![2] }) {
        Arrival::Delivered(data) => assert_eq!(data, vec![2]),
        _ => panic!("expected delivery"),
    }
    assert!(matches!(state.receive(Envelope { iteration: 6, data: vec![3] }), Arrival::Buffered));
    assert!(matches!(state.receive(Envelope { iteration: 6, data: vec![4] }), Arrival::Buffered));
    assert!(matches!(state.receive(Envelope { iteration: 7, data: vec![5] }), Arrival::Buffered));
    assert_eq!(state.increment(), vec![vec![4], vec![3]]);
    assert_eq!(state.current_iteration(), 6);
    assert_eq!(state.increment(), vec![vec![5]]);
    assert_eq!(state.increment(), Vec::<Vec<u8>>::new());
    assert_eq!(state.current_iteration(), 8);
}

#[test]
fn orderer_wraps_its_iteration_counter() {
    let mut state = OrderState::new(usize::MAX);
    assert!(state.increment().is_empty());
    assert_eq!(state.current_iteration(), 0);
}

#[test]
fn delays_multiply_and_carry_into_seconds() {
    let d = Delay::new(1, 1_500_000_000);
    assert_eq!(d.as_secs(), 2);
    assert_eq!(d.subsec_nanos(), 500_000_000);
    let t = Delay::from_millis(750).times(3);
    assert_eq!(t.as_secs(), 2);
    assert_eq!(t.subsec_nanos(), 250_000_000);
    assert!(t.longer_than(&Delay::from_millis(2249)));
    assert!(!t.longer_than(&Delay::from_millis(2250)));
}

#[test]
fn exponential_backoff_grows_then_stays_at_the_maximum() {
    let mut backoff = ExponentialBackoff::new(Delay::from_millis(250), Delay::from_millis(5000), 2);
    let mut seen = Vec::new();
    for _ in 0..7 {
        let d = backoff.next().unwrap();
        seen.push(d.as_secs() * 1000 + (d.subsec_nanos() / 1_000_000) as u64);
    }
    assert_eq!(seen, vec![500, 1000, 2000, 4000, 5000, 5000, 5000]);
}

#[test]
fn sender_attempts_are_limited() {
    assert_eq!(next_attempt(0), (1, Attempt::Send));
    assert_eq!(next_attempt(1), (2, Attempt::WaitThenSend));
    assert_eq!(next_attempt(RETRY_LIMIT - 1), (RETRY_LIMIT, Attempt::WaitThenSend));
    assert_eq!(next_attempt(RETRY_LIMIT), (RETRY_LIMIT + 1, Attempt::GiveUp));
}

#[test]
fn only_a_matching_good_status_acknowledges() {
    assert!(acknowledges(Status::Good(7), 7));
    assert!(!acknowledges(Status::Good(6), 7));
    assert!(!acknowledges(Status::Bad, 7));
    let response = Response::new(Status::Good(3));
    assert_eq!(response.status(), Status::Good(3));
}

#[test]
fn usize_bytes_are_little_endian() {
    let bytes = usize_to_le_bytes(258);
    assert_eq!(bytes.len(), std::mem::size_of::<usize>());
    assert_eq!(bytes[0], 2);
    assert_eq!(bytes[1], 1);
    assert!(bytes[2..].iter().all(|&b| b == 0));
    for &n in &[0usize, 1, 255, 256, 0x1234_5678, usize::MAX] {
        assert_eq!(usize_to_le_bytes(n), n.to_le_bytes().to_vec());
        assert_eq!(usize_from_le_bytes(&n.to_le_bytes()), n);
        assert_eq!(usize_from_le_bytes(&usize_to_le_bytes(n)), n);
    }
}

#[test]
fn retry_sleeps_after_every_attempt_but_the_last() {
    assert_eq!(retry_step(true, true), RetryAction::Return);
    assert_eq!(retry_step(false, true), RetryAction::Return);
    assert_eq!(retry_step(true, false), RetryAction::SleepThenRetry);
    assert_eq!(retry_step(false, false), RetryAction::ReturnLastError);
}

#[test]
fn answers_settle_a_request_and_timeouts_retry_it() {
    assert_eq!(outcome(Some(Status::Good(4)), 4), Outcome::Acknowledged);
    assert_eq!(outcome(Some(Status::Good(3)), 4), Outcome::WrongAck(3));
    assert_eq!(outcome(Some(Status::Bad), 4), Outcome::Refused);
    assert_eq!(outcome(None, 4), Outcome::TimedOut);
    assert!(settles(Outcome::Acknowledged));
    assert!(settles(Outcome::WrongAck(3)));
    assert!(settles(Outcome::Refused));
    assert!(!settles(Outcome::TimedOut));
}
