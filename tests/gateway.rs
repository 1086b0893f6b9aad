use spacetraders_gateway::backoff::BackoffPolicy;
use spacetraders_gateway::gateway::{Middleware, BURST_LIMIT, RATE_LIMIT};
use spacetraders_gateway::retry::{next_step, Outcome, RetryState, Step};

const MS: u64 = 1_000_000;
const SECOND: u64 = 1_000_000_000;

fn release_all(g: &mut Middleware, now: &mut u64) {
    while g.begin_release(*now).is_some() {
        *now += 500 * MS;
        assert!(g.finish_release(*now));
    }
}

#[test]
fn documented_limits_are_ten_in_flight_and_two_per_second() {
    let g = Middleware::default();
    assert_eq!(g.capacity(), 10);
    assert_eq!(BURST_LIMIT, 10);
    assert_eq!(RATE_LIMIT, 2);
    assert_eq!(g.release_interval_nanos(), 500 * MS);
    assert_eq!(g.free(), 10);
    assert_eq!(g.outstanding(), 0);
}

#[test]
fn zero_rate_is_rejected() {
    assert!(Middleware::new(0, 10, 0).is_none());
    assert_eq!(Middleware::new(0, 4, 3).unwrap().release_interval_nanos(), 333_333_334);
    assert_eq!(Middleware::new(0, 4, 5000).unwrap().release_interval_nanos(), 200_000);
    assert_eq!(Middleware::new(0, 4, 7).unwrap().release_interval_nanos(), 142_857_143);
    assert_eq!(Middleware::new(0, 4, u64::MAX).unwrap().release_interval_nanos(), 1);
}

#[test]
fn never_more_than_capacity_permits_outstanding() {
    let mut g = Middleware::new(0, 3, 2).unwrap();
    let mut now = 0u64;
    let tickets: Vec<u64> = (0..20).map(|_| g.enqueue().unwrap()).collect();
    let mut held = Vec::new();
    let mut next = 0usize;
    for round in 0..200u64 {
        now += 100 * MS;
        while next < tickets.len() {
            match g.try_acquire(tickets[next], now) {
                Some(p) => {
                    held.push(p);
                    next += 1;
                }
                None => break,
            }
            assert!(g.outstanding() <= 3);
        }
        if round % 2 == 0 {
            if let Some(p) = held.pop() {
                g.schedule_release(p, now);
            }
        }
        g.begin_release(now);
        g.finish_release(now);
        assert!(g.outstanding() <= 3);
        assert_eq!(g.free() + g.in_flight() + g.pending(), 3);
    }
    assert_eq!(next, tickets.len());
}

#[test]
fn admissions_are_first_come_first_served() {
    let mut g = Middleware::new(0, 1, 2).unwrap();
    let a = g.enqueue().unwrap();
    let b = g.enqueue().unwrap();
    assert!(g.try_acquire(b, 0).is_none());
    let p = g.try_acquire(a, 0).unwrap();
    assert!(g.try_acquire(b, 0).is_none());
    g.schedule_release(p, 10);
    assert!(g.try_acquire(b, 10).is_none());
    assert_eq!(g.begin_release(10), Some(10 + 500 * MS));
    assert!(!g.finish_release(10 + 499 * MS));
    assert!(g.finish_release(10 + 500 * MS));
    assert!(g.try_acquire(b, 10 + 500 * MS).is_some());
    assert_eq!(g.waiting(), 0);
}

#[test]
fn a_cancelled_waiter_leaves_the_queue() {
    let mut g = Middleware::new(0, 1, 2).unwrap();
    let a = g.enqueue().unwrap();
    let b = g.enqueue().unwrap();
    let c = g.enqueue().unwrap();
    g.cancel(b);
    assert_eq!(g.waiting(), 2);
    g.cancel(b);
    assert_eq!(g.waiting(), 2);
    g.cancel(a);
    assert!(g.try_acquire(c, 0).is_some());
    assert_eq!(g.waiting(), 0);
}

#[test]
fn releases_are_one_interval_apart() {
    let mut g = Middleware::new(0, 5, 2).unwrap();
    let mut permits = Vec::new();
    for _ in 0..5 {
        let t = g.enqueue().unwrap();
        permits.push(g.try_acquire(t, 0).unwrap());
    }
    for p in permits {
        g.schedule_release(p, 0);
    }
    assert_eq!(g.pending(), 5);
    let mut now = 0u64;
    let mut times = Vec::new();
    while let Some(deadline) = g.begin_release(now) {
        if g.finish_release(now) {
            times.push(now);
        } else {
            now = deadline;
        }
    }
    assert_eq!(times, vec![500 * MS, 1000 * MS, 1500 * MS, 2000 * MS, 2500 * MS]);
    assert_eq!(g.free(), 5);
}

#[test]
fn sustained_rate_stays_within_two_per_second() {
    let mut g = Middleware::default();
    let tickets: Vec<u64> = (0..200).map(|_| g.enqueue().unwrap()).collect();
    let mut admitted_at = Vec::new();
    let mut next = 0usize;
    let mut now = 0u64;
    while now <= 60 * SECOND {
        while next < tickets.len() {
            match g.try_acquire(tickets[next], now) {
                Some(p) => {
                    admitted_at.push(now);
                    next += 1;
                    g.schedule_release(p, now);
                }
                None => break,
            }
        }
        g.begin_release(now);
        g.finish_release(now);
        now += 10 * MS;
    }
    // any window of T seconds sees at most 10 + 2T + 1 admissions
    for (i, start) in admitted_at.iter().enumerate() {
        for (j, end) in admitted_at.iter().enumerate().skip(i) {
            let span = end - start;
            assert!((j - i + 1) as u64 <= 10 + span / (500 * MS) + 1);
        }
    }
    let last_minute = admitted_at.iter().filter(|t| **t >= 30 * SECOND).count();
    assert!(last_minute <= 61);
    assert!(last_minute >= 55);
}

#[test]
fn three_server_errors_then_success_use_one_permit() {
    let p = BackoffPolicy::default();
    let mut g = Middleware::default();
    let mut now = 0u64;
    let t = g.enqueue().unwrap();
    let permit = g.try_acquire(t, now).unwrap();
    let mut s = RetryState::new();
    let mut waits = Vec::new();
    for code in [500u16, 500, 500, 200] {
        match next_step(&p, &mut s, true, &Outcome::Status(code), None, 0) {
            Step::Retry { wait_nanos } => {
                waits.push(wait_nanos);
                now += wait_nanos;
                assert_eq!(g.in_flight(), 1);
                assert_eq!(g.pending(), 0);
            }
            Step::Return => break,
        }
    }
    assert_eq!(waits, vec![10 * SECOND, 15 * SECOND, 22 * SECOND + SECOND / 2]);
    g.schedule_release(permit, now);
    assert_eq!(g.in_flight(), 0);
    assert_eq!(g.pending(), 1);
    release_all(&mut g, &mut now);
    assert_eq!(g.free(), 10);
    assert_eq!(g.outstanding(), 0);
}

#[test]
fn non_duplicable_server_error_returns_and_still_releases_its_permit() {
    let p = BackoffPolicy::default();
    let mut g = Middleware::default();
    let mut now = 0u64;
    let t = g.enqueue().unwrap();
    let permit = g.try_acquire(t, now).unwrap();
    let mut s = RetryState::new();
    assert_eq!(next_step(&p, &mut s, false, &Outcome::Status(500), None, 0), Step::Return);
    g.schedule_release(permit, now);
    assert_eq!(g.pending(), 1);
    release_all(&mut g, &mut now);
    assert_eq!(g.free(), 10);
    assert_eq!(now, 500 * MS);
}

#[test]
fn two_identical_calls_leave_no_trace() {
    let p = BackoffPolicy::default();
    let mut g = Middleware::default();
    let mut now = 0u64;
    for _ in 0..2 {
        assert_eq!(g.free(), 10);
        assert_eq!(g.waiting(), 0);
        let t = g.enqueue().unwrap();
        let permit = g.try_acquire(t, now).unwrap();
        let mut s = RetryState::new();
        assert_eq!(next_step(&p, &mut s, true, &Outcome::Status(200), None, 0), Step::Return);
        assert_eq!(s.attempt, 0);
        g.schedule_release(permit, now);
        release_all(&mut g, &mut now);
        assert_eq!(g.free(), 10);
        assert_eq!(g.in_flight(), 0);
        assert_eq!(g.pending(), 0);
    }
}

#[test]
fn a_clock_running_backwards_is_ignored() {
    let mut g = Middleware::new(0, 1, 2).unwrap();
    let t = g.enqueue().unwrap();
    let p = g.try_acquire(t, 5 * SECOND).unwrap();
    g.schedule_release(p, SECOND);
    assert_eq!(g.begin_release(0), Some(5 * SECOND + 500 * MS));
    assert!(!g.finish_release(SECOND));
    assert!(g.finish_release(5 * SECOND + 500 * MS));
}

#[test]
fn permits_carry_their_gateway_id() {
    let mut g = Middleware::new(7, 2, 2).unwrap();
    assert_eq!(g.id(), 7);
    assert_eq!(Middleware::default().id(), 0);
    let t = g.enqueue().unwrap();
    let p = g.try_acquire(t, 0).unwrap();
    assert_eq!(p.gateway_id(), 7);
    g.schedule_release(p, 0);
    assert_eq!(g.pending(), 1);
}

#[test]
fn a_prompt_releaser_returns_queued_permits_one_interval_apart() {
    let mut g = Middleware::new(0, 4, 2).unwrap();
    let mut permits = Vec::new();
    for _ in 0..4 {
        let t = g.enqueue().unwrap();
        permits.push(g.try_acquire(t, 0).unwrap());
    }
    for p in permits {
        g.schedule_release(p, SECOND);
    }
    let mut now = SECOND;
    for j in 1..=4u64 {
        let deadline = g.begin_release(now).unwrap();
        assert_eq!(deadline, SECOND + j * 500 * MS);
        now = deadline;
        assert!(g.finish_release(now));
        assert_eq!(g.free(), j);
    }
    assert_eq!(now, 3 * SECOND);
    assert_eq!(g.pending(), 0);
}
