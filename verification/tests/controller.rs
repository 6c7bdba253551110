use std::time::{Duration, Instant};

use sgl_interrupt::clock::{nanos_since, MAX_NANOS};
use sgl_interrupt::{AbortReason, InterruptController};

fn ctl() -> InterruptController {
    InterruptController::new(Duration::from_secs(60))
}

/// Waits until the clock has moved on by `time`.
fn wait(time: Duration) {
    let start = Instant::now();
    while start.elapsed() < time {}
}

#[test]
fn exact_and_prefix_match() {
    let mut c = ctl();
    let e = c.admit_request();
    assert!(!c.should_interrupt("req-1", e));
    c.abort("req-1", AbortReason::ClientDisconnect);
    assert!(c.should_interrupt("req-1", e));
    assert!(c.should_interrupt("req-1_0", e)); // n>1 child
    assert!(c.should_interrupt("req-1_7", e));
    assert!(!c.should_interrupt("req-10", e) == false); // "req-10" starts with "req-1"
    assert!(!c.should_interrupt("req-2", e));
    assert!(!c.should_interrupt("req", e)); // shorter than key
}

#[test]
fn abort_is_idempotent() {
    let mut c = ctl();
    let a = c.abort("x", AbortReason::Explicit);
    let b = c.abort("x", AbortReason::Timeout);
    assert_eq!(a, b);
    assert_eq!(c.len(), 1);
    assert_eq!(c.stats().total_aborts, 1);
    // The first reason stays.
    assert_eq!(c.check("x", 0).unwrap().reason, AbortReason::Explicit);
}

#[test]
fn abort_all_respects_admission_epoch() {
    let mut c = ctl();
    let old = c.admit_request();
    c.abort_all(AbortReason::Shutdown);
    let new = c.admit_request();
    assert!(c.should_interrupt("any", old));
    assert!(!c.should_interrupt("any", new));
    let info = c.check("any", old).unwrap();
    assert_eq!(info.reason, AbortReason::Shutdown);
    assert!(info.key.is_empty());
}

#[test]
fn filter_batch() {
    let mut c = ctl();
    let e = c.admit_request();
    c.abort("a", AbortReason::ClientDisconnect);
    let got = c.filter_aborted(&[("a_0", e), ("b", e), ("a_1", e), ("c", e)]);
    assert_eq!(got, vec!["a_0".to_string(), "a_1".to_string()]);
    assert_eq!(c.stats().total_hits, 2);
}

#[test]
fn ack_removes_exact_only() {
    let mut c = ctl();
    c.abort("p", AbortReason::Explicit);
    assert!(!c.ack("p_0")); // child key not registered
    assert!(c.ack("p"));
    assert!(!c.ack("p"));
    assert!(c.is_empty());
    assert!(!c.should_interrupt("p_0", 0));
}

#[test]
fn gc_expires_entries() {
    let mut c = InterruptController::new(Duration::ZERO);
    c.abort("stale", AbortReason::Explicit);
    wait(Duration::from_millis(2));
    assert_eq!(c.gc(), 1);
    assert!(c.is_empty());
    assert_eq!(c.stats().total_expired, 1);
}

#[test]
fn unicode_boundaries_are_safe() {
    let mut c = ctl();
    c.abort("ré", AbortReason::Explicit); // 3 bytes
    assert!(c.should_interrupt("ré-child", 0));
    assert!(!c.should_interrupt("r€", 0)); // shares 1st byte only
}

#[test]
fn empty_prefix_is_abort_all() {
    let mut c = ctl();
    let e = c.admit_request();
    c.abort("", AbortReason::Shutdown);
    assert!(c.should_interrupt("whatever", e));
    let later = c.admit_request();
    assert!(!c.should_interrupt("later", later));
    assert_eq!(c.len(), 0);
    assert_eq!(c.stats().total_aborts, 1);
}

#[test]
fn long_ttl_keeps_entries() {
    let mut c = InterruptController::new(Duration::from_secs(3600));
    c.abort("kept", AbortReason::Timeout);
    wait(Duration::from_millis(2));
    assert_eq!(c.gc(), 0);
    assert_eq!(c.len(), 1);
    assert!(c.should_interrupt("kept_0", 0));
}

#[test]
fn ttl_is_compared_in_nanoseconds() {
    let mut c = InterruptController::new(Duration::from_millis(40));
    c.abort("young", AbortReason::Timeout);
    assert_eq!(c.gc(), 0);
    wait(Duration::from_millis(50));
    assert_eq!(c.gc(), 1);
    let mut d = InterruptController::with_ttl_nanos(0);
    assert_eq!(d.gc(), 0);
    d.abort("gone", AbortReason::Timeout);
    wait(Duration::from_millis(2));
    assert_eq!(d.gc(), 1);
}

#[test]
fn epochs_are_handed_out_in_order() {
    let mut c = ctl();
    assert_eq!(c.admit_request(), 1);
    assert_eq!(c.abort("a", AbortReason::Explicit), 2);
    assert_eq!(c.abort_all(AbortReason::Shutdown), 3);
    assert_eq!(c.admit_request(), 4);
    assert_eq!(c.abort("a", AbortReason::Explicit), 2);
    let stats = c.stats();
    assert_eq!(stats.epoch, 4);
    assert_eq!(stats.abort_all_epoch, 3);
}

#[test]
fn shortest_key_answers() {
    let mut c = ctl();
    c.abort("req-12", AbortReason::Timeout);
    c.abort("req-1", AbortReason::Explicit);
    c.abort("req-123", AbortReason::Shutdown);
    let info = c.check("req-1234", 0).unwrap();
    assert_eq!(info.key, "req-1");
    assert_eq!(info.reason, AbortReason::Explicit);
    assert_eq!(info.epoch, 2);
    assert!(c.ack("req-1"));
    assert_eq!(c.check("req-1234", 0).unwrap().key, "req-12");
    assert!(c.ack("req-12"));
    assert_eq!(c.check("req-1234", 0).unwrap().key, "req-123");
    assert!(c.ack("req-123"));
    assert!(c.check("req-1234", 0).is_none());
}

#[test]
fn peeking_counts_nothing() {
    let mut c = ctl();
    c.abort("a", AbortReason::Explicit);
    assert!(c.would_interrupt("a_0", 0));
    assert!(!c.would_interrupt("b", 0));
    assert!(c.would_interrupt_any(&[("b", 0), ("a", 0)]));
    assert!(!c.would_interrupt_any(&[("b", 0), ("c", 0)]));
    assert!(!c.would_interrupt_any(&[]));
    assert_eq!(c.stats().total_hits, 0);
}

#[test]
fn an_abort_before_its_request_is_not_lost() {
    let mut c = ctl();
    c.abort("early", AbortReason::ClientDisconnect);
    for i in 0..1000 {
        c.abort(&format!("other-{i}"), AbortReason::Explicit);
        c.ack(&format!("other-{i}"));
    }
    c.abort_all(AbortReason::Shutdown);
    let e = c.admit_request();
    let info = c.check("early", e).unwrap();
    assert_eq!(info.key, "early");
    assert_eq!(info.reason, AbortReason::ClientDisconnect);
    assert_eq!(info.epoch, 1);
}

#[test]
fn every_abort_is_accounted_for() {
    let mut c = InterruptController::new(Duration::ZERO);
    c.abort("a", AbortReason::Explicit);
    c.abort("b", AbortReason::Explicit);
    c.abort_all(AbortReason::Shutdown);
    c.ack("a");
    wait(Duration::from_millis(2));
    c.gc();
    c.abort("c", AbortReason::Explicit);
    let s = c.stats();
    assert_eq!(s.total_aborts, 4);
    assert_eq!(s.live_entries, 1);
    assert_eq!(s.total_acked, 1);
    assert_eq!(s.total_expired, 1);
    assert_eq!(s.total_aborts, s.live_entries + s.total_acked + s.total_expired + 1);
}

#[test]
fn batch_uses_both_rules() {
    let mut c = ctl();
    let old = c.admit_request();
    c.abort_all(AbortReason::Shutdown);
    let new = c.admit_request();
    c.abort("x", AbortReason::Explicit);
    let got = c.filter_aborted(&[("y", new), ("x_1", new), ("y", old), ("x", old), ("y", old)]);
    assert_eq!(got, vec!["x_1", "y", "x", "y"]);
    assert_eq!(c.stats().total_hits, 4);
    assert_eq!(c.filter_aborted(&[]), Vec::<String>::new());
}

#[test]
fn a_fresh_controller_interrupts_nothing() {
    let mut c = ctl();
    assert!(c.check("", 0).is_none());
    assert!(c.check("any", 0).is_none());
    assert!(c.filter_aborted(&[("any", 0)]).is_empty());
    assert!(c.is_empty());
}

#[test]
fn the_time_can_be_given() {
    let mut c = InterruptController::with_ttl_nanos(10);
    assert_eq!(c.abort_at("a", AbortReason::Timeout, MAX_NANOS), 1);
    assert_eq!(c.abort_at("a", AbortReason::Explicit, 0), 1);
    assert_eq!(c.gc_at(MAX_NANOS + 10), 0);
    assert_eq!(c.gc_at(MAX_NANOS + 11), 1);
    assert_eq!(c.abort_at("", AbortReason::Shutdown, 0), 2);
    assert!(c.is_empty());
}

#[test]
fn the_longest_duration_never_ends() {
    assert_eq!(Duration::MAX.as_nanos(), MAX_NANOS);
    let mut c = InterruptController::new(Duration::MAX);
    c.abort("a", AbortReason::Explicit);
    assert_eq!(c.gc_at(MAX_NANOS), 0);
    assert_eq!(c.gc(), 0);
    assert!(c.should_interrupt("a_0", 0));
}

#[test]
fn the_clock_is_read_for_a_sweep() {
    let mut c = InterruptController::new(Duration::from_millis(200));
    c.abort("a", AbortReason::Explicit);
    assert_eq!(c.gc(), 0);
    wait(Duration::from_millis(400));
    c.abort("b", AbortReason::Explicit);
    assert_eq!(c.gc_at(0), 1); // the reading at the second abort counts
    assert!(c.should_interrupt("b", 0));
}

#[test]
fn the_clock_moves_on() {
    let origin = Instant::now();
    let first = nanos_since(&origin);
    wait(Duration::from_millis(2));
    assert!(nanos_since(&origin) >= first + 2_000_000);
}
