use std::sync::Arc;
use std::time::{Duration, Instant};

use sgl_interrupt::{AbortReason, InterruptController, SharedInterruptController};

fn shared() -> SharedInterruptController {
    SharedInterruptController::new(Duration::from_secs(60))
}

fn needs_send_and_sync<T: Send + Sync>(_: &T) {}

#[test]
fn handles_share_one_registry() {
    let c = Arc::new(shared());
    needs_send_and_sync(&c);
    let other = Arc::clone(&c);
    let e = c.admit_request();
    assert_eq!(e, 1);
    assert!(!c.should_interrupt("req-1", e));
    assert_eq!(other.abort("req-1", AbortReason::ClientDisconnect), 2);
    assert!(c.should_interrupt("req-1_0", e));
    let info = c.check("req-1_7", e).unwrap();
    assert_eq!(info.key, "req-1");
    assert_eq!(info.reason, AbortReason::ClientDisconnect);
    assert_eq!(info.epoch, 2);
    assert_eq!(other.stats().total_hits, 2);
    assert!(other.ack("req-1"));
    assert!(!c.ack("req-1"));
    assert!(c.check("req-1", e).is_none());
    assert!(c.is_empty());
}

#[test]
fn shared_abort_all_respects_admission_epoch() {
    let c = shared();
    let old = c.admit_request();
    assert_eq!(c.abort_all(AbortReason::Shutdown), 2);
    let new = c.admit_request();
    assert_eq!(c.filter_aborted(&[("a", old), ("b", new), ("c", old)]), vec!["a", "c"]);
    assert_eq!(c.filter_aborted(&[("b", new)]), Vec::<String>::new());
    let info = c.check("any", old).unwrap();
    assert!(info.key.is_empty());
    assert_eq!(info.reason, AbortReason::Shutdown);
    assert_eq!(c.stats().total_hits, 3);
    assert_eq!(c.stats().abort_all_epoch, 2);
}

#[test]
fn a_controller_is_shared_as_it_is() {
    let mut c = InterruptController::new(Duration::ZERO);
    c.abort("stale", AbortReason::Explicit);
    let c = SharedInterruptController::share(c);
    assert_eq!(c.len(), 1);
    let start = Instant::now();
    while start.elapsed() < Duration::from_millis(2) {}
    assert_eq!(c.gc(), 1);
    assert_eq!(c.gc(), 0);
    assert_eq!(c.stats().total_expired, 1);
    assert_eq!(c.stats().repr(), "InterruptController(live=0, aborts=1, hits=0, epoch=1)");
}

#[test]
fn a_shared_abort_is_dated_by_the_clock() {
    let c = SharedInterruptController::new(Duration::from_millis(200));
    c.abort("a", AbortReason::Explicit);
    assert_eq!(c.gc(), 0);
    let start = Instant::now();
    while start.elapsed() < Duration::from_millis(400) {}
    c.abort("b", AbortReason::Explicit);
    assert_eq!(c.gc(), 1);
    assert!(!c.should_interrupt("a", 0));
    assert!(c.should_interrupt("b", 0));
    assert_eq!(c.stats().total_hits, 1);
}
