use sgl_interrupt::clock::MAX_NANOS;
use sgl_interrupt::inner::Inner;
use sgl_interrupt::registry::Registry;
use sgl_interrupt::state::{Entry, GC_EVERY_OPS};
use sgl_interrupt::AbortReason;

#[test]
fn an_entry_lives_as_long_as_the_ttl() {
    let mut r = Registry::new(10);
    r.abort("a", AbortReason::Explicit, 100);
    assert_eq!(r.gc(110), 0); // exactly as old as the time to live
    assert_eq!(r.gc(111), 1);
    assert_eq!(r.gc(111), 0);
    assert!(r.is_empty());
}

#[test]
fn a_clock_that_reads_earlier_expires_nothing() {
    let mut r = Registry::new(0);
    r.abort("a", AbortReason::Explicit, 100);
    assert_eq!(r.gc(50), 0);
    assert_eq!(r.gc(100), 0);
    assert_eq!(r.gc(101), 1);
}

#[test]
fn the_clock_never_goes_back() {
    let mut r = Registry::new(50);
    r.abort("a", AbortReason::Explicit, 100);
    r.abort("b", AbortReason::Explicit, 200); // now the first is too old
    r.abort("c", AbortReason::Explicit, 10); // counts as a reading of 200
    assert_eq!(r.len(), 3);
    assert_eq!(r.gc(0), 1);
    assert!(!r.would_interrupt("a", 0));
    assert_eq!(r.gc(250), 0);
    assert_eq!(r.gc(251), 2);
}

#[test]
fn the_longest_ttl_keeps_everything() {
    let mut r = Registry::new(MAX_NANOS);
    r.abort("a", AbortReason::Explicit, 0);
    for _ in 0..GC_EVERY_OPS {
        r.abort("b", AbortReason::Explicit, MAX_NANOS);
    }
    assert_eq!(r.gc(MAX_NANOS), 0);
    assert_eq!(r.len(), 2);
    assert_eq!(r.stats().total_expired, 0);
}

#[test]
fn sweeps_keep_pace_with_single_aborts() {
    // Every abort with an id counts, repeats too; nothing else does.
    let mut r = Registry::new(1);
    for n in 1..=3 * GC_EVERY_OPS {
        let time = 10 * n as u128;
        r.admit_request();
        r.abort("", AbortReason::Shutdown, time);
        r.gc(0);
        r.check("b", u64::MAX);
        let before = r.stats();
        r.abort(if n % 2 == 0 { "a" } else { "b" }, AbortReason::Explicit, time);
        if n % GC_EVERY_OPS == 0 {
            assert_eq!(r.len(), 1);
            assert_eq!(r.stats().total_expired, before.total_expired + before.live_entries);
        } else {
            assert!(r.len() as u64 >= before.live_entries);
            assert_eq!(r.stats().total_expired, before.total_expired);
        }
    }
}

#[test]
fn the_epoch_counts_admissions_and_aborts() {
    let mut r = Registry::new(10);
    r.admit_request();
    r.abort("a", AbortReason::Explicit, 0);
    r.abort("a", AbortReason::Explicit, 0); // registered already
    r.admit_request();
    r.abort_all(AbortReason::Shutdown);
    r.abort("", AbortReason::Shutdown, 0);
    r.ack("a");
    r.gc(100);
    r.check("a", 0);
    assert_eq!(r.stats().epoch, 2 + r.stats().total_aborts);
    assert_eq!(r.stats().total_aborts, 3);
    assert_eq!(r.admit_request(), 6);
}

#[test]
fn only_old_entries_go() {
    let mut r = Registry::new(10);
    for i in 0..20u128 {
        r.abort(&format!("k{i}"), AbortReason::Timeout, i);
    }
    assert_eq!(r.gc(20), 10);
    for i in 0..20u128 {
        assert_eq!(r.would_interrupt(&format!("k{i}x"), 0), i >= 10);
    }
    assert_eq!(r.len(), 10);
    assert_eq!(r.stats().total_expired, 10);
}

#[test]
fn registrations_bring_a_sweep_every_so_often() {
    let mut r = Registry::new(10);
    r.abort("stale", AbortReason::Explicit, 0);
    for _ in 1..GC_EVERY_OPS - 1 {
        r.abort("stale", AbortReason::Explicit, 1000);
    }
    assert_eq!(r.len(), 1);
    assert_eq!(r.stats().total_aborts, 1);
    // The sweep comes before the lookup, so the id is registered anew.
    let epoch = r.abort("stale", AbortReason::Timeout, 1000);
    assert_eq!(epoch, 2);
    assert_eq!(r.len(), 1);
    assert_eq!(r.stats().total_expired, 1);
    assert_eq!(r.check("stale", 0).unwrap().reason, AbortReason::Timeout);
}

#[test]
fn the_latest_abort_of_all_gives_the_reason() {
    let mut r = Registry::new(10);
    r.abort_all(AbortReason::Timeout);
    r.abort_all(AbortReason::Explicit);
    let info = r.check("any", 1).unwrap();
    assert_eq!(info.reason, AbortReason::Explicit);
    assert_eq!(info.epoch, 2);
    assert!(r.check("any", 2).is_none());
}

#[test]
fn checking_twice_answers_the_same() {
    let mut r = Registry::new(10);
    r.abort("a", AbortReason::Explicit, 0);
    let first = r.check("a_1", 5);
    let second = r.check("a_1", 5);
    assert_eq!(first, second);
    assert_eq!(r.stats().total_hits, 2);
}

fn entry(epoch: u64) -> Entry {
    Entry { reason: AbortReason::Explicit, epoch, created: 0, hits: 0 }
}

#[test]
fn table_finds_what_it_holds() {
    let mut t = Inner::new();
    for (i, key) in ["b", "a", "ccc", "añ"].iter().enumerate() {
        t.insert(key, entry(i as u64));
    }
    assert_eq!(t.len(), 4);
    assert_eq!(t.get("añ").map(|e| e.epoch), Some(3));
    assert!(t.get("añx").is_none());
    assert!(t.covers("cccd"));
    assert!(!t.covers("cc"));
    assert_eq!(t.hit_info("añx").map(|i| i.key), Some("a".to_string()));
    assert_eq!(t.get("a").map(|e| e.hits), Some(1));
    assert!(t.hit("ab"));
    assert_eq!(t.get("a").map(|e| e.hits), Some(2));
    assert!(!t.hit("d"));
    assert!(t.remove("b"));
    assert!(!t.remove("b"));
    assert_eq!(t.get("ccc").map(|e| e.epoch), Some(2));
    assert_eq!(t.hit_info("añx").map(|i| i.key), Some("a".to_string()));
    assert!(t.remove("a"));
    assert_eq!(t.hit_info("añx").map(|i| i.key), Some("añ".to_string()));
}

#[test]
fn removing_an_unlisted_length_changes_nothing() {
    let mut t = Inner::new();
    t.insert("abc", entry(1));
    t.remove_len(7);
    assert!(t.covers("abcd"));
    assert_eq!(t.len(), 1);
    // Without its length in the histogram a key is not probed for.
    t.remove_len(3);
    assert!(!t.covers("abcd"));
}

#[test]
fn a_repeated_abort_changes_nothing() {
    let mut r = Registry::new(10);
    r.abort("req", AbortReason::Timeout, 0);
    r.abort("req-1", AbortReason::Explicit, 0);
    let before = r.stats();
    assert_eq!(r.abort("req", AbortReason::Shutdown, 5), 1);
    assert_eq!(r.stats(), before);
    let info = r.check("req-1_0", 0).unwrap();
    assert_eq!((info.key.as_str(), info.reason, info.epoch), ("req", AbortReason::Timeout, 1));
}

#[test]
fn an_abort_keeps_other_answers() {
    let mut r = Registry::new(10);
    r.abort("a", AbortReason::Timeout, 0);
    let before = r.check("ab", 0);
    r.abort("abc", AbortReason::Explicit, 0);
    r.abort("b", AbortReason::Explicit, 0);
    assert_eq!(r.check("ab", 0), before);
    assert!(r.check("c", 0).is_none());
}

#[test]
fn an_idle_registry_finds_nothing_in_a_batch() {
    let mut r = Registry::new(10);
    assert!(!r.would_interrupt_any(&[("a", 0), ("", 0)]));
    r.abort("a", AbortReason::Timeout, 0);
    assert!(r.would_interrupt_any(&[("b", 0), ("ab", 9)]));
    r.ack("a");
    assert!(!r.would_interrupt_any(&[("b", 0), ("ab", 9)]));
    r.abort_all(AbortReason::Shutdown);
    assert!(r.would_interrupt_any(&[("b", 9), ("ab", 0)]));
    assert!(!r.would_interrupt_any(&[("b", 9)]));
}
