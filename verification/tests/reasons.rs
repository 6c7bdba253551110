use std::str::FromStr;

use sgl_interrupt::reason::unknown_reason_message;
use sgl_interrupt::text::{len_in_bytes, prefix_at, same_text};
use sgl_interrupt::{AbortReason, Stats};

const ALL: [AbortReason; 4] = [
    AbortReason::ClientDisconnect,
    AbortReason::Timeout,
    AbortReason::Explicit,
    AbortReason::Shutdown,
];

#[test]
fn reasons_have_names() {
    assert_eq!(AbortReason::ClientDisconnect.as_str(), "client_disconnect");
    assert_eq!(AbortReason::Timeout.as_str(), "timeout");
    assert_eq!(AbortReason::Explicit.as_str(), "explicit");
    assert_eq!(AbortReason::Shutdown.as_str(), "shutdown");
    for r in ALL {
        assert_eq!(AbortReason::from_str(r.as_str()), Ok(r));
    }
}

#[test]
fn reasons_have_short_names() {
    assert_eq!("disconnect".parse::<AbortReason>(), Ok(AbortReason::ClientDisconnect));
    assert_eq!("abort".parse::<AbortReason>(), Ok(AbortReason::Explicit));
}

#[test]
fn unknown_reasons_are_quoted() {
    assert_eq!(
        "bogus".parse::<AbortReason>(),
        Err("unknown abort reason: \"bogus\"".to_string())
    );
    assert_eq!(
        "a\"b\n".parse::<AbortReason>(),
        Err("unknown abort reason: \"a\\\"b\\n\"".to_string())
    );
    assert_eq!("".parse::<AbortReason>(), Err("unknown abort reason: \"\"".to_string()));
    assert_eq!("Timeout".parse::<AbortReason>().is_err(), true);
    assert_eq!(unknown_reason_message("q"), "unknown abort reason: q");
}

#[test]
fn reasons_have_codes() {
    for (i, r) in ALL.iter().enumerate() {
        assert_eq!(r.to_u8(), i as u8 + 1);
        assert_eq!(AbortReason::from_u8(r.to_u8()), Some(*r));
    }
    assert_eq!(AbortReason::from_u8(0), None);
    assert_eq!(AbortReason::from_u8(5), None);
    assert_eq!(AbortReason::from_u8(255), None);
}

#[test]
fn stats_have_a_summary() {
    assert_eq!(
        Stats::default().repr(),
        "InterruptController(live=0, aborts=0, hits=0, epoch=0)"
    );
    let s = Stats {
        live_entries: 7,
        total_aborts: 10,
        total_hits: 1234567890,
        total_acked: 1,
        total_expired: 2,
        epoch: u64::MAX,
        abort_all_epoch: 3,
    };
    assert_eq!(
        s.repr(),
        "InterruptController(live=7, aborts=10, hits=1234567890, epoch=18446744073709551615)"
    );
}

#[test]
fn texts_are_measured_in_bytes() {
    assert_eq!(len_in_bytes("ré"), 3);
    assert!(same_text("ré", "ré"));
    assert!(!same_text("ré", "re"));
    assert!(!same_text("a", "ab"));
    assert_eq!(prefix_at("réx", 1), Some("r"));
    assert_eq!(prefix_at("réx", 2), None);
    assert_eq!(prefix_at("réx", 3), Some("ré"));
    assert_eq!(prefix_at("réx", 4), Some("réx"));
    assert_eq!(prefix_at("réx", 5), None);
}
