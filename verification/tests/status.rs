use gemini_juggler::juggler::{Key, KeyJuggler, KeyStatus};
use gemini_juggler::mask::{is_maskable, mask};
use gemini_juggler::status::{report_at, summarize};

const NOW: i64 = 1_700_000_000_000;
const HOUR: i64 = 3_600_000;

fn key(secret: &str, ratelimited_at: Option<i64>, num_requests: u64) -> Key {
    Key { key: secret.to_string(), ratelimited_at, num_requests }
}

#[test]
fn mask_shows_six_and_four() {
    assert_eq!(mask("AIzaSyA1b2C3d4E5f6wxyz"), "AIzaSy...wxyz");
}

#[test]
fn mask_of_short_secret_overlaps() {
    assert_eq!(mask("abcdef"), "abcdef...cdef");
    assert_eq!(mask("abcdefgh"), "abcdef...efgh");
}

#[test]
fn mask_cuts_between_characters() {
    // Two bytes each: three letters in front, two at the end.
    assert_eq!(mask("äöüßéè"), "äöü...éè");
}

#[test]
fn maskable_needs_six_bytes_and_whole_characters() {
    assert!(is_maskable("abcdef"));
    assert!(!is_maskable("abcde"));
    assert!(!is_maskable(""));
    assert!(is_maskable("äöüßéè"));
    // Byte six falls inside the fourth letter.
    assert!(!is_maskable("aäöüßé"));
    // The front is whole, the cut four bytes from the end is not.
    assert!(!is_maskable("abcdefäbcd"));
    assert!(is_maskable("abcdefgäbc"));
}

#[test]
fn status_snapshot_reports_each_credential() {
    let mut pool = KeyJuggler::from_keys(vec![
        key("AIzaSy-first-0001", Some(NOW - 22 * HOUR), 0),
        key("AIzaSy-second-0002", None, 17),
    ]);
    let list = pool.get_status_at(NOW);
    assert_eq!(list.len(), 2);
    assert_eq!(list[0].index, 0);
    assert_eq!(list[0].key_masked, "AIzaSy...0001");
    assert_eq!(list[0].num_requests, 0);
    assert!(list[0].is_ratelimited);
    assert_eq!(list[0].seconds_remaining, Some(7_200));
    assert_eq!(list[1].index, 1);
    assert_eq!(list[1].key_masked, "AIzaSy...0002");
    assert_eq!(list[1].num_requests, 17);
    assert!(!list[1].is_ratelimited);
    assert_eq!(list[1].seconds_remaining, None);
}

#[test]
fn seconds_remaining_counts_whole_seconds() {
    let mut pool = KeyJuggler::from_keys(vec![
        key("alpha-0001", Some(NOW - 1), 0),
        key("bravo-0002", Some(NOW - 1_000), 0),
        key("charlie-03", Some(NOW - 86_400_000), 0),
        key("delta-0004", Some(NOW - 86_399_001), 0),
    ]);
    let list = pool.get_status_at(NOW);
    assert_eq!(list[0].seconds_remaining, Some(86_399));
    assert_eq!(list[1].seconds_remaining, Some(86_399));
    assert_eq!(list[2].seconds_remaining, Some(0));
    assert_eq!(list[3].seconds_remaining, Some(0));
}

#[test]
fn status_snapshot_leaves_usage_alone() {
    let mut pool = KeyJuggler::from_keys(vec![key("alpha-0001", None, 3)]);
    for _ in 0..3 {
        assert_eq!(pool.get_status_at(NOW)[0].num_requests, 3);
    }
    assert_eq!(pool.select_at(NOW).unwrap().num_requests, 4);
}

#[test]
fn short_secret_is_shown_as_dots_alone() {
    assert_eq!(mask("abc"), "......");
    assert_eq!(mask("abcde"), "......");
    assert_eq!(mask(""), "......");
    assert_eq!(mask("..."), "......");
}

#[test]
fn secret_that_cannot_be_cut_is_shown_as_dots_alone() {
    // Byte six falls inside the fourth letter.
    assert_eq!(mask("aäöüßé"), "......");
    // The cut four bytes from the end falls inside a letter.
    assert_eq!(mask("abcdefäbcd"), "......");
}

#[test]
fn masked_form_is_never_the_secret() {
    // The two ends with dots between them would spell out this secret.
    assert_eq!(mask("abcdef...ghij"), "......");
    // Six dots are a secret like any other.
    assert_eq!(mask("......"), ".............");
    for secret in ["", "a", "...", "......", ".............", "abcdef...ghij", "abcdef", "äöüßéè"] {
        assert_ne!(mask(secret), secret);
    }
}

#[test]
fn status_snapshot_takes_any_secret() {
    let mut pool = KeyJuggler::from_keys(vec![key("abc", None, 7)]);
    let list = pool.get_status_at(NOW);
    assert_eq!(list.len(), 1);
    assert_eq!(list[0].index, 0);
    assert_ne!(list[0].key_masked, "abc");
    assert_eq!(list[0].key_masked, "......");
    assert_eq!(list[0].num_requests, 7);
    assert!(!list[0].is_ratelimited);
    assert_eq!(list[0].seconds_remaining, None);
}

#[test]
fn status_snapshot_of_mixed_secrets_keeps_pool_order() {
    let mut pool = KeyJuggler::from_keys(vec![
        key("", Some(NOW - HOUR), 0),
        key("AIzaSy-first-0001", None, 3),
        key("aäöüßé", Some(NOW - 25 * HOUR), 2),
        key("xy", None, 1),
    ]);
    let list = pool.get_status_at(NOW);
    assert_eq!(list.len(), 4);
    for (place, entry) in list.iter().enumerate() {
        assert_eq!(entry.index, place);
    }
    assert_eq!(list[0].key_masked, "......");
    assert_eq!(list[1].key_masked, "AIzaSy...0001");
    assert_eq!(list[2].key_masked, "......");
    assert_eq!(list[3].key_masked, "......");
    assert_eq!(list[0].seconds_remaining, Some(23 * 3600));
    assert!(!list[2].is_ratelimited);
    assert_eq!(list[2].num_requests, 2);
    // The stale block is gone; nothing else has changed.
    let again = pool.get_status_at(NOW - 48 * HOUR);
    assert!(!again[2].is_ratelimited);
    assert_eq!(again[2].num_requests, 2);
    assert_eq!(again[1].num_requests, 3);
    assert_eq!(again[3].num_requests, 1);
}

#[test]
fn report_takes_any_secret() {
    let mut pool = KeyJuggler::from_keys(vec![
        key("abc", Some(NOW), 0),
        key("de", None, 4),
        key("AIzaSy-third-0003", Some(NOW - HOUR), 0),
    ]);
    let report = report_at(&mut pool, NOW);
    assert_eq!(report.keys.len(), 3);
    assert_eq!(report.total_keys, 3);
    assert_eq!(report.active_keys, 1);
    assert_eq!(report.ratelimited_keys, 2);
    assert_eq!(report.keys[1].num_requests, 4);
    assert_eq!(report.keys[0].key_masked, "......");
    assert_eq!(report.keys[2].key_masked, "AIzaSy...0003");
}

#[test]
fn report_counts_active_and_ratelimited() {
    let mut pool = KeyJuggler::from_keys(vec![
        key("alpha-0001", Some(NOW - HOUR), 0),
        key("bravo-0002", None, 2),
        key("charlie-03", Some(NOW - 25 * HOUR), 0),
        key("delta-0004", Some(NOW), 0),
    ]);
    let report = report_at(&mut pool, NOW);
    assert_eq!(report.total_keys, 4);
    assert_eq!(report.active_keys, 2);
    assert_eq!(report.ratelimited_keys, 2);
    assert_eq!(report.keys.len(), 4);
    assert!(!report.keys[2].is_ratelimited);
}

#[test]
fn report_of_empty_pool() {
    let mut pool = KeyJuggler::from_keys(Vec::new());
    let report = report_at(&mut pool, NOW);
    assert_eq!((report.total_keys, report.active_keys, report.ratelimited_keys), (0, 0, 0));
}

#[test]
fn summarize_counts_the_list_it_is_given() {
    let entry = |index: usize, is_ratelimited: bool| KeyStatus {
        index,
        key_masked: "abcdef...cdef".to_string(),
        num_requests: 0,
        is_ratelimited,
        seconds_remaining: if is_ratelimited { Some(1) } else { None },
    };
    let report = summarize(vec![entry(0, true), entry(1, true), entry(2, false)]);
    assert_eq!(report.total_keys, 3);
    assert_eq!(report.active_keys, 1);
    assert_eq!(report.ratelimited_keys, 2);
    assert_eq!(report.keys[2].index, 2);
}
