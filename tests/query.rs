use w2v_server::query::{clamp_count, resolve_count, DEFAULT_COUNT, MAX_COUNT};

#[test]
fn missing_count_gives_the_default() {
    assert_eq!(resolve_count(None), 128);
    assert_eq!(clamp_count(None), DEFAULT_COUNT);
}

#[test]
fn large_count_is_clamped() {
    assert_eq!(resolve_count(Some("1000")), 512);
    assert_eq!(clamp_count(Some(513)), MAX_COUNT);
    assert_eq!(clamp_count(Some(usize::MAX)), 512);
}

#[test]
fn count_is_at_least_one() {
    assert_eq!(resolve_count(Some("0")), 1);
    assert_eq!(clamp_count(Some(0)), 1);
}

#[test]
fn numeric_count_is_read() {
    assert_eq!(resolve_count(Some("42")), 42);
    assert_eq!(resolve_count(Some("+7")), 7);
    assert_eq!(resolve_count(Some("512")), 512);
}

#[test]
fn non_numeric_count_gives_the_default() {
    assert_eq!(resolve_count(Some("abc")), 128);
    assert_eq!(resolve_count(Some("")), 128);
    assert_eq!(resolve_count(Some("-3")), 128);
    assert_eq!(resolve_count(Some(" 4")), 128);
    assert_eq!(resolve_count(Some("99999999999999999999999")), 128);
}
