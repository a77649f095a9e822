use redistill::glob::matches_pattern;

fn matched(key: &str, pattern: &str) -> bool {
    matches_pattern(key.as_bytes(), pattern.as_bytes())
}

#[test]
fn star_matches_everything() {
    assert!(matched("", "*"));
    assert!(matched("session:42", "*"));
    assert!(matched("session:42", "**"));
}

#[test]
fn literal_patterns_match_exactly() {
    assert!(matched("user", "user"));
    assert!(!matched("user", "User"));
    assert!(!matched("user", "use"));
    assert!(!matched("user", "users"));
    assert!(matched("", ""));
    assert!(!matched("a", ""));
    assert!(!matched("", "a"));
}

#[test]
fn question_mark_matches_one_byte() {
    assert!(matched("cat", "c?t"));
    assert!(!matched("ct", "c?t"));
    assert!(!matched("cart", "c?t"));
    assert!(!matched("", "?"));
}

#[test]
fn stars_match_any_run_of_bytes() {
    assert!(matched("session:a1b2", "session:*"));
    assert!(matched("session:", "session:*"));
    assert!(!matched("session", "session:*"));
    assert!(matched("api:users:1", "*users*"));
    assert!(matched("aab", "*ab"));
    assert!(matched("abcabd", "*ab?"));
    assert!(!matched("abcabde", "*ab?"));
    assert!(matched("mississippi", "m*iss*p*i"));
    assert!(!matched("mississippi", "m*iss*x*i"));
}

#[test]
fn trailing_stars_may_match_nothing() {
    assert!(matched("key", "key***"));
    assert!(!matched("key", "key*?"));
}
