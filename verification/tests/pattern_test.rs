use similar_files::pattern::glob_matches;

fn chars(s: &str) -> Vec<char> {
    s.chars().collect()
}

fn m(pattern: &str, text: &str) -> bool {
    glob_matches(&chars(pattern), &chars(text))
}

#[test]
fn literal_patterns_match_only_themselves() {
    assert!(m("root/a.jpg", "root/a.jpg"));
    assert!(!m("root/a.jpg", "root/b.jpg"));
    assert!(!m("root/a.jpg", "root/a.jpg2"));
    assert!(!m("root/a.jpgx", "root/a.jpg"));
}

#[test]
fn star_matches_any_run_including_empty() {
    assert!(m("*", ""));
    assert!(m("*", "anything/at/all"));
    assert!(m("*.tmp", "a.tmp"));
    assert!(m("*.tmp", ".tmp"));
    assert!(!m("*.tmp", "a.tmp2"));
    assert!(m("root/*/cache/*", "root/x/cache/y.bin"));
    assert!(!m("root/*/cache/*", "root/x/store/y.bin"));
    assert!(m("a*b*c", "aXXbYYc"));
    assert!(!m("a*b*c", "aXXcYYb"));
}

#[test]
fn empty_pattern_matches_only_the_empty_text() {
    assert!(m("", ""));
    assert!(!m("", "x"));
}
