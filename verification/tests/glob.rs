use axum_governor::glob::{matches_segments, path_matches};

#[test]
fn exact_match() {
    assert!(path_matches("/health", "/health"));
}

#[test]
fn no_extra_segments() {
    assert!(!path_matches("/health", "/health/foo"));
}

#[test]
fn no_prefix_match() {
    assert!(!path_matches("/health", "/healthx"));
}

#[test]
fn single_star_one_segment() {
    assert!(path_matches("/internal/*", "/internal/admin"));
}

#[test]
fn single_star_no_multi_segment() {
    assert!(!path_matches("/internal/*", "/internal/admin/users"));
}

#[test]
fn double_star_one_segment() {
    assert!(path_matches("/internal/**", "/internal/admin"));
}

#[test]
fn double_star_multi_segment() {
    assert!(path_matches("/internal/**", "/internal/admin/users"));
}

#[test]
fn double_star_empty_tail() {
    assert!(path_matches("/internal/**", "/internal"));
}

#[test]
fn double_star_middle() {
    assert!(path_matches("/api/**/admin", "/api/v1/admin"));
}

#[test]
fn double_star_middle_empty() {
    assert!(path_matches("/api/**/admin", "/api/admin"));
}

#[test]
fn leading_double_star() {
    assert!(path_matches("**", "/anything/at/all"));
}

#[test]
fn single_star_needs_a_segment() {
    assert!(!path_matches("/internal/*", "/internal"));
    assert!(path_matches("/internal/*", "/internal/"));
    assert!(!path_matches("/api/**/admin", "/api/v1/users"));
    assert!(path_matches("**/x/**/y", "/x/a/x/b/y"));
}

#[test]
fn segments_of_nothing() {
    assert!(matches_segments(&[], &[]));
    assert!(!matches_segments(&[], &["a".to_owned()]));
    assert!(matches_segments(&["**".to_owned()], &[]));
}

#[test]
fn joined_patterns_match_split_paths() {
    let cut = |s: &str| -> Vec<String> { s.split('/').map(str::to_owned).collect() };
    let whole = cut("a/*/**/d");
    for path in ["a/b/d", "a/b/c/d", "a/d", "a/b/c", "d/d/d/d"] {
        let path = cut(path);
        for at in 0..=whole.len() {
            let split = (0..=path.len()).any(|k| {
                matches_segments(&whole[..at], &path[..k])
                    && matches_segments(&whole[at..], &path[k..])
            });
            assert_eq!(matches_segments(&whole, &path), split);
        }
    }
    assert!(matches_segments(&whole, &cut("a/b/c/d")));
    assert!(!matches_segments(&whole, &cut("a/d")));
}
