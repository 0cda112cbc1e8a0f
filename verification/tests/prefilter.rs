use router_prefilter::matchers::{Matcher, MatcherVisitor};
use router_prefilter::{PrefilterBuilder, RouterPrefilter};

#[derive(Clone)]
struct TestMatcher {
    prefix: Option<&'static str>,
}

impl TestMatcher {
    fn with_prefix(prefix: &'static str) -> Self {
        Self {
            prefix: Some(prefix),
        }
    }

    fn without_prefix() -> Self {
        Self { prefix: None }
    }
}

impl Matcher for TestMatcher {
    fn visit(&self, visitor: &mut MatcherVisitor) {
        if let Some(prefix) = self.prefix {
            visitor.visit_match_starts_with(prefix);
        }
    }
}

#[test]
fn test_iterator_no_skips_before_prefilter() {
    let matchers = vec![
        TestMatcher::without_prefix(),
        TestMatcher::without_prefix(),
        TestMatcher::without_prefix(),
        TestMatcher::without_prefix(),
        TestMatcher::with_prefix("/api"),
        TestMatcher::with_prefix("/users"),
    ];

    let mut prefilter = RouterPrefilter::new();
    for (i, matcher) in matchers.into_iter().enumerate() {
        prefilter.insert(i, matcher);
    }
    let matches: Vec<_> = prefilter.possible_matches("/api/test").into_vec();

    assert_eq!(matches, vec![&0, &1, &2, &3, &4]);
}

#[test]
fn test_mixed_matchers() {
    let matchers = vec![
        TestMatcher::without_prefix(),
        TestMatcher::without_prefix(),
        TestMatcher::without_prefix(),
        TestMatcher::with_prefix("/api"),
    ];

    let mut prefilter = RouterPrefilter::new();
    for (i, matcher) in matchers.into_iter().enumerate() {
        prefilter.insert(i, matcher);
    }

    let matches: Vec<_> = prefilter.possible_matches("/api/test").into_vec();
    assert_eq!(matches, vec![&0, &1, &2, &3]);

    let matches: Vec<_> = prefilter.possible_matches("/other/path").into_vec();
    assert_eq!(matches, vec![&0, &1, &2]);
}

#[test]
fn test_clone() {
    let mut prefilter = RouterPrefilter::new();
    prefilter.insert(0, TestMatcher::with_prefix("/api"));
    prefilter.insert(1, TestMatcher::without_prefix());

    let cloned = prefilter.clone();
    let matches: Vec<_> = cloned.possible_matches("/api/test").into_vec();
    assert_eq!(matches, vec![&0, &1]);
}

#[test]
fn test_default() {
    let prefilter: RouterPrefilter<usize> = RouterPrefilter::default();
    assert!(prefilter.is_empty());
    assert!(!prefilter.can_prefilter());
}

#[test]
fn test_utility_methods() {
    let mut prefilter = RouterPrefilter::new();

    // Empty state
    assert!(prefilter.is_empty());
    assert_eq!(prefilter.len(), 0);
    assert!(!prefilter.can_prefilter());
    assert_eq!(prefilter.prefilterable_routes(), 0);

    // Add prefilterable route
    prefilter.insert(0, TestMatcher::with_prefix("/api"));
    assert!(!prefilter.is_empty());
    assert_eq!(prefilter.len(), 1);
    assert!(prefilter.can_prefilter());
    assert_eq!(prefilter.prefilterable_routes(), 1);

    // Add non-prefilterable route
    prefilter.insert(1, TestMatcher::without_prefix());
    assert_eq!(prefilter.len(), 2);
    assert_eq!(prefilter.prefilterable_routes(), 1); // Still only 1 prefilterable

    // Add another prefilterable route
    prefilter.insert(2, TestMatcher::with_prefix("/users"));
    assert_eq!(prefilter.len(), 3);
    assert_eq!(prefilter.prefilterable_routes(), 2);
}

#[test]
fn test_remove() {
    let mut prefilter = RouterPrefilter::new();
    prefilter.insert(0, TestMatcher::with_prefix("/api"));
    prefilter.insert(1, TestMatcher::without_prefix());
    prefilter.insert(2, TestMatcher::with_prefix("/users"));

    assert_eq!(prefilter.len(), 3);

    // Remove prefilterable route
    prefilter.remove(&0);
    assert_eq!(prefilter.len(), 2);
    let matches: Vec<_> = prefilter.possible_matches("/api/test").into_vec();
    assert!(!matches.contains(&&0));
    assert!(matches.contains(&&1));

    // Remove non-prefilterable route
    prefilter.remove(&1);
    assert_eq!(prefilter.len(), 1);
    let matches: Vec<_> = prefilter.possible_matches("/users/test").into_vec();
    assert!(!matches.contains(&&1));
    assert!(matches.contains(&&2));

    // Remove last route
    prefilter.remove(&2);
    assert!(prefilter.is_empty());
}

#[test]
fn test_iterator_fold() {
    let mut prefilter = RouterPrefilter::new();
    prefilter.insert(0, TestMatcher::with_prefix("/api"));
    prefilter.insert(1, TestMatcher::with_prefix("/users"));

    let sum = prefilter
        .possible_matches("/api/test")
        .into_vec()
        .into_iter()
        .sum::<i32>();
    assert_eq!(sum, 0); // Only route 0 matches

    let sum = prefilter
        .possible_matches("/users/test")
        .into_vec()
        .into_iter()
        .sum::<i32>();
    assert_eq!(sum, 1); // Only route 1 matches
}

#[test]
fn test_iterator_size_hint() {
    let mut prefilter = RouterPrefilter::new();
    prefilter.insert(0, TestMatcher::with_prefix("/api"));
    prefilter.insert(1, TestMatcher::without_prefix());

    let iter = prefilter.possible_matches("/api/test");
    let (min, max) = iter.size_hint();
    assert!(min <= max.unwrap_or(usize::MAX));
}

#[test]
fn test_iterator_exact_size() {
    let mut prefilter = RouterPrefilter::new();
    prefilter.insert(0, TestMatcher::with_prefix("/api"));
    prefilter.insert(1, TestMatcher::without_prefix());
    prefilter.insert(2, TestMatcher::with_prefix("/users"));

    // Union case: prefilter result + always_possible
    let iter = prefilter.possible_matches("/api/test");
    assert_eq!(iter.len(), 2); // routes 0 and 1
    let (min, max) = iter.size_hint();
    assert_eq!(min, 2);
    assert_eq!(max, Some(2));

    // OnlyAlways case: no prefilter matches
    let iter = prefilter.possible_matches("/other/path");
    assert_eq!(iter.len(), 1); // only route 1
    let (min, max) = iter.size_hint();
    assert_eq!(min, 1);
    assert_eq!(max, Some(1));

    // Union case: size_hint must stay accurate after consuming elements
    let mut iter = prefilter.possible_matches("/api/test");
    assert_eq!(iter.len(), 2);
    iter.next();
    assert_eq!(iter.len(), 1);
    iter.next();
    assert_eq!(iter.len(), 0);
}

#[test]
fn test_iterator_debug() {
    let mut prefilter = RouterPrefilter::new();
    prefilter.insert("key 123", TestMatcher::with_prefix("/api"));

    let iter = prefilter.possible_matches("/api/test");
    let debug_str = format!("{:?}", iter);
    assert!(debug_str.contains("RouterPrefilterIter"));
    assert!(debug_str.contains("key 123"));
}

#[test]
fn test_iterator_fused() {
    let mut prefilter = RouterPrefilter::new();
    prefilter.insert(0, TestMatcher::with_prefix("/api"));

    let mut iter = prefilter.possible_matches("/api/test");

    // Exhaust the iterator
    assert_eq!(iter.next(), Some(&0));
    assert_eq!(iter.next(), None);

    // None forever after
    assert_eq!(iter.next(), None);
    assert_eq!(iter.next(), None);
}

#[test]
fn test_duplicate_key_insert_replaces_prefix() {
    let mut prefilter = RouterPrefilter::new();
    prefilter.insert(0, TestMatcher::with_prefix("/api"));
    prefilter.insert(0, TestMatcher::with_prefix("/users"));

    assert_eq!(prefilter.len(), 1);
    assert_eq!(prefilter.prefilterable_routes(), 1);

    // Old prefix should no longer match
    let matches: Vec<_> = prefilter.possible_matches("/api/test").into_vec();
    assert!(!matches.contains(&&0));

    // New prefix should match
    let matches: Vec<_> = prefilter.possible_matches("/users/test").into_vec();
    assert!(matches.contains(&&0));
}

#[test]
fn test_duplicate_key_insert_prefilterable_to_always() {
    let mut prefilter = RouterPrefilter::new();
    prefilter.insert(0, TestMatcher::with_prefix("/api"));
    prefilter.insert(0, TestMatcher::without_prefix());

    assert_eq!(prefilter.len(), 1);
    assert_eq!(prefilter.prefilterable_routes(), 0);

    // Should now be in always_possible, matching everything
    let matches: Vec<_> = prefilter.possible_matches("/anything").into_vec();
    assert!(matches.contains(&&0));
}

#[test]
fn test_duplicate_key_insert_always_to_prefilterable() {
    let mut prefilter = RouterPrefilter::new();
    prefilter.insert(0, TestMatcher::without_prefix());
    prefilter.insert(0, TestMatcher::with_prefix("/api"));

    assert_eq!(prefilter.len(), 1);
    assert_eq!(prefilter.prefilterable_routes(), 1);

    // Should only match the new prefix
    let matches: Vec<_> = prefilter.possible_matches("/api/test").into_vec();
    assert!(matches.contains(&&0));

    let matches: Vec<_> = prefilter.possible_matches("/other").into_vec();
    assert!(!matches.contains(&&0));
}

#[test]
fn test_duplicate_key_insert_then_remove() {
    let mut prefilter = RouterPrefilter::new();
    prefilter.insert(0, TestMatcher::with_prefix("/api"));
    prefilter.insert(0, TestMatcher::with_prefix("/users"));
    prefilter.remove(&0);

    assert!(prefilter.is_empty());
    assert_eq!(prefilter.len(), 0);

    // Nothing should match after removal
    let matches: Vec<_> = prefilter.possible_matches("/api/test").into_vec();
    assert!(matches.is_empty());
    let matches: Vec<_> = prefilter.possible_matches("/users/test").into_vec();
    assert!(matches.is_empty());
}

#[test]
fn test_nested_prefix_chain() {
    // Each prefix is a prefix of the ones above it, inserted longest-first
    let matchers = vec![
        TestMatcher::with_prefix("/a/a/a/a/a/a/a/a/a/a"),
        TestMatcher::with_prefix("/a/a/a/a/a/a/a/a/a"),
        TestMatcher::with_prefix("/a/a/a/a/a/a/a/a"),
        TestMatcher::with_prefix("/a/a/a/a/a/a/a"),
        TestMatcher::with_prefix("/a/a/a/a/a/a"),
        TestMatcher::with_prefix("/a/a/a/a/a"),
        TestMatcher::with_prefix("/a/a/a/a"),
        TestMatcher::with_prefix("/a/a/a"),
        TestMatcher::with_prefix("/a/a"),
        TestMatcher::with_prefix("/a"),
        TestMatcher::with_prefix(""),
    ];

    let mut prefilter = RouterPrefilter::new();
    for (i, matcher) in matchers.into_iter().enumerate() {
        prefilter.insert(i, matcher);
    }

    // Full path matches all prefixes
    let matches: Vec<_> = prefilter
        .possible_matches("/a/a/a/a/a/a/a/a/a/a/end")
        .into_vec();
    assert_eq!(matches, vec![&0, &1, &2, &3, &4, &5, &6, &7, &8, &9, &10]);

    // Partial path matches only shorter prefixes
    let matches: Vec<_> = prefilter.possible_matches("/a/a/a/a/a/z").into_vec();
    assert_eq!(matches, vec![&5, &6, &7, &8, &9, &10]);

    // Shortest non-empty prefix
    let matches: Vec<_> = prefilter.possible_matches("/a/z").into_vec();
    assert_eq!(matches, vec![&9, &10]);

    // No non-empty prefix matches, but empty prefix is always possible
    let matches: Vec<_> = prefilter.possible_matches("/b").into_vec();
    assert_eq!(matches, vec![&10]);

    // Empty string matches empty prefix (always possible)
    let matches: Vec<_> = prefilter.possible_matches("").into_vec();
    assert_eq!(matches, vec![&10]);

    // Empty prefix goes into always_possible, not the prefilter
    assert_eq!(prefilter.prefilterable_routes(), 10);
}

#[test]
fn test_prefilter_builder_standalone() {
    let mut builder = PrefilterBuilder::new();

    let prefilter = builder
        .compute_prefilter(TestMatcher::with_prefix("/api"))
        .unwrap();
    let prefixes: Vec<_> = prefilter.prefixes();
    assert_eq!(prefixes, vec![b"/api".as_slice()]);

    let none = builder.compute_prefilter(TestMatcher::without_prefix());
    assert!(none.is_none());
}

#[test]
fn test_prefilter_builder_reuse() {
    let mut builder = PrefilterBuilder::new();

    let p1 = builder
        .compute_prefilter(TestMatcher::with_prefix("/api"))
        .unwrap();
    let p2 = builder
        .compute_prefilter(TestMatcher::with_prefix("/api"))
        .unwrap();
    assert_eq!(p1, p2);

    let p3 = builder
        .compute_prefilter(TestMatcher::with_prefix("/users"))
        .unwrap();
    assert_ne!(p1, p3);
}

#[test]
fn test_insert_prefilter_with_prefilter() {
    let mut builder = PrefilterBuilder::new();
    let match_prefilter = builder.compute_prefilter(TestMatcher::with_prefix("/api"));

    let mut prefilter = RouterPrefilter::new();
    prefilter.insert_prefilter(0, match_prefilter);

    let matches: Vec<_> = prefilter.possible_matches("/api/test").into_vec();
    assert!(matches.contains(&&0));

    let matches: Vec<_> = prefilter.possible_matches("/other").into_vec();
    assert!(!matches.contains(&&0));
}

#[test]
fn test_insert_prefilter_none_is_always_possible() {
    let mut prefilter = RouterPrefilter::new();
    prefilter.insert_prefilter(0, None);

    let matches: Vec<_> = prefilter.possible_matches("/anything").into_vec();
    assert!(matches.contains(&&0));

    assert_eq!(prefilter.prefilterable_routes(), 0);
    assert_eq!(prefilter.len(), 1);
}

#[test]
fn test_prefilter_builder_accessor() {
    let mut prefilter: RouterPrefilter<usize> = RouterPrefilter::new();
    let match_prefilter = prefilter
        .prefilter_builder()
        .compute_prefilter(TestMatcher::with_prefix("/api"));
    prefilter.insert_prefilter(0, match_prefilter);

    let matches: Vec<_> = prefilter.possible_matches("/api/test").into_vec();
    assert!(matches.contains(&&0));
}

#[test]
fn test_match_prefilter_len_and_is_empty() {
    let mut builder = PrefilterBuilder::new();
    let prefilter = builder
        .compute_prefilter(TestMatcher::with_prefix("/api"))
        .unwrap();
    assert_eq!(prefilter.len(), 1);
    assert!(!prefilter.is_empty());
}

#[test]
fn test_match_prefilter_clone_and_eq() {
    let mut builder = PrefilterBuilder::new();
    let prefilter = builder
        .compute_prefilter(TestMatcher::with_prefix("/api"))
        .unwrap();
    let cloned = prefilter.clone();
    assert_eq!(prefilter, cloned);
}

#[test]
fn test_match_prefilter_insert_twice_from_clone() {
    let mut builder = PrefilterBuilder::new();
    let match_prefilter = builder
        .compute_prefilter(TestMatcher::with_prefix("/api"))
        .unwrap();

    let mut prefilter = RouterPrefilter::new();
    prefilter.insert_prefilter(0, Some(match_prefilter.clone()));
    prefilter.insert_prefilter(1, Some(match_prefilter));

    let matches: Vec<_> = prefilter.possible_matches("/api/test").into_vec();
    assert!(matches.contains(&&0));
    assert!(matches.contains(&&1));
}
