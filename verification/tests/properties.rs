use router_prefilter::matchers::{Matcher, MatcherVisitor};
use router_prefilter::{PrefilterBuilder, RouterPrefilter};

struct StartsWith(&'static str);

impl Matcher for StartsWith {
    fn visit(&self, visitor: &mut MatcherVisitor) {
        visitor.visit_match_starts_with(self.0);
    }
}

struct Always;

impl Matcher for Always {
    fn visit(&self, _visitor: &mut MatcherVisitor) {}
}

/// Two top-level conditions: both must hold.
struct Both(&'static str, &'static str);

impl Matcher for Both {
    fn visit(&self, visitor: &mut MatcherVisitor) {
        visitor.visit_match_starts_with(self.0);
        visitor.visit_match_starts_with(self.1);
    }
}

/// A condition inside a nested group.
struct Nested(&'static str);

impl Matcher for Nested {
    fn visit(&self, visitor: &mut MatcherVisitor) {
        visitor.visit_nested_start();
        visitor.visit_match_starts_with(self.0);
        visitor.visit_nested_finish();
    }
}

/// A top-level condition next to a nested group.
struct TopAndNested(&'static str, &'static str);

impl Matcher for TopAndNested {
    fn visit(&self, visitor: &mut MatcherVisitor) {
        visitor.visit_match_starts_with(self.0);
        visitor.visit_nested_start();
        visitor.visit_match_starts_with(self.1);
        visitor.visit_nested_finish();
    }
}

fn matches(prefilter: &RouterPrefilter<u32>, value: &str) -> Vec<u32> {
    prefilter
        .possible_matches(value)
        .into_vec()
        .into_iter()
        .copied()
        .collect()
}

#[test]
fn always_possible_keys_match_every_value() {
    let mut prefilter = RouterPrefilter::new();
    prefilter.insert(7u32, Always);
    assert_eq!(matches(&prefilter, ""), vec![7]);
    assert_eq!(matches(&prefilter, "/anything"), vec![7]);
    assert!(!prefilter.can_prefilter());
    assert_eq!(prefilter.len(), 1);
}

#[test]
fn prefixed_key_matches_exactly_values_starting_with_prefix() {
    let mut prefilter = RouterPrefilter::new();
    prefilter.insert(1u32, StartsWith("/api"));
    assert_eq!(matches(&prefilter, "/api"), vec![1]);
    assert_eq!(matches(&prefilter, "/api/v2"), vec![1]);
    assert_eq!(matches(&prefilter, "/ap"), Vec::<u32>::new());
    assert_eq!(matches(&prefilter, "/API"), Vec::<u32>::new());
    assert_eq!(matches(&prefilter, "x/api"), Vec::<u32>::new());
}

#[test]
fn results_are_ascending_across_both_kinds_of_route() {
    let mut prefilter = RouterPrefilter::new();
    prefilter.insert(6u32, StartsWith("/a"));
    prefilter.insert(5u32, Always);
    prefilter.insert(4u32, StartsWith("/a/b"));
    prefilter.insert(3u32, Always);
    prefilter.insert(2u32, StartsWith("/"));
    prefilter.insert(1u32, Always);
    prefilter.insert(0u32, StartsWith("/z"));
    assert_eq!(matches(&prefilter, "/a/b/c"), vec![1, 2, 3, 4, 5, 6]);
    assert_eq!(matches(&prefilter, "/z"), vec![0, 1, 2, 3, 5]);
    assert_eq!(matches(&prefilter, "q"), vec![1, 3, 5]);
    let iter = prefilter.possible_matches("/a/b/c");
    assert_eq!(iter.len(), 6);
    assert_eq!(iter.size_hint(), (6, Some(6)));
}

#[test]
fn remove_undoes_insert() {
    let mut prefilter = RouterPrefilter::new();
    prefilter.insert(1u32, StartsWith("/keep"));
    prefilter.insert(2u32, Always);
    let before = matches(&prefilter, "/keep/x");
    prefilter.insert(9u32, StartsWith("/keep"));
    assert_eq!(matches(&prefilter, "/keep/x"), vec![1, 2, 9]);
    prefilter.remove(&9);
    assert_eq!(matches(&prefilter, "/keep/x"), before);
    assert_eq!(prefilter.len(), 2);
    // Removing an absent key changes nothing.
    prefilter.remove(&42);
    assert_eq!(prefilter.len(), 2);
}

#[test]
fn clear_matches_nothing() {
    let mut prefilter = RouterPrefilter::new();
    prefilter.insert(1u32, StartsWith("/a"));
    prefilter.insert(2u32, Always);
    prefilter.clear();
    assert!(prefilter.is_empty());
    assert_eq!(prefilter.len(), 0);
    assert!(!prefilter.can_prefilter());
    assert_eq!(matches(&prefilter, "/a"), Vec::<u32>::new());
}

#[test]
fn clone_matches_like_source() {
    let mut prefilter = RouterPrefilter::new();
    prefilter.insert(1u32, StartsWith("/a"));
    prefilter.insert(2u32, Always);
    prefilter.insert(3u32, StartsWith("/b"));
    let copy = prefilter.clone();
    for value in ["/a", "/b/c", "", "/c"] {
        assert_eq!(matches(&copy, value), matches(&prefilter, value));
    }
    assert_eq!(copy.len(), prefilter.len());
    assert_eq!(copy.prefilterable_routes(), prefilter.prefilterable_routes());
}

#[test]
fn insert_counts_key_once() {
    let mut prefilter = RouterPrefilter::new();
    prefilter.insert(1u32, StartsWith("/a"));
    prefilter.insert(1u32, Always);
    prefilter.insert(1u32, StartsWith("/b"));
    assert_eq!(prefilter.len(), 1);
    assert_eq!(prefilter.prefilterable_routes(), 1);
    assert_eq!(matches(&prefilter, "/a"), Vec::<u32>::new());
    assert_eq!(matches(&prefilter, "/b"), vec![1]);
}

#[test]
fn longest_top_level_prefix_is_kept() {
    let mut builder = PrefilterBuilder::new();
    let prefilter = builder.compute_prefilter(Both("/a", "/a/b")).unwrap();
    assert_eq!(prefilter.prefixes(), vec![b"/a/b".as_slice()]);
    let prefilter = builder.compute_prefilter(Both("/a/b", "/a")).unwrap();
    assert_eq!(prefilter.prefixes(), vec![b"/a/b".as_slice()]);
    let prefilter = builder.compute_prefilter(Both("", "/x")).unwrap();
    assert_eq!(prefilter.prefixes(), vec![b"/x".as_slice()]);
}

#[test]
fn nested_conditions_do_not_filter() {
    let mut builder = PrefilterBuilder::new();
    assert!(builder.compute_prefilter(Nested("/api")).is_none());
    let prefilter = builder
        .compute_prefilter(TopAndNested("/a", "/a/much/longer"))
        .unwrap();
    assert_eq!(prefilter.prefixes(), vec![b"/a".as_slice()]);
}

#[test]
fn empty_prefix_is_always_possible() {
    let mut builder = PrefilterBuilder::new();
    assert!(builder.compute_prefilter(StartsWith("")).is_none());
    let mut prefilter = RouterPrefilter::new();
    prefilter.insert(3u32, StartsWith(""));
    assert_eq!(prefilter.prefilterable_routes(), 0);
    assert_eq!(matches(&prefilter, "anything"), vec![3]);
}

#[test]
fn non_ascii_prefixes_compare_bytes() {
    let mut prefilter = RouterPrefilter::new();
    prefilter.insert(1u32, StartsWith("/caf\u{e9}"));
    assert_eq!(matches(&prefilter, "/caf\u{e9}/menu"), vec![1]);
    assert_eq!(matches(&prefilter, "/cafe"), Vec::<u32>::new());
}

#[test]
fn visitor_finish_reports_prefix_and_resets() {
    let mut visitor = MatcherVisitor::new();
    visitor.visit_match_starts_with("/short");
    visitor.visit_match_starts_with("/much/longer");
    visitor.visit_match_starts_with("/mid");
    assert_eq!(visitor.finish(), Some(vec![b"/much/longer".to_vec()]));
    assert_eq!(visitor.finish(), None);
    visitor.visit_nested_start();
    visitor.visit_match_starts_with("/inside");
    visitor.visit_nested_finish();
    assert_eq!(visitor.finish(), None);
}

#[test]
fn visitor_reset_forgets_conditions() {
    let mut visitor = MatcherVisitor::new();
    visitor.visit_match_starts_with("/gone");
    visitor.reset();
    assert_eq!(visitor.finish(), None);
}

#[test]
fn match_prefilter_clone_keeps_bytes() {
    let mut builder = PrefilterBuilder::default();
    let prefilter = builder.compute_prefilter(StartsWith("/bytes")).unwrap();
    let copy = prefilter.clone();
    assert_eq!(copy.prefixes(), vec![b"/bytes".as_slice()]);
    assert_eq!(copy.len(), 1);
    assert!(!copy.is_empty());
}

#[test]
fn insert_prefilter_moves_key_between_kinds() {
    let mut builder = PrefilterBuilder::new();
    let mut prefilter = RouterPrefilter::new();
    prefilter.insert_prefilter(5u32, None);
    assert_eq!(prefilter.prefilterable_routes(), 0);
    prefilter.insert_prefilter(5u32, builder.compute_prefilter(StartsWith("/p")));
    assert_eq!(prefilter.prefilterable_routes(), 1);
    assert_eq!(prefilter.len(), 1);
    assert_eq!(matches(&prefilter, "/q"), Vec::<u32>::new());
    prefilter.insert_prefilter(5u32, None);
    assert_eq!(prefilter.prefilterable_routes(), 0);
    assert_eq!(matches(&prefilter, "/q"), vec![5]);
}

#[test]
fn default_prefilter_is_empty() {
    let prefilter: RouterPrefilter<u32> = Default::default();
    assert!(prefilter.is_empty());
    assert_eq!(prefilter.len(), 0);
    assert_eq!(matches(&prefilter, "/"), Vec::<u32>::new());
}

#[test]
fn iterator_yields_none_after_end() {
    let mut prefilter = RouterPrefilter::new();
    prefilter.insert(1u32, Always);
    prefilter.insert(2u32, StartsWith("/x"));
    let mut iter = prefilter.possible_matches("/x");
    assert_eq!(iter.next(), Some(&1));
    assert_eq!(iter.next(), Some(&2));
    assert_eq!(iter.len(), 0);
    assert_eq!(iter.next(), None);
    assert_eq!(iter.next(), None);
    assert_eq!(iter.size_hint(), (0, Some(0)));
}
