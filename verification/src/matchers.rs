//! Describing route matchers to the prefilter.
use vstd::prelude::*;
use vstd::string::StringSliceAdditionalSpecFns;

verus! {

/// A route matcher that can describe its conditions to a [`MatcherVisitor`].
///
/// Conditions visited directly (outside any nested group) must all hold for
/// the matcher to match. Conditions inside a nested group, opened with
/// [`MatcherVisitor::visit_nested_start`] and closed with
/// [`MatcherVisitor::visit_nested_finish`], are combined in ways the visitor
/// does not know, and are not used for prefiltering.
pub trait Matcher {
    /// Whether [`Self::spec_visit`] describes what `visit` does. A matcher
    /// type whose `visit` is verified against `spec_visit` sets this to
    /// `true`; for any other type nothing is claimed about what it visits.
    open spec fn obeys_visit_spec() -> bool {
        false
    }

    /// The prefix that a visitor requires after this matcher has been shown
    /// to it, given the visitor's nesting depth and required prefix before.
    open spec fn spec_visit(&self, depth: nat, prefix: Seq<u8>) -> Seq<u8> {
        prefix
    }

    /// Describes this matcher to `visitor`.
    ///
    /// Every call of `visit_nested_start` must be balanced by a call of
    /// `visit_nested_finish`.
    fn visit(&self, visitor: &mut MatcherVisitor)
        ensures
            final(visitor).nesting_depth() == old(visitor).nesting_depth(),
            Self::obeys_visit_spec() ==> final(visitor).required_prefix() == self.spec_visit(
                old(visitor).nesting_depth(),
                old(visitor).required_prefix(),
            ),
    ;
}

/// The prefix that `matcher` requires, when shown to a fresh visitor.
pub open spec fn required_prefix_of<M: Matcher>(matcher: M) -> Seq<u8> {
    matcher.spec_visit(0, Seq::empty())
}

/// Collects the literal prefixes that a matcher requires.
///
/// Among the prefixes required at the top level, the longest one is kept:
/// every string the matcher accepts starts with it.
///
/// Only literal `starts with` conditions are described to the visitor.
/// Regular expressions are not analysed here: deriving a literal prefix
/// from an anchored pattern would need a regex parser, which this crate
/// does not depend on. A matcher whose only condition is a regular
/// expression therefore yields no prefix, and its route is always a
/// possible match, which never drops a candidate.
#[derive(Debug)]
pub struct MatcherVisitor {
    depth: usize,
    best: Vec<u8>,
}

impl MatcherVisitor {
    /// How many nested groups are open.
    pub closed spec fn nesting_depth(&self) -> nat {
        self.depth as nat
    }

    /// The longest top-level prefix seen so far (empty when there is none).
    pub closed spec fn required_prefix(&self) -> Seq<u8> {
        self.best@
    }

    /// No condition has been visited and no group is open.
    pub open spec fn is_fresh(&self) -> bool {
        &&& self.nesting_depth() == 0
        &&& self.required_prefix().len() == 0
    }

    /// What [`Self::finish`] returns for a visitor in this state.
    pub open spec fn outcome(&self) -> Option<Seq<Seq<u8>>> {
        if self.required_prefix().len() > 0 {
            Some(seq![self.required_prefix()])
        } else {
            None
        }
    }

    /// Creates a visitor that has seen nothing.
    pub fn new() -> (r: Self)
        ensures
            r.is_fresh(),
    {
        MatcherVisitor { depth: 0, best: Vec::new() }
    }

    /// Records that the matcher only accepts values starting with `prefix`.
    ///
    /// Inside a nested group the condition is ignored; an empty prefix
    /// requires nothing.
    pub fn visit_match_starts_with(&mut self, prefix: &str)
        ensures
            final(self).nesting_depth() == old(self).nesting_depth(),
            final(self).required_prefix() == if old(self).nesting_depth() == 0
                && prefix.spec_bytes().len() > old(self).required_prefix().len() {
                prefix.spec_bytes()
            } else {
                old(self).required_prefix()
            },
    {
        let bytes = prefix.as_bytes();
        if self.depth == 0 && bytes.len() > self.best.len() {
            self.best = vstd::slice::slice_to_vec(bytes);
        }
    }

    /// Opens a nested group.
    pub fn visit_nested_start(&mut self)
        ensures
            final(self).required_prefix() == old(self).required_prefix(),
            final(self).nesting_depth() == if old(self).nesting_depth() < usize::MAX {
                old(self).nesting_depth() + 1
            } else {
                old(self).nesting_depth()
            },
    {
        if self.depth < usize::MAX {
            self.depth = self.depth + 1;
        }
    }

    /// Closes the innermost open nested group.
    pub fn visit_nested_finish(&mut self)
        ensures
            final(self).required_prefix() == old(self).required_prefix(),
            final(self).nesting_depth() == if old(self).nesting_depth() > 0 {
                old(self).nesting_depth() - 1
            } else {
                0
            },
    {
        if self.depth > 0 {
            self.depth = self.depth - 1;
        }
    }

    /// Forgets everything visited so far.
    pub fn reset(&mut self)
        ensures
            final(self).is_fresh(),
    {
        self.depth = 0;
        self.best.clear();
    }

    /// Returns the prefixes of which the visited matcher requires one, or
    /// `None` when it requires none, and leaves the visitor fresh.
    pub fn finish(&mut self) -> (r: Option<Vec<Vec<u8>>>)
        requires
            old(self).nesting_depth() == 0,
        ensures
            final(self).is_fresh(),
            r matches Some(v) ==> v@.map_values(|p: Vec<u8>| p@) == old(self).outcome()->0,
            r is Some <==> old(self).outcome() is Some,
    {
        let result = if self.best.len() > 0 {
            let mut best: Vec<u8> = Vec::new();
            std::mem::swap(&mut best, &mut self.best);
            let mut out: Vec<Vec<u8>> = Vec::new();
            out.push(best);
            proof {
                assert(out@.map_values(|p: Vec<u8>| p@) =~= seq![old(self).best@]);
            }
            Some(out)
        } else {
            None
        };
        self.best.clear();
        result
    }
}

} // verus!
