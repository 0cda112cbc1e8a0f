//! A prefilter that quickly narrows down which routes may match a value.
//!
//! Each route is described by a [`matchers::Matcher`]. Where the matcher
//! requires the value to start with a literal prefix, the route is kept
//! with that prefix and a query checks it against the value; every other
//! route is always a possible match.
use bstr::BString;
use std::collections::BTreeSet;
use vstd::prelude::*;
use vstd::string::StringSliceAdditionalSpecFns;

pub mod byte_string;
pub mod inner_prefilter;
pub mod laws;
pub mod matchers;
pub mod order;

use crate::byte_string::{bstring_as_slice, bstring_bytes, bstring_clone, bstring_new};
use crate::inner_prefilter::{admitted_keys, prefix_seq, InnerPrefilter};
use crate::matchers::{required_prefix_of, Matcher, MatcherVisitor};
use crate::order::{
    key_less, lawful_key_order, lemma_increasing_no_duplicates, lemma_increasing_refs, lemma_merge,
    lemma_drop_first_increasing, lemma_head_not_repeated, lemma_merge_len, merge,
    strictly_increasing,
};
use vstd::std_specs::iter::IteratorSpec;

verus! {

broadcast use vstd::std_specs::btree::group_btree_axioms;

/// A list of prefixes that can filter: it has at least one prefix, and no
/// prefix is empty.
pub open spec fn valid_prefix_list(ps: Seq<Seq<u8>>) -> bool {
    &&& ps.len() > 0
    &&& forall|i: int| 0 <= i < ps.len() ==> (#[trigger] ps[i]).len() > 0
}

/// A prefilter for quickly identifying potentially matching route patterns.
///
/// Routes whose matchers yield literal prefixes are filtered by them; routes
/// without extractable prefixes are tracked separately as always-possible
/// matches.
#[derive(Debug)]
pub struct RouterPrefilter<K> {
    routes: Routes<K>,
    builder: PrefilterBuilder,
}

/// The routes of a prefilter, kept apart from its builder.
#[derive(Debug)]
struct Routes<K> {
    // Only includes keys whose matchers yield no prefix
    always_possible: BTreeSet<K>,
    prefilter: InnerPrefilter<K>,
}

impl<K> Routes<K> {
    spec fn view(&self) -> (Set<K>, Map<K, Seq<Seq<u8>>>) {
        (self.always_possible@, self.prefilter.view())
    }

    /// No key is both always possible and filtered by prefixes, and every
    /// filtered key has a list of prefixes that can filter.
    #[verifier::type_invariant]
    spec fn inv(&self) -> bool {
        routes_wf(self.view())
    }
}

/// The always-possible keys are finitely many and none of them has prefixes,
/// and every filtered key has a list of prefixes that can filter.
pub open spec fn routes_wf<K>(v: (Set<K>, Map<K, Seq<Seq<u8>>>)) -> bool {
    &&& v.0.finite()
    &&& v.0.disjoint(v.1.dom())
    &&& forall|k: K| #[trigger] v.1.contains_key(k) ==> valid_prefix_list(v.1[k])
}

impl<K> View for RouterPrefilter<K> {
    /// The keys that are always possible, and the prefixes of every other key.
    type V = (Set<K>, Map<K, Seq<Seq<u8>>>);

    closed spec fn view(&self) -> Self::V {
        self.routes.view()
    }
}

impl<K: Clone> Clone for RouterPrefilter<K> {
    /// Copies the routes; the copy gets a builder of its own.
    fn clone(&self) -> (r: Self)
        ensures
            r@ == self@,
            r.spec_builder().is_fresh(),
    {
        proof {
            use_type_invariant(&self.routes);
        }
        let routes = Routes {
            always_possible: self.routes.always_possible.clone(),
            prefilter: self.routes.prefilter.clone(),
        };
        Self { routes, builder: PrefilterBuilder::new() }
    }
}

impl<K: Ord> Default for RouterPrefilter<K> {
    fn default() -> (r: Self)
        ensures
            r.wf(),
            r@.0 == Set::<K>::empty(),
            r@.1 == Map::<K, Seq<Seq<u8>>>::empty(),
    {
        Self::new()
    }
}

impl<K> RouterPrefilter<K> {
    /// No key is both always possible and filtered by prefixes, and every
    /// filtered key has a list of prefixes that can filter.
    ///
    /// Every prefilter is well formed; functions state it so that proofs
    /// about prefilter values can rely on it.
    pub open spec fn wf(&self) -> bool {
        routes_wf(self@)
    }

    /// The keys that may match `value`: every always-possible key, and every
    /// filtered key one of whose prefixes starts `value`.
    pub open spec fn possible_keys(&self, value: Seq<u8>) -> Set<K> {
        self@.0 + admitted_keys(self@.1, value)
    }

    /// The embedded prefilter builder.
    pub closed spec fn spec_builder(&self) -> PrefilterBuilder {
        self.builder
    }

    /// Only finitely many keys are always possible or filtered.
    pub proof fn lemma_finite(&self)
        requires
            self.wf(),
        ensures
            self@.0.finite(),
            self@.1.dom().finite(),
    {
        self.routes.prefilter.lemma_finite();
    }

    /// How many routes the prefilter holds.
    pub open spec fn spec_len(&self) -> nat {
        self@.0.len() + self@.1.dom().len()
    }

    /// Creates a new empty prefilter.
    pub fn new() -> (r: Self)
        ensures
            r.wf(),
            r.spec_builder().is_fresh(),
            r@.0 == Set::<K>::empty(),
            r@.1 == Map::<K, Seq<Seq<u8>>>::empty(),
    {
        let routes = Routes { always_possible: BTreeSet::new(), prefilter: InnerPrefilter::new() };
        Self { routes, builder: PrefilterBuilder::new() }
    }

    /// Returns whether this prefilter can perform filtering: whether at
    /// least one route has extractable prefixes.
    pub fn can_prefilter(&self) -> (r: bool)
        ensures
            r == (self@.1.dom().len() > 0),
    {
        !self.routes.prefilter.is_empty()
    }

    /// Returns the number of routes with extractable prefixes.
    ///
    /// The count is exact whenever the key type's order is lawful, as it is
    /// for every key type that a route can be inserted with.
    pub fn prefilterable_routes(&self) -> (r: usize)
        ensures
            vstd::std_specs::btree::key_obeys_cmp_spec::<K>() ==> r == self@.1.dom().len(),
    {
        self.routes.prefilter.num_routes()
    }
}

impl<K: Ord> RouterPrefilter<K> {
    /// Returns the total number of routes in the prefilter.
    pub fn len(&self) -> (r: usize)
        requires
            lawful_key_order::<K>(),
            self.spec_len() <= usize::MAX,
        ensures
            r == self.spec_len(),
    {
        proof {
            use_type_invariant(&self.routes);
        }
        self.routes.prefilter.num_routes() + self.routes.always_possible.len()
    }

    /// Returns whether the prefilter contains any routes.
    pub fn is_empty(&self) -> (r: bool)
        requires
            lawful_key_order::<K>(),
        ensures
            r == (self.spec_len() == 0),
    {
        proof {
            use_type_invariant(&self.routes);
        }
        proof {
            self.routes.prefilter.lemma_finite();
            if self@.0.len() == 0 {
                assert(self@.0 =~= Set::<K>::empty());
            }
        }
        self.routes.always_possible.is_empty() && self.routes.prefilter.is_empty()
    }

    /// Inserts a matcher with the given key.
    ///
    /// The matcher is analyzed to extract literal prefixes for fast
    /// filtering. If no prefixes can be extracted, the key is tracked as
    /// always-possible. Any earlier route of the same key is replaced. The
    /// effect is that of [`Self::insert_prefilter`] with what
    /// [`PrefilterBuilder::compute_prefilter`] returns for the matcher.
    pub fn insert<M: Matcher>(&mut self, key: K, matcher: M)
        where
            K: Clone,
        requires
            lawful_key_order::<K>(),
        ensures
            final(self).wf(),
            final(self)@.0.remove(key) == old(self)@.0.remove(key),
            final(self)@.1.remove(key) == old(self)@.1.remove(key),
            final(self)@.0.contains(key) || final(self)@.1.contains_key(key),
            final(self)@.1.contains_key(key) ==> final(self)@.1[key].len() == 1,
            M::obeys_visit_spec() ==> if required_prefix_of(matcher).len() > 0 {
                &&& final(self)@.0 == old(self)@.0.remove(key)
                &&& final(self)@.1 == old(self)@.1.insert(key, seq![required_prefix_of(matcher)])
            } else {
                &&& final(self)@.0 == old(self)@.0.insert(key)
                &&& final(self)@.1 == old(self)@.1.remove(key)
            },
    {
        // The builder is moved out while the matcher runs, so that the
        // prefilter stays whole whatever the matcher does.
        let mut builder = PrefilterBuilder::new();
        std::mem::swap(&mut builder, &mut self.builder);
        let match_prefilter = builder.compute_prefilter(matcher);
        self.builder = builder;
        self.insert_prefilter(key, match_prefilter)
    }

    /// Inserts an optional prefilter for a matcher with the given key.
    ///
    /// If `match_prefilter` is `None`, the key is always returned from
    /// [`Self::possible_matches`]; otherwise its prefixes filter it. Any
    /// earlier route of the same key is replaced.
    pub fn insert_prefilter(&mut self, key: K, match_prefilter: Option<MatchPrefilter>)
        where
            K: Clone,
        requires
            lawful_key_order::<K>(),
        ensures
            final(self).wf(),
            match match_prefilter {
                Some(p) => {
                    &&& final(self)@.0 == old(self)@.0.remove(key)
                    &&& final(self)@.1 == old(self)@.1.insert(key, p.prefix_list())
                },
                None => {
                    &&& final(self)@.0 == old(self)@.0.insert(key)
                    &&& final(self)@.1 == old(self)@.1.remove(key)
                },
            },
    {
        proof {
            use_type_invariant(&self.routes);
        }
        let mut always = BTreeSet::new();
        let mut prefilter = InnerPrefilter::new();
        std::mem::swap(&mut always, &mut self.routes.always_possible);
        std::mem::swap(&mut prefilter, &mut self.routes.prefilter);
        match match_prefilter {
            Some(p) => {
                proof {
                    use_type_invariant(&p);
                }
                let MatchPrefilter { prefixes } = p;
                // Clean up in case this key was previously in always_possible
                always.remove(&key);
                prefilter.insert(key, prefixes);
            },
            None => {
                // Clean up in case this key was previously in the prefilter
                prefilter.remove(&key);
                always.insert(key);
            },
        }
        self.routes.prefilter = prefilter;
        self.routes.always_possible = always;
    }

    /// Removes the route of `key`, if there is one.
    pub fn remove(&mut self, key: &K)
        requires
            lawful_key_order::<K>(),
        ensures
            final(self).wf(),
            final(self)@.0 == old(self)@.0.remove(*key),
            final(self)@.1 == old(self)@.1.remove(*key),
    {
        proof {
            use_type_invariant(&self.routes);
        }
        let mut always = BTreeSet::new();
        let mut prefilter = InnerPrefilter::new();
        std::mem::swap(&mut always, &mut self.routes.always_possible);
        std::mem::swap(&mut prefilter, &mut self.routes.prefilter);
        always.remove(key);
        prefilter.remove(key);
        self.routes.prefilter = prefilter;
        self.routes.always_possible = always;
    }

    /// Returns an iterator over the keys that may match `value`, in
    /// increasing order: every always-possible key, and every key one of
    /// whose prefixes starts `value`.
    pub fn possible_matches<'a>(&'a self, value: &'a str) -> (r: RouterPrefilterIter<'a, K>)
        requires
            lawful_key_order::<K>(),
            self.spec_len() <= usize::MAX,
        ensures
            r.wf(),
            strictly_increasing(r@),
            r@.to_set() == self.possible_keys(value.spec_bytes()),
    {
        proof {
            use_type_invariant(&self.routes);
        }
        let value = value.as_bytes();
        let filtered_keys = self.routes.prefilter.check(value);
        let always = sorted_keys(&self.routes.always_possible);
        proof {
            let a = always@.unref();
            let f = filtered_keys@.unref();
            lemma_increasing_no_duplicates(a);
            lemma_increasing_no_duplicates(f);
            a.unique_seq_to_set();
            f.unique_seq_to_set();
            self.routes.prefilter.lemma_finite();
            assert(f.to_set().subset_of(self@.1.dom()));
            vstd::set_lib::lemma_len_subset(f.to_set(), self@.1.dom());
            assert(a.to_set().disjoint(f.to_set()));
            lemma_merge(a, f);
        }
        let inner = if filtered_keys.is_empty() {
            proof {
                assert(filtered_keys@.unref().to_set() =~= Set::<K>::empty());
                assert(always@.unref().to_set() + Set::<K>::empty() =~= always@.unref().to_set());
                assert(always@.unref().subrange(0, always@.len() as int) =~= always@.unref());
            }
            RouterPrefilterIterState::OnlyAlways(KeyCursor { keys: always, pos: 0 })
        } else {
            proof {
                assert(always@.unref().subrange(0, always@.len() as int) =~= always@.unref());
                assert(filtered_keys@.unref().subrange(0, filtered_keys@.len() as int)
                    =~= filtered_keys@.unref());
            }
            RouterPrefilterIterState::Union(
                UnionIter::new(
                    KeyCursor { keys: always, pos: 0 },
                    KeyCursor { keys: filtered_keys, pos: 0 },
                ),
            )
        };
        RouterPrefilterIter(inner)
    }

    /// Returns a mutable reference to the embedded prefilter builder, whose
    /// allocations can then be reused.
    pub fn prefilter_builder(&mut self) -> (r: &mut PrefilterBuilder)
        ensures
            *r == old(self).spec_builder(),
            final(self).spec_builder() == *final(r),
            final(self)@ == old(self)@,
    {
        &mut self.builder
    }

    /// Removes all routes from the prefilter.
    pub fn clear(&mut self)
        ensures
            final(self).wf(),
            final(self)@.0 == Set::<K>::empty(),
            final(self)@.1 == Map::<K, Seq<Seq<u8>>>::empty(),
    {
        self.routes = Routes { always_possible: BTreeSet::new(), prefilter: InnerPrefilter::new() };
    }
}

/// A builder for prefilters.
#[derive(Debug)]
pub struct PrefilterBuilder {
    matcher_visitor: MatcherVisitor,
}

impl Default for PrefilterBuilder {
    fn default() -> (r: Self)
        ensures
            r.is_fresh(),
    {
        Self::new()
    }
}

impl PrefilterBuilder {
    /// The builder's visitor holds nothing from earlier matchers.
    pub closed spec fn is_fresh(&self) -> bool {
        self.matcher_visitor.is_fresh()
    }

    /// Creates a new prefilter builder.
    pub fn new() -> (r: Self)
        ensures
            r.is_fresh(),
    {
        Self { matcher_visitor: MatcherVisitor::new() }
    }

    /// Computes a prefilter (if possible) for the given matcher.
    ///
    /// The matcher is shown a fresh [`MatcherVisitor`]; the result is what
    /// [`MatcherVisitor::finish`] makes of what it visited: `None` if no
    /// literal prefix can be extracted. For a matcher type that obeys its
    /// [`Matcher::spec_visit`], that is the single prefix it requires, or
    /// `None` when it requires the empty prefix.
    pub fn compute_prefilter<M: Matcher>(&mut self, matcher: M) -> (r: Option<MatchPrefilter>)
        ensures
            final(self).is_fresh(),
            r matches Some(p) ==> p.prefix_list().len() == 1 && valid_prefix_list(p.prefix_list()),
            M::obeys_visit_spec() ==> (r is Some <==> required_prefix_of(matcher).len() > 0),
            M::obeys_visit_spec() ==> (r matches Some(p) ==> p.prefix_list() == seq![
                required_prefix_of(matcher),
            ]),
    {
        self.matcher_visitor.reset();
        assert(self.matcher_visitor.required_prefix() =~= Seq::<u8>::empty());
        matcher.visit(&mut self.matcher_visitor);
        match self.matcher_visitor.finish() {
            Some(prefixes) => Some(MatchPrefilter::from_prefixes(prefixes)),
            None => None,
        }
    }
}

/// The prefilter for a single matcher: a collection of prefixes, at least
/// one of which starts every value the matcher matches.
///
/// Obtained via [`PrefilterBuilder::compute_prefilter`].
#[derive(Debug, PartialEq, Eq)]
pub struct MatchPrefilter {
    prefixes: Vec<BString>,
}

impl MatchPrefilter {
    /// The bytes of each prefix.
    pub closed spec fn prefix_list(&self) -> Seq<Seq<u8>> {
        prefix_seq(self.prefixes@)
    }

    #[verifier::type_invariant]
    spec fn inv(&self) -> bool {
        valid_prefix_list(self.prefix_list())
    }

    fn from_prefixes(prefixes: Vec<Vec<u8>>) -> (r: Self)
        requires
            valid_prefix_list(prefixes@.map_values(|p: Vec<u8>| p@)),
        ensures
            r.prefix_list() == prefixes@.map_values(|p: Vec<u8>| p@),
    {
        let ghost want = prefixes@.map_values(|p: Vec<u8>| p@);
        let mut out: Vec<BString> = Vec::new();
        let mut i: usize = 0;
        while i < prefixes.len()
            invariant
                want == prefixes@.map_values(|p: Vec<u8>| p@),
                i <= prefixes@.len(),
                out@.len() == i,
                prefix_seq(out@) == want.take(i as int),
            decreases prefixes@.len() - i,
        {
            let b = bstring_new(vstd::slice::slice_to_vec(prefixes[i].as_slice()));
            let ghost before = out@;
            out.push(b);
            proof {
                assert(bstring_bytes(b) == want[i as int]);
                assert forall|j: int| 0 <= j < i + 1 implies #[trigger] prefix_seq(out@)[j]
                    == want.take(i + 1)[j] by {
                    if j < i {
                        assert(out@[j] == before[j]);
                        assert(prefix_seq(before)[j] == want.take(i as int)[j]);
                    }
                }
                assert(prefix_seq(out@) =~= want.take(i + 1));
            }
            i = i + 1;
        }
        proof {
            assert(prefix_seq(out@) =~= want);
        }
        MatchPrefilter { prefixes: out }
    }

    /// Returns the number of prefixes.
    pub fn len(&self) -> (r: usize)
        ensures
            r == self.prefix_list().len(),
            r > 0,
    {
        proof {
            use_type_invariant(self);
        }
        self.prefixes.len()
    }

    /// Returns `true` if there are no prefixes, which never happens.
    pub fn is_empty(&self) -> (r: bool)
        ensures
            r == (self.prefix_list().len() == 0),
            !r,
    {
        proof {
            use_type_invariant(self);
        }
        self.prefixes.len() == 0
    }

    /// The prefixes of this prefilter, as byte slices.
    pub fn prefixes(&self) -> (r: Vec<&[u8]>)
        ensures
            r@.len() == self.prefix_list().len(),
            forall|i: int| 0 <= i < r@.len() ==> (#[trigger] r@[i])@ == self.prefix_list()[i],
    {
        let mut out: Vec<&[u8]> = Vec::new();
        let mut i: usize = 0;
        while i < self.prefixes.len()
            invariant
                i <= self.prefixes@.len(),
                out@.len() == i,
                forall|j: int| 0 <= j < i ==> (#[trigger] out@[j])@ == self.prefix_list()[j],
            decreases self.prefixes@.len() - i,
        {
            out.push(bstring_as_slice(&self.prefixes[i]));
            i = i + 1;
        }
        out
    }
}

/// The keys of `set`, in increasing order.
fn sorted_keys<'a, K: Ord>(set: &'a BTreeSet<K>) -> (r: Vec<&'a K>)
    requires
        lawful_key_order::<K>(),
    ensures
        r@.unref().to_set() == set@,
        strictly_increasing(r@.unref()),
{
    let mut out: Vec<&'a K> = Vec::new();
    for k in it: set.iter()
        invariant
            out@ == it.seq().take(it.index() as int),
            it.seq() == set.iter().remaining(),
    {
        out.push(k);
    }
    assert(out@ == set.iter().remaining());
    proof {
        lemma_increasing_refs(out@);
    }
    out
}

/// A position in an increasing list of keys.
#[derive(Debug)]
struct KeyCursor<'a, K> {
    keys: Vec<&'a K>,
    pos: usize,
}

impl<'a, K> KeyCursor<'a, K> {
    /// The keys not yet passed.
    spec fn rest(&self) -> Seq<K> {
        self.keys@.unref().subrange(self.pos as int, self.keys@.len() as int)
    }

    spec fn wf(&self) -> bool {
        self.pos <= self.keys@.len()
    }

    fn peek(&self) -> (r: Option<&'a K>)
        requires
            self.wf(),
        ensures
            match r {
                Some(k) => self.rest().len() > 0 && *k == self.rest()[0],
                None => self.rest().len() == 0,
            },
    {
        if self.pos < self.keys.len() {
            Some(self.keys[self.pos])
        } else {
            None
        }
    }

    fn advance(&mut self)
        requires
            old(self).wf(),
            old(self).rest().len() > 0,
        ensures
            final(self).wf(),
            final(self).rest() == old(self).rest().drop_first(),
    {
        assert(self.pos < self.keys.len());
        self.pos = self.pos + 1;
        assert(self.rest() =~= old(self).rest().drop_first());
    }

    fn remaining(&self) -> (r: usize)
        requires
            self.wf(),
        ensures
            r == self.rest().len(),
    {
        self.keys.len() - self.pos
    }
}

/// Iterator over the union of always-possible and filtered keys.
///
/// No key is in both lists.
#[derive(Debug)]
struct UnionIter<'a, K> {
    always: KeyCursor<'a, K>,
    filtered: KeyCursor<'a, K>,
}

impl<'a, K: Ord> UnionIter<'a, K> {
    spec fn rest(&self) -> Seq<K> {
        merge(self.always.rest(), self.filtered.rest())
    }

    spec fn wf(&self) -> bool {
        &&& lawful_key_order::<K>()
        &&& self.always.wf()
        &&& self.filtered.wf()
        &&& strictly_increasing(self.always.rest())
        &&& strictly_increasing(self.filtered.rest())
        &&& self.always.rest().to_set().disjoint(self.filtered.rest().to_set())
        &&& self.always.rest().len() + self.filtered.rest().len() <= usize::MAX
    }

    fn new(always: KeyCursor<'a, K>, filtered: KeyCursor<'a, K>) -> (r: Self)
        ensures
            r.always == always,
            r.filtered == filtered,
    {
        Self { always, filtered }
    }

    /// Takes the smaller of the two heads.
    fn next(&mut self) -> (r: Option<&'a K>)
        requires
            old(self).wf(),
        ensures
            final(self).wf(),
            match r {
                Some(k) => old(self).rest().len() > 0 && *k == old(self).rest()[0]
                    && final(self).rest() == old(self).rest().drop_first()
                    && !final(self).rest().contains(*k),
                None => old(self).rest().len() == 0 && final(self).rest() == old(self).rest(),
            },
    {
        let ghost a = self.always.rest();
        let ghost f = self.filtered.rest();
        proof {
            lemma_merge_len(a, f);
            lemma_merge(a, f);
            if a.len() > 0 {
                lemma_drop_first_increasing(a);
                assert(a.drop_first().to_set().disjoint(f.to_set()));
            }
            if f.len() > 0 {
                lemma_drop_first_increasing(f);
                assert(a.to_set().disjoint(f.drop_first().to_set()));
            }
            if merge(a, f).len() > 0 {
                lemma_head_not_repeated(merge(a, f));
            }
        }
        match (self.always.peek(), self.filtered.peek()) {
            (Some(x), Some(y)) => {
                if key_less(x, y) {
                    self.always.advance();
                    assert(self.rest() =~= merge(a, f).drop_first());
                    Some(x)
                } else {
                    self.filtered.advance();
                    assert(self.rest() =~= merge(a, f).drop_first());
                    Some(y)
                }
            },
            (Some(k), None) => {
                self.always.advance();
                assert(self.rest() =~= merge(a, f).drop_first());
                Some(k)
            },
            (None, Some(k)) => {
                self.filtered.advance();
                assert(self.rest() =~= merge(a, f).drop_first());
                Some(k)
            },
            (None, None) => None,
        }
    }

    fn len(&self) -> (r: usize)
        requires
            self.wf(),
        ensures
            r == self.rest().len(),
    {
        proof {
            lemma_merge_len(self.always.rest(), self.filtered.rest());
        }
        self.always.remaining() + self.filtered.remaining()
    }
}

#[derive(Debug)]
enum RouterPrefilterIterState<'a, K> {
    OnlyAlways(KeyCursor<'a, K>),
    Union(UnionIter<'a, K>),
}

/// Iterator over the keys that may match a given value.
///
/// Created by [`RouterPrefilter::possible_matches`]. Yields keys in
/// ascending order.
#[derive(Debug)]
pub struct RouterPrefilterIter<'a, K>(RouterPrefilterIterState<'a, K>);

impl<'a, K: Ord> View for RouterPrefilterIter<'a, K> {
    /// The keys still to come.
    type V = Seq<K>;

    closed spec fn view(&self) -> Seq<K> {
        match self.0 {
            RouterPrefilterIterState::OnlyAlways(c) => c.rest(),
            RouterPrefilterIterState::Union(u) => u.rest(),
        }
    }
}

impl<'a, K: Ord> RouterPrefilterIter<'a, K> {
    /// The iterator's positions are in range and the keys still to come are
    /// in increasing order.
    pub closed spec fn wf(&self) -> bool {
        match self.0 {
            RouterPrefilterIterState::OnlyAlways(c) => {
                &&& lawful_key_order::<K>()
                &&& c.wf()
                &&& strictly_increasing(c.rest())
            },
            RouterPrefilterIterState::Union(u) => u.wf(),
        }
    }

    /// Yields the next key, or `None` once all keys have been yielded.
    pub fn next(&mut self) -> (r: Option<&'a K>)
        requires
            old(self).wf(),
        ensures
            final(self).wf(),
            match r {
                Some(k) => {
                    &&& old(self)@.len() > 0
                    &&& *k == old(self)@[0]
                    &&& final(self)@ == old(self)@.drop_first()
                    &&& !final(self)@.contains(*k)
                },
                None => old(self)@.len() == 0 && final(self)@ == old(self)@,
            },
    {
        match &mut self.0 {
            RouterPrefilterIterState::OnlyAlways(inner) => {
                let ghost a = inner.rest();
                let r = inner.peek();
                if r.is_some() {
                    proof {
                        lemma_drop_first_increasing(a);
                        lemma_head_not_repeated(a);
                    }
                    inner.advance();
                }
                r
            },
            RouterPrefilterIterState::Union(inner) => inner.next(),
        }
    }

    /// The number of keys still to come.
    pub fn len(&self) -> (r: usize)
        requires
            self.wf(),
        ensures
            r == self@.len(),
    {
        match &self.0 {
            RouterPrefilterIterState::OnlyAlways(inner) => inner.remaining(),
            RouterPrefilterIterState::Union(inner) => inner.len(),
        }
    }

    /// The exact number of keys still to come, as a lower and upper bound.
    pub fn size_hint(&self) -> (r: (usize, Option<usize>))
        requires
            self.wf(),
        ensures
            r == (self@.len() as usize, Some(self@.len() as usize)),
    {
        let n = self.len();
        (n, Some(n))
    }

    /// Collects the keys still to come, in order.
    pub fn into_vec(self) -> (r: Vec<&'a K>)
        requires
            self.wf(),
        ensures
            r@.unref() == self@,
    {
        let mut it = self;
        let ghost all = it@;
        let mut out: Vec<&'a K> = Vec::new();
        loop
            invariant
                it.wf(),
                all == self@,
                out@.unref() + it@ == all,
            decreases it@.len(),
        {
            let ghost before = it@;
            match it.next() {
                Some(k) => {
                    out.push(k);
                    proof {
                        assert(out@.unref() + it@ =~= all);
                    }
                },
                None => {
                    proof {
                        assert(out@.unref() =~= all);
                    }
                    return out;
                },
            }
        }
    }
}

impl Clone for MatchPrefilter {
    fn clone(&self) -> (r: Self)
        ensures
            r.prefix_list() == self.prefix_list(),
    {
        proof {
            use_type_invariant(self);
        }
        let mut out: Vec<BString> = Vec::new();
        let mut i: usize = 0;
        while i < self.prefixes.len()
            invariant
                i <= self.prefixes@.len(),
                out@.len() == i,
                prefix_seq(out@) == self.prefix_list().take(i as int),
            decreases self.prefixes@.len() - i,
        {
            let b = bstring_clone(&self.prefixes[i]);
            let ghost before = out@;
            out.push(b);
            proof {
                assert(bstring_bytes(b) == self.prefix_list()[i as int]);
                assert forall|j: int| 0 <= j < i + 1 implies #[trigger] prefix_seq(out@)[j]
                    == self.prefix_list().take(i + 1)[j] by {
                    if j < i {
                        assert(out@[j] == before[j]);
                        assert(prefix_seq(before)[j] == self.prefix_list().take(i as int)[j]);
                    }
                }
                assert(prefix_seq(out@) =~= self.prefix_list().take(i + 1));
            }
            i = i + 1;
        }
        proof {
            assert(prefix_seq(out@) =~= self.prefix_list());
        }
        MatchPrefilter { prefixes: out }
    }
}

} // verus!
