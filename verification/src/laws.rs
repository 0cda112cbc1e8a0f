//! Properties that relate the operations of the prefilter to one another.
use crate::inner_prefilter::{admitted_keys, route_admits};
use crate::matchers::{required_prefix_of, Matcher};
use crate::order::{
    lawful_key_order, lemma_increasing_no_duplicates, lemma_sorted_unique, strictly_increasing,
};
use crate::{MatchPrefilter, RouterPrefilter};
use vstd::prelude::*;

verus! {

/// Every always-possible key may match every value; a key filtered by
/// prefixes may match exactly the values that one of its prefixes starts;
/// no other key may match anything.
pub proof fn law_possible_keys<K: Ord>(p: RouterPrefilter<K>, value: Seq<u8>, key: K)
    requires
        p.wf(),
    ensures
        p@.0.contains(key) ==> p.possible_keys(value).contains(key),
        p@.1.contains_key(key) ==> (p.possible_keys(value).contains(key) <==> route_admits(
            p@.1[key],
            value,
        )),
        !p@.0.contains(key) && !p@.1.contains_key(key) ==> !p.possible_keys(value).contains(key),
{
    assert(p@.1.contains_key(key) ==> !p@.0.contains(key));
}

/// After a key is inserted with prefixes, it may match exactly the values
/// that one of those prefixes starts, and no other key is affected. The
/// prefilter grows by one exactly when the key was new, the filtered routes
/// by one exactly when the key had no prefixes, and it can filter.
pub proof fn law_insert_with_prefixes<K: Ord>(
    before: RouterPrefilter<K>,
    after: RouterPrefilter<K>,
    key: K,
    prefixes: Seq<Seq<u8>>,
    value: Seq<u8>,
)
    requires
        before.wf(),
        after.wf(),
        after@.0 == before@.0.remove(key),
        after@.1 == before@.1.insert(key, prefixes),
    ensures
        after.possible_keys(value).contains(key) <==> route_admits(prefixes, value),
        forall|k: K|
            k != key ==> (#[trigger] after.possible_keys(value).contains(k)
                <==> before.possible_keys(value).contains(k)),
        after.spec_len() == before.spec_len() + if before@.0.contains(key)
            || before@.1.contains_key(key) {
            0int
        } else {
            1int
        },
        after@.1.dom().len() == before@.1.dom().len() + if before@.1.contains_key(key) {
            0int
        } else {
            1int
        },
        after@.1.dom().len() > 0,
{
    assert(after@.1.dom() =~= before@.1.dom().insert(key));
    before.lemma_finite();
    assert(after@.1.dom().contains(key));
    assert(after@.0.remove(key) =~= before@.0.remove(key));
    assert(after@.1.remove(key) =~= before@.1.remove(key));
    law_insert_counts_once(before, after, key);
}

/// A route with the single prefix `p` admits exactly the values that start
/// with `p`; so a key inserted through a matcher that requires `p` may
/// match exactly those values.
pub proof fn law_single_prefix_admits(p: Seq<u8>, value: Seq<u8>)
    ensures
        route_admits(seq![p], value) <==> p.is_prefix_of(value),
{
    if p.is_prefix_of(value) {
        assert(seq![p][0] == p);
    }
}

/// After a key is inserted without prefixes, it may match every value, and
/// no other key is affected. The prefilter grows by one exactly when the key
/// was new, and the filtered routes shrink by one exactly when it had prefixes.
pub proof fn law_insert_always_possible<K: Ord>(
    before: RouterPrefilter<K>,
    after: RouterPrefilter<K>,
    key: K,
    value: Seq<u8>,
)
    requires
        before.wf(),
        after.wf(),
        after@.0 == before@.0.insert(key),
        after@.1 == before@.1.remove(key),
    ensures
        after.possible_keys(value).contains(key),
        forall|k: K|
            k != key ==> (#[trigger] after.possible_keys(value).contains(k)
                <==> before.possible_keys(value).contains(k)),
        after.spec_len() == before.spec_len() + if before@.0.contains(key)
            || before@.1.contains_key(key) {
            0int
        } else {
            1int
        },
        after@.1.dom().len() + if before@.1.contains_key(key) {
            1int
        } else {
            0int
        } == before@.1.dom().len(),
{
    assert(after@.1.dom() =~= before@.1.dom().remove(key));
    before.lemma_finite();
    vstd::set::axiom_set_remove_len(before@.1.dom(), key);
    assert(after@.0.remove(key) =~= before@.0.remove(key));
    assert(after@.1.remove(key) =~= before@.1.remove(key));
    law_insert_counts_once(before, after, key);
}

/// Inserting a key replaces its earlier route: the prefilter counts it once,
/// and grows by one exactly when the key was new.
pub proof fn law_insert_counts_once<K: Ord>(
    before: RouterPrefilter<K>,
    after: RouterPrefilter<K>,
    key: K,
)
    requires
        before.wf(),
        after.wf(),
        after@.0.remove(key) == before@.0.remove(key),
        after@.1.remove(key) == before@.1.remove(key),
        after@.0.contains(key) || after@.1.contains_key(key),
    ensures
        after.spec_len() == before.spec_len() + if before@.0.contains(key)
            || before@.1.contains_key(key) {
            0int
        } else {
            1int
        },
{
    before.lemma_finite();
    after.lemma_finite();
    let a0 = before@.0;
    let a1 = before@.1.dom();
    let b0 = after@.0;
    let b1 = after@.1.dom();
    assert(a0.remove(key) == b0.remove(key));
    assert(a1.remove(key) =~= b1.remove(key)) by {
        assert(before@.1.remove(key).dom() =~= a1.remove(key));
        assert(after@.1.remove(key).dom() =~= b1.remove(key));
    }
    vstd::set::axiom_set_remove_len(a0, key);
    vstd::set::axiom_set_remove_len(a1, key);
    vstd::set::axiom_set_remove_len(b0, key);
    vstd::set::axiom_set_remove_len(b1, key);
    assert(!(b0.contains(key) && b1.contains(key)));
    assert(!(a0.contains(key) && a1.contains(key)));
}

/// After a key is removed it matches no value, the other keys are as
/// before, and the prefilter shrinks by one exactly when the key was there.
pub proof fn law_remove<K: Ord>(
    before: RouterPrefilter<K>,
    after: RouterPrefilter<K>,
    key: K,
    value: Seq<u8>,
)
    requires
        before.wf(),
        after@.0 == before@.0.remove(key),
        after@.1 == before@.1.remove(key),
    ensures
        !after.possible_keys(value).contains(key),
        forall|k: K|
            k != key ==> (#[trigger] after.possible_keys(value).contains(k)
                <==> before.possible_keys(value).contains(k)),
        !before@.0.contains(key) && !before@.1.contains_key(key) ==> after@ == before@,
        after.spec_len() + if before@.0.contains(key) || before@.1.contains_key(key) {
            1int
        } else {
            0int
        } == before.spec_len(),
{
    before.lemma_finite();
    let a0 = before@.0;
    let a1 = before@.1.dom();
    assert(after@.1.dom() =~= a1.remove(key));
    if !a0.contains(key) && !a1.contains(key) {
        assert(after@.0 =~= a0);
        assert(after@.1 =~= before@.1);
    }
    vstd::set::axiom_set_remove_len(a0, key);
    vstd::set::axiom_set_remove_len(a1, key);
    assert(!(a0.contains(key) && a1.contains(key)));
}

/// Removing a key undoes inserting it: whatever route the key had before,
/// inserting and then removing it leaves what removing it alone leaves.
pub proof fn law_remove_undoes_insert<K: Ord>(
    start: RouterPrefilter<K>,
    inserted: RouterPrefilter<K>,
    removed: RouterPrefilter<K>,
    key: K,
)
    requires
        inserted@.0.remove(key) == start@.0.remove(key),
        inserted@.1.remove(key) == start@.1.remove(key),
        removed@.0 == inserted@.0.remove(key),
        removed@.1 == inserted@.1.remove(key),
    ensures
        removed@.0 == start@.0.remove(key),
        removed@.1 == start@.1.remove(key),
{
}

/// A cleared prefilter holds no route and matches nothing.
pub proof fn law_clear<K: Ord>(after: RouterPrefilter<K>, value: Seq<u8>)
    requires
        after@.0 == Set::<K>::empty(),
        after@.1 == Map::<K, Seq<Seq<u8>>>::empty(),
    ensures
        after.spec_len() == 0,
        after.possible_keys(value) == Set::<K>::empty(),
{
    assert(after@.1.dom() =~= Set::<K>::empty());
    assert(after.possible_keys(value) =~= Set::<K>::empty());
}

/// A copy matches the same keys as the prefilter it was made from, for every value.
pub proof fn law_clone<K: Ord>(source: RouterPrefilter<K>, copy: RouterPrefilter<K>, value: Seq<u8>)
    requires
        copy@ == source@,
    ensures
        copy.possible_keys(value) == source.possible_keys(value),
        copy.spec_len() == source.spec_len(),
{
}

/// The keys that a query yields are all the possible keys, each once.
pub proof fn law_matches_listed_once<K: Ord>(
    p: RouterPrefilter<K>,
    value: Seq<u8>,
    yielded: Seq<K>,
)
    requires
        lawful_key_order::<K>(),
        strictly_increasing(yielded),
        yielded.to_set() == p.possible_keys(value),
    ensures
        yielded.no_duplicates(),
        yielded.len() == p.possible_keys(value).len(),
        forall|k: K| #[trigger] yielded.contains(k) <==> p.possible_keys(value).contains(k),
{
    lemma_increasing_no_duplicates(yielded);
    yielded.unique_seq_to_set();
}

/// A prefilter counts each key it holds once: its length is the number of
/// distinct keys, at least the number of keys filtered by prefixes.
pub proof fn law_len_counts_each_key_once<K: Ord>(p: RouterPrefilter<K>)
    requires
        p.wf(),
    ensures
        p.spec_len() == (p@.0 + p@.1.dom()).len(),
        p.spec_len() >= p@.1.dom().len(),
{
    p.lemma_finite();
    vstd::set_lib::lemma_set_disjoint_lens(p@.0, p@.1.dom());
}

/// Asking twice with the same value yields the same keys in the same order:
/// a query's listing is fixed by the prefilter and the value.
pub proof fn law_query_deterministic<K: Ord>(
    p: RouterPrefilter<K>,
    value: Seq<u8>,
    first: Seq<K>,
    second: Seq<K>,
)
    requires
        lawful_key_order::<K>(),
        strictly_increasing(first),
        strictly_increasing(second),
        first.to_set() == p.possible_keys(value),
        second.to_set() == p.possible_keys(value),
    ensures
        first == second,
{
    lemma_sorted_unique(first, second);
}

/// Extending a value never drops a candidate: every key that may match a
/// value may match every value that starts with it.
pub proof fn law_extension_keeps_candidates<K: Ord>(
    p: RouterPrefilter<K>,
    value: Seq<u8>,
    longer: Seq<u8>,
)
    requires
        value.is_prefix_of(longer),
    ensures
        p.possible_keys(value).subset_of(p.possible_keys(longer)),
{
    assert forall|k: K| p.possible_keys(value).contains(k) implies p.possible_keys(
        longer,
    ).contains(k) by {
        if !p@.0.contains(k) {
            let ps = p@.1[k];
            let i = choose|i: int| 0 <= i < ps.len() && #[trigger] ps[i].is_prefix_of(value);
            assert(ps[i].is_prefix_of(longer));
        }
    }
}

/// What each key was last inserted with: `None` for an always-possible key,
/// or its prefixes.
pub open spec fn models<K>(
    v: (Set<K>, Map<K, Seq<Seq<u8>>>),
    history: Map<K, Option<Seq<Seq<u8>>>>,
) -> bool {
    &&& forall|k: K| #[trigger] v.0.contains(k) <==> history.contains_key(k) && history[k] is None
    &&& forall|k: K|
        #[trigger] v.1.contains_key(k) <==> history.contains_key(k) && history[k] is Some
    &&& forall|k: K| #[trigger] v.1.contains_key(k) ==> history[k] == Some(v.1[k])
}

/// The keys that a history of insertions says may match `value`.
pub open spec fn history_keys<K>(history: Map<K, Option<Seq<Seq<u8>>>>, value: Seq<u8>) -> Set<K> {
    Set::new(
        |k: K|
            history.contains_key(k) && match history[k] {
                None => true,
                Some(ps) => route_admits(ps, value),
            },
    )
}

/// Over any history of operations, the keys that may match a value are the
/// keys present whose last insertion had no prefilter, or one of whose
/// prefixes starts the value.
pub proof fn law_history_possible_keys<K: Ord>(
    p: RouterPrefilter<K>,
    history: Map<K, Option<Seq<Seq<u8>>>>,
    value: Seq<u8>,
)
    requires
        models(p@, history),
    ensures
        p.possible_keys(value) == history_keys(history, value),
{
    assert forall|k: K| p.possible_keys(value).contains(k) <==> #[trigger] history_keys(
        history,
        value,
    ).contains(k) by {
        if p@.1.contains_key(k) {
            assert(history[k] == Some(p@.1[k]));
        }
    }
    assert(p.possible_keys(value) =~= history_keys(history, value));
}

/// A new or cleared prefilter models the empty history.
pub proof fn law_history_empty<K: Ord>(p: RouterPrefilter<K>)
    requires
        p@.0 == Set::<K>::empty(),
        p@.1 == Map::<K, Seq<Seq<u8>>>::empty(),
    ensures
        models(p@, Map::<K, Option<Seq<Seq<u8>>>>::empty()),
{
}

/// Inserting a prefilter (or none) records it as the key's last insertion.
pub proof fn law_history_insert_prefilter<K: Ord>(
    before: RouterPrefilter<K>,
    after: RouterPrefilter<K>,
    history: Map<K, Option<Seq<Seq<u8>>>>,
    key: K,
    prefixes: Option<Seq<Seq<u8>>>,
)
    requires
        models(before@, history),
        match prefixes {
            Some(ps) => {
                &&& after@.0 == before@.0.remove(key)
                &&& after@.1 == before@.1.insert(key, ps)
            },
            None => {
                &&& after@.0 == before@.0.insert(key)
                &&& after@.1 == before@.1.remove(key)
            },
        },
    ensures
        models(after@, history.insert(key, prefixes)),
{
}

/// Removing a key drops it from the history.
pub proof fn law_history_remove<K: Ord>(
    before: RouterPrefilter<K>,
    after: RouterPrefilter<K>,
    history: Map<K, Option<Seq<Seq<u8>>>>,
    key: K,
)
    requires
        models(before@, history),
        after@.0 == before@.0.remove(key),
        after@.1 == before@.1.remove(key),
    ensures
        models(after@, history.remove(key)),
{
}

/// For matchers that state their visit, equal required prefixes give equal
/// prefilters: a builder's result depends on nothing but the matcher.
pub proof fn law_compute_prefilter_determined<M1: Matcher, M2: Matcher>(
    m1: M1,
    r1: Option<MatchPrefilter>,
    m2: M2,
    r2: Option<MatchPrefilter>,
)
    requires
        M1::obeys_visit_spec(),
        M2::obeys_visit_spec(),
        required_prefix_of(m1) == required_prefix_of(m2),
        r1 is Some <==> required_prefix_of(m1).len() > 0,
        r1 matches Some(p) ==> p.prefix_list() == seq![required_prefix_of(m1)],
        r2 is Some <==> required_prefix_of(m2).len() > 0,
        r2 matches Some(p) ==> p.prefix_list() == seq![required_prefix_of(m2)],
    ensures
        r1 is Some <==> r2 is Some,
        r1 is Some ==> r1->0.prefix_list() == r2->0.prefix_list(),
{
}

/// Inserting a matcher that states its visit has the effect of inserting
/// the prefilter that a builder computes for it.
pub proof fn law_insert_is_insert_prefilter<K: Ord, M: Matcher>(
    before: RouterPrefilter<K>,
    by_insert: RouterPrefilter<K>,
    by_insert_prefilter: RouterPrefilter<K>,
    key: K,
    matcher: M,
    computed: Option<MatchPrefilter>,
)
    requires
        M::obeys_visit_spec(),
        computed is Some <==> required_prefix_of(matcher).len() > 0,
        computed matches Some(p) ==> p.prefix_list() == seq![required_prefix_of(matcher)],
        if required_prefix_of(matcher).len() > 0 {
            &&& by_insert@.0 == before@.0.remove(key)
            &&& by_insert@.1 == before@.1.insert(key, seq![required_prefix_of(matcher)])
        } else {
            &&& by_insert@.0 == before@.0.insert(key)
            &&& by_insert@.1 == before@.1.remove(key)
        },
        match computed {
            Some(p) => {
                &&& by_insert_prefilter@.0 == before@.0.remove(key)
                &&& by_insert_prefilter@.1 == before@.1.insert(key, p.prefix_list())
            },
            None => {
                &&& by_insert_prefilter@.0 == before@.0.insert(key)
                &&& by_insert_prefilter@.1 == before@.1.remove(key)
            },
        },
    ensures
        by_insert@ == by_insert_prefilter@,
        by_insert.spec_len() == by_insert_prefilter.spec_len(),
{
}

} // verus!
