//! The routes that carry literal prefixes, each checked against its own prefixes.
use crate::byte_string::{bstring_as_slice, bstring_bytes};
use crate::order::{lawful_key_order, strictly_increasing};
use bstr::BString;
use std::collections::BTreeMap;
use vstd::prelude::*;
use vstd::std_specs::iter::IteratorSpec;

verus! {

broadcast use vstd::std_specs::btree::group_btree_axioms;

/// The bytes of each prefix in a list of byte strings.
pub open spec fn prefix_seq(prefixes: Seq<BString>) -> Seq<Seq<u8>> {
    prefixes.map_values(|b: BString| bstring_bytes(b))
}

/// Some prefix in `prefixes` is a prefix of `value`.
pub open spec fn route_admits(prefixes: Seq<Seq<u8>>, value: Seq<u8>) -> bool {
    exists|i: int| 0 <= i < prefixes.len() && #[trigger] prefixes[i].is_prefix_of(value)
}

/// The keys of the routes in `routes` that admit `value`.
pub open spec fn admitted_keys<K>(routes: Map<K, Seq<Seq<u8>>>, value: Seq<u8>) -> Set<K> {
    Set::new(|k: K| routes.contains_key(k) && route_admits(routes[k], value))
}

/// Whether `prefix` is a prefix of `value`.
pub fn bytes_start_with(value: &[u8], prefix: &[u8]) -> (r: bool)
    ensures
        r == prefix@.is_prefix_of(value@),
{
    if prefix.len() > value.len() {
        return false;
    }
    let mut i: usize = 0;
    while i < prefix.len()
        invariant
            prefix@.len() <= value@.len(),
            i <= prefix@.len(),
            forall|j: int| 0 <= j < i ==> prefix@[j] == value@[j],
        decreases prefix@.len() - i,
    {
        if prefix[i] != value[i] {
            return false;
        }
        i = i + 1;
    }
    true
}

/// Whether some prefix in `prefixes` is a prefix of `value`.
fn any_prefix_of(prefixes: &Vec<BString>, value: &[u8]) -> (r: bool)
    ensures
        r == route_admits(prefix_seq(prefixes@), value@),
{
    let ghost ps = prefix_seq(prefixes@);
    let mut i: usize = 0;
    while i < prefixes.len()
        invariant
            ps == prefix_seq(prefixes@),
            i <= prefixes@.len(),
            forall|j: int| 0 <= j < i ==> !(#[trigger] ps[j]).is_prefix_of(value@),
        decreases prefixes@.len() - i,
    {
        let p = bstring_as_slice(&prefixes[i]);
        if bytes_start_with(value, p) {
            assert(ps[i as int].is_prefix_of(value@));
            return true;
        }
        i = i + 1;
    }
    false
}

/// Routes keyed by `K`, each with the prefixes of which a value must start
/// with one for the route to possibly match.
#[derive(Debug)]
pub(crate) struct InnerPrefilter<K> {
    routes: BTreeMap<K, Vec<BString>>,
}

impl<K> InnerPrefilter<K> {
    /// Each key with the bytes of its prefixes.
    pub closed spec fn view(&self) -> Map<K, Seq<Seq<u8>>> {
        self.routes@.map_values(|v: Vec<BString>| prefix_seq(v@))
    }

    /// Only finitely many keys have a route.
    pub(crate) proof fn lemma_finite(&self)
        ensures
            self.view().dom().finite(),
    {
        assert(self.view().dom() =~= self.routes@.dom());
    }

    pub(crate) fn new() -> (r: Self)
        ensures
            r.view() == Map::<K, Seq<Seq<u8>>>::empty(),
    {
        let r = InnerPrefilter { routes: BTreeMap::new() };
        assert(r.view() =~= Map::<K, Seq<Seq<u8>>>::empty());
        r
    }

    pub(crate) fn is_empty(&self) -> (r: bool)
        ensures
            r == (self.view().dom().len() == 0),
    {
        assert(self.view().dom() =~= self.routes@.dom());
        let r = self.routes.is_empty();
        proof {
            if !r {
                let k = self.routes@.dom().choose();
                assert(self.routes@.dom().contains(k));
            }
        }
        r
    }

    pub(crate) fn num_routes(&self) -> (r: usize)
        ensures
            vstd::std_specs::btree::key_obeys_cmp_spec::<K>() ==> r == self.view().dom().len(),
    {
        assert(self.view().dom() =~= self.routes@.dom());
        self.routes.len()
    }
}

impl<K: Clone> Clone for InnerPrefilter<K> {
    fn clone(&self) -> (r: Self)
        ensures
            r.view() == self.view(),
    {
        InnerPrefilter { routes: self.routes.clone() }
    }
}

impl<K: Ord> InnerPrefilter<K> {
    /// Sets the prefixes of `key`, replacing any it had.
    pub(crate) fn insert(&mut self, key: K, prefixes: Vec<BString>)
        requires
            lawful_key_order::<K>(),
        ensures
            final(self).view() == old(self).view().insert(key, prefix_seq(prefixes@)),
    {
        self.routes.insert(key, prefixes);
        assert(self.view() =~= old(self).view().insert(key, prefix_seq(prefixes@)));
    }

    /// Drops the route of `key`, if there is one.
    pub(crate) fn remove(&mut self, key: &K)
        requires
            lawful_key_order::<K>(),
        ensures
            final(self).view() == old(self).view().remove(*key),
    {
        self.routes.remove(key);
        assert(self.view() =~= old(self).view().remove(*key));
    }

    pub(crate) fn clear(&mut self)
        ensures
            final(self).view() == Map::<K, Seq<Seq<u8>>>::empty(),
    {
        self.routes.clear();
        assert(self.view() =~= Map::<K, Seq<Seq<u8>>>::empty());
    }

    /// The keys of the routes that admit `value`, in increasing order.
    pub(crate) fn check<'a>(&'a self, value: &[u8]) -> (r: Vec<&'a K>)
        requires
            lawful_key_order::<K>(),
        ensures
            r@.unref().to_set() == admitted_keys(self.view(), value@),
            strictly_increasing(r@.unref()),
    {
        let mut out: Vec<&'a K> = Vec::new();
        let ghost mut src: Seq<int> = Seq::empty();
        for kv in it: self.routes.iter()
            invariant
                it.seq() == self.routes.iter().remaining(),
                out@.len() == src.len(),
                forall|j: int| 0 <= j < src.len() ==> 0 <= #[trigger] src[j] < it.index(),
                forall|j: int, l: int| 0 <= j < l < src.len() ==> #[trigger] src[j] < #[trigger] src[l],
                forall|j: int| 0 <= j < src.len() ==> *out@[j] == *it.seq()[#[trigger] src[j]].0,
                forall|j: int| 0 <= j < src.len() ==> route_admits(prefix_seq(it.seq()[#[trigger] src[j]].1@), value@),
                forall|i: int| 0 <= i < it.index() && route_admits(prefix_seq(it.seq()[i].1@), value@)
                    ==> #[trigger] out@.unref().contains(*it.seq()[i].0),
        {
            let ghost pre = out@;
            let (k, v) = kv;
            if any_prefix_of(v, value) {
                proof {
                    src = src.push(it.index() as int);
                }
                out.push(k);
            }
            proof {
                let idx = it.index();
                assert forall|i: int|
                    0 <= i <= idx && route_admits(prefix_seq(it.seq()[i].1@), value@) implies
                    #[trigger] out@.unref().contains(*it.seq()[i].0) by {
                    if i < idx {
                        assert(pre.unref().contains(*it.seq()[i].0));
                        let j = choose|j: int| 0 <= j < pre.len() && pre.unref()[j] == *it.seq()[i].0;
                        assert(out@.unref()[j] == *it.seq()[i].0);
                    } else {
                        assert(out@.unref()[out@.len() - 1] == *it.seq()[i].0);
                    }
                }
            }
        }
        proof {
            let items = self.routes.iter().remaining();
            let keys = items.map_values(|kv: (&K, &Vec<BString>)| *kv.0);
            crate::order::lemma_increasing_keys(keys);
            assert forall|j: int, l: int| 0 <= j < l < out@.len() implies crate::order::precedes(
                #[trigger] out@.unref()[j],
                #[trigger] out@.unref()[l],
            ) by {
                assert(out@.unref()[j] == keys[src[j]]);
                assert(out@.unref()[l] == keys[src[l]]);
            }
            assert forall|k: K| out@.unref().to_set().contains(k) <==> #[trigger] admitted_keys(
                self.view(),
                value@,
            ).contains(k) by {
                if out@.unref().to_set().contains(k) {
                    let j = choose|j: int| 0 <= j < out@.len() && out@.unref()[j] == k;
                    let i = src[j];
                    assert(*items[i].0 == k);
                    assert(self.routes@.contains_key(*items[i].0));
                }
                if admitted_keys(self.view(), value@).contains(k) {
                    assert(self.routes@.contains_key(k));
                    assert(items.contains((&k, &self.routes@[k])));
                    let i = choose|i: int| 0 <= i < items.len() && items[i] == (&k, &self.routes@[k]);
                    assert(out@.unref().contains(*items[i].0));
                }
            }
            assert(out@.unref().to_set() =~= admitted_keys(self.view(), value@));
        }
        out
    }
}

} // verus!
