use vstd::laws_cmp::obeys_cmp;
use vstd::prelude::*;
use vstd::std_specs::cmp::OrdSpec;
use vstd::std_specs::cmp::PartialOrdSpec;
use std::cmp::Ordering;

verus! {

/// The key type's `Ord` implementation is a lawful total order in which
/// keys that compare equal are the same value.
pub open spec fn lawful_key_order<K: Ord>() -> bool {
    &&& obeys_cmp::<K>()
    &&& forall|x: K, y: K| #[trigger] x.cmp_spec(&y) == Ordering::Equal ==> x == y
}

/// `a` sorts strictly before `b`.
pub open spec fn precedes<K: Ord>(a: K, b: K) -> bool {
    a.cmp_spec(&b) == Ordering::Less
}

/// Every element sorts strictly before every later one.
pub open spec fn strictly_increasing<K: Ord>(s: Seq<K>) -> bool {
    forall|i: int, j: int| 0 <= i < j < s.len() ==> precedes(#[trigger] s[i], #[trigger] s[j])
}

/// The facts about `precedes` that a lawful total order provides.
pub proof fn lemma_order_laws<K: Ord>()
    requires
        lawful_key_order::<K>(),
    ensures
        forall|x: K| !#[trigger] precedes(x, x),
        forall|x: K, y: K| #[trigger] precedes(x, y) ==> !precedes(y, x),
        forall|x: K, y: K| x != y ==> #[trigger] precedes(x, y) || #[trigger] precedes(y, x),
        forall|x: K, y: K, z: K|
            #[trigger] precedes(x, y) && #[trigger] precedes(y, z) ==> precedes(x, z),
{
    reveal(vstd::laws_cmp::obeys_partial_cmp_spec_properties);
    reveal(vstd::laws_cmp::obeys_cmp_ord);
    reveal(vstd::laws_cmp::obeys_cmp_partial_ord);
    assert forall|x: K, y: K| #[trigger] precedes(x, y) implies y.cmp_spec(&x)
        == Ordering::Greater by {
        assert(x.partial_cmp_spec(&y) == Some(x.cmp_spec(&y)));
        assert(y.partial_cmp_spec(&x) == Some(y.cmp_spec(&x)));
    }
    assert forall|x: K, y: K| y.cmp_spec(&x) == Ordering::Greater implies #[trigger] precedes(
        x,
        y,
    ) by {
        assert(x.partial_cmp_spec(&y) == Some(x.cmp_spec(&y)));
        assert(y.partial_cmp_spec(&x) == Some(y.cmp_spec(&x)));
    }
    assert forall|x: K, y: K, z: K| #[trigger] precedes(x, y) && #[trigger] precedes(y, z)
        implies precedes(x, z) by {
        assert(x.partial_cmp_spec(&y) == Some(x.cmp_spec(&y)));
        assert(y.partial_cmp_spec(&z) == Some(y.cmp_spec(&z)));
        assert(x.partial_cmp_spec(&z) == Some(x.cmp_spec(&z)));
    }
}

/// References to keys are ordered exactly as the keys they point to.
pub proof fn lemma_ref_order<K: Ord>()
    requires
        lawful_key_order::<K>(),
    ensures
        lawful_key_order::<&K>(),
{
    reveal(vstd::laws_cmp::obeys_partial_cmp_spec_properties);
    reveal(vstd::laws_cmp::obeys_cmp_ord);
    reveal(vstd::laws_cmp::obeys_cmp_partial_ord);
    reveal(vstd::laws_eq::obeys_eq_spec_properties);
}

/// The order in which a `BTreeSet` or `BTreeMap` yields references is
/// increasing in the order of the keys themselves.
pub proof fn lemma_increasing_refs<K: Ord>(s: Seq<&K>)
    requires
        lawful_key_order::<K>(),
        vstd::std_specs::btree::increasing_seq(s),
    ensures
        strictly_increasing(s.unref()),
{
    lemma_ref_order::<K>();
    vstd::std_specs::btree::axiom_increasing_seq_meaning::<&K>(s);
    assert forall|i: int, j: int| 0 <= i < j < s.len() implies precedes(
        #[trigger] s.unref()[i],
        #[trigger] s.unref()[j],
    ) by {
        assert(OrdSpec::cmp_spec(&s[i], &s[j]) is Less);
    }
}

/// The order in which a `BTreeMap` yields its keys is increasing.
pub proof fn lemma_increasing_keys<K: Ord>(s: Seq<K>)
    requires
        lawful_key_order::<K>(),
        vstd::std_specs::btree::increasing_seq(s),
    ensures
        strictly_increasing(s),
{
    vstd::std_specs::btree::axiom_increasing_seq_meaning::<K>(s);
}

/// A lawful key order is one that vstd's `BTreeSet` and `BTreeMap`
/// specifications accept.
pub proof fn lemma_lawful_order_obeys_btree<K: Ord>()
    requires
        lawful_key_order::<K>(),
    ensures
        vstd::std_specs::btree::key_obeys_cmp_spec::<K>(),
{
    broadcast use vstd::std_specs::btree::axiom_key_obeys_cmp_spec_meaning;
}

/// Under a lawful order, `a` sorts before `b` exactly when the type's own
/// `<` says `a < b`.
pub proof fn law_precedes_is_less<K: Ord>(a: K, b: K)
    requires
        lawful_key_order::<K>(),
    ensures
        precedes(a, b) <==> a.partial_cmp_spec(&b) == Some(Ordering::Less),
{
    reveal(vstd::laws_cmp::obeys_cmp_ord);
    reveal(vstd::laws_cmp::obeys_cmp_partial_ord);
    assert(a.partial_cmp_spec(&b) == Some(a.cmp_spec(&b)));
}

/// Two increasing sequences with the same elements are the same sequence:
/// a set of keys has exactly one ascending listing.
pub proof fn lemma_sorted_unique<K: Ord>(s1: Seq<K>, s2: Seq<K>)
    requires
        lawful_key_order::<K>(),
        strictly_increasing(s1),
        strictly_increasing(s2),
        s1.to_set() == s2.to_set(),
    ensures
        s1 == s2,
    decreases s1.len(),
{
    lemma_order_laws::<K>();
    if s1.len() == 0 {
        if s2.len() > 0 {
            assert(s2.to_set().contains(s2[0]));
        }
        assert(s1 =~= s2);
    } else {
        assert(s1.to_set().contains(s1[0]));
        assert(s2.len() > 0);
        assert(s2.to_set().contains(s2[0]));
        let j = choose|j: int| 0 <= j < s2.len() && s2[j] == s1[0];
        let i = choose|i: int| 0 <= i < s1.len() && s1[i] == s2[0];
        if j > 0 && i > 0 {
            assert(precedes(s2[0], s2[j]));
            assert(precedes(s1[0], s1[i]));
        }
        assert(s1[0] == s2[0]);
        lemma_drop_first_increasing(s1);
        lemma_drop_first_increasing(s2);
        lemma_head_not_repeated(s1);
        lemma_head_not_repeated(s2);
        assert(s1.drop_first().to_set() =~= s1.to_set().remove(s1[0]));
        assert(s2.drop_first().to_set() =~= s2.to_set().remove(s2[0]));
        lemma_sorted_unique(s1.drop_first(), s2.drop_first());
        assert(s1 =~= seq![s1[0]] + s1.drop_first());
        assert(s2 =~= seq![s2[0]] + s2.drop_first());
    }
}

/// Compares two keys with the type's own `<`.
pub fn key_less<K: Ord>(a: &K, b: &K) -> (r: bool)
    requires
        lawful_key_order::<K>(),
    ensures
        r == precedes(*a, *b),
{
    proof {
        reveal(vstd::laws_cmp::obeys_cmp_ord);
        reveal(vstd::laws_cmp::obeys_cmp_partial_ord);
        assert(a.partial_cmp_spec(b) == Some(a.cmp_spec(b)));
    }
    *a < *b
}


/// Interleaves two sequences by always taking the smaller head first.
pub open spec fn merge<K: Ord>(a: Seq<K>, b: Seq<K>) -> Seq<K>
    decreases a.len() + b.len(),
{
    if a.len() == 0 {
        b
    } else if b.len() == 0 {
        a
    } else if precedes(a[0], b[0]) {
        seq![a[0]] + merge(a.drop_first(), b)
    } else {
        seq![b[0]] + merge(a, b.drop_first())
    }
}

/// A merge holds as many elements as its two inputs together.
pub proof fn lemma_merge_len<K: Ord>(a: Seq<K>, b: Seq<K>)
    ensures
        merge(a, b).len() == a.len() + b.len(),
    decreases a.len() + b.len(),
{
    if a.len() > 0 && b.len() > 0 {
        if precedes(a[0], b[0]) {
            lemma_merge_len(a.drop_first(), b);
        } else {
            lemma_merge_len(a, b.drop_first());
        }
    }
}

/// An increasing sequence holds no element twice.
pub proof fn lemma_increasing_no_duplicates<K: Ord>(s: Seq<K>)
    requires
        lawful_key_order::<K>(),
        strictly_increasing(s),
    ensures
        s.no_duplicates(),
{
    lemma_order_laws::<K>();
    assert forall|i: int, j: int| 0 <= i < s.len() && 0 <= j < s.len() && i != j implies s[i]
        != s[j] by {
        if i < j {
            assert(precedes(s[i], s[j]));
        } else {
            assert(precedes(s[j], s[i]));
        }
    }
}

/// Dropping the head of an increasing sequence keeps it increasing, and the
/// head sorts before everything that remains.
pub proof fn lemma_drop_first_increasing<K: Ord>(a: Seq<K>)
    requires
        lawful_key_order::<K>(),
        strictly_increasing(a),
        a.len() > 0,
    ensures
        strictly_increasing(a.drop_first()),
        a.to_set() == a.drop_first().to_set().insert(a[0]),
        forall|x: K| #[trigger] a.drop_first().to_set().contains(x) ==> precedes(a[0], x),
{
    let rest = a.drop_first();
    assert forall|i: int, j: int| 0 <= i < j < rest.len() implies precedes(
        #[trigger] rest[i],
        #[trigger] rest[j],
    ) by {
        assert(rest[i] == a[i + 1] && rest[j] == a[j + 1]);
    }
    assert forall|x: K| #[trigger] rest.to_set().contains(x) implies precedes(a[0], x) by {
        let i = choose|i: int| 0 <= i < rest.len() && rest[i] == x;
        assert(rest[i] == a[i + 1]);
    }
    assert(a.to_set() =~= rest.to_set().insert(a[0])) by {
        assert forall|x: K| a.to_set().contains(x) implies rest.to_set().insert(a[0]).contains(
            x,
        ) by {
            let i = choose|i: int| 0 <= i < a.len() && a[i] == x;
            if i > 0 {
                assert(rest[i - 1] == x);
            }
        }
        assert forall|x: K| rest.to_set().contains(x) implies a.to_set().contains(x) by {
            let i = choose|i: int| 0 <= i < rest.len() && rest[i] == x;
            assert(a[i + 1] == x);
        }
        assert(a[0] == a[0]);
    }
}

/// The head of an increasing sequence does not occur again after it.
pub proof fn lemma_head_not_repeated<K: Ord>(s: Seq<K>)
    requires
        lawful_key_order::<K>(),
        strictly_increasing(s),
        s.len() > 0,
    ensures
        !s.drop_first().contains(s[0]),
{
    lemma_order_laws::<K>();
    lemma_drop_first_increasing(s);
    if s.drop_first().contains(s[0]) {
        assert(s.drop_first().to_set().contains(s[0]));
        assert(precedes(s[0], s[0]));
    }
}

/// Putting an element in front of an increasing sequence whose elements all
/// sort after it gives an increasing sequence.
proof fn lemma_prepend_increasing<K: Ord>(h: K, m: Seq<K>)
    requires
        strictly_increasing(m),
        forall|x: K| #[trigger] m.to_set().contains(x) ==> precedes(h, x),
    ensures
        strictly_increasing(seq![h] + m),
        (seq![h] + m).to_set() == m.to_set().insert(h),
{
    let r = seq![h] + m;
    assert forall|i: int, j: int| 0 <= i < j < r.len() implies precedes(
        #[trigger] r[i],
        #[trigger] r[j],
    ) by {
        assert(r[j] == m[j - 1]);
        if i == 0 {
            assert(m.to_set().contains(m[j - 1]));
        } else {
            assert(r[i] == m[i - 1]);
        }
    }
    assert(r.to_set() =~= m.to_set().insert(h)) by {
        assert forall|x: K| r.to_set().contains(x) implies m.to_set().insert(h).contains(x) by {
            let i = choose|i: int| 0 <= i < r.len() && r[i] == x;
            if i > 0 {
                assert(m[i - 1] == x);
            }
        }
        assert forall|x: K| m.to_set().contains(x) implies r.to_set().contains(x) by {
            let i = choose|i: int| 0 <= i < m.len() && m[i] == x;
            assert(r[i + 1] == x);
        }
        assert(r[0] == h);
    }
}

/// Merging two increasing sequences with no element in common gives an
/// increasing sequence of all their elements.
pub proof fn lemma_merge<K: Ord>(a: Seq<K>, b: Seq<K>)
    requires
        lawful_key_order::<K>(),
        strictly_increasing(a),
        strictly_increasing(b),
        a.to_set().disjoint(b.to_set()),
    ensures
        strictly_increasing(merge(a, b)),
        merge(a, b).to_set() == a.to_set() + b.to_set(),
        merge(a, b).len() == a.len() + b.len(),
    decreases a.len() + b.len(),
{
    lemma_order_laws::<K>();
    if a.len() == 0 {
        assert(a.to_set() + b.to_set() =~= b.to_set());
    } else if b.len() == 0 {
        assert(a.to_set() + b.to_set() =~= a.to_set());
    } else {
        lemma_drop_first_increasing(a);
        lemma_drop_first_increasing(b);
        assert(a.to_set().contains(a[0]));
        assert(b.to_set().contains(b[0]));
        if precedes(a[0], b[0]) {
            let rest = a.drop_first();
            lemma_merge(rest, b);
            let m = merge(rest, b);
            assert forall|x: K| #[trigger] m.to_set().contains(x) implies precedes(a[0], x) by {
                if !rest.to_set().contains(x) {
                    assert(b.to_set().contains(x));
                    if x != b[0] {
                        assert(b.drop_first().to_set().contains(x));
                    }
                }
            }
            lemma_prepend_increasing(a[0], m);
            assert(merge(a, b).to_set() =~= a.to_set() + b.to_set());
        } else {
            let rest = b.drop_first();
            assert(a[0] != b[0]);
            assert(precedes(b[0], a[0]));
            lemma_merge(a, rest);
            let m = merge(a, rest);
            assert forall|x: K| #[trigger] m.to_set().contains(x) implies precedes(b[0], x) by {
                if !rest.to_set().contains(x) {
                    assert(a.to_set().contains(x));
                    if x != a[0] {
                        assert(a.drop_first().to_set().contains(x));
                    }
                }
            }
            lemma_prepend_increasing(b[0], m);
            assert(merge(a, b).to_set() =~= a.to_set() + b.to_set());
        }
    }
}

} // verus!
