//! Maps keyed by price: the lowest and highest key of a `BTreeMap<u64, V>`,
//! and mutable access to the value stored under a key.
use std::collections::BTreeMap;
use vstd::prelude::*;
use vstd::std_specs::iter::IteratorSpec;

verus! {

/// `k` is the smallest element of `s`.
pub open spec fn is_lowest(s: Set<u64>, k: u64) -> bool {
    &&& s.contains(k)
    &&& forall|j: u64| s.contains(j) ==> k <= j
}

/// `k` is the largest element of `s`.
pub open spec fn is_highest(s: Set<u64>, k: u64) -> bool {
    &&& s.contains(k)
    &&& forall|j: u64| s.contains(j) ==> j <= k
}

/// The smallest element of a finite non-empty set of prices.
pub open spec fn lowest(s: Set<u64>) -> u64 {
    choose|k: u64| is_lowest(s, k)
}

/// The largest element of a finite non-empty set of prices.
pub open spec fn highest(s: Set<u64>) -> u64 {
    choose|k: u64| is_highest(s, k)
}

/// A finite non-empty set of prices has a smallest element.
pub proof fn lemma_lowest(s: Set<u64>)
    requires
        s.finite(),
        s.len() > 0,
    ensures
        is_lowest(s, lowest(s)),
    decreases s.len(),
{
    let x = s.choose();
    assert(s.contains(x));
    if s.len() == 1 {
        assert forall|j: u64| s.contains(j) implies x <= j by {
            if j != x {
                assert(s.remove(x).contains(j));
            }
        }
        assert(is_lowest(s, x));
    } else {
        let t = s.remove(x);
        lemma_lowest(t);
        let m = lowest(t);
        if x < m {
            assert(is_lowest(s, x));
        } else {
            assert(is_lowest(s, m));
        }
    }
}

/// A finite non-empty set of prices has a largest element.
pub proof fn lemma_highest(s: Set<u64>)
    requires
        s.finite(),
        s.len() > 0,
    ensures
        is_highest(s, highest(s)),
    decreases s.len(),
{
    let x = s.choose();
    assert(s.contains(x));
    if s.len() == 1 {
        assert forall|j: u64| s.contains(j) implies j <= x by {
            if j != x {
                assert(s.remove(x).contains(j));
            }
        }
        assert(is_highest(s, x));
    } else {
        let t = s.remove(x);
        lemma_highest(t);
        let m = highest(t);
        if x > m {
            assert(is_highest(s, x));
        } else {
            assert(is_highest(s, m));
        }
    }
}

/// A finite set that is not empty has a positive size.
pub proof fn lemma_nonempty_len(s: Set<u64>)
    requires
        s.finite(),
        !s.is_empty(),
    ensures
        s.len() > 0,
{
    vstd::set_lib::lemma_set_empty_equivalency_len(s);
}

/// The order of `u64` keys is the one that `BTreeMap` relies on.
pub proof fn lemma_u64_keys_ordered()
    ensures
        vstd::laws_cmp::obeys_cmp::<u64>(),
{
    broadcast use vstd::laws_cmp::group_laws_cmp;

}

/// The smallest element is unique.
pub proof fn lemma_lowest_unique(s: Set<u64>, k: u64)
    requires
        is_lowest(s, k),
    ensures
        lowest(s) == k,
{
}

/// The largest element is unique.
pub proof fn lemma_highest_unique(s: Set<u64>, k: u64)
    requires
        is_highest(s, k),
    ensures
        highest(s) == k,
{
}

/// The smallest key of the map, or `None` when it is empty.
pub fn lowest_key<V>(m: &BTreeMap<u64, V>) -> (r: Option<u64>)
    ensures
        match r {
            None => m@.dom().is_empty(),
            Some(k) => !m@.dom().is_empty() && k == lowest(m@.dom()),
        },
{
    if m.is_empty() {
        return None;
    }
    proof {
        broadcast use vstd::std_specs::btree::group_btree_axioms;

        assert(m@.dom().len() > 0);
    }
    for k in it: m.keys()
        invariant
            it.index() == 0,
            it.seq().len() > 0,
    {
        proof {
            broadcast use vstd::std_specs::btree::group_btree_axioms;
            broadcast use vstd::laws_cmp::group_laws_cmp;

            let s = it.seq();
            assert(s == vstd::std_specs::btree::spec_keys_iter(m).remaining());
            assert(s.unref().to_set() == m@.dom());
            assert(s.unref().len() == s.len());
            assert(s.unref()[0] == *k);
            assert(s.unref().contains(*k));
            assert(vstd::std_specs::btree::increasing_seq(s));
            assert(vstd::laws_cmp::obeys_cmp::<u64>());
            assert(vstd::laws_cmp::obeys_cmp::<&u64>());
            vstd::std_specs::btree::axiom_increasing_seq_meaning(s);
            assert forall|j: u64| m@.dom().contains(j) implies *k <= j by {
                assert(s.unref().to_set().contains(j));
                let i = choose|i: int| 0 <= i < s.unref().len() && s.unref()[i] == j;
                if i > 0 {
                    assert(vstd::std_specs::cmp::OrdSpec::cmp_spec(&s[0], &s[i]) is Less);
                }
            }
            assert(is_lowest(m@.dom(), *k));
            lemma_lowest_unique(m@.dom(), *k);
        }
        return Some(*k);
    }
    None
}

/// The largest key of the map, or `None` when it is empty.
///
/// Calls `BTreeMap::last_key_value`, which std documents as returning the
/// entry whose key is the maximum key in the map, and `None` for an empty
/// map. The contract claims exactly that of the key it returns.
#[verifier::external_body]
fn last_key<V>(m: &BTreeMap<u64, V>) -> (r: Option<u64>)
    ensures
        match r {
            None => m@.dom().is_empty(),
            Some(k) => is_highest(m@.dom(), k),
        },
{
    match m.last_key_value() {
        Some((k, _)) => Some(*k),
        None => None,
    }
}

/// The largest key of the map, or `None` when it is empty.
pub fn highest_key<V>(m: &BTreeMap<u64, V>) -> (r: Option<u64>)
    ensures
        match r {
            None => m@.dom().is_empty(),
            Some(k) => !m@.dom().is_empty() && k == highest(m@.dom()),
        },
{
    let r = last_key(m);
    proof {
        if let Some(k) = r {
            lemma_highest_unique(m@.dom(), k);
        }
    }
    r
}

/// Mutable access to the value stored under `key`.
///
/// Calls `BTreeMap::get_mut`, which std documents as returning a mutable
/// reference to the value corresponding to the key, and `None` when the key
/// is absent. The contract claims that the reference starts out at the
/// stored value and that whatever it ends at is what the map then stores
/// under `key`, every other entry unchanged.
#[verifier::external_body]
pub fn value_mut<V>(m: &mut BTreeMap<u64, V>, key: u64) -> (r: Option<&mut V>)
    ensures
        match r {
            None => !old(m)@.contains_key(key) && final(m)@ == old(m)@,
            Some(v) => old(m)@.contains_key(key) && *v == old(m)@[key] && final(m)@ == old(
                m,
            )@.insert(key, *final(v)),
        },
{
    m.get_mut(&key)
}

} // verus!
