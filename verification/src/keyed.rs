//! Ordered maps and sets of std (`BTreeMap`, `BTreeSet`) as the library uses
//! them: what their iteration order gives, and the updates it makes.
use vstd::prelude::*;
use std::collections::{BTreeMap, BTreeSet};
use vstd::laws_cmp::obeys_cmp;
use vstd::std_specs::btree::{increasing_seq, spec_btree_keys_iter, spec_btree_map_iter};
use vstd::std_specs::cmp::OrdSpec;
use vstd::std_specs::iter::IteratorSpec;

verus! {

broadcast use {vstd::std_specs::btree::group_btree_axioms, vstd::laws_cmp::group_laws_cmp};

/// Strictly ascending notes.
pub open spec fn ascending_notes(q: Seq<u8>) -> bool {
    forall|i: int, j: int| 0 <= i < j < q.len() ==> q[i] < q[j]
}

/// Strictly ascending keys.
pub open spec fn ascending_keys(q: Seq<usize>) -> bool {
    forall|i: int, j: int| 0 <= i < j < q.len() ==> q[i] < q[j]
}

/// The notes of a set in ascending order.
pub open spec fn sorted_notes(s: Set<u8>) -> Seq<u8> {
    choose|q: Seq<u8>| ascending_notes(q) && q.to_set() == s
}

/// The keys of a set in ascending order.
pub open spec fn sorted_keys(s: Set<usize>) -> Seq<usize> {
    choose|q: Seq<usize>| ascending_keys(q) && q.to_set() == s
}

/// The notes of each track, as sets.
pub open spec fn notes_model(m: BTreeMap<usize, BTreeSet<u8>>) -> Map<usize, Set<u8>> {
    m@.map_values(|s: BTreeSet<u8>| s@)
}

proof fn lemma_notes_unique(a: Seq<u8>, b: Seq<u8>)
    requires
        ascending_notes(a),
        ascending_notes(b),
        a.to_set() == b.to_set(),
    ensures
        a == b,
    decreases a.len(),
{
    if a.len() == 0 {
        if b.len() > 0 {
            assert(b.to_set().contains(b[0]));
        }
        assert(b.len() == 0);
        assert(a =~= b);
    } else if b.len() == 0 {
        assert(a.to_set().contains(a[0]));
    } else {
        assert(b.to_set().contains(a[0]));
        assert(a.to_set().contains(b[0]));
        let j = choose|j: int| 0 <= j < a.len() && a[j] == b[0];
        let k = choose|k: int| 0 <= k < b.len() && b[k] == a[0];
        assert(a[0] <= a[j]);
        assert(b[0] <= b[k]);
        let ra = a.drop_first();
        let rb = b.drop_first();
        assert(ra.to_set() =~= rb.to_set()) by {
            assert forall|x: u8| ra.to_set().contains(x) implies rb.to_set().contains(x) by {
                let i = choose|i: int| 0 <= i < ra.len() && ra[i] == x;
                assert(a[i + 1] == x);
                assert(b.to_set().contains(x));
                let l = choose|l: int| 0 <= l < b.len() && b[l] == x;
                if l == 0 {
                    assert(a[0] < a[i + 1]);
                }
                assert(rb[l - 1] == x);
            }
            assert forall|x: u8| rb.to_set().contains(x) implies ra.to_set().contains(x) by {
                let i = choose|i: int| 0 <= i < rb.len() && rb[i] == x;
                assert(b[i + 1] == x);
                assert(a.to_set().contains(x));
                let l = choose|l: int| 0 <= l < a.len() && a[l] == x;
                if l == 0 {
                    assert(b[0] < b[i + 1]);
                }
                assert(ra[l - 1] == x);
            }
        }
        lemma_notes_unique(ra, rb);
        assert(a =~= b) by {
            assert forall|i: int| 0 <= i < a.len() implies a[i] == b[i] by {
                if i > 0 {
                    assert(a[i] == ra[i - 1]);
                }
            }
        }
    }
}

proof fn lemma_keys_unique(a: Seq<usize>, b: Seq<usize>)
    requires
        ascending_keys(a),
        ascending_keys(b),
        a.to_set() == b.to_set(),
    ensures
        a == b,
    decreases a.len(),
{
    if a.len() == 0 {
        if b.len() > 0 {
            assert(b.to_set().contains(b[0]));
        }
        assert(b.len() == 0);
        assert(a =~= b);
    } else if b.len() == 0 {
        assert(a.to_set().contains(a[0]));
    } else {
        assert(b.to_set().contains(a[0]));
        assert(a.to_set().contains(b[0]));
        let j = choose|j: int| 0 <= j < a.len() && a[j] == b[0];
        let k = choose|k: int| 0 <= k < b.len() && b[k] == a[0];
        assert(a[0] <= a[j]);
        assert(b[0] <= b[k]);
        let ra = a.drop_first();
        let rb = b.drop_first();
        assert(ra.to_set() =~= rb.to_set()) by {
            assert forall|x: usize| ra.to_set().contains(x) implies rb.to_set().contains(x) by {
                let i = choose|i: int| 0 <= i < ra.len() && ra[i] == x;
                assert(a[i + 1] == x);
                assert(b.to_set().contains(x));
                let l = choose|l: int| 0 <= l < b.len() && b[l] == x;
                if l == 0 {
                    assert(a[0] < a[i + 1]);
                }
                assert(rb[l - 1] == x);
            }
            assert forall|x: usize| rb.to_set().contains(x) implies ra.to_set().contains(x) by {
                let i = choose|i: int| 0 <= i < rb.len() && rb[i] == x;
                assert(b[i + 1] == x);
                assert(a.to_set().contains(x));
                let l = choose|l: int| 0 <= l < a.len() && a[l] == x;
                if l == 0 {
                    assert(b[0] < b[i + 1]);
                }
                assert(ra[l - 1] == x);
            }
        }
        lemma_keys_unique(ra, rb);
        assert(a =~= b) by {
            assert forall|i: int| 0 <= i < a.len() implies a[i] == b[i] by {
                if i > 0 {
                    assert(a[i] == ra[i - 1]);
                }
            }
        }
    }
}

proof fn lemma_increasing_notes(q: Seq<&u8>)
    requires
        increasing_seq(q),
    ensures
        forall|i: int, j: int| 0 <= i < j < q.len() ==> *q[i] < *q[j],
{
    assert(obeys_cmp::<u8>());
    assert(obeys_cmp::<&u8>());
    vstd::std_specs::btree::axiom_increasing_seq_meaning::<&u8>(q);
    assert forall|i: int, j: int| 0 <= i < j < q.len() implies *q[i] < *q[j] by {
        assert(OrdSpec::cmp_spec(&q[i], &q[j]) is Less);
    }
}

proof fn lemma_increasing_keys(q: Seq<usize>)
    requires
        increasing_seq(q),
    ensures
        forall|i: int, j: int| 0 <= i < j < q.len() ==> q[i] < q[j],
{
    assert(obeys_cmp::<usize>());
    vstd::std_specs::btree::axiom_increasing_seq_meaning::<usize>(q);
    assert forall|i: int, j: int| 0 <= i < j < q.len() implies q[i] < q[j] by {
        assert(OrdSpec::cmp_spec(&q[i], &q[j]) is Less);
    }
}

/// The notes of a set, ascending, as `BTreeSet::iter` gives them.
pub fn notes_in_order(s: &BTreeSet<u8>) -> (r: Vec<u8>)
    ensures
        r@ == sorted_notes(s@),
        ascending_notes(r@),
        r@.to_set() == s@,
{
    let mut r: Vec<u8> = Vec::new();
    for k in it: s.iter()
        invariant
            it.seq() == spec_btree_keys_iter(s).remaining(),
            r@.len() == it.index(),
            forall|i: int| 0 <= i < r@.len() ==> r@[i] == *spec_btree_keys_iter(s).remaining()[i],
    {
        r.push(*k);
    }
    let ghost q = spec_btree_keys_iter(s).remaining();
    assert(r@ =~= q.unref());
    proof {
        lemma_increasing_notes(q);
        let c = sorted_notes(s@);
        assert(ascending_notes(c) && c.to_set() == s@);
        lemma_notes_unique(r@, c);
    }
    r
}

/// The keys of a map, ascending, as `BTreeMap::iter` gives them.
pub fn keys_in_order<V>(m: &BTreeMap<usize, V>) -> (r: Vec<usize>)
    ensures
        r@ == sorted_keys(m@.dom()),
        ascending_keys(r@),
        r@.to_set() == m@.dom(),
{
    let mut r: Vec<usize> = Vec::new();
    let ghost q = spec_btree_map_iter(m).remaining();
    for (k, v) in it: m.iter()
        invariant
            it.seq() == q,
            q == spec_btree_map_iter(m).remaining(),
            r@.len() == it.index(),
            forall|i: int| 0 <= i < r@.len() ==> r@[i] == *q[i].0,
    {
        r.push(*k);
    }
    let ghost ks = q.map_values(|kv: (&usize, &V)| *kv.0);
    assert(r@ =~= ks);
    proof {
        lemma_increasing_keys(ks);
        assert forall|k: usize| m@.dom().contains(k) implies r@.to_set().contains(k) by {
            assert(q.contains((&k, &m@[k])));
            let i = choose|i: int| 0 <= i < q.len() && q[i] == (&k, &m@[k]);
            assert(r@[i] == k);
        }
        assert forall|k: usize| r@.to_set().contains(k) implies m@.dom().contains(k) by {
            let i = choose|i: int| 0 <= i < r@.len() && r@[i] == k;
            assert(m@.contains_key(*q[i].0));
        }
        assert(r@.to_set() =~= m@.dom());
        let c = sorted_keys(m@.dom());
        assert(ascending_keys(c) && c.to_set() == m@.dom());
        lemma_keys_unique(r@, c);
    }
    r
}

/// Adds a note to a set.
pub fn note_insert(s: &mut BTreeSet<u8>, k: u8)
    ensures
        final(s)@ == old(s)@.insert(k),
{
    s.insert(k);
}

/// Removes a note from a set.
pub fn note_remove(s: &mut BTreeSet<u8>, k: u8)
    ensures
        final(s)@ == old(s)@.remove(k),
{
    s.remove(&k);
}

/// Number of notes in a set.
pub fn note_count(s: &BTreeSet<u8>) -> (r: usize)
    ensures
        r == s@.len(),
{
    s.len()
}

/// Takes the entry of a key out of a map.
pub fn take_entry<V>(m: &mut BTreeMap<usize, V>, k: usize) -> (r: Option<V>)
    ensures
        final(m)@ == old(m)@.remove(k),
        r == (if old(m)@.contains_key(k) { Some(old(m)@[k]) } else { None::<V> }),
{
    m.remove(&k)
}

/// Sets the entry of a key.
pub fn put_entry<V>(m: &mut BTreeMap<usize, V>, k: usize, v: V)
    ensures
        final(m)@ == old(m)@.insert(k, v),
{
    m.insert(k, v);
}

/// The entry of a key, if any.
pub fn get_entry<V>(m: &BTreeMap<usize, V>, k: usize) -> (r: Option<&V>)
    ensures
        r == (if m@.contains_key(k) { Some(&m@[k]) } else { None::<&V> }),
{
    m.get(&k)
}

/// Sets the entry of an id, giving back the one it replaces.
pub fn put_id(m: &mut BTreeMap<u32, usize>, k: u32, v: usize) -> (r: Option<usize>)
    ensures
        final(m)@ == old(m)@.insert(k, v),
        r == (if old(m)@.contains_key(k) { Some(old(m)@[k]) } else { None::<usize> }),
{
    m.insert(k, v)
}

/// The entry of an id, if any.
pub fn get_id(m: &BTreeMap<u32, usize>, k: u32) -> (r: Option<usize>)
    ensures
        r == (if m@.contains_key(k) { Some(m@[k]) } else { None::<usize> }),
{
    match m.get(&k) {
        Some(v) => Some(*v),
        None => None,
    }
}

} // verus!
