use std::collections::BTreeMap;
use vstd::prelude::*;
use vstd::std_specs::iter::IteratorSpec;
use vstd::std_specs::cmp::OrdSpec;
use vstd::std_specs::btree::{increasing_seq, key_obeys_cmp_spec, spec_keys_iter};

verus! {

broadcast use vstd::std_specs::btree::group_btree_axioms;

pub open spec fn strictly_increasing(s: Seq<u64>) -> bool {
    forall|i: int, j: int| 0 <= i < j < s.len() ==> s[i] < s[j]
}

/// `ks` lists the keys of `d` in increasing order, each once.
pub open spec fn is_sorted_keys(ks: Seq<u64>, d: Set<u64>) -> bool {
    strictly_increasing(ks) && ks.to_set() == d
}

/// The keys of a finite set in increasing order.
pub open spec fn sorted_key_seq(d: Set<u64>) -> Seq<u64> {
    choose|ks: Seq<u64>| is_sorted_keys(ks, d)
}

proof fn lemma_sorted_keys_agree_upto(a: Seq<u64>, b: Seq<u64>, d: Set<u64>, i: int)
    requires
        is_sorted_keys(a, d),
        is_sorted_keys(b, d),
        a.len() == b.len(),
        0 <= i < a.len(),
    ensures
        forall|j: int| 0 <= j <= i ==> a[j] == b[j],
    decreases i,
{
    if i > 0 {
        lemma_sorted_keys_agree_upto(a, b, d, i - 1);
    }
    if a[i] < b[i] {
        assert(a.to_set().contains(a[i]));
        assert(b.to_set().contains(a[i]));
        let j = choose|j: int| 0 <= j < b.len() && b[j] == a[i];
        if j < i {
            assert(a[j] == b[j]);
        }
    } else if b[i] < a[i] {
        assert(b.to_set().contains(b[i]));
        assert(a.to_set().contains(b[i]));
        let j = choose|j: int| 0 <= j < a.len() && a[j] == b[i];
        if j < i {
            assert(a[j] == b[j]);
        }
    }
}

/// Two increasing listings of the same set are the same listing.
pub proof fn lemma_sorted_keys_unique(a: Seq<u64>, b: Seq<u64>, d: Set<u64>)
    requires
        is_sorted_keys(a, d),
        is_sorted_keys(b, d),
    ensures
        a == b,
{
    assert(a.no_duplicates());
    assert(b.no_duplicates());
    a.unique_seq_to_set();
    b.unique_seq_to_set();
    if a.len() > 0 {
        lemma_sorted_keys_agree_upto(a, b, d, a.len() - 1);
    }
    assert(a =~= b);
}

proof fn lemma_u64_keys_ordered(s: Seq<&u64>)
    ensures
        key_obeys_cmp_spec::<u64>(),
        increasing_seq(s) ==> strictly_increasing(s.unref()),
{
    broadcast use vstd::laws_cmp::group_laws_cmp;
    assert(vstd::laws_cmp::obeys_cmp::<u64>());
    assert(vstd::laws_cmp::obeys_cmp::<&u64>());
    if increasing_seq(s) {
        assert forall|i: int, j: int| 0 <= i < j < s.unref().len() implies s.unref()[i] < s.unref()[j] by {
            assert(OrdSpec::cmp_spec(&s[i], &s[j]) is Less);
        }
    }
}

/// The keys of a map, in increasing order.
pub fn sorted_keys<V>(m: &BTreeMap<u64, V>) -> (ks: Vec<u64>)
    ensures
        is_sorted_keys(ks@, m@.dom()),
        ks@ == sorted_key_seq(m@.dom()),
        ks@.len() == m@.dom().len(),
{
    let mut ks: Vec<u64> = Vec::new();
    proof { lemma_u64_keys_ordered(Seq::empty()); }
    let keys_it = m.keys();
    let ghost all = keys_it.remaining();
    for k in it: keys_it
        invariant
            all == spec_keys_iter(m).remaining(),
            it.seq() == all,
            ks@ == all.take(it.index() as int).unref(),
    {
        ks.push(*k);
        assert(all.take(it.index() + 1).unref() =~= all.take(it.index() as int).unref().push(*k));
    }
    assert(all.take(all.len() as int) =~= all);
    proof {
        lemma_u64_keys_ordered(all);
        lemma_sorted_keys_unique(ks@, sorted_key_seq(m@.dom()), m@.dom());
    }
    ks
}

} // verus!
