//! Listing the price levels of one side of the book in order.
use vstd::prelude::*;
use std::collections::BTreeMap;
use vstd::std_specs::btree::{spec_btree_map_iter, increasing_seq};
use vstd::std_specs::iter::IteratorSpec;
use vstd::std_specs::cmp::OrdSpec;

verus! {

/// Holds when the prices strictly increase from front to back.
pub open spec fn strictly_increasing(s: Seq<u64>) -> bool {
    forall|i: int, j: int| 0 <= i < j < s.len() ==> s[i] < s[j]
}

/// The price levels of one side of the book, lowest first.
pub fn sorted_prices(m: &BTreeMap<u64, Vec<u64>>) -> (r: Vec<u64>)
    ensures
        strictly_increasing(r@),
        r@.to_set() == m@.dom(),
{
    let ghost full = spec_btree_map_iter(m).remaining();
    let mut out: Vec<u64> = Vec::new();
    for kv in it: m.iter()
        invariant
            it.seq() == full,
            out@.len() == it.index(),
            forall|i: int| 0 <= i < out@.len() ==> out@[i] == *full[i].0,
    {
        out.push(*kv.0);
    }
    proof {
        let keys = full.map_values(|kv: (&u64, &Vec<u64>)| *kv.0);
        assert(out@ =~= keys);
        assert(increasing_seq(keys));
        assert forall|i: int, j: int| 0 <= i < j < keys.len() implies keys[i] < keys[j] by {
            assert(keys[i].cmp_spec(&keys[j]) is Less);
        }
        assert forall|k: u64| m@.dom().contains(k) implies keys.contains(k) by {
            assert(full.contains((&k, &m@[k])));
            let idx = choose|idx: int| 0 <= idx < full.len() && full[idx] == (&k, &m@[k]);
            assert(keys[idx] == k);
        }
        assert forall|k: u64| keys.contains(k) implies m@.dom().contains(k) by {
            let idx = choose|idx: int| 0 <= idx < keys.len() && keys[idx] == k;
            assert(m@.contains_key(*full[idx].0));
        }
        assert(keys.to_set() =~= m@.dom());
    }
    out
}

/// Two strictly increasing sequences with the same elements agree on their
/// first `k` positions.
proof fn lemma_increasing_agree_prefix(a: Seq<u64>, b: Seq<u64>, k: nat)
    requires
        strictly_increasing(a),
        strictly_increasing(b),
        a.to_set() == b.to_set(),
        k <= a.len(),
        k <= b.len(),
    ensures
        forall|i: int| 0 <= i < k ==> a[i] == b[i],
    decreases k,
{
    if k > 0 {
        lemma_increasing_agree_prefix(a, b, (k - 1) as nat);
        let i = k - 1;
        assert(a.to_set().contains(a[i]));
        assert(b.contains(a[i]));
        let j = choose|j: int| 0 <= j < b.len() && b[j] == a[i];
        assert(b.to_set().contains(b[i]));
        assert(a.contains(b[i]));
        let j2 = choose|j2: int| 0 <= j2 < a.len() && a[j2] == b[i];
        if j < i {
            assert(a[j] == b[j]);
        }
        if j2 < i {
            assert(a[j2] == b[j2]);
        }
    }
}

/// A finite set of prices has at most one strictly increasing listing.
pub proof fn lemma_increasing_unique(a: Seq<u64>, b: Seq<u64>)
    requires
        strictly_increasing(a),
        strictly_increasing(b),
        a.to_set() == b.to_set(),
    ensures
        a == b,
{
    let k = if a.len() <= b.len() {
        a.len()
    } else {
        b.len()
    };
    lemma_increasing_agree_prefix(a, b, k);
    if a.len() > b.len() {
        assert(a.to_set().contains(a[k as int]));
        assert(b.contains(a[k as int]));
        let j = choose|j: int| 0 <= j < b.len() && b[j] == a[k as int];
        assert(a[j] == b[j]);
    }
    if b.len() > a.len() {
        assert(b.to_set().contains(b[k as int]));
        assert(a.contains(b[k as int]));
        let j = choose|j: int| 0 <= j < a.len() && a[j] == b[k as int];
        assert(a[j] == b[j]);
    }
    assert(a =~= b);
}

} // verus!
