//! Walking over maps that are keyed by page numbers.
use crate::ods::sort_numbers;
use std::collections::{HashMap, HashSet};
use vstd::prelude::*;

verus! {

/// Whether `w` lists every member of `d` once.
pub open spec fn is_listing(w: Seq<u32>, d: Set<u32>) -> bool {
    w.no_duplicates() && (forall|n: u32| #[trigger] w.contains(n) <==> d.contains(n))
}

/// Whether `w` lists every member of `d` once, in ascending order.
pub open spec fn is_walk(w: Seq<u32>, d: Set<u32>) -> bool {
    &&& is_listing(w, d)
    &&& forall|i: int, j: int| 0 <= i < j < w.len() ==> w[i] < w[j]
}

/// There is only one way to list the members of a set in ascending order.
pub proof fn lemma_walk_unique(a: Seq<u32>, b: Seq<u32>, d: Set<u32>)
    requires
        is_walk(a, d),
        is_walk(b, d),
    ensures
        a == b,
    decreases a.len(),
{
    if a.len() == 0 {
        if b.len() > 0 {
            assert(b.contains(b[0]));
            assert(a.contains(b[0]));
        }
        assert(a =~= b);
    } else {
        assert(a.contains(a.last()));
        assert(b.contains(a.last()));
        assert(b.contains(b.last()));
        assert(a.contains(b.last()));
        let i = choose|i: int| 0 <= i < a.len() && a[i] == b.last();
        let j = choose|j: int| 0 <= j < b.len() && b[j] == a.last();
        assert(a.last() == b.last());
        let e = d.remove(a.last());
        lemma_walk_shorter(a, d);
        lemma_walk_shorter(b, d);
        lemma_walk_unique(a.drop_last(), b.drop_last(), e);
        assert(a =~= a.drop_last().push(a.last()));
        assert(b =~= b.drop_last().push(b.last()));
    }
}

proof fn lemma_walk_shorter(a: Seq<u32>, d: Set<u32>)
    requires
        is_walk(a, d),
        a.len() > 0,
    ensures
        is_walk(a.drop_last(), d.remove(a.last())),
{
    let front = a.drop_last();
    assert forall|n: u32| #[trigger] front.contains(n) <==> d.remove(a.last()).contains(n) by {
        if front.contains(n) {
            let i = choose|i: int| 0 <= i < front.len() && front[i] == n;
            assert(a[i] == n);
            assert(a.contains(n));
        }
        if d.contains(n) && n != a.last() {
            assert(a.contains(n));
            let i = choose|i: int| 0 <= i < a.len() && a[i] == n;
            assert(front[i] == n);
        }
    }
}

/// One more member of a list.
pub proof fn lemma_take_contains(s: Seq<u32>, i: int, n: u32)
    requires
        0 <= i < s.len(),
    ensures
        s.take(i + 1).contains(n) <==> s.take(i).contains(n) || n == s[i],
{
    let a = s.take(i);
    let b = s.take(i + 1);
    if a.contains(n) {
        let j = choose|j: int| 0 <= j < a.len() && a[j] == n;
        assert(b[j] == n);
    }
    if n == s[i] {
        assert(b[i] == n);
    }
    if b.contains(n) && n != s[i] {
        let j = choose|j: int| 0 <= j < b.len() && b[j] == n;
        assert(a[j] == n);
    }
}

/// The keys of a map in ascending order.
pub fn keys_of<V>(m: &HashMap<u32, V>) -> (r: Vec<u32>)
    ensures
        is_walk(r@, m@.dom()),
{
    let mut keys: Vec<u32> = listed_keys(m);
    let ghost before = keys@;
    sort_numbers(&mut keys);
    proof {
        before.to_multiset_ensures();
        keys@.to_multiset_ensures();
        before.lemma_multiset_has_no_duplicates();
        assert forall|n: u32| #[trigger] keys@.contains(n) <==> m@.dom().contains(n) by {
            assert(keys@.contains(n) <==> keys@.to_multiset().contains(n));
            assert(before.contains(n) <==> before.to_multiset().contains(n));
        }
        keys@.lemma_multiset_has_no_duplicates_conv();
    }
    keys
}

/// The keys of a map, in the order in which the map hands them out.
fn listed_keys<V>(m: &HashMap<u32, V>) -> (r: Vec<u32>)
    ensures
        is_listing(r@, m@.dom()),
{
    broadcast use vstd::std_specs::hash::group_hash_axioms;

    let mut out: Vec<u32> = Vec::new();
    for kv in it: m.iter()
        invariant
            it.seq() == vstd::std_specs::iter::IteratorSpec::remaining(
                &vstd::std_specs::hash::spec_hash_map_iter(m),
            ),
            it.seq().no_duplicates(),
            out@.len() == it.index(),
            forall|i: int| 0 <= i < it.index() ==> #[trigger] out@[i] == *it.seq()[i].0,
    {
        out.push(*kv.0);
    }
    proof {
        let v = vstd::std_specs::iter::IteratorSpec::remaining(
                &vstd::std_specs::hash::spec_hash_map_iter(m),
            );
        assert forall|i: int, j: int| 0 <= i < j < out@.len() implies out@[i] != out@[j] by {
            assert(m@.contains_key(*v[i].0) && m@[*v[i].0] == *v[i].1);
            assert(m@.contains_key(*v[j].0) && m@[*v[j].0] == *v[j].1);
            if out@[i] == out@[j] {
                assert(v[i] == v[j]);
            }
        }
        assert forall|n: u32| #[trigger] out@.contains(n) <==> m@.dom().contains(n) by {
            if out@.contains(n) {
                let i = choose|i: int| 0 <= i < out@.len() && out@[i] == n;
                assert(m@.contains_key(*v[i].0));
            }
            if m@.contains_key(n) {
                assert(v.contains((&n, &m@[n])));
                let i = choose|i: int| 0 <= i < v.len() && v[i] == (&n, &m@[n]);
                assert(out@[i] == n);
            }
        }
    }
    out
}

/// Puts every entry of `more` into `m`.
pub fn put_all<V>(m: &mut HashMap<u32, V>, more: HashMap<u32, V>)
    ensures
        final(m)@ == old(m)@.union_prefer_right(more@),
{
    broadcast use vstd::std_specs::hash::group_hash_axioms;

    let mut more: HashMap<u32, V> = more;
    let ghost all = more@;
    let keys: Vec<u32> = listed_keys(&more);
    let mut i: usize = 0;
    while i < keys.len()
        invariant
            i <= keys@.len(),
            is_listing(keys@, all.dom()),
            forall|n: u32|
                #[trigger] more@.contains_key(n) <==> all.contains_key(n) && !keys@.take(
                    i as int,
                ).contains(n),
            forall|n: u32| #[trigger] more@.contains_key(n) ==> more@[n] == all[n],
            m@ == old(m)@.union_prefer_right(all.restrict(keys@.take(i as int).to_set())),
        decreases keys@.len() - i,
    {
        let k: u32 = keys[i];
        proof {
            assert(keys@.contains(k));
            if keys@.take(i as int).contains(k) {
                let j = choose|j: int| 0 <= j < i && keys@.take(i as int)[j] == k;
                assert(keys@[j] == keys@[i as int]);
            }
            assert forall|n: u32| #[trigger] keys@.take(i + 1).contains(n) <==> keys@.take(
                i as int,
            ).contains(n) || n == k by {
                lemma_take_contains(keys@, i as int, n);
            }
        }
        match more.remove(&k) {
            Some(v) => {
                let ghost before = m@;
                m.insert(k, v);
                assert(m@ =~= old(m)@.union_prefer_right(
                    all.restrict(keys@.take(i + 1).to_set()),
                ));
            },
            None => {
                assert(false);
            },
        }
        i = i + 1;
    }
    proof {
        assert(keys@.take(i as int) =~= keys@);
        assert(all.restrict(keys@.to_set()) =~= all);
    }
}

/// The members of a list.
pub fn set_of(v: &Vec<u32>) -> (r: HashSet<u32>)
    ensures
        r@ == v@.to_set(),
{
    broadcast use vstd::std_specs::hash::group_hash_axioms;

    let mut out: HashSet<u32> = HashSet::new();
    let mut i: usize = 0;
    while i < v.len()
        invariant
            i <= v@.len(),
            out@ == v@.take(i as int).to_set(),
        decreases v@.len() - i,
    {
        proof {
            let a = v@.take(i as int);
            let b = v@.take(i + 1);
            assert forall|n: u32| #[trigger] b.to_set().contains(n) <==> a.to_set().insert(
                v@[i as int],
            ).contains(n) by {
                lemma_take_contains(v@, i as int, n);
            }
            assert(b.to_set() =~= a.to_set().insert(v@[i as int]));
        }
        out.insert(v[i]);
        i = i + 1;
    }
    assert(v@.take(i as int) =~= v@);
    out
}

/// Drops the entries whose keys are not in `live`.
pub fn retain_live<V>(m: &mut HashMap<u32, V>, live: &HashSet<u32>)
    ensures
        final(m)@ == old(m)@.restrict(live@),
{
    broadcast use vstd::std_specs::hash::group_hash_axioms;

    let keys: Vec<u32> = listed_keys(m);
    let ghost all = m@;
    let mut i: usize = 0;
    while i < keys.len()
        invariant
            i <= keys@.len(),
            all == old(m)@,
            is_listing(keys@, all.dom()),
            forall|n: u32|
                #[trigger] m@.contains_key(n) <==> all.contains_key(n) && (live@.contains(n)
                    || !keys@.take(i as int).contains(n)),
            forall|n: u32| #[trigger] m@.contains_key(n) ==> m@[n] == all[n],
        decreases keys@.len() - i,
    {
        let k: u32 = keys[i];
        proof {
            assert forall|n: u32| #[trigger] keys@.take(i + 1).contains(n) <==> keys@.take(
                i as int,
            ).contains(n) || n == k by {
                lemma_take_contains(keys@, i as int, n);
            }
        }
        if !live.contains(&k) {
            m.remove(&k);
        }
        i = i + 1;
    }
    proof {
        assert(keys@.take(i as int) =~= keys@);
        assert(m@ =~= all.restrict(live@)) by {
            assert forall|n: u32| #[trigger] m@.contains_key(n) <==> all.restrict(
                live@,
            ).contains_key(n) by {
                if all.contains_key(n) {
                    assert(keys@.contains(n));
                }
            }
        }
    }
}

} // verus!
