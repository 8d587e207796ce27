//! Lists of named things in which no name occurs twice.
use crate::text::same_text;
use vstd::prelude::*;

verus! {

/// Whether no name occurs twice.
pub open spec fn distinct_names<T>(s: Seq<(String, T)>) -> bool {
    forall|i: int, j: int| 0 <= i < j < s.len() ==> (#[trigger] s[i]).0@ != (#[trigger] s[j]).0@
}

/// What the list has under a name.
pub open spec fn lookup<T>(s: Seq<(String, T)>, name: Seq<char>) -> Option<T>
    decreases s.len(),
{
    if s.len() == 0 {
        None
    } else if s.last().0@ == name {
        Some(s.last().1)
    } else {
        lookup(s.drop_last(), name)
    }
}

/// What is found under a name is the entry with the name.
pub proof fn lemma_lookup<T>(s: Seq<(String, T)>, name: Seq<char>)
    requires
        distinct_names(s),
    ensures
        match lookup(s, name) {
            Some(v) => exists|i: int|
                0 <= i < s.len() && (#[trigger] s[i]).0@ == name && s[i].1 == v,
            None => forall|i: int| 0 <= i < s.len() ==> (#[trigger] s[i]).0@ != name,
        },
        forall|i: int|
            0 <= i < s.len() && (#[trigger] s[i]).0@ == name ==> lookup(s, name) == Some(s[i].1),
    decreases s.len(),
{
    if s.len() > 0 {
        let front = s.drop_last();
        assert forall|i: int, j: int| 0 <= i < j < front.len() implies (#[trigger] front[i]).0@ != (
        #[trigger] front[j]).0@ by {
            assert(s[i].0@ != s[j].0@);
        }
        lemma_lookup(front, name);
        assert(s[s.len() - 1] == s.last());
        if s.last().0@ != name {
            if let Some(v) = lookup(front, name) {
                let i = choose|i: int|
                    0 <= i < front.len() && (#[trigger] front[i]).0@ == name && front[i].1 == v;
                assert(s[i].0@ == name);
            } else {
                assert forall|i: int| 0 <= i < s.len() implies (#[trigger] s[i]).0@ != name by {
                    if i < front.len() {
                        assert(front[i].0@ != name);
                    }
                }
            }
        }
        assert forall|i: int| 0 <= i < s.len() && (#[trigger] s[i]).0@ == name implies lookup(
            s,
            name,
        ) == Some(s[i].1) by {
            if i < front.len() {
                assert(front[i].0@ == name);
                assert(s[i].0@ != s[s.len() - 1].0@);
            }
        }
    }
}

/// Where the list has a name.
pub fn position<T>(v: &Vec<(String, T)>, name: &str) -> (r: Option<usize>)
    requires
        distinct_names(v@),
    ensures
        match r {
            Some(i) => i < v@.len() && v@[i as int].0@ == name@ && lookup(v@, name@) == Some(
                v@[i as int].1,
            ),
            None => lookup(v@, name@) is None && forall|i: int|
                0 <= i < v@.len() ==> (#[trigger] v@[i]).0@ != name@,
        },
{
    proof {
        lemma_lookup(v@, name@);
    }
    let mut i: usize = 0;
    while i < v.len()
        invariant
            i <= v@.len(),
            distinct_names(v@),
            forall|k: int| 0 <= k < i ==> (#[trigger] v@[k]).0@ != name@,
            forall|k: int|
                0 <= k < v@.len() && (#[trigger] v@[k]).0@ == name@ ==> lookup(v@, name@) == Some(
                    v@[k].1,
                ),
            lookup(v@, name@) is Some ==> exists|k: int|
                0 <= k < v@.len() && (#[trigger] v@[k]).0@ == name@,
        decreases v@.len() - i,
    {
        if same_text(v[i].0.as_str(), name) {
            return Some(i);
        }
        i = i + 1;
    }
    None
}

/// Replacing what stands under one name leaves the others.
pub proof fn lemma_update<T>(s: Seq<(String, T)>, i: int, x: T, name: Seq<char>)
    requires
        distinct_names(s),
        0 <= i < s.len(),
    ensures
        distinct_names(s.update(i, (s[i].0, x))),
        lookup(s.update(i, (s[i].0, x)), name) == if name == s[i].0@ {
            Some(x)
        } else {
            lookup(s, name)
        },
{
    let t = s.update(i, (s[i].0, x));
    assert forall|a: int, b: int| 0 <= a < b < t.len() implies (#[trigger] t[a]).0@ != (
    #[trigger] t[b]).0@ by {
        assert(s[a].0@ != s[b].0@);
    }
    lemma_lookup(s, name);
    lemma_lookup(t, name);
    if name == s[i].0@ {
        assert(t[i].0@ == name);
    } else {
        match lookup(s, name) {
            Some(v) => {
                let k = choose|k: int|
                    0 <= k < s.len() && (#[trigger] s[k]).0@ == name && s[k].1 == v;
                assert(t[k].0@ == name && t[k].1 == v);
            },
            None => {
                if let Some(v) = lookup(t, name) {
                    let k = choose|k: int|
                        0 <= k < t.len() && (#[trigger] t[k]).0@ == name && t[k].1 == v;
                    assert(s[k].0@ == name);
                }
            },
        }
    }
}

/// A new name at the end leaves the others.
pub proof fn lemma_push<T>(s: Seq<(String, T)>, x: (String, T), name: Seq<char>)
    requires
        distinct_names(s),
        forall|i: int| 0 <= i < s.len() ==> (#[trigger] s[i]).0@ != x.0@,
    ensures
        distinct_names(s.push(x)),
        lookup(s.push(x), name) == if name == x.0@ {
            Some(x.1)
        } else {
            lookup(s, name)
        },
{
    let t = s.push(x);
    assert(t.drop_last() =~= s);
    assert forall|a: int, b: int| 0 <= a < b < t.len() implies (#[trigger] t[a]).0@ != (
    #[trigger] t[b]).0@ by {
        assert(t[a] == s[a]);
        if b < s.len() {
            assert(t[b] == s[b]);
        }
    }
}

/// Puts something under a name, in place of what was there.
pub fn put<T>(v: &mut Vec<(String, T)>, name: String, x: T)
    requires
        distinct_names(old(v)@),
    ensures
        distinct_names(final(v)@),
        forall|n: Seq<char>| #[trigger]
            lookup(final(v)@, n) == if n == name@ {
                Some(x)
            } else {
                lookup(old(v)@, n)
            },
{
    let ghost before = v@;
    match position(v, name.as_str()) {
        Some(i) => {
            let kept: String = v[i].0.clone();
            v.set(i, (kept, x));
            proof {
                assert(v@ =~= before.update(i as int, (before[i as int].0, x)));
                assert forall|n: Seq<char>| #[trigger] lookup(v@, n) == if n == name@ {
                    Some(x)
                } else {
                    lookup(before, n)
                } by {
                    lemma_update(before, i as int, x, n);
                }
                lemma_update(before, i as int, x, name@);
            }
        },
        None => {
            let ghost pair = (name, x);
            v.push((name, x));
            proof {
                assert forall|n: Seq<char>| #[trigger] lookup(v@, n) == if n == pair.0@ {
                    Some(x)
                } else {
                    lookup(before, n)
                } by {
                    lemma_push(before, pair, n);
                }
                lemma_push(before, pair, pair.0@);
            }
        },
    }
}

/// Removes what stands under a name and returns it.
pub fn take<T>(v: &mut Vec<(String, T)>, name: &str) -> (r: Option<T>)
    requires
        distinct_names(old(v)@),
    ensures
        distinct_names(final(v)@),
        r == lookup(old(v)@, name@),
        forall|n: Seq<char>| #[trigger]
            lookup(final(v)@, n) == if n == name@ {
                None
            } else {
                lookup(old(v)@, n)
            },
{
    let ghost before = v@;
    match position(v, name) {
        None => {
            proof {
                lemma_lookup(before, name@);
            }
            None
        },
        Some(i) => {
            let (_, x): (String, T) = v.remove(i);
            proof {
                assert(v@ =~= before.remove(i as int));
                lemma_removed(before, i as int, name@);
                assert forall|n: Seq<char>| #[trigger] lookup(v@, n) == if n == name@ {
                    None
                } else {
                    lookup(before, n)
                } by {
                    lemma_removed(before, i as int, n);
                }
            }
            Some(x)
        },
    }
}

proof fn lemma_removed<T>(s: Seq<(String, T)>, i: int, name: Seq<char>)
    requires
        distinct_names(s),
        0 <= i < s.len(),
    ensures
        distinct_names(s.remove(i)),
        lookup(s.remove(i), name) == if name == s[i].0@ {
            None
        } else {
            lookup(s, name)
        },
{
    let t = s.remove(i);
    assert forall|a: int, b: int| 0 <= a < b < t.len() implies (#[trigger] t[a]).0@ != (
    #[trigger] t[b]).0@ by {
        let a2 = if a < i {
            a
        } else {
            a + 1
        };
        let b2 = if b < i {
            b
        } else {
            b + 1
        };
        assert(s[a2].0@ != s[b2].0@);
    }
    lemma_lookup(s, name);
    lemma_lookup(t, name);
    if let Some(v) = lookup(t, name) {
        let k = choose|k: int| 0 <= k < t.len() && (#[trigger] t[k]).0@ == name && t[k].1 == v;
        let k2 = if k < i {
            k
        } else {
            k + 1
        };
        assert(s[k2].0@ == name && s[k2].1 == v);
        assert(k2 < i ==> s[k2].0@ != s[i].0@);
        assert(k2 > i ==> s[i].0@ != s[k2].0@);
    } else if let Some(v) = lookup(s, name) {
        let k = choose|k: int| 0 <= k < s.len() && (#[trigger] s[k]).0@ == name && s[k].1 == v;
        if k != i {
            let k2 = if k < i {
                k
            } else {
                k - 1
            };
            assert(t[k2].0@ == name);
        }
    }
}

} // verus!
