//! Association lists keyed by strings: the maps of the index store.
use vstd::prelude::*;
use crate::text::same_chars;

verus! {

/// The value stored under `k`; where a key occurs more than once, the last entry counts.
pub open spec fn lookup<V>(e: Seq<(String, V)>, k: Seq<char>) -> Option<V>
    decreases e.len(),
{
    if e.len() == 0 {
        None
    } else if e.last().0@ == k {
        Some(e.last().1)
    } else {
        lookup(e.drop_last(), k)
    }
}

/// No key occurs twice.
pub open spec fn keys_unique<V>(e: Seq<(String, V)>) -> bool {
    forall|i: int, j: int| 0 <= i < j < e.len() ==> e[i].0@ != e[j].0@
}

pub proof fn lemma_lookup_none<V>(e: Seq<(String, V)>, k: Seq<char>)
    ensures
        lookup(e, k) is None <==> forall|i: int| 0 <= i < e.len() ==> #[trigger] e[i].0@ != k,
    decreases e.len(),
{
    if e.len() > 0 {
        lemma_lookup_none(e.drop_last(), k);
        if lookup(e, k) is None {
            assert forall|i: int| 0 <= i < e.len() implies #[trigger] e[i].0@ != k by {
                if i < e.len() - 1 {
                    assert(e.drop_last()[i] == e[i]);
                }
            }
        } else if e.last().0@ != k {
            let i = choose|i: int| 0 <= i < e.len() - 1 && #[trigger] e.drop_last()[i].0@ == k;
            assert(e[i].0@ == k);
        }
    }
}

pub proof fn lemma_lookup_at<V>(e: Seq<(String, V)>, k: Seq<char>, i: int)
    requires
        keys_unique(e),
        0 <= i < e.len(),
        e[i].0@ == k,
    ensures
        lookup(e, k) == Some(e[i].1),
    decreases e.len(),
{
    if i < e.len() - 1 {
        assert(e.last().0@ != k);
        lemma_lookup_at(e.drop_last(), k, i);
    }
}

pub proof fn lemma_lookup_update<V>(e: Seq<(String, V)>, i: int, s: String, v: V, k: Seq<char>)
    requires
        keys_unique(e),
        0 <= i < e.len(),
        e[i].0@ == s@,
    ensures
        keys_unique(e.update(i, (s, v))),
        lookup(e.update(i, (s, v)), k) == if k == s@ {
            Some(v)
        } else {
            lookup(e, k)
        },
{
    let u = e.update(i, (s, v));
    assert(keys_unique(u));
    if k == s@ {
        lemma_lookup_at(u, k, i);
    } else {
        lemma_lookup_none(e, k);
        lemma_lookup_none(u, k);
        if lookup(e, k) is Some {
            let j = choose|j: int| 0 <= j < e.len() && #[trigger] e[j].0@ == k;
            lemma_lookup_at(e, k, j);
            lemma_lookup_at(u, k, j);
        }
    }
}

pub proof fn lemma_lookup_push<V>(e: Seq<(String, V)>, s: String, v: V)
    requires
        keys_unique(e),
        lookup(e, s@) is None,
    ensures
        keys_unique(e.push((s, v))),
{
    lemma_lookup_none(e, s@);
    let p = e.push((s, v));
    assert forall|i: int, j: int| 0 <= i < j < p.len() implies p[i].0@ != p[j].0@ by {
        if j == e.len() {
            assert(e[i].0@ != s@);
        }
    }
}

/// The position of the entry under `k`, if there is one.
pub fn find_key<V>(e: &Vec<(String, V)>, k: &str) -> (r: Option<usize>)
    ensures
        match r {
            Some(i) => i < e@.len() && e@[i as int].0@ == k@ && lookup(e@, k@) == Some(
                e@[i as int].1,
            ),
            None => lookup(e@, k@) is None,
        },
{
    let mut n = e.len();
    assert(e@.take(n as int) =~= e@);
    while n > 0
        invariant
            n <= e@.len(),
            lookup(e@, k@) == lookup(e@.take(n as int), k@),
        decreases n,
    {
        let ghost t = e@.take(n as int);
        assert(t.drop_last() =~= e@.take(n - 1));
        if same_chars(e[n - 1].0.as_str(), k) {
            return Some(n - 1);
        }
        n = n - 1;
    }
    None
}

} // verus!
