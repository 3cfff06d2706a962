//! Candidate lists for picking.

use vstd::prelude::*;
use std::collections::HashSet;
use vstd::std_specs::hash::obeys_key_model;

verus! {

broadcast use vstd::std_specs::hash::group_hash_axioms;

/// The first occurrence of each value of `s`, in order.
pub open spec fn first_occurrences<T>(s: Seq<T>) -> Seq<T>
    decreases s.len(),
{
    if s.len() == 0 {
        seq![]
    } else if s.drop_last().contains(s.last()) {
        first_occurrences(s.drop_last())
    } else {
        first_occurrences(s.drop_last()).push(s.last())
    }
}

/// Keep the first occurrence of each value, in order.
pub fn dedup<T: Copy + Eq + std::hash::Hash>(v: Vec<T>) -> (out: Vec<T>)
    requires
        obeys_key_model::<T>(),
    ensures
        out@ == first_occurrences(v@),
{
    let mut set: HashSet<T> = HashSet::new();
    let mut out: Vec<T> = Vec::new();
    let mut i: usize = 0;
    while i < v.len()
        invariant
            obeys_key_model::<T>(),
            i <= v@.len(),
            out@ == first_occurrences(v@.take(i as int)),
            set@ == v@.take(i as int).to_set(),
        decreases v@.len() - i,
    {
        let x = v[i];
        proof {
            let t = v@.take(i + 1);
            assert(t.drop_last() =~= v@.take(i as int));
            assert(t.last() == x);
            assert(t.to_set() =~= v@.take(i as int).to_set().insert(x)) by {
                assert forall|y: T| t.contains(y) <==> v@.take(i as int).contains(y) || y == x by {
                    if t.contains(y) && y != x {
                        let k = choose|k: int| 0 <= k < t.len() && t[k] == y;
                        assert(v@.take(i as int)[k] == y);
                    }
                    if v@.take(i as int).contains(y) {
                        let k = choose|k: int| 0 <= k < i && v@.take(i as int)[k] == y;
                        assert(t[k] == y);
                    }
                    if y == x {
                        assert(t[i as int] == y);
                    }
                }
            }
        }
        if set.insert(x) {
            out.push(x);
        }
        i = i + 1;
    }
    proof {
        assert(v@.take(i as int) =~= v@);
    }
    out
}

/// `first_occurrences` keeps exactly the values of `s`, each once.
pub proof fn lemma_first_occurrences<T>(s: Seq<T>)
    ensures
        first_occurrences(s).no_duplicates(),
        forall|x: T| #[trigger] first_occurrences(s).contains(x) <==> s.contains(x),
    decreases s.len(),
{
    if s.len() == 0 {
        assert(first_occurrences(s) =~= Seq::<T>::empty());
    } else {
        let p = s.drop_last();
        let l = s.last();
        let d = first_occurrences(p);
        lemma_first_occurrences(p);
        assert forall|x: T| s.contains(x) <==> p.contains(x) || x == l by {
            if s.contains(x) && x != l {
                let k = choose|k: int| 0 <= k < s.len() && s[k] == x;
                assert(k != s.len() - 1);
                assert(p[k] == x);
            }
            if p.contains(x) {
                let k = choose|k: int| 0 <= k < p.len() && p[k] == x;
                assert(s[k] == x);
            }
            if x == l {
                assert(s[s.len() - 1] == x);
            }
        }
        if p.contains(l) {
            assert(first_occurrences(s) == d);
        } else {
            let e = d.push(l);
            assert(first_occurrences(s) == e);
            assert forall|x: T| e.contains(x) <==> d.contains(x) || x == l by {
                if e.contains(x) && x != l {
                    let k = choose|k: int| 0 <= k < e.len() && e[k] == x;
                    assert(k != d.len());
                    assert(d[k] == x);
                }
                if d.contains(x) {
                    let k = choose|k: int| 0 <= k < d.len() && d[k] == x;
                    assert(e[k] == x);
                }
                if x == l {
                    assert(e[d.len() as int] == x);
                }
            }
            assert forall|a: int, b: int| 0 <= a < b < e.len() implies e[a] != e[b] by {
                if b == d.len() {
                    assert(e[a] == d[a]);
                    assert(d.contains(d[a]));
                } else {
                    assert(e[a] == d[a] && e[b] == d[b]);
                }
            }
        }
    }
}

/// A list without repeated values is its own first occurrences, so
/// removing repeats twice gives what removing them once gave.
pub proof fn lemma_first_occurrences_idempotent<T>(s: Seq<T>)
    ensures
        first_occurrences(first_occurrences(s)) == first_occurrences(s),
{
    lemma_first_occurrences(s);
    lemma_unique_is_own_first_occurrences(first_occurrences(s));
}

proof fn lemma_unique_is_own_first_occurrences<T>(s: Seq<T>)
    requires
        s.no_duplicates(),
    ensures
        first_occurrences(s) == s,
    decreases s.len(),
{
    if s.len() > 0 {
        let p = s.drop_last();
        assert(p.no_duplicates());
        lemma_unique_is_own_first_occurrences(p);
        assert(!p.contains(s.last())) by {
            if p.contains(s.last()) {
                let k = choose|k: int| 0 <= k < p.len() && p[k] == s.last();
                assert(s[k] == s[s.len() - 1]);
            }
        }
        assert(p.push(s.last()) =~= s);
    }
}

} // verus!
