//! Sorted vectors of names: the storage behind `Subset`.

use vstd::prelude::*;
use crate::order::{lex_lt, strictly_sorted, str_less, lemma_lex_irreflexive,
    lemma_lex_transitive, lemma_lex_total, lemma_lex_asymmetric};

verus! {

/// The names held by a vector of strings, in order.
pub open spec fn names(v: Seq<String>) -> Seq<Seq<char>> {
    v.map_values(|s: String| s@)
}

/// A strictly sorted sequence holds no name twice.
pub proof fn lemma_sorted_no_duplicates(s: Seq<Seq<char>>)
    requires
        strictly_sorted(s),
    ensures
        s.no_duplicates(),
        s.to_set().len() == s.len(),
{
    assert forall|i: int, j: int| 0 <= i < s.len() && 0 <= j < s.len() && i != j implies s[i]
        != s[j] by {
        if i < j {
            assert(lex_lt(s[i], s[j]));
            lemma_lex_irreflexive(s[i]);
        } else {
            assert(lex_lt(s[j], s[i]));
            lemma_lex_irreflexive(s[j]);
        }
    }
    s.unique_seq_to_set();
}

/// Two strictly sorted sequences with the same names are the same sequence.
pub proof fn lemma_sorted_unique(s1: Seq<Seq<char>>, s2: Seq<Seq<char>>)
    requires
        strictly_sorted(s1),
        strictly_sorted(s2),
        s1.to_set() == s2.to_set(),
    ensures
        s1 == s2,
    decreases s1.len(),
{
    lemma_sorted_no_duplicates(s1);
    lemma_sorted_no_duplicates(s2);
    if s1.len() == 0 {
        assert(s2.len() == 0);
        assert(s1 =~= s2);
    } else {
        assert(s2.len() == s1.len());
        let a = s1[0];
        let b = s2[0];
        assert(s1.to_set().contains(a));
        assert(s2.contains(a));
        assert(s1.contains(b)) by {
            assert(s2.to_set().contains(b));
        }
        if a != b {
            let ia = choose|k: int| 0 <= k < s2.len() && s2[k] == a;
            let ib = choose|k: int| 0 <= k < s1.len() && s1[k] == b;
            assert(ia > 0);
            assert(ib > 0);
            assert(lex_lt(b, a));
            assert(lex_lt(a, b));
            lemma_lex_asymmetric(a, b);
        }
        let t1 = s1.drop_first();
        let t2 = s2.drop_first();
        assert(strictly_sorted(t1));
        assert(strictly_sorted(t2));
        assert(t1.to_set() =~= t2.to_set()) by {
            assert forall|y: Seq<char>| t1.to_set().contains(y) implies t2.to_set().contains(
                y,
            ) by {
                let k = choose|k: int| 0 <= k < t1.len() && t1[k] == y;
                assert(s1[k + 1] == y);
                assert(s1.to_set().contains(y));
                let m = choose|m: int| 0 <= m < s2.len() && s2[m] == y;
                if m == 0 {
                    assert(s1[0] == y);
                }
                assert(t2[m - 1] == y);
            }
            assert forall|y: Seq<char>| t2.to_set().contains(y) implies t1.to_set().contains(
                y,
            ) by {
                let k = choose|k: int| 0 <= k < t2.len() && t2[k] == y;
                assert(s2[k + 1] == y);
                assert(s2.to_set().contains(y));
                let m = choose|m: int| 0 <= m < s1.len() && s1[m] == y;
                if m == 0 {
                    assert(s2[0] == y);
                }
                assert(t1[m - 1] == y);
            }
        }
        lemma_sorted_unique(t1, t2);
        assert(s1 =~= seq![a] + t1);
        assert(s2 =~= seq![b] + t2);
    }
}

/// Finds where `x` stands, or would stand, in a sorted vector.
pub fn locate(v: &Vec<String>, x: &String) -> (r: (bool, usize))
    requires
        strictly_sorted(names(v@)),
    ensures
        r.1 <= v.len(),
        forall|i: int| 0 <= i < r.1 ==> lex_lt(#[trigger] names(v@)[i], x@),
        r.0 ==> r.1 < v.len() && names(v@)[r.1 as int] == x@,
        !r.0 ==> forall|i: int| r.1 <= i < v.len() ==> lex_lt(x@, #[trigger] names(v@)[i]),
        r.0 == names(v@).contains(x@),
{
    let ghost n = names(v@);
    let mut i: usize = 0;
    while i < v.len()
        invariant
            n == names(v@),
            strictly_sorted(n),
            i <= v.len(),
            forall|j: int| 0 <= j < i ==> lex_lt(#[trigger] n[j], x@),
        ensures
            i <= v.len(),
            forall|j: int| 0 <= j < i ==> lex_lt(#[trigger] n[j], x@),
            i < v.len() ==> !lex_lt(n[i as int], x@),
        decreases v.len() - i,
    {
        if !str_less(&v[i], x) {
            break;
        }
        i = i + 1;
    }
    let found = i < v.len() && v[i] == *x;
    proof {
        if !found && i < v.len() {
            assert(!lex_lt(n[i as int], x@));
            lemma_lex_total(n[i as int], x@);
            assert forall|j: int| i <= j < v.len() implies lex_lt(x@, #[trigger] n[j]) by {
                if j > i {
                    assert(lex_lt(n[i as int], n[j]));
                    lemma_lex_transitive(x@, n[i as int], n[j]);
                }
            }
        }
        if found {
            assert(n[i as int] == x@);
        } else {
            assert forall|j: int| 0 <= j < n.len() implies n[j] != x@ by {
                if j < i {
                    assert(lex_lt(n[j], x@));
                    lemma_lex_irreflexive(x@);
                } else {
                    assert(lex_lt(x@, n[j]));
                    lemma_lex_irreflexive(x@);
                }
            }
        }
    }
    (found, i)
}

/// Adds `x` to a sorted vector, keeping it sorted and free of repeats.
pub fn insert_sorted(v: &mut Vec<String>, x: String)
    requires
        strictly_sorted(names(old(v)@)),
    ensures
        strictly_sorted(names(final(v)@)),
        names(final(v)@).to_set() == names(old(v)@).to_set().insert(x@),
{
    let ghost n0 = names(v@);
    let (found, pos) = locate(v, &x);
    if found {
        proof {
            assert(n0.to_set() =~= n0.to_set().insert(x@));
        }
        return;
    }
    let ghost xv = x@;
    v.insert(pos, x);
    proof {
        let n1 = names(v@);
        assert(n1 =~= n0.insert(pos as int, xv));
        assert forall|i: int, j: int| 0 <= i < j < n1.len() implies lex_lt(
            #[trigger] n1[i],
            #[trigger] n1[j],
        ) by {
            if j < pos {
                assert(n1[i] == n0[i] && n1[j] == n0[j]);
            } else if j == pos {
                assert(n1[i] == n0[i]);
            } else if i < pos {
                assert(n1[i] == n0[i] && n1[j] == n0[j - 1]);
                assert(lex_lt(n0[i], xv));
                assert(lex_lt(xv, n0[j - 1]));
                lemma_lex_transitive(n0[i], xv, n0[j - 1]);
            } else if i == pos {
                assert(n1[j] == n0[j - 1]);
            } else {
                assert(n1[i] == n0[i - 1] && n1[j] == n0[j - 1]);
            }
        }
        assert forall|y: Seq<char>| n1.to_set().contains(y) <==> n0.to_set().insert(
            xv,
        ).contains(y) by {
            if n1.contains(y) {
                let k = choose|k: int| 0 <= k < n1.len() && n1[k] == y;
                if k < pos {
                    assert(n0[k] == y);
                } else if k > pos {
                    assert(n0[k - 1] == y);
                }
            }
            if n0.contains(y) {
                let k = choose|k: int| 0 <= k < n0.len() && n0[k] == y;
                if k < pos {
                    assert(n1[k] == y);
                } else {
                    assert(n1[k + 1] == y);
                }
            }
            if y == xv {
                assert(n1[pos as int] == y);
            }
        }
        assert(n1.to_set() =~= n0.to_set().insert(xv));
    }
}

/// A copy of a vector of names.
pub fn copy_names(v: &Vec<String>) -> (r: Vec<String>)
    ensures
        r@ == v@,
{
    let mut r: Vec<String> = Vec::new();
    let mut i: usize = 0;
    while i < v.len()
        invariant
            i <= v.len(),
            r@ == v@.subrange(0, i as int),
        decreases v.len() - i,
    {
        r.push(v[i].clone());
        i = i + 1;
    }
    assert(r@ =~= v@);
    r
}

} // verus!
