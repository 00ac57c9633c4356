//! Element-level maps held as vectors of (source, target) pairs.
//!
//! A map built from a list of pairs keeps, for a repeated source, the target
//! of its last pair.

use vstd::prelude::*;
use crate::sigma_algebra::Subset;

verus! {

/// The names of each pair.
pub open spec fn entries(v: Seq<(String, String)>) -> Seq<(Seq<char>, Seq<char>)> {
    v.map_values(|p: (String, String)| (p.0@, p.1@))
}

/// The map a list of pairs describes, later pairs overriding earlier ones.
pub open spec fn pairs_map(s: Seq<(Seq<char>, Seq<char>)>) -> Map<Seq<char>, Seq<char>>
    decreases s.len(),
{
    if s.len() == 0 {
        Map::empty()
    } else {
        pairs_map(s.drop_last()).insert(s.last().0, s.last().1)
    }
}

/// No source appears twice.
pub open spec fn distinct_sources(s: Seq<(Seq<char>, Seq<char>)>) -> bool {
    forall|i: int, j: int| 0 <= i < j < s.len() ==> (#[trigger] s[i]).0 != (#[trigger] s[j]).0
}

/// The preimage of `b` under `m`.
pub open spec fn preimage_of(m: Map<Seq<char>, Seq<char>>, b: Set<Seq<char>>) -> Set<Seq<char>> {
    Set::new(|k: Seq<char>| m.dom().contains(k) && b.contains(m[k]))
}

/// The image of `a` under `m`.
pub open spec fn image_of(m: Map<Seq<char>, Seq<char>>, a: Set<Seq<char>>) -> Set<Seq<char>> {
    Set::new(|y: Seq<char>| exists|x: Seq<char>| a.contains(x) && #[trigger] m.dom().contains(x) && m[x] == y)
}

/// The sources of a map are the sources listed; with no source repeated,
/// each listed source maps to its listed target.
pub proof fn lemma_pairs_map(s: Seq<(Seq<char>, Seq<char>)>)
    ensures
        forall|k: Seq<char>|
            #[trigger] pairs_map(s).dom().contains(k) <==> exists|i: int| 0 <= i < s.len() && (#[trigger] s[i]).0 == k,
        distinct_sources(s) ==> forall|i: int| 0 <= i < s.len() ==> #[trigger] pairs_map(s)[s[i].0] == s[i].1,
    decreases s.len(),
{
    if s.len() > 0 {
        let t = s.drop_last();
        lemma_pairs_map(t);
        assert forall|k: Seq<char>| #[trigger] pairs_map(s).dom().contains(k) <==> exists|i: int|
            0 <= i < s.len() && (#[trigger] s[i]).0 == k by {
            if pairs_map(t).dom().contains(k) {
                let i = choose|i: int| 0 <= i < t.len() && (#[trigger] t[i]).0 == k;
                assert(s[i].0 == k);
            }
            if exists|i: int| 0 <= i < s.len() && (#[trigger] s[i]).0 == k {
                let i = choose|i: int| 0 <= i < s.len() && (#[trigger] s[i]).0 == k;
                if i < s.len() - 1 {
                    assert(t[i].0 == k);
                }
            }
        }
        if distinct_sources(s) {
            assert(distinct_sources(t));
            assert forall|i: int| 0 <= i < s.len() implies #[trigger] pairs_map(s)[s[i].0] == s[i].1 by {
                if i < s.len() - 1 {
                    assert(t[i] == s[i]);
                    assert(s[i].0 != s[s.len() - 1].0);
                    assert(pairs_map(t)[t[i].0] == t[i].1);
                }
            }
        }
    }
}

/// Replacing the target of a listed source changes only that source.
pub proof fn lemma_pairs_map_update(s: Seq<(Seq<char>, Seq<char>)>, i: int, v: Seq<char>)
    requires
        distinct_sources(s),
        0 <= i < s.len(),
    ensures
        distinct_sources(s.update(i, (s[i].0, v))),
        pairs_map(s.update(i, (s[i].0, v))) == pairs_map(s).insert(s[i].0, v),
    decreases s.len(),
{
    let s2 = s.update(i, (s[i].0, v));
    assert(distinct_sources(s2)) by {
        assert forall|a: int, b: int| 0 <= a < b < s2.len() implies (#[trigger] s2[a]).0 != (
        #[trigger] s2[b]).0 by {
            assert(s2[a].0 == s[a].0 && s2[b].0 == s[b].0);
        }
    }
    if i == s.len() - 1 {
        assert(s2.drop_last() =~= s.drop_last());
    } else {
        let t = s.drop_last();
        assert(s2.drop_last() =~= t.update(i, (t[i].0, v)));
        lemma_pairs_map_update(t, i, v);
        assert(s[i].0 != s.last().0);
        assert(pairs_map(s2) =~= pairs_map(s).insert(s[i].0, v));
    }
}

/// A copy of a list of pairs.
pub fn copy_pairs(v: &Vec<(String, String)>) -> (r: Vec<(String, String)>)
    ensures
        entries(r@) == entries(v@),
{
    let mut r: Vec<(String, String)> = Vec::new();
    let mut i: usize = 0;
    while i < v.len()
        invariant
            i <= v.len(),
            entries(r@) == entries(v@).subrange(0, i as int),
        decreases v.len() - i,
    {
        let a = v[i].0.clone();
        let b = v[i].1.clone();
        let ghost before = r@;
        r.push((a, b));
        assert(entries(v@)[i as int] == (v@[i as int].0@, v@[i as int].1@));
        assert(entries(r@) =~= entries(before).push(entries(v@)[i as int]));
        assert(entries(r@) =~= entries(v@).subrange(0, i + 1));
        i = i + 1;
    }
    assert(entries(v@).subrange(0, v.len() as int) =~= entries(v@));
    r
}

/// Where a source stands in a list of pairs.
pub fn find_source(v: &Vec<(String, String)>, k: &String) -> (r: Option<usize>)
    ensures
        r matches Some(i) ==> i < v.len() && entries(v@)[i as int].0 == k@,
        r is None ==> forall|i: int| 0 <= i < v.len() ==> (#[trigger] entries(v@)[i]).0 != k@,
{
    let mut i: usize = 0;
    while i < v.len()
        invariant
            i <= v.len(),
            forall|j: int| 0 <= j < i ==> (#[trigger] entries(v@)[j]).0 != k@,
        decreases v.len() - i,
    {
        if v[i].0 == *k {
            return Some(i);
        }
        i = i + 1;
    }
    None
}

/// The pairs of `pairs` with each source held once, keeping the last target.
pub fn build_mapping(pairs: &[(String, String)]) -> (r: Vec<(String, String)>)
    ensures
        distinct_sources(entries(r@)),
        pairs_map(entries(r@)) == pairs_map(entries(pairs@)),
{
    let ghost all = entries(pairs@);
    let mut r: Vec<(String, String)> = Vec::new();
    let mut i: usize = 0;
    assert(entries(r@) =~= Seq::<(Seq<char>, Seq<char>)>::empty());
    assert(all.subrange(0, 0) =~= Seq::<(Seq<char>, Seq<char>)>::empty());
    while i < pairs.len()
        invariant
            all == entries(pairs@),
            i <= pairs.len(),
            distinct_sources(entries(r@)),
            pairs_map(entries(r@)) == pairs_map(all.subrange(0, i as int)),
        decreases pairs.len() - i,
    {
        let k = pairs[i].0.clone();
        let val = pairs[i].1.clone();
        let ghost before = entries(r@);
        proof {
            let pre = all.subrange(0, i + 1);
            assert(pre.drop_last() =~= all.subrange(0, i as int));
            assert(pre.last() == (k@, val@));
        }
        match find_source(&r, &k) {
            Some(j) => {
                let ghost vv = val@;
                r.set(j, (k, val));
                proof {
                    lemma_pairs_map_update(before, j as int, vv);
                    assert(entries(r@) =~= before.update(j as int, (before[j as int].0, vv)));
                }
            },
            None => {
                let ghost kv = k@;
                let ghost vv = val@;
                r.push((k, val));
                proof {
                    assert(entries(r@) =~= before.push((kv, vv)));
                    assert(entries(r@).drop_last() =~= before);
                    assert forall|a: int, b: int| 0 <= a < b < entries(r@).len() implies (
                    #[trigger] entries(r@)[a]).0 != (#[trigger] entries(r@)[b]).0 by {
                        if b == before.len() {
                            assert(before[a].0 != kv);
                        } else {
                            assert(before[a].0 != before[b].0);
                        }
                    }
                }
            },
        }
        i = i + 1;
    }
    assert(all.subrange(0, pairs.len() as int) =~= all);
    r
}

/// The sources whose target lies in `b`.
pub fn preimage_in(v: &Vec<(String, String)>, b: &Subset) -> (r: Subset)
    requires
        distinct_sources(entries(v@)),
    ensures
        r@ == preimage_of(pairs_map(entries(v@)), b@),
{
    let ghost e = entries(v@);
    let mut keys: Vec<String> = Vec::new();
    let mut i: usize = 0;
    while i < v.len()
        invariant
            e == entries(v@),
            i <= v.len(),
            forall|x: Seq<char>| #[trigger] crate::names::names(keys@).contains(x) <==> exists|k: int|
                0 <= k < i && (#[trigger] e[k]).0 == x && b@.contains(e[k].1),
        decreases v.len() - i,
    {
        let ghost before = keys@;
        if b.has(&v[i].1) {
            keys.push(v[i].0.clone());
            proof {
                assert(crate::names::names(keys@) =~= crate::names::names(before).push(e[i as int].0));
            }
        }
        proof {
            assert forall|x: Seq<char>| #[trigger] crate::names::names(keys@).contains(x) <==> exists|k: int|
                0 <= k < i + 1 && (#[trigger] e[k]).0 == x && b@.contains(e[k].1) by {
                if crate::names::names(keys@).contains(x) && !crate::names::names(before).contains(x) {
                    assert(e[i as int].0 == x);
                }
                if crate::names::names(before).contains(x) {
                    let m = choose|m: int| 0 <= m < before.len() && crate::names::names(before)[m] == x;
                    assert(crate::names::names(keys@)[m] == x);
                }
                if exists|k: int| 0 <= k < i + 1 && (#[trigger] e[k]).0 == x && b@.contains(e[k].1) {
                    let k = choose|k: int| 0 <= k < i + 1 && (#[trigger] e[k]).0 == x && b@.contains(e[k].1);
                    if k == i {
                        assert(crate::names::names(keys@)[keys@.len() - 1] == x);
                    }
                }
            }
        }
        i = i + 1;
    }
    let r = Subset::from_strings(keys.as_slice());
    proof {
        lemma_pairs_map(e);
        let m = pairs_map(e);
        assert forall|x: Seq<char>| r@.contains(x) <==> preimage_of(m, b@).contains(x) by {
            if r@.contains(x) {
                let k = choose|k: int| 0 <= k < i && (#[trigger] e[k]).0 == x && b@.contains(e[k].1);
                assert(m[e[k].0] == e[k].1);
            }
            if preimage_of(m, b@).contains(x) {
                let k = choose|k: int| 0 <= k < e.len() && (#[trigger] e[k]).0 == x;
                assert(m[e[k].0] == e[k].1);
            }
        }
        assert(r@ =~= preimage_of(m, b@));
    }
    r
}

} // verus!
