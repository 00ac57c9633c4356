//! Measurable functions: functions between measurable spaces.
//!
//! A function f: (X, F) -> (Y, G) is measurable if the preimage of every set
//! of G lies in F.

use vstd::prelude::*;
use vstd::string::StringExecFns;
use crate::order::{lex_lt, strictly_sorted};
use crate::names::{names, lemma_sorted_unique};
use crate::text::set_debug;
use crate::sigma_algebra::{Subset, SigmaAlgebra, views};
use crate::mapping::{entries, pairs_map, distinct_sources, preimage_of, image_of, lemma_pairs_map,
    find_source, build_mapping, preimage_in, copy_pairs};

verus! {

/// The message for a domain element that the mapping leaves out.
pub open spec fn unmapped_message(elem: Seq<char>) -> Seq<char> {
    "Domain element '"@ + elem + "' not mapped"@
}

/// The message for an intermediate value outside the second function's domain.
pub open spec fn intermediate_message(mid: Seq<char>) -> Seq<char> {
    "Intermediate value '"@ + mid + "' not in domain of second function"@
}

/// The composition `g` after `f`, on the sources of `f`.
pub open spec fn compose_maps(
    f: Map<Seq<char>, Seq<char>>,
    g: Map<Seq<char>, Seq<char>>,
) -> Map<Seq<char>, Seq<char>> {
    Map::new(|k: Seq<char>| f.dom().contains(k), |k: Seq<char>| g[f[k]])
}

/// The names of a finite set in increasing order.
pub open spec fn sorted_listing(s: Set<Seq<char>>) -> Seq<Seq<char>> {
    choose|q: Seq<Seq<char>>| strictly_sorted(q) && q.to_set() == s
}

/// The message for a measurable set with key `b_key` whose preimage, with
/// key `pre_key`, is not measurable.
pub open spec fn not_measurable_text(b_key: Seq<char>, pre_key: Seq<char>) -> Seq<char> {
    "Not measurable: preimage of "@ + b_key + " is "@ + pre_key + ", which is not in the domain sigma-algebra"@
}

/// The message for a measurable set `b` whose preimage `pre` is not
/// measurable, each set written as its Debug text.
pub open spec fn not_measurable_message(b: Set<Seq<char>>, pre: Set<Seq<char>>) -> Seq<char> {
    not_measurable_text(set_debug(sorted_listing(b)), set_debug(sorted_listing(pre)))
}

/// The message for a measurable set with key `b_key` whose preimage, with
/// key `pre_key`, is not measurable.
pub fn not_measurable_error(b_key: &str, pre_key: &str) -> (r: String)
    ensures
        r@ == not_measurable_text(b_key@, pre_key@),
{
    let mut msg: String = "Not measurable: preimage of ".to_owned();
    msg.append(b_key);
    msg.append(" is ");
    msg.append(pre_key);
    msg.append(", which is not in the domain sigma-algebra");
    msg
}

/// The listing of a subset is its sorted listing.
proof fn lemma_items_sorted_listing(a: Subset)
    requires
        strictly_sorted(a.items()),
    ensures
        sorted_listing(a@) == a.items(),
{
    Subset::lemma_view(a);
    let q = sorted_listing(a@);
    assert(strictly_sorted(a.items()) && a.items().to_set() == a@);
    lemma_sorted_unique(q, a.items());
}

/// A measurable function between finite measurable spaces, mapping each
/// element of the domain to an element of the codomain.
#[derive(Debug)]
pub struct MeasurableFunction {
    name: String,
    /// Element-level mapping, each source held once.
    mapping: Vec<(String, String)>,
}

impl Clone for MeasurableFunction {
    fn clone(&self) -> (r: Self)
        ensures
            r.map() == self.map(),
            r.name_view() == self.name_view(),
    {
        proof {
            use_type_invariant(self);
        }
        MeasurableFunction { name: self.name.clone(), mapping: copy_pairs(&self.mapping) }
    }
}

impl MeasurableFunction {
    #[verifier::type_invariant]
    spec fn one_target_each(self) -> bool {
        distinct_sources(entries(self.mapping@))
    }

    /// The element-level map.
    pub closed spec fn map(self) -> Map<Seq<char>, Seq<char>> {
        pairs_map(entries(self.mapping@))
    }

    /// The name, as a spec value.
    pub closed spec fn name_view(self) -> Seq<char> {
        self.name@
    }

    /// Create a new measurable function. Every element of the domain's space
    /// must be mapped, and the preimage of every measurable set of the
    /// codomain must be measurable in the domain. For a source listed twice
    /// the last pair counts.
    pub fn new(
        name: &str,
        domain: &SigmaAlgebra,
        codomain: &SigmaAlgebra,
        mapping: &[(String, String)],
    ) -> (r: Result<MeasurableFunction, String>)
        ensures
            r is Ok <==> domain.space().subset_of(pairs_map(entries(mapping@)).dom()) && forall|b: Set<Seq<char>>|
                #[trigger] codomain.family().contains(b) ==> domain.family().contains(
                    preimage_of(pairs_map(entries(mapping@)), b),
                ),
            r matches Ok(f) ==> f.map() == pairs_map(entries(mapping@)) && f.name_view() == name@,
            !domain.space().subset_of(pairs_map(entries(mapping@)).dom()) ==> exists|x: Seq<char>|
                {
                    &&& domain.space().contains(x)
                    &&& !pairs_map(entries(mapping@)).dom().contains(x)
                    &&& forall|y: Seq<char>|
                        domain.space().contains(y) && !pairs_map(entries(mapping@)).dom().contains(y)
                            ==> !lex_lt(y, x)
                    &&& r matches Err(e) && e@ == unmapped_message(x)
                },
            domain.space().subset_of(pairs_map(entries(mapping@)).dom()) && r is Err ==> exists|
                b: Set<Seq<char>>,
            |
                {
                    &&& #[trigger] codomain.family().contains(b)
                    &&& !domain.family().contains(preimage_of(pairs_map(entries(mapping@)), b))
                    &&& r matches Err(e) && e@ == not_measurable_message(
                        b,
                        preimage_of(pairs_map(entries(mapping@)), b),
                    )
                },
    {
        let map = build_mapping(mapping);
        let ghost m = pairs_map(entries(map@));
        proof {
            lemma_pairs_map(entries(map@));
        }
        let universal = domain.universal();
        let elems = universal.elements();
        let ghost items = names(elems@);
        proof {
            Subset::lemma_view(*universal);
        }
        let mut i: usize = 0;
        while i < elems.len()
            invariant
                items == names(elems@),
                items == universal.items(),
                strictly_sorted(items),
                universal@ == domain.space(),
                universal@ == items.to_set(),
                m == pairs_map(entries(map@)),
                m == pairs_map(entries(mapping@)),
                i <= elems.len(),
                forall|k: int| 0 <= k < i ==> m.dom().contains(#[trigger] items[k]),
            decreases elems.len() - i,
        {
            let found = find_source(&map, &elems[i]);
            if found.is_none() {
                let mut msg: String = "Domain element '".to_owned();
                msg.append(elems[i].as_str());
                msg.append("' not mapped");
                proof {
                    lemma_pairs_map(entries(map@));
                    let x = items[i as int];
                    assert(!m.dom().contains(x)) by {
                        if m.dom().contains(x) {
                            let j = choose|j: int| 0 <= j < entries(map@).len() && (#[trigger] entries(map@)[j]).0 == x;
                        }
                    }
                    assert forall|y: Seq<char>|
                        domain.space().contains(y) && !m.dom().contains(y) implies !lex_lt(y, x) by {
                        let k = choose|k: int| 0 <= k < items.len() && items[k] == y;
                        if k < i {
                            assert(m.dom().contains(items[k]));
                        } else if k > i {
                            assert(lex_lt(items[i as int], items[k]));
                            crate::order::lemma_lex_asymmetric(items[i as int], items[k]);
                        } else {
                            crate::order::lemma_lex_irreflexive(x);
                        }
                    }
                    assert(domain.space().contains(x));
                }
                return Err(msg);
            }
            proof {
                lemma_pairs_map(entries(map@));
                let j = found->0;
                assert(entries(map@)[j as int].0 == items[i as int]);
            }
            i = i + 1;
        }
        proof {
            assert forall|x: Seq<char>| domain.space().contains(x) implies m.dom().contains(x) by {
                let k = choose|k: int| 0 <= k < items.len() && items[k] == x;
            }
        }
        let sets = codomain.measurable_sets();
        let mut j: usize = 0;
        while j < sets.len()
            invariant
                views(sets@) == codomain.listing(),
                codomain.family() == codomain.listing().to_set(),
                m == pairs_map(entries(map@)),
                m == pairs_map(entries(mapping@)),
                distinct_sources(entries(map@)),
                domain.space().subset_of(m.dom()),
                j <= sets.len(),
                forall|k: int|
                    0 <= k < j ==> domain.family().contains(preimage_of(m, #[trigger] views(sets@)[k])),
            decreases sets.len() - j,
        {
            let pre = preimage_in(&map, &sets[j]);
            assert(views(sets@)[j as int] == sets@[j as int]@);
            if !domain.is_measurable(&pre) {
                let bs = sets[j].key();
                let ps = pre.key();
                let msg = not_measurable_error(bs.as_str(), ps.as_str());
                proof {
                    assert(codomain.family().contains(views(sets@)[j as int]));
                    lemma_items_sorted_listing(sets@[j as int]);
                    lemma_items_sorted_listing(pre);
                }
                return Err(msg);
            }
            j = j + 1;
        }
        proof {
            assert forall|b: Set<Seq<char>>| #[trigger] codomain.family().contains(b) implies domain.family().contains(
                preimage_of(m, b),
            ) by {
                let k = choose|k: int| 0 <= k < views(sets@).len() && views(sets@)[k] == b;
            }
        }
        Ok(MeasurableFunction { name: name.to_owned(), mapping: map })
    }

    /// Create without validation.
    pub fn new_unchecked(name: &str, mapping: &[(String, String)]) -> (r: MeasurableFunction)
        ensures
            r.map() == pairs_map(entries(mapping@)),
            r.name_view() == name@,
    {
        MeasurableFunction { name: name.to_owned(), mapping: build_mapping(mapping) }
    }

    /// Apply the function to an element.
    pub fn apply(&self, elem: &str) -> (r: Option<&str>)
        ensures
            r is Some <==> self.map().dom().contains(elem@),
            r matches Some(v) ==> v@ == self.map()[elem@],
    {
        proof {
            use_type_invariant(self);
            lemma_pairs_map(entries(self.mapping@));
        }
        let key: String = elem.to_owned();
        match find_source(&self.mapping, &key) {
            Some(i) => Some(self.mapping[i].1.as_str()),
            None => None,
        }
    }

    /// Preimage of a subset of the codomain.
    pub fn preimage(&self, b: &Subset) -> (r: Subset)
        ensures
            r@ == preimage_of(self.map(), b@),
            forall|k: Seq<char>| #[trigger] r@.contains(k) <==> self.map().dom().contains(k) && b@.contains(self.map()[k]),
    {
        proof {
            use_type_invariant(self);
            crate::meaning::law_preimage_members(self.map(), b@);
        }
        preimage_in(&self.mapping, b)
    }

    /// Image of a subset of the domain.
    pub fn image(&self, a: &Subset) -> (r: Subset)
        ensures
            r@ == image_of(self.map(), a@),
            forall|y: Seq<char>|
                #[trigger] r@.contains(y) <==> exists|x: Seq<char>|
                    a@.contains(x) && self.map().dom().contains(x) && self.map()[x] == y,
    {
        proof {
            use_type_invariant(self);
            lemma_pairs_map(entries(self.mapping@));
        }
        let ghost m = self.map();
        let ghost e = entries(self.mapping@);
        let elems = a.elements();
        let ghost items = names(elems@);
        proof {
            Subset::lemma_view(*a);
        }
        let mut targets: Vec<String> = Vec::new();
        let mut i: usize = 0;
        while i < elems.len()
            invariant
                items == names(elems@),
                items.to_set() == a@,
                m == pairs_map(e),
                e == entries(self.mapping@),
                distinct_sources(e),
                i <= elems.len(),
                forall|y: Seq<char>| #[trigger] names(targets@).contains(y) <==> exists|k: int|
                    0 <= k < i && m.dom().contains(#[trigger] items[k]) && m[items[k]] == y,
            decreases elems.len() - i,
        {
            let ghost before = targets@;
            proof {
                lemma_pairs_map(e);
            }
            match find_source(&self.mapping, &elems[i]) {
                Some(j) => {
                    targets.push(self.mapping[j].1.clone());
                    proof {
                        assert(m[e[j as int].0] == e[j as int].1);
                        assert(names(targets@) =~= names(before).push(e[j as int].1));
                    }
                },
                None => {
                    proof {
                        assert(!m.dom().contains(items[i as int])) by {
                            if m.dom().contains(items[i as int]) {
                                let q = choose|q: int| 0 <= q < e.len() && (#[trigger] e[q]).0 == items[i as int];
                            }
                        }
                    }
                },
            }
            proof {
                assert forall|y: Seq<char>| #[trigger] names(targets@).contains(y) <==> exists|k: int|
                    0 <= k < i + 1 && m.dom().contains(#[trigger] items[k]) && m[items[k]] == y by {
                    if names(before).contains(y) {
                        let q = choose|q: int| 0 <= q < before.len() && names(before)[q] == y;
                        assert(names(targets@)[q] == y);
                    }
                    if names(targets@).contains(y) && !names(before).contains(y) {
                        assert(m.dom().contains(items[i as int]) && m[items[i as int]] == y);
                    }
                    if exists|k: int| 0 <= k < i + 1 && m.dom().contains(#[trigger] items[k]) && m[items[k]] == y {
                        let k = choose|k: int| 0 <= k < i + 1 && m.dom().contains(#[trigger] items[k]) && m[items[k]] == y;
                        if k == i {
                            assert(names(targets@)[targets@.len() - 1] == y);
                        }
                    }
                }
            }
            i = i + 1;
        }
        let r = Subset::from_strings(targets.as_slice());
        proof {
            assert forall|y: Seq<char>| r@.contains(y) <==> image_of(m, a@).contains(y) by {
                if r@.contains(y) {
                    let k = choose|k: int| 0 <= k < i && m.dom().contains(#[trigger] items[k]) && m[items[k]] == y;
                    assert(a@.contains(items[k]));
                }
                if image_of(m, a@).contains(y) {
                    let x = choose|x: Seq<char>| a@.contains(x) && #[trigger] m.dom().contains(x) && m[x] == y;
                    let k = choose|k: int| 0 <= k < items.len() && items[k] == x;
                    assert(m.dom().contains(items[k]));
                }
            }
            assert(r@ =~= image_of(m, a@));
            crate::meaning::law_image_members(m, a@);
        }
        r
    }

    /// Compose two functions: `other` after `self`. Fails on the first source
    /// whose target lies outside the second function's domain.
    pub fn compose(&self, other: &MeasurableFunction) -> (r: Result<MeasurableFunction, String>)
        ensures
            r is Ok <==> forall|k: Seq<char>|
                #[trigger] self.map().dom().contains(k) ==> other.map().dom().contains(self.map()[k]),
            r matches Ok(h) ==> h.map() == compose_maps(self.map(), other.map()) && h.name_view()
                == other.name_view() + "_∘_"@ + self.name_view(),
            r matches Ok(h) ==> h.map().dom() == self.map().dom() && forall|k: Seq<char>|
                #[trigger] self.map().dom().contains(k) ==> h.map()[k] == other.map()[self.map()[k]],
            r matches Err(e) ==> exists|k: Seq<char>|
                #[trigger] self.map().dom().contains(k) && !other.map().dom().contains(self.map()[k])
                    && e@ == intermediate_message(self.map()[k]),
    {
        proof {
            use_type_invariant(self);
            use_type_invariant(other);
            lemma_pairs_map(entries(self.mapping@));
            lemma_pairs_map(entries(other.mapping@));
        }
        let ghost e = entries(self.mapping@);
        let ghost f = self.map();
        let ghost g = other.map();
        let mut out: Vec<(String, String)> = Vec::new();
        let mut i: usize = 0;
        while i < self.mapping.len()
            invariant
                e == entries(self.mapping@),
                f == pairs_map(e),
                g == pairs_map(entries(other.mapping@)),
                distinct_sources(e),
                distinct_sources(entries(other.mapping@)),
                i <= e.len(),
                entries(out@).len() == i,
                forall|k: int| 0 <= k < i ==> (#[trigger] entries(out@)[k]).0 == e[k].0 && g.dom().contains(e[k].1)
                    && entries(out@)[k].1 == g[e[k].1],
            decreases e.len() - i,
        {
            proof {
                lemma_pairs_map(e);
                lemma_pairs_map(entries(other.mapping@));
            }
            match find_source(&other.mapping, &self.mapping[i].1) {
                Some(j) => {
                    let ghost before = out@;
                    out.push((self.mapping[i].0.clone(), other.mapping[j].1.clone()));
                    proof {
                        assert(g[entries(other.mapping@)[j as int].0] == entries(other.mapping@)[j as int].1);
                        assert forall|k: int| 0 <= k < i + 1 implies (#[trigger] entries(out@)[k]).0 == e[k].0
                            && g.dom().contains(e[k].1) && entries(out@)[k].1 == g[e[k].1] by {
                            if k < i {
                                assert(entries(out@)[k] == entries(before)[k]);
                            }
                        }
                    }
                },
                None => {
                    let mut msg: String = "Intermediate value '".to_owned();
                    msg.append(self.mapping[i].1.as_str());
                    msg.append("' not in domain of second function");
                    proof {
                        let k = e[i as int].0;
                        assert(f[k] == e[i as int].1);
                        assert(f.dom().contains(k));
                        assert(e[i as int].1 == self.mapping@[i as int].1@);
                        assert(msg@ == intermediate_message(f[k]));
                        assert(!g.dom().contains(f[k])) by {
                            if g.dom().contains(f[k]) {
                                let q = choose|q: int| 0 <= q < entries(other.mapping@).len()
                                    && (#[trigger] entries(other.mapping@)[q]).0 == f[k];
                            }
                        }
                        assert(self.map().dom().contains(k) && !other.map().dom().contains(self.map()[k]));
                    }
                    return Err(msg);
                },
            }
            i = i + 1;
        }
        let mut name: String = other.name.clone();
        name.append("_∘_");
        name.append(self.name.as_str());
        proof {
            let eo = entries(out@);
            assert(distinct_sources(eo)) by {
                assert forall|a: int, b: int| 0 <= a < b < eo.len() implies (#[trigger] eo[a]).0 != (
                #[trigger] eo[b]).0 by {
                    assert(e[a].0 != e[b].0);
                }
            }
            lemma_pairs_map(eo);
            let h = pairs_map(eo);
            assert forall|k: Seq<char>| h.dom().contains(k) <==> f.dom().contains(k) by {
                if h.dom().contains(k) {
                    let q = choose|q: int| 0 <= q < eo.len() && (#[trigger] eo[q]).0 == k;
                    assert(e[q].0 == k);
                }
                if f.dom().contains(k) {
                    let q = choose|q: int| 0 <= q < e.len() && (#[trigger] e[q]).0 == k;
                    assert(eo[q].0 == k);
                }
            }
            assert forall|k: Seq<char>| h.dom().contains(k) implies h[k] == g[f[k]] by {
                let q = choose|q: int| 0 <= q < eo.len() && (#[trigger] eo[q]).0 == k;
                assert(h[eo[q].0] == eo[q].1);
                assert(f[e[q].0] == e[q].1);
            }
            assert(h =~= compose_maps(f, g));
            assert forall|k: Seq<char>| #[trigger] f.dom().contains(k) implies g.dom().contains(f[k]) by {
                let q = choose|q: int| 0 <= q < e.len() && (#[trigger] e[q]).0 == k;
                assert(f[e[q].0] == e[q].1);
                assert(eo[q].0 == e[q].0);
            }
        }
        proof {
            crate::meaning::law_compose_maps(self.map(), other.map());
        }
        Ok(MeasurableFunction { name, mapping: out })
    }

    /// The name of this function.
    pub fn name(&self) -> (r: &str)
        ensures
            r@ == self.name_view(),
    {
        self.name.as_str()
    }

    /// The mapping, as (source, target) pairs with each source once.
    pub fn mapping(&self) -> (r: &[(String, String)])
        ensures
            pairs_map(entries(r@)) == self.map(),
            distinct_sources(entries(r@)),
    {
        proof {
            use_type_invariant(self);
        }
        self.mapping.as_slice()
    }
}

/// An indicator function of a set A.
#[derive(Debug)]
pub struct IndicatorFunction {
    set: Subset,
}

impl Clone for IndicatorFunction {
    fn clone(&self) -> (r: Self)
        ensures
            r.indicated() == self.indicated(),
    {
        IndicatorFunction { set: self.set.clone() }
    }
}

impl IndicatorFunction {
    /// The set indicated, as a spec value.
    pub closed spec fn indicated(self) -> Set<Seq<char>> {
        self.set@
    }

    /// The indicator of `set`.
    pub fn new(set: Subset) -> (r: IndicatorFunction)
        ensures
            r.indicated() == set@,
    {
        IndicatorFunction { set }
    }

    /// Does the indicator take the value 1 at `elem`?
    pub fn indicates(&self, elem: &str) -> (r: bool)
        ensures
            r == self.indicated().contains(elem@),
    {
        self.set.contains(elem)
    }

    /// Get the underlying set.
    pub fn set(&self) -> (r: &Subset)
        ensures
            r@ == self.indicated(),
    {
        &self.set
    }
}

} // verus!
