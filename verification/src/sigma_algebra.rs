//! Sigma-algebras: the foundational structure of measure theory.
//!
//! A sigma-algebra on a set X is a collection of subsets containing the empty
//! set and X, closed under complements and countable unions (hence also
//! countable intersections). On a finite space, pairwise unions suffice.

use vstd::prelude::*;
use crate::order::strictly_sorted;
use crate::text::{set_debug, set_text};
use crate::names::{names, locate, insert_sorted, copy_names, lemma_sorted_no_duplicates,
    lemma_sorted_unique};
use crate::family::{member, powerset, two_pow, is_sigma_family, is_closed_family, initial_family,
    generated_family, union_all, meet_within, lemma_powerset_insert, lemma_family_len_bound,
    lemma_generated_family_unique, lemma_union_all_contains, lemma_union_all_finite,
    lemma_powerset_is_sigma};

verus! {

broadcast use vstd::seq_lib::seq_to_set_is_finite;

/// The first `i` names of `s`, as a set, grow by `s[i]` at each step.
pub proof fn lemma_prefix_set_step<A>(s: Seq<A>, i: int)
    requires
        0 <= i < s.len(),
    ensures
        s.subrange(0, i + 1).to_set() == s.subrange(0, i).to_set().insert(s[i]),
{
    assert(s.subrange(0, i + 1) =~= s.subrange(0, i) + seq![s[i]]);
    Seq::<A>::lemma_to_set_insert_commutes(s.subrange(0, i), s[i]);
}

/// A subset of the underlying space, its elements kept in increasing order.
#[derive(Debug, PartialEq, Eq, Hash, PartialOrd, Ord)]
pub struct Subset {
    elems: Vec<String>,
}

impl View for Subset {
    type V = Set<Seq<char>>;

    closed spec fn view(&self) -> Set<Seq<char>> {
        names(self.elems@).to_set()
    }
}

impl Clone for Subset {
    fn clone(&self) -> (r: Self)
        ensures
            r@ == self@,
    {
        self.duplicate()
    }
}

/// The set of each subset in a sequence of subsets.
pub open spec fn views(s: Seq<Subset>) -> Seq<Set<Seq<char>>> {
    s.map_values(|x: Subset| x@)
}

impl Subset {
    #[verifier::type_invariant]
    spec fn well_formed(self) -> bool {
        strictly_sorted(names(self.elems@))
    }

    /// The elements in increasing order.
    pub closed spec fn items(self) -> Seq<Seq<char>> {
        names(self.elems@)
    }

    /// A subset holds exactly the elements it lists, and finitely many.
    pub broadcast proof fn lemma_view(s: Subset)
        ensures
            #[trigger] s@ == s.items().to_set(),
            s@.finite(),
    {
    }

    fn from_sorted(v: Vec<String>) -> (r: Subset)
        requires
            strictly_sorted(names(v@)),
        ensures
            r@ == names(v@).to_set(),
            r.items() == names(v@),
    {
        Subset { elems: v }
    }

    /// Create an empty set.
    pub fn empty() -> (r: Subset)
        ensures
            r@ == Set::<Seq<char>>::empty(),
    {
        let v: Vec<String> = Vec::new();
        assert(names(v@).to_set() =~= Set::<Seq<char>>::empty());
        Subset::from_sorted(v)
    }

    /// Create from a slice of elements.
    pub fn from_slice(elems: &[&str]) -> (r: Subset)
        ensures
            r@ == elems@.map_values(|s: &str| s@).to_set(),
    {
        let ghost all = elems@.map_values(|s: &str| s@);
        let mut v: Vec<String> = Vec::new();
        let mut i: usize = 0;
        assert(all.subrange(0, 0).to_set() =~= names(v@).to_set());
        while i < elems.len()
            invariant
                all == elems@.map_values(|s: &str| s@),
                i <= elems.len(),
                strictly_sorted(names(v@)),
                names(v@).to_set() == all.subrange(0, i as int).to_set(),
            decreases elems.len() - i,
        {
            let x: String = elems[i].to_owned();
            insert_sorted(&mut v, x);
            proof {
                lemma_prefix_set_step(all, i as int);
            }
            i = i + 1;
        }
        assert(all.subrange(0, elems.len() as int) =~= all);
        Subset::from_sorted(v)
    }

    /// Create from a slice of owned elements.
    pub fn from_strings(elems: &[String]) -> (r: Subset)
        ensures
            r@ == names(elems@).to_set(),
    {
        let ghost all = names(elems@);
        let mut v: Vec<String> = Vec::new();
        let mut i: usize = 0;
        assert(all.subrange(0, 0).to_set() =~= names(v@).to_set());
        while i < elems.len()
            invariant
                all == names(elems@),
                i <= elems.len(),
                strictly_sorted(names(v@)),
                names(v@).to_set() == all.subrange(0, i as int).to_set(),
            decreases elems.len() - i,
        {
            insert_sorted(&mut v, elems[i].clone());
            proof {
                lemma_prefix_set_step(all, i as int);
            }
            i = i + 1;
        }
        assert(all.subrange(0, elems.len() as int) =~= all);
        Subset::from_sorted(v)
    }

    /// A copy of this subset.
    pub fn duplicate(&self) -> (r: Subset)
        ensures
            r@ == self@,
            r.items() == self.items(),
    {
        proof {
            use_type_invariant(self);
        }
        Subset::from_sorted(copy_names(&self.elems))
    }

    /// This subset with one more element.
    pub fn with_element(&self, x: &String) -> (r: Subset)
        ensures
            r@ == self@.insert(x@),
    {
        proof {
            use_type_invariant(self);
        }
        let mut v = copy_names(&self.elems);
        insert_sorted(&mut v, x.clone());
        Subset::from_sorted(v)
    }

    /// The elements in increasing order.
    pub fn elements(&self) -> (r: &[String])
        ensures
            names(r@) == self.items(),
            strictly_sorted(self.items()),
    {
        proof {
            use_type_invariant(self);
        }
        self.elems.as_slice()
    }

    /// The text that identifies this subset: its elements' Debug texts in
    /// increasing order, separated by ", " and enclosed in braces, as in
    /// `{"a", "b"}`.
    pub fn key(&self) -> (r: String)
        ensures
            r@ == set_debug(self.items()),
            strictly_sorted(self.items()),
    {
        set_text(self.elements())
    }

    /// Union of two subsets.
    pub fn union(&self, other: &Self) -> (r: Subset)
        ensures
            r@ == self@.union(other@),
    {
        proof {
            use_type_invariant(self);
            use_type_invariant(other);
        }
        let ghost o = names(other.elems@);
        let mut v = copy_names(&self.elems);
        let mut i: usize = 0;
        assert(names(v@).to_set() =~= self@.union(o.subrange(0, 0).to_set()));
        while i < other.elems.len()
            invariant
                o == names(other.elems@),
                i <= other.elems.len(),
                strictly_sorted(names(v@)),
                names(v@).to_set() == self@.union(o.subrange(0, i as int).to_set()),
            decreases other.elems.len() - i,
        {
            insert_sorted(&mut v, other.elems[i].clone());
            proof {
                lemma_prefix_set_step(o, i as int);
                assert(names(v@).to_set() =~= self@.union(o.subrange(0, i + 1).to_set()));
            }
            i = i + 1;
        }
        assert(o.subrange(0, other.elems.len() as int) =~= o);
        Subset::from_sorted(v)
    }

    /// The elements of `self` kept or dropped by membership in `other`.
    fn filter_by(&self, other: &Self, keep: bool) -> (r: Subset)
        ensures
            keep ==> r@ == self@.intersect(other@),
            !keep ==> r@ == self@.difference(other@),
    {
        proof {
            use_type_invariant(self);
            use_type_invariant(other);
        }
        let ghost s = names(self.elems@);
        let mut v: Vec<String> = Vec::new();
        let mut i: usize = 0;
        assert(names(v@).to_set() =~= s.subrange(0, 0).to_set().intersect(other@));
        assert(names(v@).to_set() =~= s.subrange(0, 0).to_set().difference(other@));
        while i < self.elems.len()
            invariant
                s == names(self.elems@),
                strictly_sorted(names(other.elems@)),
                i <= self.elems.len(),
                strictly_sorted(names(v@)),
                keep ==> names(v@).to_set() == s.subrange(0, i as int).to_set().intersect(other@),
                !keep ==> names(v@).to_set() == s.subrange(0, i as int).to_set().difference(
                    other@,
                ),
            decreases self.elems.len() - i,
        {
            let (found, _) = locate(&other.elems, &self.elems[i]);
            let ghost before = names(v@);
            if found == keep {
                insert_sorted(&mut v, self.elems[i].clone());
            }
            proof {
                lemma_prefix_set_step(s, i as int);
                if keep {
                    assert(names(v@).to_set() =~= s.subrange(0, i + 1).to_set().intersect(
                        other@,
                    ));
                } else {
                    assert(names(v@).to_set() =~= s.subrange(0, i + 1).to_set().difference(
                        other@,
                    ));
                }
            }
            i = i + 1;
        }
        assert(s.subrange(0, self.elems.len() as int) =~= s);
        Subset::from_sorted(v)
    }

    /// Intersection of two subsets.
    pub fn intersection(&self, other: &Self) -> (r: Subset)
        ensures
            r@ == self@.intersect(other@),
    {
        self.filter_by(other, true)
    }

    /// Difference: elements in self but not in other.
    pub fn difference(&self, other: &Self) -> (r: Subset)
        ensures
            r@ == self@.difference(other@),
    {
        self.filter_by(other, false)
    }

    /// Complement relative to the universal set.
    pub fn complement(&self, universal: &Self) -> (r: Subset)
        ensures
            r@ == universal@.difference(self@),
    {
        universal.difference(self)
    }

    /// Is this the empty set?
    pub fn is_empty(&self) -> (r: bool)
        ensures
            r == (self@ == Set::<Seq<char>>::empty()),
    {
        let r = self.elems.len() == 0;
        proof {
            if r {
                assert(names(self.elems@).to_set() =~= Set::<Seq<char>>::empty());
            } else {
                assert(self@.contains(names(self.elems@)[0]));
            }
        }
        r
    }

    /// Cardinality.
    pub fn len(&self) -> (r: usize)
        ensures
            r == self@.len(),
    {
        proof {
            use_type_invariant(self);
            lemma_sorted_no_duplicates(names(self.elems@));
        }
        self.elems.len()
    }

    /// Does it contain an element?
    pub fn contains(&self, elem: &str) -> (r: bool)
        ensures
            r == self@.contains(elem@),
    {
        proof {
            use_type_invariant(self);
        }
        let x: String = elem.to_owned();
        let (found, _) = locate(&self.elems, &x);
        found
    }

    /// Does it contain an element given as an owned string?
    pub fn has(&self, elem: &String) -> (r: bool)
        ensures
            r == self@.contains(elem@),
    {
        proof {
            use_type_invariant(self);
        }
        let (found, _) = locate(&self.elems, elem);
        found
    }

    /// Is self a subset of other?
    pub fn is_subset_of(&self, other: &Self) -> (r: bool)
        ensures
            r == self@.subset_of(other@),
    {
        proof {
            use_type_invariant(self);
            use_type_invariant(other);
        }
        let ghost s = names(self.elems@);
        let mut i: usize = 0;
        while i < self.elems.len()
            invariant
                s == names(self.elems@),
                strictly_sorted(names(other.elems@)),
                i <= self.elems.len(),
                forall|k: int| 0 <= k < i ==> other@.contains(#[trigger] s[k]),
            decreases self.elems.len() - i,
        {
            let (found, _) = locate(&other.elems, &self.elems[i]);
            if !found {
                assert(self@.contains(s[i as int]));
                return false;
            }
            i = i + 1;
        }
        assert forall|y: Seq<char>| self@.contains(y) implies other@.contains(y) by {
            let k = choose|k: int| 0 <= k < s.len() && s[k] == y;
        }
        true
    }

    /// Do the two subsets hold the same elements?
    pub fn equals(&self, other: &Self) -> (r: bool)
        ensures
            r == (self@ == other@),
    {
        proof {
            use_type_invariant(self);
            use_type_invariant(other);
            lemma_sorted_no_duplicates(names(self.elems@));
            lemma_sorted_no_duplicates(names(other.elems@));
        }
        let ghost s = names(self.elems@);
        let ghost o = names(other.elems@);
        if self.elems.len() != other.elems.len() {
            return false;
        }
        let mut i: usize = 0;
        while i < self.elems.len()
            invariant
                s == names(self.elems@),
                o == names(other.elems@),
                s.len() == o.len(),
                strictly_sorted(s),
                strictly_sorted(o),
                i <= s.len(),
                forall|k: int| 0 <= k < i ==> s[k] == o[k],
            decreases self.elems.len() - i,
        {
            let same = self.elems[i] == other.elems[i];
            if !same {
                proof {
                    assert(s[i as int] != o[i as int]);
                    if self@ == other@ {
                        lemma_sorted_unique(s, o);
                    }
                }
                return false;
            }
            i = i + 1;
        }
        assert(s =~= o);
        true
    }
}


/// The sets of a vector, as a set, grow by one when one is pushed.
pub proof fn lemma_views_push(v: Seq<Subset>, x: Subset)
    ensures
        views(v.push(x)) == views(v).push(x@),
        views(v.push(x)).to_set() == views(v).to_set().insert(x@),
{
    assert(views(v.push(x)) =~= views(v).push(x@));
    assert(views(v).push(x@) =~= views(v) + seq![x@]);
    Seq::<Set<Seq<char>>>::lemma_to_set_insert_commutes(views(v), x@);
}

/// A one-element sequence holds one set.
proof fn lemma_single_to_set(x: Set<Seq<char>>)
    ensures
        seq![x].to_set() == set![x],
{
    assert forall|y: Set<Seq<char>>| seq![x].to_set().contains(y) <==> set![x].contains(y) by {
        if y == x {
            assert(seq![x][0] == y);
        }
    }
    assert(seq![x].to_set() =~= set![x]);
}

/// Is a set among `sets`?
fn holds(sets: &Vec<Subset>, s: &Subset) -> (r: bool)
    ensures
        r == views(sets@).contains(s@),
{
    let mut i: usize = 0;
    while i < sets.len()
        invariant
            i <= sets.len(),
            forall|k: int| 0 <= k < i ==> views(sets@)[k] != s@,
        decreases sets.len() - i,
    {
        if sets[i].equals(s) {
            assert(views(sets@)[i as int] == s@);
            return true;
        }
        i = i + 1;
    }
    false
}

/// Adds a set to `sets` unless an equal one is there already.
fn add_if_absent(sets: &mut Vec<Subset>, s: Subset) -> (added: bool)
    requires
        views(old(sets)@).no_duplicates(),
    ensures
        views(final(sets)@).no_duplicates(),
        added == !views(old(sets)@).contains(s@),
        added ==> final(sets)@ == old(sets)@.push(s),
        !added ==> final(sets)@ == old(sets)@,
        views(final(sets)@).to_set() == views(old(sets)@).to_set().insert(s@),
{
    if holds(sets, &s) {
        proof {
            assert(views(sets@).to_set() =~= views(sets@).to_set().insert(s@));
        }
        return false;
    }
    let ghost before = sets@;
    let ghost sv = s;
    sets.push(s);
    proof {
        lemma_views_push(before, sv);
    }
    true
}

/// A copy of a vector of subsets.
fn copy_sets(v: &Vec<Subset>) -> (r: Vec<Subset>)
    ensures
        views(r@) == views(v@),
{
    let mut r: Vec<Subset> = Vec::new();
    let mut i: usize = 0;
    while i < v.len()
        invariant
            i <= v.len(),
            views(r@) == views(v@).subrange(0, i as int),
        decreases v.len() - i,
    {
        let ghost before = r@;
        let d = v[i].duplicate();
        let ghost dv = d;
        r.push(d);
        proof {
            lemma_views_push(before, dv);
            assert(views(v@)[i as int] == v@[i as int]@);
            assert(views(r@) =~= views(v@).subrange(0, i + 1));
        }
        i = i + 1;
    }
    assert(views(v@).subrange(0, v.len() as int) =~= views(v@));
    r
}

/// A sigma-algebra on a finite space: the space and its measurable sets,
/// each held once.
#[derive(Debug)]
pub struct SigmaAlgebra {
    /// The universal set (the "space").
    universal: Subset,
    /// The measurable sets.
    measurable_sets: Vec<Subset>,
}

impl Clone for SigmaAlgebra {
    fn clone(&self) -> (r: Self)
        ensures
            r.space() == self.space(),
            r.listing() == self.listing(),
    {
        proof {
            use_type_invariant(self);
        }
        SigmaAlgebra {
            universal: self.universal.duplicate(),
            measurable_sets: copy_sets(&self.measurable_sets),
        }
    }
}

/// `x` is one of the sets listed in `l`; kept opaque so that facts of this
/// form do not unfold into fresh indices.
#[verifier::opaque]
spec fn held(l: Seq<Set<Seq<char>>>, x: Set<Seq<char>>) -> bool {
    l.to_set().contains(x)
}

proof fn lemma_held(l: Seq<Set<Seq<char>>>, x: Set<Seq<char>>)
    ensures
        held(l, x) == l.to_set().contains(x),
{
    reveal(held);
}

/// The union and intersection of any two members lie in a family when they
/// do for the pairs listed in order.
proof fn lemma_pairs_symmetric(l: Seq<Set<Seq<char>>>)
    requires
        forall|i: int, j: int|
            #![trigger l[i], l[j]]
            0 <= i <= j < l.len() ==> held(l, l[i].union(l[j])) && held(l, l[i].intersect(l[j])),
    ensures
        forall|a: Set<Seq<char>>, b: Set<Seq<char>>|
            #[trigger] member(l.to_set(), a) && #[trigger] member(l.to_set(), b) ==> l.to_set().contains(
                a.union(b),
            ) && l.to_set().contains(a.intersect(b)),
{
    assert forall|a: Set<Seq<char>>, b: Set<Seq<char>>|
        #[trigger] member(l.to_set(), a) && #[trigger] member(l.to_set(), b) implies l.to_set().contains(
        a.union(b),
    ) && l.to_set().contains(a.intersect(b)) by {
        let i = choose|i: int| 0 <= i < l.len() && l[i] == a;
        let j = choose|j: int| 0 <= j < l.len() && l[j] == b;
        if i <= j {
            assert(held(l, l[i].union(l[j])) && held(l, l[i].intersect(l[j])));
            lemma_held(l, a.union(b));
            lemma_held(l, a.intersect(b));
        } else {
            assert(held(l, l[j].union(l[i])) && held(l, l[j].intersect(l[i])));
            assert(a.union(b) =~= b.union(a));
            assert(a.intersect(b) =~= b.intersect(a));
            lemma_held(l, a.union(b));
            lemma_held(l, a.intersect(b));
        }
    }
}

/// The trivial family satisfies the sigma-algebra axioms.
pub proof fn lemma_trivial_is_sigma(u: Set<Seq<char>>)
    ensures
        is_sigma_family(set![Set::<Seq<char>>::empty(), u], u),
{
    let e = Set::<Seq<char>>::empty();
    let f = set![e, u];
    assert(u.difference(e) =~= u);
    assert(u.difference(u) =~= e);
    assert(e.union(e) =~= e);
    assert(e.union(u) =~= u);
    assert(u.union(e) =~= u);
    assert(u.union(u) =~= u);
    assert forall|a: Set<Seq<char>>| #[trigger] member(f, a) implies f.contains(u.difference(a)) by {}
    assert forall|a: Set<Seq<char>>, b: Set<Seq<char>>|
        #[trigger] member(f, a) && #[trigger] member(f, b) implies f.contains(a.union(b)) by {}
}

/// The state that generation keeps: no repeats, every set within the ground
/// set, the initial family held, and every set forced by closure.
#[verifier::opaque]
spec fn gen_state(
    alg: Seq<Subset>,
    u: Set<Seq<char>>,
    gens: Set<Set<Seq<char>>>,
    ground: Set<Seq<char>>,
) -> bool {
    &&& views(alg).no_duplicates()
    &&& forall|k: int| 0 <= k < alg.len() ==> #[trigger] views(alg)[k].subset_of(ground)
    &&& forall|t: Set<Set<Seq<char>>>|
        #![trigger is_closed_family(t, u)]
        initial_family(u, gens).subset_of(t) && is_closed_family(t, u) ==> views(alg).to_set().subset_of(
            t,
        )
}

proof fn lemma_gen_state_no_dup(
    alg: Seq<Subset>,
    u: Set<Seq<char>>,
    gens: Set<Set<Seq<char>>>,
    ground: Set<Seq<char>>,
)
    requires
        gen_state(alg, u, gens, ground),
    ensures
        views(alg).no_duplicates(),
{
    reveal(gen_state);
}

/// Adding the union, intersection or complement of held sets keeps the state.
proof fn lemma_gen_state_add(
    alg: Seq<Subset>,
    u: Set<Seq<char>>,
    gens: Set<Set<Seq<char>>>,
    ground: Set<Seq<char>>,
    a: int,
    b: int,
    s: Subset,
)
    requires
        gen_state(alg, u, gens, ground),
        u.subset_of(ground),
        0 <= a < alg.len(),
        0 <= b < alg.len(),
        s@ == views(alg)[a].union(views(alg)[b]) || s@ == views(alg)[a].intersect(views(alg)[b])
            || s@ == u.difference(views(alg)[a]),
        !views(alg).contains(s@),
    ensures
        gen_state(alg.push(s), u, gens, ground),
{
    reveal(gen_state);
    lemma_views_push(alg, s);
    let va = views(alg)[a];
    let vb = views(alg)[b];
    assert(va.subset_of(ground));
    assert(vb.subset_of(ground));
    let n = views(alg.push(s));
    assert forall|i: int, j: int| 0 <= i < j < n.len() implies n[i] != n[j] by {
        if j == alg.len() {
            assert(views(alg).contains(views(alg)[i]));
        } else {
            assert(views(alg)[i] != views(alg)[j]);
        }
    }
    assert forall|k: int| 0 <= k < n.len() implies #[trigger] n[k].subset_of(ground) by {
        if k < alg.len() {
            assert(n[k] == views(alg)[k]);
        }
    }
    assert forall|t: Set<Set<Seq<char>>>|
        initial_family(u, gens).subset_of(t) && is_closed_family(t, u) implies n.to_set().subset_of(
        t,
    ) by {
        reveal(is_closed_family);
        assert(views(alg).to_set().contains(va));
        assert(views(alg).to_set().contains(vb));
        assert(member(t, va) && member(t, vb));
    }
}

/// Adding a set keeps the first `n` sets and every held set.
proof fn lemma_grows(before: Seq<Subset>, after: Seq<Subset>, n: int, snap: Seq<Set<Seq<char>>>)
    requires
        after == before || after == before.push(after.last()),
        0 <= n <= before.len(),
        snap.len() == n,
        forall|k: int| 0 <= k < n ==> #[trigger] views(before)[k] == snap[k],
    ensures
        forall|k: int| 0 <= k < n ==> #[trigger] views(after)[k] == snap[k],
        after.len() >= before.len(),
        forall|x: Set<Seq<char>>| held(views(before), x) ==> #[trigger] held(views(after), x),
{
    if after != before {
        lemma_views_push(before, after.last());
        assert forall|k: int| 0 <= k < n implies #[trigger] views(after)[k] == snap[k] by {
            assert(views(after)[k] == views(before)[k]);
        }
    }
    assert forall|x: Set<Seq<char>>| held(views(before), x) implies #[trigger] held(views(after), x) by {
        lemma_held(views(before), x);
        lemma_held(views(after), x);
        if after != before {
            lemma_views_push(before, after.last());
        }
    }
}

impl SigmaAlgebra {
    #[verifier::type_invariant]
    spec fn no_repeats(self) -> bool {
        views(self.measurable_sets@).no_duplicates()
    }

    /// The space.
    pub closed spec fn space(self) -> Set<Seq<char>> {
        self.universal@
    }

    /// The measurable sets in the order they are held.
    pub closed spec fn listing(self) -> Seq<Set<Seq<char>>> {
        views(self.measurable_sets@)
    }

    /// The measurable sets.
    pub open spec fn family(self) -> Set<Set<Seq<char>>> {
        self.listing().to_set()
    }

    /// Create the trivial sigma-algebra {empty set, space}.
    pub fn trivial(universal: Subset) -> (r: SigmaAlgebra)
        ensures
            r.space() == universal@,
            r.family() == set![Set::<Seq<char>>::empty(), universal@],
            is_sigma_family(r.family(), r.space()),
    {
        let mut sets: Vec<Subset> = Vec::new();
        let e = Subset::empty();
        let ghost ev = e@;
        sets.push(e);
        proof {
            assert(views(sets@) =~= seq![ev]);
            lemma_single_to_set(ev);
        }
        add_if_absent(&mut sets, universal.duplicate());
        proof {
            assert(views(sets@).to_set() =~= set![Set::<Seq<char>>::empty(), universal@]);
            lemma_trivial_is_sigma(universal@);
        }
        SigmaAlgebra { universal, measurable_sets: sets }
    }

    /// Create the power set sigma-algebra (all subsets are measurable).
    #[verifier::rlimit(40)]
    pub fn power_set(universal: Subset) -> (r: SigmaAlgebra)
        requires
            universal@.len() < 64,
        ensures
            r.space() == universal@,
            r.family() == powerset(universal@),
            r.family().len() == two_pow(universal@.len()),
            is_sigma_family(r.family(), r.space()),
    {
        let elems = universal.elements();
        let ghost items = names(elems@);
        let mut sets: Vec<Subset> = Vec::new();
        let e = Subset::empty();
        let ghost ev = e@;
        sets.push(e);
        proof {
            assert(views(sets@) =~= seq![ev]);
            lemma_single_to_set(ev);
            assert(items.subrange(0, 0).to_set() =~= Set::<Seq<char>>::empty());
            assert forall|a: Set<Seq<char>>| #[trigger] powerset(Set::<Seq<char>>::empty()).contains(
                a,
            ) implies a == ev by {
                assert(a =~= ev);
            }
            assert(views(sets@).to_set() =~= powerset(items.subrange(0, 0).to_set()));
        }
        let n = elems.len();
        let mut k: usize = 0;
        while k < n
            invariant
                items == names(elems@),
                items == universal.items(),
                strictly_sorted(items),
                n == elems.len(),
                k <= n,
                views(sets@).no_duplicates(),
                views(sets@).to_set() == powerset(items.subrange(0, k as int).to_set()),
                sets.len() == two_pow(k as nat),
            decreases n - k,
        {
            let ghost p = items.subrange(0, k as int).to_set();
            let ghost old_views = views(sets@);
            let x = &elems[k];
            proof {
                lemma_sorted_no_duplicates(items);
                assert(!p.contains(x@)) by {
                    if p.contains(x@) {
                        let m = choose|m: int| 0 <= m < k && items[m] == x@;
                        assert(items[m] == items[k as int]);
                    }
                }
            }
            let cur = sets.len();
            let mut j: usize = 0;
            while j < cur
                invariant
                    cur == old_views.len(),
                    sets.len() == cur + j,
                    j <= cur,
                    !p.contains(x@),
                    old_views.no_duplicates(),
                    old_views.to_set() == powerset(p),
                    forall|t: int| 0 <= t < cur ==> #[trigger] views(sets@)[t] == old_views[t],
                    forall|t: int|
                        0 <= t < j ==> #[trigger] views(sets@)[cur + t] == old_views[t].insert(x@),
                    views(sets@).no_duplicates(),
                decreases cur - j,
            {
                let s = sets[j].with_element(x);
                let ghost before = sets@;
                proof {
                    assert(views(before)[j as int] == old_views[j as int]);
                    assert(!views(before).contains(s@)) by {
                        if views(before).contains(s@) {
                            let m = choose|m: int| 0 <= m < before.len() && views(before)[m] == s@;
                            if m < cur {
                                assert(old_views.to_set().contains(old_views[m]));
                                assert(s@.contains(x@));
                            } else {
                                let t = m - cur;
                                assert(views(before)[cur + t] == old_views[t].insert(x@));
                                assert(old_views.to_set().contains(old_views[t]));
                                assert(old_views.to_set().contains(old_views[j as int]));
                                assert(!old_views[t].contains(x@));
                                assert(!old_views[j as int].contains(x@));
                                assert(old_views[t] =~= old_views[t].insert(x@).remove(x@));
                                assert(old_views[j as int] =~= old_views[j as int].insert(x@).remove(
                                    x@,
                                ));
                                assert(old_views[t] == old_views[j as int]);
                            }
                        }
                    }
                }
                let ghost sv = s;
                sets.push(s);
                proof {
                    lemma_views_push(before, sv);
                    let nv = views(sets@);
                    assert forall|a: int, b: int| 0 <= a < b < nv.len() implies nv[a] != nv[b] by {
                        if b == before.len() {
                            assert(views(before).contains(nv[a]));
                        } else {
                            assert(views(before)[a] != views(before)[b]);
                        }
                    }
                    assert(views(sets@)[cur + j] == old_views[j as int].insert(x@));
                }
                j = j + 1;
            }
            proof {
                lemma_prefix_set_step(items, k as int);
                lemma_powerset_insert(p, x@);
                let q = powerset(p).union(powerset(p).map(|a: Set<Seq<char>>| a.insert(x@)));
                let nv = views(sets@);
                assert forall|a: Set<Seq<char>>| nv.to_set().contains(a) <==> q.contains(a) by {
                    if nv.to_set().contains(a) {
                        let m = choose|m: int| 0 <= m < nv.len() && nv[m] == a;
                        if m < cur {
                            assert(old_views.to_set().contains(old_views[m]));
                        } else {
                            let t = m - cur;
                            assert(nv[cur + t] == old_views[t].insert(x@));
                            assert(old_views.to_set().contains(old_views[t]));
                            assert(powerset(p).map(|a: Set<Seq<char>>| a.insert(x@)).contains(a));
                        }
                    }
                    if q.contains(a) {
                        if powerset(p).contains(a) {
                            let m = choose|m: int| 0 <= m < old_views.len() && old_views[m] == a;
                            assert(nv[m] == a);
                        } else {
                            let b = choose|b: Set<Seq<char>>|
                                powerset(p).contains(b) && b.insert(x@) == a;
                            let m = choose|m: int| 0 <= m < old_views.len() && old_views[m] == b;
                            assert(nv[cur + m] == a);
                        }
                    }
                }
                assert(nv.to_set() =~= powerset(items.subrange(0, k + 1).to_set()));
            }
            k = k + 1;
        }
        proof {
            assert(items.subrange(0, n as int) =~= items);
            lemma_sorted_no_duplicates(items);
            views(sets@).unique_seq_to_set();
            lemma_powerset_is_sigma(universal@);
        }
        SigmaAlgebra { universal, measurable_sets: sets }
    }

    /// Generate the sigma-algebra from a collection of generator sets: the
    /// smallest family that holds the empty set, the space, the generators and
    /// their complements, and is closed under union, intersection and
    /// complement.
    #[verifier::rlimit(60)]
    pub fn generate(universal: Subset, generators: &[Subset]) -> (r: SigmaAlgebra)
        ensures
            r.space() == universal@,
            r.family() == generated_family(universal@, views(generators@).to_set()),
            is_sigma_family(r.family(), r.space()),
    {
        let ghost u = universal@;
        let ghost gv = views(generators@);
        let ghost gens = gv.to_set();
        let ghost ground = u.union(union_all(gv));
        proof {
            assert forall|i: int| 0 <= i < gv.len() implies #[trigger] gv[i].finite() by {
                Subset::lemma_view(generators@[i]);
            }
            lemma_union_all_finite(gv);
            Subset::lemma_view(universal);
        }
        let mut alg: Vec<Subset> = Vec::new();
        proof {
            assert(views(alg@) =~= Seq::<Set<Seq<char>>>::empty());
        }
        let e = Subset::empty();
        add_if_absent(&mut alg, e);
        add_if_absent(&mut alg, universal.duplicate());
        proof {
            reveal(initial_family);
            assert(views(alg@).to_set().subset_of(initial_family(u, gens)));
            assert forall|k: int| 0 <= k < alg.len() implies #[trigger] views(alg@)[k].subset_of(ground) by {
                assert(views(alg@).to_set().contains(views(alg@)[k]));
            }
        }
        let mut i: usize = 0;
        while i < generators.len()
            invariant
                u == universal@,
                gv == views(generators@),
                gens == gv.to_set(),
                ground == u.union(union_all(gv)),
                i <= generators.len(),
                views(alg@).no_duplicates(),
                views(alg@).to_set().subset_of(initial_family(u, gens)),
                views(alg@).to_set().contains(Set::<Seq<char>>::empty()),
                views(alg@).to_set().contains(u),
                forall|k: int|
                    0 <= k < i ==> views(alg@).to_set().contains(#[trigger] gv[k]) && views(
                        alg@,
                    ).to_set().contains(u.difference(gv[k])),
                forall|k: int| 0 <= k < alg.len() ==> #[trigger] views(alg@)[k].subset_of(ground),
            decreases generators.len() - i,
        {
            let ghost before = alg@;
            let g = generators[i].duplicate();
            let c = generators[i].complement(&universal);
            proof {
                reveal(initial_family);
                assert(gv[i as int] == generators@[i as int]@);
                assert(gens.contains(gv[i as int]));
                assert(gens.map(|g: Set<Seq<char>>| u.difference(g)).contains(u.difference(gv[i as int])));
                assert(gv[i as int].subset_of(ground)) by {
                    assert forall|x: Seq<char>| gv[i as int].contains(x) implies ground.contains(x) by {
                        lemma_union_all_contains(gv, x);
                    }
                }
            }
            add_if_absent(&mut alg, g);
            add_if_absent(&mut alg, c);
            proof {
                assert forall|k: int| 0 <= k < i + 1 implies views(alg@).to_set().contains(#[trigger] gv[k])
                    && views(alg@).to_set().contains(u.difference(gv[k])) by {
                    if k < i {
                        assert(views(before).to_set().contains(gv[k]));
                        assert(views(before).to_set().contains(u.difference(gv[k])));
                    }
                }
                assert forall|k: int| 0 <= k < alg.len() implies #[trigger] views(alg@)[k].subset_of(ground) by {
                    assert(views(alg@).to_set().contains(views(alg@)[k]));
                    if views(before).to_set().contains(views(alg@)[k]) {
                        let m = choose|m: int| 0 <= m < before.len() && views(before)[m] == views(alg@)[k];
                        assert(views(before)[m].subset_of(ground));
                    }
                }
            }
            i = i + 1;
        }
        proof {
            reveal(initial_family);
            reveal(gen_state);
            let f = views(alg@).to_set();
            assert forall|x: Set<Seq<char>>| initial_family(u, gens).contains(x) implies f.contains(x) by {
                if gens.contains(x) {
                    let k = choose|k: int| 0 <= k < gv.len() && gv[k] == x;
                    assert(f.contains(gv[k]));
                } else if gens.map(|g: Set<Seq<char>>| u.difference(g)).contains(x) {
                    let g = choose|g: Set<Seq<char>>| gens.contains(g) && u.difference(g) == x;
                    let k = choose|k: int| 0 <= k < gv.len() && gv[k] == g;
                    assert(f.contains(u.difference(gv[k])));
                }
            }
            assert forall|t: Set<Set<Seq<char>>>|
                initial_family(u, gens).subset_of(t) && is_closed_family(t, u) implies f.subset_of(t) by {
            }
            assert(gen_state(alg@, u, gens, ground));
            assert forall|a: Set<Seq<char>>| #[trigger] f.contains(a) implies a.subset_of(ground) by {
                let k = choose|k: int| 0 <= k < alg.len() && views(alg@)[k] == a;
                assert(views(alg@)[k].subset_of(ground));
            }
            lemma_family_len_bound(f, ground);
            views(alg@).unique_seq_to_set();
        }
        let mut changed = true;
        while changed
            invariant
                u == universal@,
                gens == views(generators@).to_set(),
                ground.finite(),
                u.subset_of(ground),
                gen_state(alg@, u, gens, ground),
                initial_family(u, gens).subset_of(views(alg@).to_set()),
                alg.len() <= two_pow(ground.len()),
                !changed ==> is_closed_family(views(alg@).to_set(), u),
            decreases 2 * (two_pow(ground.len()) - alg.len()) + (if changed { 1int } else { 0int }),
        {
            changed = false;
            let n = alg.len();
            let ghost snap = views(alg@);
            let mut i: usize = 0;
            while i < n
                invariant
                    u == universal@,
                    ground.finite(),
                    u.subset_of(ground),
                    snap.len() == n,
                    i <= n,
                    alg.len() >= n,
                    forall|k: int| 0 <= k < n ==> #[trigger] views(alg@)[k] == snap[k],
                    gen_state(alg@, u, gens, ground),
                    initial_family(u, gens).subset_of(views(alg@).to_set()),
                    !changed ==> alg.len() == n,
                    changed ==> alg.len() > n,
                    forall|i2: int, j2: int|
                        #![trigger snap[i2], snap[j2]]
                        0 <= i2 < i && i2 <= j2 < n ==> held(views(alg@), snap[i2].union(snap[j2]))
                            && held(views(alg@), snap[i2].intersect(snap[j2])),
                    forall|i2: int|
                        0 <= i2 < i ==> held(views(alg@), u.difference(#[trigger] snap[i2])),
                decreases n - i,
            {
                let mut j: usize = i;
                while j < n
                    invariant
                        u == universal@,
                        ground.finite(),
                        u.subset_of(ground),
                        snap.len() == n,
                        i < n,
                        i <= j <= n,
                        alg.len() >= n,
                        forall|k: int| 0 <= k < n ==> #[trigger] views(alg@)[k] == snap[k],
                        gen_state(alg@, u, gens, ground),
                        initial_family(u, gens).subset_of(views(alg@).to_set()),
                        !changed ==> alg.len() == n,
                        changed ==> alg.len() > n,
                        forall|i2: int, j2: int|
                            #![trigger snap[i2], snap[j2]]
                            0 <= i2 < i && i2 <= j2 < n ==> held(views(alg@), snap[i2].union(snap[j2]))
                                && held(views(alg@), snap[i2].intersect(snap[j2])),
                        forall|j2: int|
                            i <= j2 < j ==> held(views(alg@), snap[i as int].union(#[trigger] snap[j2]))
                                && held(views(alg@), snap[i as int].intersect(snap[j2])),
                        forall|i2: int|
                            0 <= i2 < i ==> held(views(alg@), u.difference(#[trigger] snap[i2])),
                    decreases n - j,
                {
                    let un = alg[i].union(&alg[j]);
                    let ghost before = alg@;
                    proof {
                        assert(views(before)[i as int] == before[i as int]@);
                        assert(views(before)[j as int] == before[j as int]@);
                    }
                    proof {
                        lemma_gen_state_no_dup(alg@, u, gens, ground);
                    }
                    let added = add_if_absent(&mut alg, un);
                    proof {
                        if added {
                            lemma_gen_state_add(before, u, gens, ground, i as int, j as int, un);
                        }
                        lemma_grows(before, alg@, n as int, snap);
                    }
                    if added {
                        changed = true;
                    }
                    let inter = alg[i].intersection(&alg[j]);
                    let ghost before2 = alg@;
                    proof {
                        assert(views(before2)[i as int] == before2[i as int]@);
                        assert(views(before2)[j as int] == before2[j as int]@);
                    }
                    proof {
                        lemma_gen_state_no_dup(alg@, u, gens, ground);
                    }
                    let added2 = add_if_absent(&mut alg, inter);
                    proof {
                        if added2 {
                            lemma_gen_state_add(before2, u, gens, ground, i as int, j as int, inter);
                        }
                        lemma_grows(before2, alg@, n as int, snap);
                        lemma_held(views(alg@), snap[i as int].union(snap[j as int]));
                        lemma_held(views(before2), snap[i as int].union(snap[j as int]));
                        lemma_held(views(alg@), snap[i as int].intersect(snap[j as int]));
                    }
                    if added2 {
                        changed = true;
                    }
                    j = j + 1;
                }
                let comp = alg[i].complement(&universal);
                let ghost before = alg@;
                proof {
                    assert(views(before)[i as int] == before[i as int]@);
                }
                proof {
                    lemma_gen_state_no_dup(alg@, u, gens, ground);
                }
                let added = add_if_absent(&mut alg, comp);
                proof {
                    if added {
                        lemma_gen_state_add(before, u, gens, ground, i as int, i as int, comp);
                    }
                    lemma_grows(before, alg@, n as int, snap);
                    lemma_held(views(alg@), u.difference(snap[i as int]));
                }
                if added {
                    changed = true;
                }
                i = i + 1;
            }
            proof {
                reveal(gen_state);
                if !changed {
                    assert(views(alg@) =~= snap);
                    lemma_pairs_symmetric(snap);
                    let f = snap.to_set();
                    assert forall|a: Set<Seq<char>>| #[trigger] member(f, a) implies f.contains(u.difference(a)) by {
                        let k = choose|k: int| 0 <= k < snap.len() && snap[k] == a;
                        assert(held(snap, u.difference(snap[k])));
                        lemma_held(snap, u.difference(a));
                    }
                    reveal(is_closed_family);
                }
                let f = views(alg@).to_set();
                assert forall|a: Set<Seq<char>>| #[trigger] f.contains(a) implies a.subset_of(ground) by {
                    let k = choose|k: int| 0 <= k < alg.len() && views(alg@)[k] == a;
                    assert(views(alg@)[k].subset_of(ground));
                }
                lemma_family_len_bound(f, ground);
                views(alg@).unique_seq_to_set();
            }
        }
        proof {
            reveal(gen_state);
            let f = views(alg@).to_set();
            lemma_generated_family_unique(f, u, gens);
            reveal(initial_family);
            reveal(is_closed_family);
            assert(f.contains(Set::<Seq<char>>::empty()));
            assert(f.contains(u));
            assert forall|a: Set<Seq<char>>| #[trigger] member(f, a) implies f.contains(u.difference(a)) by {}
            assert forall|a: Set<Seq<char>>, b: Set<Seq<char>>|
                #[trigger] member(f, a) && #[trigger] member(f, b) implies f.contains(a.union(b)) by {}
        }
        SigmaAlgebra { universal, measurable_sets: alg }
    }

    /// The universal set.
    pub fn universal(&self) -> (r: &Subset)
        ensures
            r@ == self.space(),
    {
        &self.universal
    }

    /// Number of measurable sets.
    pub fn size(&self) -> (r: usize)
        ensures
            r == self.family().len(),
    {
        proof {
            use_type_invariant(self);
            views(self.measurable_sets@).unique_seq_to_set();
        }
        self.measurable_sets.len()
    }

    /// Is a given subset measurable?
    pub fn is_measurable(&self, s: &Subset) -> (r: bool)
        ensures
            r == self.family().contains(s@),
    {
        holds(&self.measurable_sets, s)
    }

    /// All measurable sets, each once.
    pub fn measurable_sets(&self) -> (r: &[Subset])
        ensures
            views(r@) == self.listing(),
            self.listing().no_duplicates(),
    {
        proof {
            use_type_invariant(self);
        }
        self.measurable_sets.as_slice()
    }

    /// Validate the sigma-algebra axioms: the empty set and the space are
    /// measurable, and so are the complement of each measurable set and the
    /// union of any two.
    pub fn validate(&self) -> (r: bool)
        ensures
            r == is_sigma_family(self.family(), self.space()),
    {
        let ghost f = self.family();
        let ghost l = self.listing();
        let ghost u = self.space();
        if !self.is_measurable(&Subset::empty()) {
            return false;
        }
        if !self.is_measurable(&self.universal) {
            return false;
        }
        let n = self.measurable_sets.len();
        let mut i: usize = 0;
        while i < n
            invariant
                n == l.len(),
                l == self.listing(),
                f == l.to_set(),
                u == self.space(),
                i <= n,
                forall|k: int| 0 <= k < i ==> f.contains(u.difference(#[trigger] l[k])),
            decreases n - i,
        {
            let c = self.measurable_sets[i].complement(&self.universal);
            assert(l[i as int] == self.measurable_sets@[i as int]@);
            if !self.is_measurable(&c) {
                proof {
                    assert(member(f, l[i as int]));
                }
                return false;
            }
            i = i + 1;
        }
        let mut i: usize = 0;
        while i < n
            invariant
                n == l.len(),
                l == self.listing(),
                f == l.to_set(),
                u == self.space(),
                i <= n,
                forall|i2: int, j2: int|
                    #![trigger l[i2], l[j2]]
                    0 <= i2 < i && i2 <= j2 < n ==> held(l, l[i2].union(l[j2])),
            decreases n - i,
        {
            let mut j: usize = i;
            while j < n
                invariant
                    n == l.len(),
                    l == self.listing(),
                    f == l.to_set(),
                    u == self.space(),
                    i < n,
                    i <= j <= n,
                    forall|i2: int, j2: int|
                        #![trigger l[i2], l[j2]]
                        0 <= i2 < i && i2 <= j2 < n ==> held(l, l[i2].union(l[j2])),
                    forall|j2: int| i <= j2 < j ==> held(l, l[i as int].union(#[trigger] l[j2])),
                decreases n - j,
            {
                let un = self.measurable_sets[i].union(&self.measurable_sets[j]);
                assert(l[i as int] == self.measurable_sets@[i as int]@);
                assert(l[j as int] == self.measurable_sets@[j as int]@);
                if !self.is_measurable(&un) {
                    proof {
                        assert(member(f, l[i as int]) && member(f, l[j as int]));
                    }
                    return false;
                }
                proof {
                    lemma_held(l, l[i as int].union(l[j as int]));
                }
                j = j + 1;
            }
            i = i + 1;
        }
        proof {
            assert forall|a: Set<Seq<char>>| #[trigger] member(f, a) implies f.contains(u.difference(a)) by {
                let k = choose|k: int| 0 <= k < l.len() && l[k] == a;
                assert(f.contains(u.difference(l[k])));
            }
            assert forall|a: Set<Seq<char>>, b: Set<Seq<char>>|
                #[trigger] member(f, a) && #[trigger] member(f, b) implies f.contains(a.union(b)) by {
                let i2 = choose|k: int| 0 <= k < l.len() && l[k] == a;
                let j2 = choose|k: int| 0 <= k < l.len() && l[k] == b;
                if i2 <= j2 {
                    assert(held(l, l[i2].union(l[j2])));
                } else {
                    assert(held(l, l[j2].union(l[i2])));
                    assert(a.union(b) =~= b.union(a));
                }
                lemma_held(l, a.union(b));
            }
        }
        true
    }

    /// Countable union of measurable sets; an error names the first set
    /// that is not measurable.
    pub fn countable_union(&self, sets: &[Subset]) -> (r: Result<Subset, String>)
        ensures
            r is Ok <==> forall|i: int| 0 <= i < sets.len() ==> self.family().contains(#[trigger] sets@[i]@),
            r matches Ok(s) ==> s@ == union_all(views(sets@)),
            r matches Ok(s) ==> forall|x: Seq<char>|
                #[trigger] s@.contains(x) <==> exists|i: int| 0 <= i < sets.len() && sets@[i]@.contains(x),
            r matches Err(e) ==> e@ == "Set is not measurable"@,
    {
        let mut result = Subset::empty();
        let mut i: usize = 0;
        while i < sets.len()
            invariant
                i <= sets.len(),
                forall|k: int| 0 <= k < i ==> self.family().contains(#[trigger] sets@[k]@),
                result@ == union_all(views(sets@).subrange(0, i as int)),
            decreases sets.len() - i,
        {
            if !self.is_measurable(&sets[i]) {
                return Err("Set is not measurable".to_owned());
            }
            result = result.union(&sets[i]);
            proof {
                let pre = views(sets@).subrange(0, i + 1);
                assert(pre.drop_last() =~= views(sets@).subrange(0, i as int));
                assert(pre.last() == sets@[i as int]@);
            }
            i = i + 1;
        }
        assert(views(sets@).subrange(0, sets.len() as int) =~= views(sets@));
        proof {
            crate::meaning::law_union_all_members(views(sets@));
            assert forall|x: Seq<char>|
                #[trigger] result@.contains(x) <==> exists|i: int| 0 <= i < sets.len() && sets@[i]@.contains(x) by {
                if exists|i: int| 0 <= i < sets.len() && sets@[i]@.contains(x) {
                    let i = choose|i: int| 0 <= i < sets.len() && sets@[i]@.contains(x);
                    assert(views(sets@)[i] == sets@[i]@);
                }
                if result@.contains(x) {
                    let i = choose|i: int| 0 <= i < views(sets@).len() && views(sets@)[i].contains(x);
                    assert(views(sets@)[i] == sets@[i]@);
                }
            }
        }
        Ok(result)
    }

    /// Countable intersection of measurable sets, within the space; an
    /// empty list gives the space.
    pub fn countable_intersection(&self, sets: &[Subset]) -> (r: Result<Subset, String>)
        ensures
            r is Ok <==> forall|i: int| 0 <= i < sets.len() ==> self.family().contains(#[trigger] sets@[i]@),
            r matches Ok(s) ==> s@ == meet_within(self.space(), views(sets@)),
            r matches Ok(s) ==> forall|x: Seq<char>|
                #[trigger] s@.contains(x) <==> self.space().contains(x) && forall|i: int|
                    0 <= i < sets.len() ==> #[trigger] sets@[i]@.contains(x),
            r matches Err(e) ==> e@ == "Set is not measurable"@,
    {
        if sets.len() == 0 {
            proof {
                assert(views(sets@) =~= Seq::<Set<Seq<char>>>::empty());
            }
            return Ok(self.universal.duplicate());
        }
        let mut result = self.universal.duplicate();
        let mut i: usize = 0;
        assert(views(sets@).subrange(0, 0) =~= Seq::<Set<Seq<char>>>::empty());
        while i < sets.len()
            invariant
                i <= sets.len(),
                forall|k: int| 0 <= k < i ==> self.family().contains(#[trigger] sets@[k]@),
                result@ == meet_within(self.space(), views(sets@).subrange(0, i as int)),
            decreases sets.len() - i,
        {
            if !self.is_measurable(&sets[i]) {
                return Err("Set is not measurable".to_owned());
            }
            result = result.intersection(&sets[i]);
            proof {
                let pre = views(sets@).subrange(0, i + 1);
                assert(pre.drop_last() =~= views(sets@).subrange(0, i as int));
                assert(pre.last() == sets@[i as int]@);
            }
            i = i + 1;
        }
        assert(views(sets@).subrange(0, sets.len() as int) =~= views(sets@));
        proof {
            crate::meaning::law_meet_within_members(self.space(), views(sets@));
            assert forall|x: Seq<char>|
                #[trigger] result@.contains(x) <==> self.space().contains(x) && forall|i: int|
                    0 <= i < sets.len() ==> #[trigger] sets@[i]@.contains(x) by {
                if result@.contains(x) {
                    assert forall|i: int| 0 <= i < sets.len() implies #[trigger] sets@[i]@.contains(x) by {
                        assert(views(sets@)[i] == sets@[i]@);
                        assert(views(sets@)[i].contains(x));
                    }
                }
                if self.space().contains(x) && forall|i: int| 0 <= i < sets.len() ==> #[trigger] sets@[i]@.contains(x) {
                    assert forall|i: int| 0 <= i < views(sets@).len() implies #[trigger] views(sets@)[i].contains(x) by {
                        assert(views(sets@)[i] == sets@[i]@);
                        assert(sets@[i]@.contains(x));
                    }
                }
            }
        }
        Ok(result)
    }

    /// Complement of a measurable set.
    pub fn complement(&self, s: &Subset) -> (r: Result<Subset, String>)
        ensures
            r is Ok <==> self.family().contains(s@),
            r matches Ok(c) ==> c@ == self.space().difference(s@),
            r matches Err(e) ==> e@ == "Set is not measurable"@,
    {
        if !self.is_measurable(s) {
            return Err("Set is not measurable".to_owned());
        }
        Ok(s.complement(&self.universal))
    }
}

/// A measurable space: a set equipped with a sigma-algebra.
#[derive(Debug)]
pub struct MeasurableSpace {
    algebra: SigmaAlgebra,
}

impl Clone for MeasurableSpace {
    fn clone(&self) -> (r: Self)
        ensures
            r.algebra().space() == self.algebra().space(),
            r.algebra().listing() == self.algebra().listing(),
    {
        MeasurableSpace { algebra: self.algebra.clone() }
    }
}

impl MeasurableSpace {
    /// The sigma-algebra of this space.
    pub closed spec fn algebra(self) -> SigmaAlgebra {
        self.algebra
    }

    /// Equip the space of `algebra` with it.
    pub fn new(algebra: SigmaAlgebra) -> (r: MeasurableSpace)
        ensures
            r.algebra() == algebra,
    {
        MeasurableSpace { algebra }
    }

    /// The sigma-algebra.
    pub fn sigma_algebra(&self) -> (r: &SigmaAlgebra)
        ensures
            *r == self.algebra(),
    {
        &self.algebra
    }

    /// The universal set.
    pub fn universal(&self) -> (r: &Subset)
        ensures
            r@ == self.algebra().space(),
    {
        self.algebra.universal()
    }
}

} // verus!
