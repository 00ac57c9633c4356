//! Families of sets: the mathematical model behind sigma-algebras.

use vstd::prelude::*;
use vstd::set_lib::{lemma_map_size, lemma_set_disjoint_lens, lemma_len_subset};
use vstd::relations::injective_on;

verus! {

/// 2 to the power `n`.
pub open spec fn two_pow(n: nat) -> nat
    decreases n,
{
    if n == 0 {
        1
    } else {
        2 * two_pow((n - 1) as nat)
    }
}

/// All subsets of `u`.
pub open spec fn powerset<A>(u: Set<A>) -> Set<Set<A>> {
    Set::new(|a: Set<A>| a.subset_of(u))
}

/// `a` is a member of the family `f`. Used as the trigger of the closure
/// properties below, so that a member produced by closure does not set off
/// further instantiations on its own.
pub open spec fn member<A>(f: Set<Set<A>>, a: Set<A>) -> bool {
    f.contains(a)
}

/// The sigma-algebra axioms on a finite space, as `validate` checks them:
/// the family holds the empty set and the space, the complement of each
/// member, and the union of any two members.
pub open spec fn is_sigma_family<A>(f: Set<Set<A>>, u: Set<A>) -> bool {
    &&& f.contains(Set::<A>::empty())
    &&& f.contains(u)
    &&& forall|a: Set<A>| #[trigger] member(f, a) ==> f.contains(u.difference(a))
    &&& forall|a: Set<A>, b: Set<A>|
        #[trigger] member(f, a) && #[trigger] member(f, b) ==> f.contains(a.union(b))
}

/// Closed under pairwise union, pairwise intersection and complement in `u`.
#[verifier::opaque]
pub open spec fn is_closed_family<A>(f: Set<Set<A>>, u: Set<A>) -> bool {
    &&& forall|a: Set<A>| #[trigger] member(f, a) ==> f.contains(u.difference(a))
    &&& forall|a: Set<A>, b: Set<A>|
        #[trigger] member(f, a) && #[trigger] member(f, b) ==> f.contains(a.union(b))
            && f.contains(a.intersect(b))
}

/// What generation starts from: the empty set, the space, each generator
/// and the complement of each generator.
#[verifier::opaque]
pub open spec fn initial_family<A>(u: Set<A>, gens: Set<Set<A>>) -> Set<Set<A>> {
    set![Set::<A>::empty(), u].union(gens).union(gens.map(|g: Set<A>| u.difference(g)))
}

/// The smallest family that holds the initial family and is closed: the
/// sets that lie in every closed family holding the initial one.
pub open spec fn generated_family<A>(u: Set<A>, gens: Set<Set<A>>) -> Set<Set<A>> {
    Set::new(
        |a: Set<A>|
            forall|t: Set<Set<A>>|
                #![trigger is_closed_family(t, u)]
                initial_family(u, gens).subset_of(t) && is_closed_family(t, u) ==> t.contains(a),
    )
}

/// The union of all the sets in `s`.
pub open spec fn union_all<A>(s: Seq<Set<A>>) -> Set<A>
    decreases s.len(),
{
    if s.len() == 0 {
        Set::empty()
    } else {
        union_all(s.drop_last()).union(s.last())
    }
}

/// `u` intersected with all the sets in `s`.
pub open spec fn meet_within<A>(u: Set<A>, s: Seq<Set<A>>) -> Set<A>
    decreases s.len(),
{
    if s.len() == 0 {
        u
    } else {
        meet_within(u, s.drop_last()).intersect(s.last())
    }
}

/// An element lies in `union_all(s)` exactly when it lies in one of the sets.
pub proof fn lemma_union_all_contains<A>(s: Seq<Set<A>>, x: A)
    ensures
        union_all(s).contains(x) <==> exists|i: int| 0 <= i < s.len() && #[trigger] s[i].contains(x),
    decreases s.len(),
{
    if s.len() > 0 {
        lemma_union_all_contains(s.drop_last(), x);
        if union_all(s.drop_last()).contains(x) {
            let i = choose|i: int| 0 <= i < s.drop_last().len() && #[trigger] s.drop_last()[i].contains(x);
            assert(s[i].contains(x));
        }
        if exists|i: int| 0 <= i < s.len() && #[trigger] s[i].contains(x) {
            let i = choose|i: int| 0 <= i < s.len() && #[trigger] s[i].contains(x);
            if i < s.len() - 1 {
                assert(s.drop_last()[i].contains(x));
            }
        }
    }
}

/// The union of finitely many finite sets is finite.
pub proof fn lemma_union_all_finite<A>(s: Seq<Set<A>>)
    requires
        forall|i: int| 0 <= i < s.len() ==> #[trigger] s[i].finite(),
    ensures
        union_all(s).finite(),
    decreases s.len(),
{
    if s.len() > 0 {
        lemma_union_all_finite(s.drop_last());
        vstd::set_lib::lemma_set_union_finite_iff(union_all(s.drop_last()), s.last());
    }
}

/// Subsets of `p` plus `x`, split by whether they hold `x`.
pub proof fn lemma_powerset_insert<A>(p: Set<A>, x: A)
    requires
        !p.contains(x),
    ensures
        powerset(p.insert(x)) == powerset(p).union(powerset(p).map(|a: Set<A>| a.insert(x))),
{
    let lhs = powerset(p.insert(x));
    let rhs = powerset(p).union(powerset(p).map(|a: Set<A>| a.insert(x)));
    assert forall|a: Set<A>| lhs.contains(a) implies rhs.contains(a) by {
        if a.contains(x) {
            let b = a.remove(x);
            assert(powerset(p).contains(b));
            assert(b.insert(x) =~= a);
            assert(powerset(p).map(|a: Set<A>| a.insert(x)).contains(a));
        } else {
            assert(powerset(p).contains(a));
        }
    }
    assert forall|a: Set<A>| rhs.contains(a) implies lhs.contains(a) by {
        if !powerset(p).contains(a) {
            let b = choose|b: Set<A>| powerset(p).contains(b) && b.insert(x) == a;
            assert(a.subset_of(p.insert(x)));
        }
    }
    assert(lhs =~= rhs);
}

/// A finite set of `n` elements has `2^n` subsets.
pub proof fn lemma_powerset_len<A>(u: Set<A>)
    requires
        u.finite(),
    ensures
        powerset(u).finite(),
        powerset(u).len() == two_pow(u.len()),
    decreases u.len(),
{
    if u.len() == 0 {
        assert(u =~= Set::<A>::empty());
        assert forall|a: Set<A>| powerset(u).contains(a) implies a == Set::<A>::empty() by {
            assert(a =~= Set::<A>::empty());
        }
        assert(powerset(u) =~= set![Set::<A>::empty()]);
    } else {
        let x = u.choose();
        let p = u.remove(x);
        lemma_powerset_len(p);
        assert(p.insert(x) =~= u);
        lemma_powerset_insert(p, x);
        let f = |a: Set<A>| a.insert(x);
        let m = powerset(p).map(f);
        assert(injective_on(f, powerset(p))) by {
            assert forall|a: Set<A>, b: Set<A>|
                powerset(p).contains(a) && powerset(p).contains(b) && #[trigger] f(a)
                    == #[trigger] f(b) implies a == b by {
                assert(!a.contains(x) && !b.contains(x));
                assert forall|y: A| a.contains(y) <==> b.contains(y) by {
                    assert(f(a).contains(y) == f(b).contains(y));
                }
                assert(a =~= b);
            }
        }
        lemma_map_size(powerset(p), m, f);
        assert(powerset(p).disjoint(m)) by {
            assert forall|a: Set<A>| powerset(p).contains(a) implies !m.contains(a) by {
                if m.contains(a) {
                    let b = choose|b: Set<A>| powerset(p).contains(b) && f(b) == a;
                    assert(a.contains(x));
                }
            }
        }
        lemma_set_disjoint_lens(powerset(p), m);
    }
}

/// A family of subsets of a finite `u` has at most `2^|u|` members.
pub proof fn lemma_family_len_bound<A>(f: Set<Set<A>>, u: Set<A>)
    requires
        u.finite(),
        forall|a: Set<A>| #[trigger] f.contains(a) ==> a.subset_of(u),
    ensures
        f.finite(),
        f.len() <= two_pow(u.len()),
{
    lemma_powerset_len(u);
    assert(f.subset_of(powerset(u)));
    lemma_len_subset(f, powerset(u));
}

/// The generated family is the one family that holds the initial family,
/// is closed, and lies inside every closed family that holds the initial one.
pub proof fn lemma_generated_family_unique<A>(f: Set<Set<A>>, u: Set<A>, gens: Set<Set<A>>)
    requires
        initial_family(u, gens).subset_of(f),
        is_closed_family(f, u),
        forall|t: Set<Set<A>>|
            #![trigger is_closed_family(t, u)]
            initial_family(u, gens).subset_of(t) && is_closed_family(t, u) ==> f.subset_of(t),
    ensures
        f == generated_family(u, gens),
{
    let g = generated_family(u, gens);
    assert forall|a: Set<A>| f.contains(a) implies g.contains(a) by {
        assert forall|t: Set<Set<A>>|
            initial_family(u, gens).subset_of(t) && is_closed_family(t, u) implies t.contains(
            a,
        ) by {
            assert(f.subset_of(t));
        }
    }
    assert forall|a: Set<A>| g.contains(a) implies f.contains(a) by {
        assert(initial_family(u, gens).subset_of(f) && is_closed_family(f, u) ==> f.contains(a));
    }
    assert(f =~= g);
}

/// The power set of a space satisfies the sigma-algebra axioms.
pub proof fn lemma_powerset_is_sigma<A>(u: Set<A>)
    ensures
        is_sigma_family(powerset(u), u),
{
    let p = powerset(u);
    assert(Set::<A>::empty().subset_of(u));
    assert(p.contains(Set::<A>::empty()));
    assert(u.subset_of(u));
    assert(p.contains(u));
    assert forall|a: Set<A>| #[trigger] member(p, a) implies p.contains(u.difference(a)) by {
        assert(u.difference(a).subset_of(u));
    }
    assert forall|a: Set<A>, b: Set<A>|
        #[trigger] member(p, a) && #[trigger] member(p, b) implies p.contains(a.union(b)) by {
        assert(a.subset_of(u));
        assert(b.subset_of(u));
        assert(a.union(b).subset_of(u));
    }
}

} // verus!
