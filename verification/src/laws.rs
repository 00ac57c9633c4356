//! Laws of sigma-algebras and measurable maps, stated over the models that
//! the operations' contracts use.

use vstd::prelude::*;
use crate::family::{member, powerset, is_sigma_family, is_closed_family, initial_family,
    generated_family, union_all, meet_within};
use crate::mapping::{preimage_of, image_of};
use crate::measurable_function::compose_maps;
use crate::decomposition::signed_elements;

verus! {

/// In a sigma-family on `u`, the intersection of a member that lies in `u`
/// with any member is a member.
proof fn lemma_meet_member<A>(f: Set<Set<A>>, u: Set<A>, a: Set<A>, b: Set<A>)
    requires
        is_sigma_family(f, u),
        f.contains(a),
        f.contains(b),
        a.subset_of(u),
    ensures
        f.contains(a.intersect(b)),
{
    assert(member(f, a));
    assert(member(f, b));
    assert(member(f, u.difference(a)));
    assert(member(f, u.difference(b)));
    assert(member(f, u.difference(a).union(u.difference(b))));
    assert(u.difference(u.difference(a).union(u.difference(b))) =~= a.intersect(b));
}

/// A sigma-algebra holds the union of any finite list of its members.
pub proof fn law_countable_union_measurable<A>(f: Set<Set<A>>, u: Set<A>, sets: Seq<Set<A>>)
    requires
        is_sigma_family(f, u),
        forall|i: int| 0 <= i < sets.len() ==> f.contains(#[trigger] sets[i]),
    ensures
        f.contains(union_all(sets)),
    decreases sets.len(),
{
    if sets.len() > 0 {
        let rest = sets.drop_last();
        assert forall|i: int| 0 <= i < rest.len() implies f.contains(#[trigger] rest[i]) by {
            assert(rest[i] == sets[i]);
        }
        law_countable_union_measurable(f, u, rest);
        assert(member(f, union_all(rest)));
        assert(member(f, sets[sets.len() - 1]));
    }
}

/// A sigma-algebra holds the intersection, within its space, of any finite
/// list of its members; that intersection lies in the space.
pub proof fn law_countable_intersection_measurable<A>(f: Set<Set<A>>, u: Set<A>, sets: Seq<Set<A>>)
    requires
        is_sigma_family(f, u),
        forall|i: int| 0 <= i < sets.len() ==> f.contains(#[trigger] sets[i]),
    ensures
        f.contains(meet_within(u, sets)),
        meet_within(u, sets).subset_of(u),
    decreases sets.len(),
{
    if sets.len() > 0 {
        let rest = sets.drop_last();
        assert forall|i: int| 0 <= i < rest.len() implies f.contains(#[trigger] rest[i]) by {
            assert(rest[i] == sets[i]);
        }
        law_countable_intersection_measurable(f, u, rest);
        lemma_meet_member(f, u, meet_within(u, rest), sets[sets.len() - 1]);
    }
}

/// Taking the complement within the space twice gives back a subset of the
/// space.
pub proof fn law_complement_involution<A>(u: Set<A>, a: Set<A>)
    requires
        a.subset_of(u),
    ensures
        u.difference(u.difference(a)) == a,
{
    assert(u.difference(u.difference(a)) =~= a);
}

/// Preimages preserve unions, intersections and complements.
pub proof fn law_preimage_set_operations(
    m: Map<Seq<char>, Seq<char>>,
    v: Set<Seq<char>>,
    a: Set<Seq<char>>,
    b: Set<Seq<char>>,
)
    ensures
        preimage_of(m, a.union(b)) == preimage_of(m, a).union(preimage_of(m, b)),
        preimage_of(m, a.intersect(b)) == preimage_of(m, a).intersect(preimage_of(m, b)),
        preimage_of(m, v.difference(b)) == preimage_of(m, v).difference(preimage_of(m, b)),
{
    assert(preimage_of(m, a.union(b)) =~= preimage_of(m, a).union(preimage_of(m, b)));
    assert(preimage_of(m, a.intersect(b)) =~= preimage_of(m, a).intersect(preimage_of(m, b)));
    assert(preimage_of(m, v.difference(b)) =~= preimage_of(m, v).difference(preimage_of(m, b)));
}

/// The image of a preimage lies inside the set, and a set's points in the
/// domain lie in the preimage of its image.
pub proof fn law_image_preimage(m: Map<Seq<char>, Seq<char>>, a: Set<Seq<char>>, b: Set<Seq<char>>)
    ensures
        image_of(m, preimage_of(m, b)).subset_of(b),
        a.intersect(m.dom()).subset_of(preimage_of(m, image_of(m, a))),
{
    assert forall|y: Seq<char>| image_of(m, preimage_of(m, b)).contains(y) implies b.contains(y) by {
        let x = choose|x: Seq<char>|
            preimage_of(m, b).contains(x) && #[trigger] m.dom().contains(x) && m[x] == y;
    }
    assert forall|x: Seq<char>| a.intersect(m.dom()).contains(x) implies preimage_of(
        m,
        image_of(m, a),
    ).contains(x) by {
        assert(m.dom().contains(x));
        assert(image_of(m, a).contains(m[x]));
    }
}

/// Where every target of `f` lies in the domain of `g`, the preimage under
/// the composition is the preimage under `f` of the preimage under `g`.
pub proof fn law_preimage_of_composition(
    f: Map<Seq<char>, Seq<char>>,
    g: Map<Seq<char>, Seq<char>>,
    c: Set<Seq<char>>,
)
    requires
        forall|k: Seq<char>| #[trigger] f.dom().contains(k) ==> g.dom().contains(f[k]),
    ensures
        preimage_of(compose_maps(f, g), c) == preimage_of(f, preimage_of(g, c)),
{
    assert(preimage_of(compose_maps(f, g), c) =~= preimage_of(f, preimage_of(g, c)));
}

/// The composition of measurable maps is measurable: if preimages under `f`
/// of the sets of `fb` lie in `fa`, and preimages under `g` of the sets of
/// `fc` lie in `fb`, then preimages under `g` after `f` of the sets of `fc`
/// lie in `fa`.
pub proof fn law_composition_measurable(
    f: Map<Seq<char>, Seq<char>>,
    g: Map<Seq<char>, Seq<char>>,
    fa: Set<Set<Seq<char>>>,
    fb: Set<Set<Seq<char>>>,
    fc: Set<Set<Seq<char>>>,
)
    requires
        forall|k: Seq<char>| #[trigger] f.dom().contains(k) ==> g.dom().contains(f[k]),
        forall|b: Set<Seq<char>>| #[trigger] fb.contains(b) ==> fa.contains(preimage_of(f, b)),
        forall|c: Set<Seq<char>>| #[trigger] fc.contains(c) ==> fb.contains(preimage_of(g, c)),
    ensures
        forall|c: Set<Seq<char>>| #[trigger] fc.contains(c) ==> fa.contains(preimage_of(compose_maps(f, g), c)),
{
    assert forall|c: Set<Seq<char>>| #[trigger] fc.contains(c) implies fa.contains(
        preimage_of(compose_maps(f, g), c),
    ) by {
        law_preimage_of_composition(f, g, c);
        assert(fb.contains(preimage_of(g, c)));
    }
}

/// A map defined on exactly the points of a space is measurable from the
/// power set of that space into any family: every preimage is a subset of
/// the space.
pub proof fn law_discrete_domain_measurable(m: Map<Seq<char>, Seq<char>>, u: Set<Seq<char>>)
    requires
        m.dom() == u,
    ensures
        forall|b: Set<Seq<char>>| powerset(u).contains(#[trigger] preimage_of(m, b)),
{
    assert forall|b: Set<Seq<char>>| powerset(u).contains(#[trigger] preimage_of(m, b)) by {
        assert(preimage_of(m, b).subset_of(u));
    }
}

/// The generated family holds every generator.
pub proof fn law_generated_holds_generators<A>(u: Set<A>, gens: Set<Set<A>>)
    ensures
        gens.subset_of(generated_family(u, gens)),
{
    reveal(initial_family);
    assert forall|a: Set<A>| gens.contains(a) implies generated_family(u, gens).contains(a) by {
        assert(initial_family(u, gens).contains(a));
    }
}

/// The generated family is the smallest sigma-algebra holding the
/// generators: it lies inside every sigma-family of subsets of `u` that
/// holds them.
pub proof fn law_generated_is_smallest<A>(t: Set<Set<A>>, u: Set<A>, gens: Set<Set<A>>)
    requires
        is_sigma_family(t, u),
        forall|a: Set<A>| #[trigger] t.contains(a) ==> a.subset_of(u),
        gens.subset_of(t),
    ensures
        generated_family(u, gens).subset_of(t),
{
    reveal(initial_family);
    reveal(is_closed_family);
    assert forall|x: Set<A>| initial_family(u, gens).contains(x) implies t.contains(x) by {
        if gens.map(|g: Set<A>| u.difference(g)).contains(x) {
            let g = choose|g: Set<A>| gens.contains(g) && x == u.difference(g);
            assert(member(t, g));
        }
    }
    assert forall|a: Set<A>, b: Set<A>|
        #[trigger] member(t, a) && #[trigger] member(t, b) implies t.contains(a.union(b)) && t.contains(
        a.intersect(b),
    ) by {
        lemma_meet_member(t, u, a, b);
    }
    assert(is_closed_family(t, u));
    assert forall|a: Set<A>| generated_family(u, gens).contains(a) implies t.contains(a) by {
        assert(initial_family(u, gens).subset_of(t) && is_closed_family(t, u) ==> t.contains(a));
    }
}

/// The positive and negative sets of a Hahn split cover the listed
/// elements, and they are disjoint when no element is listed twice.
pub proof fn law_hahn_partition(values: Seq<(String, bool)>)
    ensures
        signed_elements(values, true).union(signed_elements(values, false)) == Set::new(
            |e: Seq<char>| exists|i: int| 0 <= i < values.len() && (#[trigger] values[i]).0@ == e,
        ),
        (forall|i: int, j: int|
            0 <= i < j < values.len() ==> (#[trigger] values[i]).0@ != (#[trigger] values[j]).0@)
            ==> signed_elements(values, true).disjoint(signed_elements(values, false)),
{
    let all = Set::new(
        |e: Seq<char>| exists|i: int| 0 <= i < values.len() && (#[trigger] values[i]).0@ == e,
    );
    assert forall|e: Seq<char>| all.contains(e) implies signed_elements(values, true).union(
        signed_elements(values, false),
    ).contains(e) by {
        let i = choose|i: int| 0 <= i < values.len() && (#[trigger] values[i]).0@ == e;
        if values[i].1 {
            assert(signed_elements(values, true).contains(e));
        } else {
            assert(signed_elements(values, false).contains(e));
        }
    }
    assert(signed_elements(values, true).union(signed_elements(values, false)) =~= all);
    if forall|i: int, j: int|
        0 <= i < j < values.len() ==> (#[trigger] values[i]).0@ != (#[trigger] values[j]).0@ {
        assert forall|e: Seq<char>| !(signed_elements(values, true).contains(e) && signed_elements(
            values,
            false,
        ).contains(e)) by {
            if signed_elements(values, true).contains(e) && signed_elements(values, false).contains(e) {
                let i = choose|i: int| 0 <= i < values.len() && (#[trigger] values[i]).0@ == e && values[i].1;
                let j = choose|j: int| 0 <= j < values.len() && (#[trigger] values[j]).0@ == e && !values[j].1;
                if i < j {
                    assert(values[i].0@ != values[j].0@);
                } else {
                    assert(values[j].0@ != values[i].0@);
                }
            }
        }
    }
}

} // verus!
