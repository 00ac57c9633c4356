//! What each model used by the contracts means, stated through membership,
//! lookup and concatenation alone.

use vstd::prelude::*;
use vstd::arithmetic::power2::{pow2, lemma_pow2_unfold};
use crate::family::{powerset, is_sigma_family, member, generated_family, initial_family,
    is_closed_family, union_all, meet_within, two_pow, lemma_union_all_contains};
use crate::mapping::{pairs_map, preimage_of, image_of, lemma_pairs_map};
use crate::measurable_function::{compose_maps, sorted_listing, unmapped_message, intermediate_message,
    not_measurable_text};
use crate::agent::{produces, str_names};
use crate::names::names;
use crate::mapping::entries;
use crate::sigma_algebra::{Subset, views};
use crate::product::{pair_name, product_space};
use crate::decomposition::signed_elements;
use crate::order::{lex_lt, strictly_sorted};
use crate::names::lemma_sorted_unique;
use crate::text::{joined, braced, debug_texts, set_debug, debug_text};

verus! {

/// A point lies in the union of a list of sets exactly when it lies in one
/// of them.
pub proof fn law_union_all_members<A>(s: Seq<Set<A>>)
    ensures
        forall|x: A|
            #[trigger] union_all(s).contains(x) <==> exists|i: int| 0 <= i < s.len() && s[i].contains(x),
{
    assert forall|x: A|
        #[trigger] union_all(s).contains(x) <==> exists|i: int| 0 <= i < s.len() && s[i].contains(x) by {
        lemma_union_all_contains(s, x);
    }
}

/// A point lies in the intersection, within `u`, of a list of sets exactly
/// when it lies in `u` and in every set of the list.
pub proof fn law_meet_within_members<A>(u: Set<A>, s: Seq<Set<A>>)
    ensures
        forall|x: A|
            #[trigger] meet_within(u, s).contains(x) <==> u.contains(x) && forall|i: int|
                0 <= i < s.len() ==> #[trigger] s[i].contains(x),
    decreases s.len(),
{
    if s.len() > 0 {
        let rest = s.drop_last();
        law_meet_within_members(u, rest);
        assert(meet_within(u, s) == meet_within(u, rest).intersect(s.last()));
        assert forall|x: A|
            #[trigger] meet_within(u, s).contains(x) <==> u.contains(x) && forall|i: int|
                0 <= i < s.len() ==> #[trigger] s[i].contains(x) by {
            if meet_within(u, s).contains(x) {
                assert(meet_within(u, rest).contains(x));
                assert forall|i: int| 0 <= i < s.len() implies #[trigger] s[i].contains(x) by {
                    if i < s.len() - 1 {
                        assert(rest[i].contains(x));
                        assert(rest[i] == s[i]);
                    } else {
                        assert(s.last().contains(x));
                    }
                }
            }
            if u.contains(x) && forall|i: int| 0 <= i < s.len() ==> #[trigger] s[i].contains(x) {
                assert forall|i: int| 0 <= i < rest.len() implies #[trigger] rest[i].contains(x) by {
                    assert(s[i].contains(x));
                    assert(rest[i] == s[i]);
                }
                assert(meet_within(u, rest).contains(x));
                assert(s[s.len() - 1].contains(x));
            }
        }
    }
}

/// A point lies in the preimage of `b` exactly when it is mapped and its
/// target lies in `b`.
pub proof fn law_preimage_members(m: Map<Seq<char>, Seq<char>>, b: Set<Seq<char>>)
    ensures
        forall|k: Seq<char>| #[trigger] preimage_of(m, b).contains(k) <==> m.dom().contains(k) && b.contains(m[k]),
{
}

/// A value lies in the image of `a` exactly when it is the target of a
/// mapped point of `a`.
pub proof fn law_image_members(m: Map<Seq<char>, Seq<char>>, a: Set<Seq<char>>)
    ensures
        forall|y: Seq<char>|
            #[trigger] image_of(m, a).contains(y) <==> exists|x: Seq<char>|
                a.contains(x) && m.dom().contains(x) && m[x] == y,
{
    assert forall|y: Seq<char>|
        #[trigger] image_of(m, a).contains(y) <==> exists|x: Seq<char>|
            a.contains(x) && m.dom().contains(x) && m[x] == y by {
        if exists|x: Seq<char>| a.contains(x) && m.dom().contains(x) && m[x] == y {
            let x = choose|x: Seq<char>| a.contains(x) && m.dom().contains(x) && m[x] == y;
            assert(m.dom().contains(x));
        }
    }
}

/// The composition `g` after `f` is defined where `f` is, and sends each
/// such point to `g` of its `f`-target.
pub proof fn law_compose_maps(f: Map<Seq<char>, Seq<char>>, g: Map<Seq<char>, Seq<char>>)
    ensures
        compose_maps(f, g).dom() == f.dom(),
        forall|k: Seq<char>| #[trigger] f.dom().contains(k) ==> compose_maps(f, g)[k] == g[f[k]],
{
    assert(compose_maps(f, g).dom() =~= f.dom());
}

/// The map of a list of pairs is defined on the listed sources, and sends
/// each source to the target of its last pair.
pub proof fn law_pairs_map(s: Seq<(Seq<char>, Seq<char>)>)
    ensures
        forall|k: Seq<char>|
            #[trigger] pairs_map(s).dom().contains(k) <==> exists|i: int| 0 <= i < s.len() && s[i].0 == k,
        forall|i: int|
            0 <= i < s.len() && (forall|j: int| i < j < s.len() ==> s[j].0 != s[i].0) ==> #[trigger] pairs_map(
                s,
            )[s[i].0] == s[i].1,
    decreases s.len(),
{
    lemma_pairs_map(s);
    assert forall|k: Seq<char>|
        #[trigger] pairs_map(s).dom().contains(k) <==> exists|i: int| 0 <= i < s.len() && s[i].0 == k by {
        if exists|i: int| 0 <= i < s.len() && s[i].0 == k {
            let i = choose|i: int| 0 <= i < s.len() && s[i].0 == k;
            assert(s[i].0 == k);
        }
    }
    if s.len() > 0 {
        let t = s.drop_last();
        law_pairs_map(t);
        assert forall|i: int|
            0 <= i < s.len() && (forall|j: int| i < j < s.len() ==> s[j].0 != s[i].0) implies #[trigger] pairs_map(
            s,
        )[s[i].0] == s[i].1 by {
            if i < s.len() - 1 {
                assert(s[s.len() - 1].0 != s[i].0);
                assert(t[i] == s[i]);
                assert forall|j: int| i < j < t.len() implies t[j].0 != t[i].0 by {
                    assert(t[j] == s[j]);
                }
                assert(pairs_map(t)[t[i].0] == t[i].1);
                assert(pairs_map(s) == pairs_map(t).insert(s.last().0, s.last().1));
            } else {
                assert(pairs_map(s) == pairs_map(t).insert(s.last().0, s.last().1));
            }
        }
    }
}

/// A state produces an observation exactly when the model maps it to that
/// observation; a state the model leaves out produces only the empty one.
pub proof fn law_produces(m: Map<Seq<char>, Seq<char>>, state: Seq<char>, obs: Seq<char>)
    ensures
        m.dom().contains(state) ==> (produces(m, state, obs) <==> m[state] == obs),
        !m.dom().contains(state) ==> (produces(m, state, obs) <==> obs.len() == 0),
{
    if obs.len() == 0 {
        assert(obs =~= Seq::<char>::empty());
    }
}

/// The name of the point (x, y) is "(", x, ",", y, ")".
pub proof fn law_pair_name(x: Seq<char>, y: Seq<char>)
    ensures
        pair_name(x, y) == "("@ + x + ","@ + y + ")"@,
{
}

/// The product space holds exactly the names "(x,y)" of x in `a` and y in `b`.
pub proof fn law_product_space_members(a: Set<Seq<char>>, b: Set<Seq<char>>)
    ensures
        forall|p: Seq<char>|
            #[trigger] product_space(a, b).contains(p) <==> exists|x: Seq<char>, y: Seq<char>|
                a.contains(x) && b.contains(y) && p == "("@ + x + ","@ + y + ")"@,
{
    assert forall|p: Seq<char>|
        #[trigger] product_space(a, b).contains(p) <==> exists|x: Seq<char>, y: Seq<char>|
            a.contains(x) && b.contains(y) && p == "("@ + x + ","@ + y + ")"@ by {
        if product_space(a, b).contains(p) {
            let (x, y) = choose|x: Seq<char>, y: Seq<char>| a.contains(x) && b.contains(y) && p == pair_name(x, y);
            assert(p == "("@ + x + ","@ + y + ")"@);
        }
        if exists|x: Seq<char>, y: Seq<char>| a.contains(x) && b.contains(y) && p == "("@ + x + ","@ + y + ")"@ {
            let (x, y) = choose|x: Seq<char>, y: Seq<char>|
                a.contains(x) && b.contains(y) && p == "("@ + x + ","@ + y + ")"@;
            assert(p == pair_name(x, y));
        }
    }
}

/// The power set of `u` holds exactly the subsets of `u`.
pub proof fn law_powerset_members<A>(u: Set<A>)
    ensures
        forall|a: Set<A>| #[trigger] powerset(u).contains(a) <==> a.subset_of(u),
{
}

/// `two_pow(n)` is 2 to the power n.
pub proof fn law_two_pow(n: nat)
    ensures
        two_pow(n) == pow2(n),
    decreases n,
{
    if n == 0 {
        reveal(vstd::arithmetic::power::pow);
        assert(pow2(0) == 1);
    } else {
        law_two_pow((n - 1) as nat);
        lemma_pow2_unfold(n);
    }
}

/// The generated family is a sigma-algebra on `u`.
pub proof fn law_generated_is_sigma<A>(u: Set<A>, gens: Set<Set<A>>)
    ensures
        is_sigma_family(generated_family(u, gens), u),
{
    reveal(initial_family);
    reveal(is_closed_family);
    let g = generated_family(u, gens);
    assert(g.contains(Set::<A>::empty())) by {
        assert forall|t: Set<Set<A>>|
            #![trigger is_closed_family(t, u)]
            initial_family(u, gens).subset_of(t) && is_closed_family(t, u) implies t.contains(
            Set::<A>::empty(),
        ) by {
            assert(initial_family(u, gens).contains(Set::<A>::empty()));
        }
    }
    assert(g.contains(u)) by {
        assert forall|t: Set<Set<A>>|
            #![trigger is_closed_family(t, u)]
            initial_family(u, gens).subset_of(t) && is_closed_family(t, u) implies t.contains(u) by {
            assert(initial_family(u, gens).contains(u));
        }
    }
    assert forall|a: Set<A>| #[trigger] member(g, a) implies g.contains(u.difference(a)) by {
        assert forall|t: Set<Set<A>>|
            #![trigger is_closed_family(t, u)]
            initial_family(u, gens).subset_of(t) && is_closed_family(t, u) implies t.contains(
            u.difference(a),
        ) by {
            assert(t.contains(a));
            assert(member(t, a));
        }
    }
    assert forall|a: Set<A>, b: Set<A>| #[trigger] member(g, a) && #[trigger] member(g, b) implies g.contains(
        a.union(b),
    ) by {
        assert forall|t: Set<Set<A>>|
            #![trigger is_closed_family(t, u)]
            initial_family(u, gens).subset_of(t) && is_closed_family(t, u) implies t.contains(
            a.union(b),
        ) by {
            assert(t.contains(a) && t.contains(b));
            assert(member(t, a) && member(t, b));
        }
    }
}

/// An element is in the positive (negative) set of a Hahn split exactly
/// when it is listed with that sign.
pub proof fn law_signed_elements_members(values: Seq<(String, bool)>, sign: bool)
    ensures
        forall|e: Seq<char>|
            #[trigger] signed_elements(values, sign).contains(e) <==> exists|i: int|
                0 <= i < values.len() && values[i].0@ == e && values[i].1 == sign,
{
    assert forall|e: Seq<char>|
        #[trigger] signed_elements(values, sign).contains(e) <==> exists|i: int|
            0 <= i < values.len() && values[i].0@ == e && values[i].1 == sign by {
        if exists|i: int| 0 <= i < values.len() && values[i].0@ == e && values[i].1 == sign {
            let i = choose|i: int| 0 <= i < values.len() && values[i].0@ == e && values[i].1 == sign;
            assert(values[i].0@ == e);
        }
    }
}

/// The order on names: `a` comes before `b` exactly when `a` is a proper
/// prefix of `b`, or at the first position where they differ `a` has the
/// smaller code point.
pub proof fn law_lex_lt(a: Seq<char>, b: Seq<char>)
    ensures
        lex_lt(a, b) <==> (a.len() < b.len() && a == b.subrange(0, a.len() as int)) || exists|k: int|
            0 <= k < a.len() && k < b.len() && a.subrange(0, k) == b.subrange(0, k) && (#[trigger] a[k] as int) < (
            b[k] as int),
    decreases a.len(),
{
    let rhs = (a.len() < b.len() && a == b.subrange(0, a.len() as int)) || exists|k: int|
        0 <= k < a.len() && k < b.len() && a.subrange(0, k) == b.subrange(0, k) && (#[trigger] a[k] as int) < (
        b[k] as int);
    if b.len() == 0 {
        assert(!rhs);
    } else if a.len() == 0 {
        assert(a =~= b.subrange(0, 0));
    } else if a[0] == b[0] {
        let a1 = a.drop_first();
        let b1 = b.drop_first();
        law_lex_lt(a1, b1);
        if lex_lt(a, b) {
            if a1.len() < b1.len() && a1 == b1.subrange(0, a1.len() as int) {
                assert forall|i: int| 0 <= i < a.len() implies #[trigger] a[i] == b.subrange(0, a.len() as int)[i] by {
                    if i > 0 {
                        assert(a[i] == a1[i - 1]);
                        assert(a1[i - 1] == b1.subrange(0, a1.len() as int)[i - 1]);
                    }
                }
                assert(a =~= b.subrange(0, a.len() as int));
            } else {
                let k = choose|k: int|
                    0 <= k < a1.len() && k < b1.len() && a1.subrange(0, k) == b1.subrange(0, k) && (
                    #[trigger] a1[k] as int) < (b1[k] as int);
                assert(a.subrange(0, k + 1) =~= b.subrange(0, k + 1)) by {
                    assert forall|i: int| 0 <= i < k + 1 implies #[trigger] a.subrange(0, k + 1)[i] == b.subrange(0, k + 1)[i] by {
                        if i > 0 {
                            assert(a1.subrange(0, k)[i - 1] == b1.subrange(0, k)[i - 1]);
                        }
                    }
                }
                assert(a[k + 1] == a1[k]);
            }
        }
        if rhs {
            if a.len() < b.len() && a == b.subrange(0, a.len() as int) {
                assert(a1 =~= b1.subrange(0, a1.len() as int));
            } else {
                let k = choose|k: int|
                    0 <= k < a.len() && k < b.len() && a.subrange(0, k) == b.subrange(0, k) && (
                    #[trigger] a[k] as int) < (b[k] as int);
                assert(k > 0);
                assert(a1.subrange(0, k - 1) =~= b1.subrange(0, k - 1)) by {
                    assert forall|i: int| 0 <= i < k - 1 implies #[trigger] a1.subrange(0, k - 1)[i] == b1.subrange(0, k - 1)[i] by {
                        assert(a.subrange(0, k)[i + 1] == b.subrange(0, k)[i + 1]);
                    }
                }
                assert(a1[k - 1] == a[k]);
            }
        }
    } else {
        if rhs {
            if a.len() < b.len() && a == b.subrange(0, a.len() as int) {
                assert(a[0] == b.subrange(0, a.len() as int)[0]);
            } else {
                let k = choose|k: int|
                    0 <= k < a.len() && k < b.len() && a.subrange(0, k) == b.subrange(0, k) && (
                    #[trigger] a[k] as int) < (b[k] as int);
                if k > 0 {
                    assert(a.subrange(0, k)[0] == b.subrange(0, k)[0]);
                }
            }
        }
        if lex_lt(a, b) {
            assert(a.subrange(0, 0) =~= b.subrange(0, 0));
            assert((a[0] as int) < (b[0] as int));
        }
    }
}

/// The sorted listing of a set is the one strictly increasing sequence that
/// holds exactly its elements.
pub proof fn law_sorted_listing(q: Seq<Seq<char>>)
    requires
        strictly_sorted(q),
    ensures
        sorted_listing(q.to_set()) == q,
{
    let r = sorted_listing(q.to_set());
    assert(strictly_sorted(q) && q.to_set() == q.to_set());
    lemma_sorted_unique(r, q);
}

/// Texts are joined with ", " between neighbours, and a set's text encloses
/// the Debug texts of its names, in order, in braces.
pub proof fn law_joined(t: Seq<Seq<char>>, x: Seq<char>, q: Seq<Seq<char>>)
    ensures
        joined(Seq::<Seq<char>>::empty()) == Seq::<char>::empty(),
        joined(seq![x]) == x,
        t.len() > 0 ==> joined(t.push(x)) == joined(t) + ", "@ + x,
        braced(t) == "{"@ + joined(t) + "}"@,
        debug_texts(q).len() == q.len(),
        forall|i: int| 0 <= i < q.len() ==> #[trigger] debug_texts(q)[i] == debug_text(q[i]),
        set_debug(q) == "{"@ + joined(debug_texts(q)) + "}"@,
{
    assert(seq![x].len() == 1);
    if t.len() > 0 {
        assert(t.push(x).drop_last() =~= t);
    }
}

/// The error messages, spelled out.
pub proof fn law_messages(x: Seq<char>, b_key: Seq<char>, pre_key: Seq<char>)
    ensures
        unmapped_message(x) == "Domain element '"@ + x + "' not mapped"@,
        intermediate_message(x) == "Intermediate value '"@ + x + "' not in domain of second function"@,
        not_measurable_text(b_key, pre_key) == "Not measurable: preimage of "@ + b_key + " is "@ + pre_key
            + ", which is not in the domain sigma-algebra"@,
{
}

/// The names, pairs of names and sets of a list are taken element by
/// element, in order.
pub proof fn law_element_views(
    v: Seq<String>,
    p: Seq<(String, String)>,
    w: Seq<&str>,
    s: Seq<Subset>,
)
    ensures
        names(v).len() == v.len(),
        forall|i: int| 0 <= i < v.len() ==> #[trigger] names(v)[i] == v[i]@,
        entries(p).len() == p.len(),
        forall|i: int| 0 <= i < p.len() ==> #[trigger] entries(p)[i] == (p[i].0@, p[i].1@),
        str_names(w).len() == w.len(),
        forall|i: int| 0 <= i < w.len() ==> #[trigger] str_names(w)[i] == w[i]@,
        views(s).len() == s.len(),
        forall|i: int| 0 <= i < s.len() ==> #[trigger] views(s)[i] == s[i]@,
{
}

} // verus!
