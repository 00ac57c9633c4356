//! Product spaces: points of X x Y are named by pairs of element names, and
//! the product sigma-algebra on finite spaces is the power set of X x Y.

use vstd::prelude::*;
use vstd::string::StringExecFns;
use crate::names::names;
use crate::sigma_algebra::{Subset, SigmaAlgebra};
use crate::family::{powerset, two_pow, is_sigma_family};

verus! {

/// The name of the point (x, y).
pub open spec fn pair_name(x: Seq<char>, y: Seq<char>) -> Seq<char> {
    "("@ + x + ","@ + y + ")"@
}

/// The names of all points of `a` x `b`.
pub open spec fn product_space(a: Set<Seq<char>>, b: Set<Seq<char>>) -> Set<Seq<char>> {
    Set::new(
        |p: Seq<char>|
            exists|x: Seq<char>, y: Seq<char>| a.contains(x) && b.contains(y) && p == pair_name(x, y),
    )
}

/// A pair of elements representing a point in the product space.
pub fn pair_key(x: &str, y: &str) -> (r: String)
    ensures
        r@ == pair_name(x@, y@),
        r@ == "("@ + x@ + ","@ + y@ + ")"@,
{
    let mut r: String = "(".to_owned();
    r.append(x);
    r.append(",");
    r.append(y);
    r.append(")");
    r
}

/// The pairs built from the first `i` rows, and from the first `j` columns of
/// row `i`.
spec fn pairs_upto(r: Seq<Seq<char>>, c: Seq<Seq<char>>, i: int, j: int) -> Set<Seq<char>> {
    Set::new(
        |p: Seq<char>|
            exists|k: int, l: int|
                #![trigger r[k], c[l]]
                0 <= k < r.len() && 0 <= l < c.len() && (k < i || (k == i && l < j)) && p
                    == pair_name(r[k], c[l]),
    )
}

/// Construct the product sigma-algebra: for finite spaces, the power set of
/// the product of the two spaces.
#[verifier::rlimit(30)]
pub fn product_sigma_algebra(sa1: &SigmaAlgebra, sa2: &SigmaAlgebra) -> (r: SigmaAlgebra)
    requires
        product_space(sa1.space(), sa2.space()).len() < 64,
    ensures
        r.space() == product_space(sa1.space(), sa2.space()),
        forall|p: Seq<char>|
            #[trigger] r.space().contains(p) <==> exists|x: Seq<char>, y: Seq<char>|
                sa1.space().contains(x) && sa2.space().contains(y) && p == "("@ + x + ","@ + y + ")"@,
        r.family() == powerset(r.space()),
        r.family().len() == two_pow(r.space().len()),
        is_sigma_family(r.family(), r.space()),
{
    let u1 = sa1.universal();
    let u2 = sa2.universal();
    let e1 = u1.elements();
    let e2 = u2.elements();
    let ghost rows = names(e1@);
    let ghost cols = names(e2@);
    proof {
        Subset::lemma_view(*u1);
        Subset::lemma_view(*u2);
    }
    let mut elements: Vec<String> = Vec::new();
    let mut i: usize = 0;
    assert(names(elements@).to_set() =~= pairs_upto(rows, cols, 0, 0));
    while i < e1.len()
        invariant
            rows == names(e1@),
            cols == names(e2@),
            i <= e1.len(),
            names(elements@).to_set() == pairs_upto(rows, cols, i as int, 0),
        decreases e1.len() - i,
    {
        let mut j: usize = 0;
        while j < e2.len()
            invariant
                rows == names(e1@),
                cols == names(e2@),
                i < e1.len(),
                j <= e2.len(),
                names(elements@).to_set() == pairs_upto(rows, cols, i as int, j as int),
            decreases e2.len() - j,
        {
            let key = pair_key(e1[i].as_str(), e2[j].as_str());
            let ghost before = elements@;
            let ghost kv = key@;
            elements.push(key);
            proof {
                assert(names(elements@) =~= names(before) + seq![kv]);
                Seq::<Seq<char>>::lemma_to_set_insert_commutes(names(before), kv);
                assert forall|p: Seq<char>|
                    #[trigger] pairs_upto(rows, cols, i as int, j + 1).contains(p) <==> pairs_upto(
                        rows,
                        cols,
                        i as int,
                        j as int,
                    ).insert(kv).contains(p) by {
                    if pairs_upto(rows, cols, i as int, j + 1).contains(p) {
                        let (k, l) = choose|k: int, l: int|
                            #![trigger rows[k], cols[l]]
                            0 <= k < rows.len() && 0 <= l < cols.len() && (k < i || (k == i && l < j
                                + 1)) && p == pair_name(rows[k], cols[l]);
                        if k == i && l == j {
                        } else {
                            assert(pairs_upto(rows, cols, i as int, j as int).contains(p));
                        }
                    }
                    if p == kv {
                        assert(rows[i as int] == e1@[i as int]@);
                        assert(cols[j as int] == e2@[j as int]@);
                    }
                    if pairs_upto(rows, cols, i as int, j as int).contains(p) {
                        let (k, l) = choose|k: int, l: int|
                            #![trigger rows[k], cols[l]]
                            0 <= k < rows.len() && 0 <= l < cols.len() && (k < i || (k == i && l < j))
                                && p == pair_name(rows[k], cols[l]);
                    }
                }
                assert(names(elements@).to_set() =~= pairs_upto(rows, cols, i as int, j + 1));
            }
            j = j + 1;
        }
        proof {
            assert forall|p: Seq<char>|
                #[trigger] pairs_upto(rows, cols, i as int, cols.len() as int).contains(p)
                    <==> pairs_upto(rows, cols, i + 1, 0).contains(p) by {
                if pairs_upto(rows, cols, i as int, cols.len() as int).contains(p) {
                    let (k, l) = choose|k: int, l: int|
                        #![trigger rows[k], cols[l]]
                        0 <= k < rows.len() && 0 <= l < cols.len() && (k < i || (k == i && l
                            < cols.len())) && p == pair_name(rows[k], cols[l]);
                }
                if pairs_upto(rows, cols, i + 1, 0).contains(p) {
                    let (k, l) = choose|k: int, l: int|
                        #![trigger rows[k], cols[l]]
                        0 <= k < rows.len() && 0 <= l < cols.len() && (k < i + 1 || (k == i + 1 && l
                            < 0)) && p == pair_name(rows[k], cols[l]);
                }
            }
            assert(pairs_upto(rows, cols, i as int, cols.len() as int) =~= pairs_upto(
                rows,
                cols,
                i + 1,
                0,
            ));
        }
        i = i + 1;
    }
    let universe = Subset::from_strings(elements.as_slice());
    proof {
        let pr = product_space(sa1.space(), sa2.space());
        let pu = pairs_upto(rows, cols, rows.len() as int, 0);
        assert forall|p: Seq<char>| pu.contains(p) <==> pr.contains(p) by {
            if pu.contains(p) {
                let (k, l) = choose|k: int, l: int|
                    #![trigger rows[k], cols[l]]
                    0 <= k < rows.len() && 0 <= l < cols.len() && (k < rows.len() || (k
                        == rows.len() && l < 0)) && p == pair_name(rows[k], cols[l]);
                assert(sa1.space().contains(rows[k]));
                assert(sa2.space().contains(cols[l]));
            }
            if pr.contains(p) {
                let (x, y) = choose|x: Seq<char>, y: Seq<char>|
                    sa1.space().contains(x) && sa2.space().contains(y) && p == pair_name(x, y);
                let k = choose|k: int| 0 <= k < rows.len() && rows[k] == x;
                let l = choose|l: int| 0 <= l < cols.len() && cols[l] == y;
                assert(pair_name(rows[k], cols[l]) == p);
            }
        }
        assert(universe@ =~= pr);
    }
    proof {
        crate::meaning::law_product_space_members(sa1.space(), sa2.space());
    }
    SigmaAlgebra::power_set(universe)
}

} // verus!
