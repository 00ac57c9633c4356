//! Decompositions: the set-level parts of the Lebesgue and Hahn
//! decompositions.

use vstd::prelude::*;
use crate::sigma_algebra::Subset;
use crate::names::names;

verus! {

/// Classification of decomposition purity.
#[derive(Debug, Clone, Copy, PartialEq, Eq)]
pub enum PureType {
    /// Entirely absolutely continuous.
    AbsolutelyContinuous,
    /// Entirely singular.
    Singular,
    /// Both components present.
    Mixed,
    /// Zero measure.
    Zero,
}

impl PureType {
    /// The purity of a decomposition from whether each part has mass.
    pub fn classify(ac_has_mass: bool, sing_has_mass: bool) -> (r: PureType)
        ensures
            ac_has_mass && !sing_has_mass ==> r == PureType::AbsolutelyContinuous,
            !ac_has_mass && sing_has_mass ==> r == PureType::Singular,
            ac_has_mass && sing_has_mass ==> r == PureType::Mixed,
            !ac_has_mass && !sing_has_mass ==> r == PureType::Zero,
    {
        match (ac_has_mass, sing_has_mass) {
            (true, false) => PureType::AbsolutelyContinuous,
            (false, true) => PureType::Singular,
            (true, true) => PureType::Mixed,
            (false, false) => PureType::Zero,
        }
    }
}

/// The elements listed with sign `sign`.
pub open spec fn signed_elements(values: Seq<(String, bool)>, sign: bool) -> Set<Seq<char>> {
    Set::new(
        |e: Seq<char>| exists|i: int| 0 <= i < values.len() && (#[trigger] values[i]).0@ == e && values[i].1 == sign,
    )
}

/// Hahn decomposition of a finite space: a positive set where the signed
/// measure is non-negative and a negative set where it is negative.
#[derive(Debug)]
pub struct HahnDecomposition {
    /// Positive set.
    pub positive: Subset,
    /// Negative set.
    pub negative: Subset,
}

impl Clone for HahnDecomposition {
    fn clone(&self) -> (r: Self)
        ensures
            r.positive@ == self.positive@,
            r.negative@ == self.negative@,
    {
        HahnDecomposition { positive: self.positive.clone(), negative: self.negative.clone() }
    }
}

impl HahnDecomposition {
    /// Split elements by sign: `true` marks a non-negative value, `false` a
    /// negative one.
    pub fn from_signs(values: &[(String, bool)]) -> (r: HahnDecomposition)
        ensures
            r.positive@ == signed_elements(values@, true),
            r.negative@ == signed_elements(values@, false),
    {
        let mut pos: Vec<String> = Vec::new();
        let mut neg: Vec<String> = Vec::new();
        let mut i: usize = 0;
        while i < values.len()
            invariant
                i <= values.len(),
                forall|e: Seq<char>| #[trigger] names(pos@).contains(e) <==> exists|k: int|
                    0 <= k < i && (#[trigger] values@[k]).0@ == e && values@[k].1,
                forall|e: Seq<char>| #[trigger] names(neg@).contains(e) <==> exists|k: int|
                    0 <= k < i && (#[trigger] values@[k]).0@ == e && !values@[k].1,
            decreases values.len() - i,
        {
            let ghost p0 = pos@;
            let ghost n0 = neg@;
            let ghost x = values@[i as int].0@;
            if values[i].1 {
                pos.push(values[i].0.clone());
                assert(names(pos@) =~= names(p0).push(x));
            } else {
                neg.push(values[i].0.clone());
                assert(names(neg@) =~= names(n0).push(x));
            }
            proof {
                assert forall|e: Seq<char>| #[trigger] names(pos@).contains(e) <==> exists|k: int|
                    0 <= k < i + 1 && (#[trigger] values@[k]).0@ == e && values@[k].1 by {
                    if names(p0).contains(e) {
                        let m = choose|m: int| 0 <= m < p0.len() && names(p0)[m] == e;
                        assert(names(pos@)[m] == e);
                    }
                    if names(pos@).contains(e) && !names(p0).contains(e) {
                        assert(values@[i as int].0@ == e);
                    }
                    if values@[i as int].1 && x == e {
                        assert(names(pos@)[pos@.len() - 1] == e);
                    }
                }
                assert forall|e: Seq<char>| #[trigger] names(neg@).contains(e) <==> exists|k: int|
                    0 <= k < i + 1 && (#[trigger] values@[k]).0@ == e && !values@[k].1 by {
                    if names(n0).contains(e) {
                        let m = choose|m: int| 0 <= m < n0.len() && names(n0)[m] == e;
                        assert(names(neg@)[m] == e);
                    }
                    if names(neg@).contains(e) && !names(n0).contains(e) {
                        assert(values@[i as int].0@ == e);
                    }
                    if !values@[i as int].1 && x == e {
                        assert(names(neg@)[neg@.len() - 1] == e);
                    }
                }
            }
            i = i + 1;
        }
        let positive = Subset::from_strings(pos.as_slice());
        let negative = Subset::from_strings(neg.as_slice());
        assert(positive@ =~= signed_elements(values@, true));
        assert(negative@ =~= signed_elements(values@, false));
        HahnDecomposition { positive, negative }
    }
}

} // verus!
