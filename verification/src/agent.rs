//! Agents on finite state spaces: the state space as a measurable space, and
//! observations as a map from states to observations that can be checked
//! for measurability.

use vstd::prelude::*;
use vstd::string::StringExecFns;
use crate::names::{names, copy_names};
use crate::sigma_algebra::{Subset, SigmaAlgebra, MeasurableSpace};
use crate::family::{powerset, two_pow, is_sigma_family};
use crate::order::lex_lt;
use crate::mapping::{entries, pairs_map, distinct_sources, preimage_of, lemma_pairs_map, find_source,
    build_mapping, copy_pairs};
use crate::measurable_function::{MeasurableFunction, unmapped_message, not_measurable_message};

verus! {

/// The names of a slice of string slices, in order.
pub open spec fn str_names(s: Seq<&str>) -> Seq<Seq<char>> {
    s.map_values(|x: &str| x@)
}

/// An agent's state space: a named, discrete measurable space.
#[derive(Debug)]
pub struct AgentStateSpace {
    name: String,
    space: MeasurableSpace,
    elements: Vec<String>,
}

impl Clone for AgentStateSpace {
    fn clone(&self) -> (r: Self)
        ensures
            r.name_view() == self.name_view(),
            r.states() == self.states(),
            r.algebra().space() == self.algebra().space(),
            r.algebra().listing() == self.algebra().listing(),
    {
        AgentStateSpace { name: self.name.clone(), space: self.space.clone(), elements: copy_names(&self.elements) }
    }
}

impl AgentStateSpace {
    /// The name, as a spec value.
    pub closed spec fn name_view(self) -> Seq<char> {
        self.name@
    }

    /// The sigma-algebra of the space.
    pub closed spec fn algebra(self) -> SigmaAlgebra {
        self.space.algebra()
    }

    /// The states, in the order they were given.
    pub closed spec fn states(self) -> Seq<Seq<char>> {
        names(self.elements@)
    }

    /// Create a discrete agent state space: every set of states is
    /// measurable.
    pub fn discrete(name: &str, elements: &[&str]) -> (r: AgentStateSpace)
        requires
            str_names(elements@).to_set().len() < 64,
        ensures
            r.name_view() == name@,
            r.states() == str_names(elements@),
            r.algebra().space() == str_names(elements@).to_set(),
            r.algebra().family() == powerset(r.algebra().space()),
            r.algebra().family().len() == two_pow(r.algebra().space().len()),
            is_sigma_family(r.algebra().family(), r.algebra().space()),
    {
        let universal = Subset::from_slice(elements);
        let sa = SigmaAlgebra::power_set(universal);
        let mut v: Vec<String> = Vec::new();
        let mut i: usize = 0;
        while i < elements.len()
            invariant
                i <= elements.len(),
                names(v@) == str_names(elements@).subrange(0, i as int),
            decreases elements.len() - i,
        {
            let x: String = elements[i].to_owned();
            let ghost before = v@;
            v.push(x);
            assert(names(v@) =~= names(before).push(str_names(elements@)[i as int]));
            assert(str_names(elements@).subrange(0, i + 1) =~= str_names(elements@).subrange(
                0,
                i as int,
            ).push(str_names(elements@)[i as int]));
            i = i + 1;
        }
        assert(str_names(elements@).subrange(0, elements.len() as int) =~= str_names(elements@));
        AgentStateSpace { name: name.to_owned(), space: MeasurableSpace::new(sa), elements: v }
    }

    /// The name of the space.
    pub fn name(&self) -> (r: &str)
        ensures
            r@ == self.name_view(),
    {
        self.name.as_str()
    }

    /// The measurable space.
    pub fn measurable_space(&self) -> (r: &MeasurableSpace)
        ensures
            r.algebra() == self.algebra(),
    {
        &self.space
    }

    /// The sigma-algebra.
    pub fn sigma_algebra(&self) -> (r: &SigmaAlgebra)
        ensures
            *r == self.algebra(),
    {
        self.space.sigma_algebra()
    }

    /// The states, in the order they were given.
    pub fn elements(&self) -> (r: &[String])
        ensures
            names(r@) == self.states(),
    {
        self.elements.as_slice()
    }

    /// The universal set of states.
    pub fn universal(&self) -> (r: &Subset)
        ensures
            r@ == self.algebra().space(),
    {
        self.space.universal()
    }
}

/// An observation model: the observation each state produces.
#[derive(Debug)]
pub struct ObservationModel {
    name: String,
    /// State -> observation, each state held once.
    mapping: Vec<(String, String)>,
}

impl Clone for ObservationModel {
    fn clone(&self) -> (r: Self)
        ensures
            r.observations() == self.observations(),
            r.name_view() == self.name_view(),
    {
        proof {
            use_type_invariant(self);
        }
        ObservationModel { name: self.name.clone(), mapping: copy_pairs(&self.mapping) }
    }
}

/// Whether a state with observation map `m` counts as producing `obs`: a
/// state without an observation counts as producing the empty observation.
pub open spec fn produces(m: Map<Seq<char>, Seq<char>>, state: Seq<char>, obs: Seq<char>) -> bool {
    if m.dom().contains(state) {
        m[state] == obs
    } else {
        obs == Seq::<char>::empty()
    }
}

impl ObservationModel {
    #[verifier::type_invariant]
    spec fn one_observation_each(self) -> bool {
        distinct_sources(entries(self.mapping@))
    }

    /// State -> observation.
    pub closed spec fn observations(self) -> Map<Seq<char>, Seq<char>> {
        pairs_map(entries(self.mapping@))
    }

    /// The name, as a spec value.
    pub closed spec fn name_view(self) -> Seq<char> {
        self.name@
    }

    /// An observation model from (state, observation) pairs; for a state
    /// listed twice the last pair counts.
    pub fn new(name: &str, mappings: &[(String, String)]) -> (r: ObservationModel)
        ensures
            r.observations() == pairs_map(entries(mappings@)),
            r.name_view() == name@,
    {
        ObservationModel { name: name.to_owned(), mapping: build_mapping(mappings) }
    }

    /// The observation a state produces, if it has one.
    pub fn observe(&self, state: &str) -> (r: Option<&str>)
        ensures
            r is Some <==> self.observations().dom().contains(state@),
            r matches Some(o) ==> o@ == self.observations()[state@],
    {
        proof {
            use_type_invariant(self);
            lemma_pairs_map(entries(self.mapping@));
        }
        let key: String = state.to_owned();
        match find_source(&self.mapping, &key) {
            Some(i) => Some(self.mapping[i].1.as_str()),
            None => None,
        }
    }

    /// Does `state` produce `observation` (a state without an observation
    /// produces the empty one)?
    pub fn yields(&self, state: &str, observation: &str) -> (r: bool)
        ensures
            r == produces(self.observations(), state@, observation@),
            self.observations().dom().contains(state@) ==> (r <==> self.observations()[state@] == observation@),
            !self.observations().dom().contains(state@) ==> (r <==> observation@.len() == 0),
    {
        proof {
            crate::meaning::law_produces(self.observations(), state@, observation@);
        }
        let target: String = observation.to_owned();
        match self.observe(state) {
            Some(o) => {
                let seen: String = o.to_owned();
                seen == target
            },
            None => {
                let empty: String = String::new();
                target == empty
            },
        }
    }

    /// For each state of `space`, in order, whether it produces
    /// `observation`: the support of the deterministic likelihood
    /// P(observation | state).
    pub fn likelihood_support(&self, observation: &str, space: &AgentStateSpace) -> (r: Vec<(String, bool)>)
        ensures
            r.len() == space.states().len(),
            forall|i: int|
                0 <= i < r.len() ==> (#[trigger] r@[i]).0@ == space.states()[i] && r@[i].1 == produces(
                    self.observations(),
                    space.states()[i],
                    observation@,
                ),
            forall|i: int|
                0 <= i < r.len() ==> (#[trigger] r@[i]).1 == (if self.observations().dom().contains(
                    space.states()[i],
                ) {
                    self.observations()[space.states()[i]] == observation@
                } else {
                    observation@.len() == 0
                }),
    {
        let states = space.elements();
        let mut r: Vec<(String, bool)> = Vec::new();
        let mut i: usize = 0;
        while i < states.len()
            invariant
                names(states@) == space.states(),
                i <= states.len(),
                r.len() == i,
                forall|k: int|
                    0 <= k < i ==> (#[trigger] r@[k]).0@ == space.states()[k] && r@[k].1 == produces(
                        self.observations(),
                        space.states()[k],
                        observation@,
                    ),
            decreases states.len() - i,
        {
            let s = &states[i];
            let b = self.yields(s.as_str(), observation);
            assert(space.states()[i as int] == s@);
            r.push((s.clone(), b));
            i = i + 1;
        }
        proof {
            assert forall|k: int| 0 <= k < r.len() implies (#[trigger] r@[k]).1 == (if self.observations().dom().contains(
                space.states()[k],
            ) {
                self.observations()[space.states()[k]] == observation@
            } else {
                observation@.len() == 0
            }) by {
                crate::meaning::law_produces(self.observations(), space.states()[k], observation@);
            }
        }
        r
    }

    /// The observation model as a measurable function from the state space
    /// to the observation space; it fails as `MeasurableFunction::new` does.
    pub fn as_measurable_function(
        &self,
        state_space: &AgentStateSpace,
        observation_space: &AgentStateSpace,
    ) -> (r: Result<MeasurableFunction, String>)
        ensures
            r is Ok <==> state_space.algebra().space().subset_of(self.observations().dom()) && forall|
                b: Set<Seq<char>>,
            |
                #[trigger] observation_space.algebra().family().contains(b)
                    ==> state_space.algebra().family().contains(preimage_of(self.observations(), b)),
            r matches Ok(f) ==> f.map() == self.observations() && f.name_view() == self.name_view(),
            !state_space.algebra().space().subset_of(self.observations().dom()) ==> exists|x: Seq<char>|
                {
                    &&& state_space.algebra().space().contains(x)
                    &&& !self.observations().dom().contains(x)
                    &&& forall|y: Seq<char>|
                        state_space.algebra().space().contains(y) && !self.observations().dom().contains(
                            y,
                        ) ==> !lex_lt(y, x)
                    &&& r matches Err(e) && e@ == unmapped_message(x)
                },
            state_space.algebra().space().subset_of(self.observations().dom()) && r is Err ==> exists|
                b: Set<Seq<char>>,
            |
                {
                    &&& #[trigger] observation_space.algebra().family().contains(b)
                    &&& !state_space.algebra().family().contains(preimage_of(self.observations(), b))
                    &&& r matches Err(e) && e@ == not_measurable_message(b, preimage_of(self.observations(), b))
                },
    {
        MeasurableFunction::new(
            self.name.as_str(),
            state_space.sigma_algebra(),
            observation_space.sigma_algebra(),
            self.mapping.as_slice(),
        )
    }

    /// The name of the model.
    pub fn name(&self) -> (r: &str)
        ensures
            r@ == self.name_view(),
    {
        self.name.as_str()
    }

    /// The (state, observation) pairs, each state once.
    pub fn mapping(&self) -> (r: &[(String, String)])
        ensures
            pairs_map(entries(r@)) == self.observations(),
            distinct_sources(entries(r@)),
    {
        proof {
            use_type_invariant(self);
        }
        self.mapping.as_slice()
    }
}

} // verus!
