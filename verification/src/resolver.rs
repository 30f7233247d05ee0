//! Reconciliation after a restart: the search for the longest recorded
//! history that explains the state the store reports.
use crate::model::{effective_state, effective_value, latest_defining_layer,
    lemma_effective_state_by_key, lemma_effective_state_of_nothing, Layer, Model,
    NUMBER_OF_POSSIBLE_KEYS};
use crate::Simulator;
use vstd::prelude::*;

verus! {

/// The state a store reports, as a mapping: of several pairs with one key,
/// the last one counts.
pub open spec fn observed_state(state: Seq<(u8, u8)>) -> Map<u8, u8>
    decreases state.len(),
{
    if state.len() == 0 {
        Map::empty()
    } else {
        observed_state(state.drop_last()).insert(state.last().0, state.last().1)
    }
}

/// Whether the first `n` layers are a history the store may have kept and
/// `observed` is exactly their effective state. A history may end only
/// where a durable layer ends, or be empty.
pub open spec fn explains(layers: Seq<Layer>, n: int, observed: Map<u8, u8>) -> bool {
    &&& 0 <= n <= layers.len()
    &&& n > 0 ==> layers[n - 1].written
    &&& effective_state(layers.take(n)) == observed
}

/// A reported state is empty exactly if no pair was reported.
pub proof fn lemma_observed_state_empty(state: Seq<(u8, u8)>)
    ensures
        observed_state(state) == Map::<u8, u8>::empty() <==> state.len() == 0,
{
    if state.len() > 0 {
        assert(observed_state(state).contains_key(state.last().0));
    }
}

/// Lays a reported state out by key.
fn expected_values(state: &[(u8, u8)]) -> (expected: [Option<u8>; NUMBER_OF_POSSIBLE_KEYS])
    ensures
        forall|key: u8| expected[key as int] == observed_state(state@).get(key),
{
    let mut expected: [Option<u8>; NUMBER_OF_POSSIBLE_KEYS] = [None; NUMBER_OF_POSSIBLE_KEYS];
    let mut i: usize = 0;
    while i < state.len()
        invariant
            i <= state.len(),
            forall|key: u8| expected[key as int] == observed_state(state@.take(i as int)).get(key),
        decreases state.len() - i,
    {
        let (k, v) = state[i];
        expected[k as usize] = Some(v);
        proof {
            let seen = state@.take(i as int + 1);
            assert(seen.drop_last() == state@.take(i as int));
            assert(seen.last() == state@[i as int]);
        }
        i += 1;
    }
    assert(state@.take(i as int) == state@);
    expected
}

/// Compares the effective state of a history, key by key, with a reported
/// state laid out by key.
fn matches_state(model: &Model, expected: &[Option<u8>; NUMBER_OF_POSSIBLE_KEYS]) -> (is_equal:
    bool)
    ensures
        is_equal <==> forall|key: u8|
            #[trigger] effective_value(model@, key) == expected[key as int],
{
    let mut k: usize = 0;
    while k < NUMBER_OF_POSSIBLE_KEYS
        invariant
            k <= NUMBER_OF_POSSIBLE_KEYS,
            forall|key: u8|
                key < k ==> #[trigger] effective_value(model@, key) == expected[key as int],
        decreases NUMBER_OF_POSSIBLE_KEYS - k,
    {
        let key = k as u8;
        let value = match latest_defining_layer(model, key) {
            Some(i) => model[i].values[k].unwrap(),
            None => None,
        };
        if value != expected[k] {
            assert(effective_value(model@, key) != expected[key as int]);
            return false;
        }
        k += 1;
    }
    true
}

impl Simulator {
    /// Finds the longest history the store may have kept whose effective
    /// state is the reported one: the given history cut after a durable
    /// layer, or the empty history. Returns it, or nothing if there is none.
    pub fn attempt_to_reset_model_to_disk_state(model: &Model, state: &[(u8, u8)]) -> (result:
        Option<Model>)
        ensures
            match result {
                Some(kept) => {
                    &&& kept@.len() <= model@.len()
                    &&& kept@ == model@.take(kept@.len() as int)
                    &&& explains(model@, kept@.len() as int, observed_state(state@))
                    &&& forall|n: int|
                        kept@.len() < n <= model@.len() ==> !explains(
                            model@,
                            n,
                            observed_state(state@),
                        )
                },
                None => forall|n: int|
                    0 <= n <= model@.len() ==> !explains(model@, n, observed_state(state@)),
            },
            result matches Some(kept) ==> effective_state(kept@) == observed_state(state@),
            model@.len() == 0 ==> (result is Some <==> state@.len() == 0),
    {
        let mut candidate = model.clone();
        let expected = expected_values(state);
        let ghost observed = observed_state(state@);
        assert(candidate@ == model@);
        assert(candidate@ == model@.take(candidate@.len() as int));
        while candidate.len() > 0
            invariant
                candidate@.len() <= model@.len(),
                candidate@ == model@.take(candidate@.len() as int),
                observed == observed_state(state@),
                forall|key: u8| expected[key as int] == observed.get(key),
                forall|n: int|
                    candidate@.len() < n <= model@.len() ==> !explains(model@, n, observed),
            decreases candidate.len(),
        {
            let newest = candidate.len() - 1;
            if candidate[newest].written {
                proof {
                    lemma_effective_state_by_key(candidate@, observed);
                }
                if matches_state(&candidate, &expected) {
                    return Some(candidate);
                }
            }
            candidate.pop();
            assert(candidate@ == model@.take(candidate@.len() as int));
        }
        proof {
            lemma_effective_state_of_nothing();
            lemma_observed_state_empty(state@);
            assert(model@.take(0) == Seq::<Layer>::empty());
        }
        if state.len() == 0 {
            Some(candidate)
        } else {
            None
        }
    }
}

} // verus!
