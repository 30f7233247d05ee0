//! Projections of the model: what a store must hold, what it may hold, and
//! which keys it may or may not have lost yet; and the mapping of a model
//! operation to the store's own operations.
use crate::model::{defining_layer, effective_state, effective_value, latest_defining_layer,
    Layer, Model, NUMBER_OF_POSSIBLE_KEYS};
use crate::Simulator;
use vstd::prelude::*;

verus! {

/// A write operation in the vocabulary of the store.
#[derive(Debug, PartialEq, Eq)]
pub enum Operation {
    /// Set a key to a value.
    SetKey(Vec<u8>, Vec<u8>),
    /// Remove a key.
    RemoveKey(Vec<u8>),
}

/// Whether the newest layer that defines `key` removes it and is still
/// pending: the removal may or may not have reached the disk.
pub open spec fn pending_removal(layers: Seq<Layer>, key: u8) -> bool {
    match defining_layer(layers, key) {
        Some(i) => layers[i].entry(key) == Some(None::<u8>) && !layers[i].written,
        None => false,
    }
}

/// The keys below `bound` that have an effective value, each paired with
/// it, in ascending order of the key.
pub open spec fn required_pairs_below(layers: Seq<Layer>, bound: int) -> Seq<(u8, u8)>
    decreases bound,
{
    if bound <= 0 {
        Seq::empty()
    } else {
        let key = (bound - 1) as u8;
        let lower = required_pairs_below(layers, bound - 1);
        match effective_value(layers, key) {
            Some(value) => lower.push((key, value)),
            None => lower,
        }
    }
}

/// Every key that has an effective value, paired with it, in ascending
/// order of the key.
pub open spec fn required_pairs(layers: Seq<Layer>) -> Seq<(u8, u8)> {
    required_pairs_below(layers, NUMBER_OF_POSSIBLE_KEYS as int)
}

/// A pair of key and value as the store holds it: two byte strings of
/// length one.
pub open spec fn pair_bytes(pair: (u8, u8)) -> (Seq<u8>, Seq<u8>) {
    (seq![pair.0], seq![pair.1])
}

/// A key as the store holds it: a byte string of length one.
pub open spec fn key_bytes(key: u8) -> Seq<u8> {
    seq![key]
}

/// What the store must hold: every key with an effective value, paired with
/// it, in ascending order of the key.
pub open spec fn required_content(layers: Seq<Layer>) -> Seq<(Seq<u8>, Seq<u8>)> {
    required_pairs(layers).map_values(|pair: (u8, u8)| pair_bytes(pair))
}

/// What the store may hold. The model draws no line between this and what
/// the store must hold.
pub open spec fn optional_content(layers: Seq<Layer>) -> Seq<(Seq<u8>, Seq<u8>)> {
    required_content(layers)
}

/// The keys below `bound` with a pending removal, in ascending order.
pub open spec fn removed_keys_below(layers: Seq<Layer>, bound: int) -> Seq<u8>
    decreases bound,
{
    if bound <= 0 {
        Seq::empty()
    } else {
        let key = (bound - 1) as u8;
        let lower = removed_keys_below(layers, bound - 1);
        if pending_removal(layers, key) {
            lower.push(key)
        } else {
            lower
        }
    }
}

/// The keys with a pending removal, in ascending order.
pub open spec fn removed_keys(layers: Seq<Layer>) -> Seq<u8> {
    removed_keys_below(layers, NUMBER_OF_POSSIBLE_KEYS as int)
}

/// The keys that the store may or may not have lost yet: those with a
/// pending removal, in ascending order.
pub open spec fn removed_content(layers: Seq<Layer>) -> Seq<Seq<u8>> {
    removed_keys(layers).map_values(|key: u8| key_bytes(key))
}

/// The pairs listed for the keys below a bound have keys below it and are
/// listed by strictly ascending key.
pub proof fn lemma_required_pairs_ascending(layers: Seq<Layer>, bound: int)
    requires
        0 <= bound <= NUMBER_OF_POSSIBLE_KEYS,
    ensures
        forall|i: int|
            0 <= i < required_pairs_below(layers, bound).len() ==> (#[trigger] required_pairs_below(
                layers,
                bound,
            )[i]).0 < bound,
        forall|i: int, j: int|
            0 <= i < j < required_pairs_below(layers, bound).len() ==> (
            #[trigger] required_pairs_below(layers, bound)[i]).0 < (#[trigger] required_pairs_below(
                layers,
                bound,
            )[j]).0,
    decreases bound,
{
    if bound > 0 {
        let pairs = required_pairs_below(layers, bound);
        let lower = required_pairs_below(layers, bound - 1);
        lemma_required_pairs_ascending(layers, bound - 1);
        assert forall|i: int| 0 <= i < pairs.len() implies (#[trigger] pairs[i]).0 < bound by {
            if i < lower.len() {
                assert(pairs[i] == lower[i]);
            }
        }
        assert forall|i: int, j: int| 0 <= i < j < pairs.len() implies (#[trigger] pairs[i]).0 < (
        #[trigger] pairs[j]).0 by {
            assert(pairs[i] == lower[i]);
            if j < lower.len() {
                assert(pairs[j] == lower[j]);
            }
        }
    }
}

/// A pair is listed for the keys below a bound exactly if its key is below
/// the bound and its value is the effective value of the key.
pub proof fn lemma_required_pairs_member(layers: Seq<Layer>, bound: int, key: u8, value: u8)
    requires
        0 <= bound <= NUMBER_OF_POSSIBLE_KEYS,
    ensures
        required_pairs_below(layers, bound).contains((key, value)) <==> key < bound
            && effective_value(layers, key) == Some(value),
    decreases bound,
{
    let pairs = required_pairs_below(layers, bound);
    if bound > 0 {
        let top = (bound - 1) as u8;
        let lower = required_pairs_below(layers, bound - 1);
        lemma_required_pairs_member(layers, bound - 1, key, value);
        if let Some(top_value) = effective_value(layers, top) {
            assert(pairs == lower.push((top, top_value)));
            if pairs.contains((key, value)) {
                let i = choose|i: int| 0 <= i < pairs.len() && pairs[i] == (key, value);
                if i < lower.len() {
                    assert(lower[i] == (key, value));
                    assert(lower.contains((key, value)));
                } else {
                    assert((key, value) == (top, top_value));
                }
            }
            if key < bound && effective_value(layers, key) == Some(value) {
                if key == top {
                    assert(pairs[lower.len() as int] == (key, value));
                } else {
                    assert(lower.contains((key, value)));
                    let i = choose|i: int| 0 <= i < lower.len() && lower[i] == (key, value);
                    assert(pairs[i] == (key, value));
                }
            }
        } else {
            assert(pairs == lower);
        }
    } else {
        assert(pairs.len() == 0);
    }
}

/// The keys listed below a bound are below it and are listed in strictly
/// ascending order.
pub proof fn lemma_removed_keys_ascending(layers: Seq<Layer>, bound: int)
    requires
        0 <= bound <= NUMBER_OF_POSSIBLE_KEYS,
    ensures
        forall|i: int|
            0 <= i < removed_keys_below(layers, bound).len() ==> (#[trigger] removed_keys_below(
                layers,
                bound,
            )[i]) < bound,
        forall|i: int, j: int|
            0 <= i < j < removed_keys_below(layers, bound).len() ==> (#[trigger] removed_keys_below(
                layers,
                bound,
            )[i]) < (#[trigger] removed_keys_below(layers, bound)[j]),
    decreases bound,
{
    if bound > 0 {
        let keys = removed_keys_below(layers, bound);
        let lower = removed_keys_below(layers, bound - 1);
        lemma_removed_keys_ascending(layers, bound - 1);
        assert forall|i: int| 0 <= i < keys.len() implies (#[trigger] keys[i]) < bound by {
            if i < lower.len() {
                assert(keys[i] == lower[i]);
            }
        }
        assert forall|i: int, j: int| 0 <= i < j < keys.len() implies (#[trigger] keys[i]) < (
        #[trigger] keys[j]) by {
            assert(keys[i] == lower[i]);
            if j < lower.len() {
                assert(keys[j] == lower[j]);
            }
        }
    }
}

/// A key is listed below a bound exactly if it is below the bound and has a
/// pending removal.
pub proof fn lemma_removed_keys_member(layers: Seq<Layer>, bound: int, key: u8)
    requires
        0 <= bound <= NUMBER_OF_POSSIBLE_KEYS,
    ensures
        removed_keys_below(layers, bound).contains(key) <==> key < bound && pending_removal(
            layers,
            key,
        ),
    decreases bound,
{
    let keys = removed_keys_below(layers, bound);
    if bound > 0 {
        let top = (bound - 1) as u8;
        let lower = removed_keys_below(layers, bound - 1);
        lemma_removed_keys_member(layers, bound - 1, key);
        if pending_removal(layers, top) {
            assert(keys == lower.push(top));
            if keys.contains(key) {
                let i = choose|i: int| 0 <= i < keys.len() && keys[i] == key;
                if i < lower.len() {
                    assert(lower[i] == key);
                    assert(lower.contains(key));
                } else {
                    assert(key == top);
                }
            }
            if key < bound && pending_removal(layers, key) {
                if key == top {
                    assert(keys[lower.len() as int] == key);
                } else {
                    assert(lower.contains(key));
                    let i = choose|i: int| 0 <= i < lower.len() && lower[i] == key;
                    assert(keys[i] == key);
                }
            }
        } else {
            assert(keys == lower);
        }
    } else {
        assert(keys.len() == 0);
    }
}

/// The required pairs are exactly the pairs of the effective state, and
/// they are listed by strictly ascending key.
pub proof fn law_required_pairs(layers: Seq<Layer>)
    ensures
        forall|key: u8, value: u8|
            #[trigger] required_pairs(layers).contains((key, value)) <==> effective_state(
                layers,
            ).contains_pair(key, value),
        forall|i: int, j: int|
            0 <= i < j < required_pairs(layers).len() ==> (#[trigger] required_pairs(layers)[i]).0
                < (#[trigger] required_pairs(layers)[j]).0,
{
    lemma_required_pairs_ascending(layers, NUMBER_OF_POSSIBLE_KEYS as int);
    assert forall|key: u8, value: u8|
        #[trigger] required_pairs(layers).contains((key, value)) <==> effective_state(
            layers,
        ).contains_pair(key, value) by {
        lemma_required_pairs_member(layers, NUMBER_OF_POSSIBLE_KEYS as int, key, value);
    }
}

/// The removed keys are exactly the keys whose newest defining layer is a
/// removal that is not durable yet, and they are listed in strictly
/// ascending order.
pub proof fn law_removed_keys(layers: Seq<Layer>)
    ensures
        forall|key: u8|
            #[trigger] removed_keys(layers).contains(key) <==> pending_removal(layers, key),
        forall|i: int, j: int|
            0 <= i < j < removed_keys(layers).len() ==> (#[trigger] removed_keys(layers)[i]) < (
            #[trigger] removed_keys(layers)[j]),
{
    lemma_removed_keys_ascending(layers, NUMBER_OF_POSSIBLE_KEYS as int);
    assert forall|key: u8|
        #[trigger] removed_keys(layers).contains(key) <==> pending_removal(layers, key) by {
        lemma_removed_keys_member(layers, NUMBER_OF_POSSIBLE_KEYS as int, key);
    }
}

/// No removed key is the key of a required pair: not among the keys and
/// pairs, and not among the byte strings handed to the store.
pub proof fn law_removed_keys_are_not_required(layers: Seq<Layer>)
    ensures
        forall|key: u8, value: u8|
            removed_keys(layers).contains(key) ==> !(#[trigger] required_pairs(layers).contains(
                (key, value),
            )),
        forall|i: int, j: int|
            0 <= i < removed_content(layers).len() && 0 <= j < required_content(layers).len() ==> (
            #[trigger] removed_content(layers)[i]) != (#[trigger] required_content(layers)[j]).0,
{
    assert forall|key: u8, value: u8| removed_keys(layers).contains(key) implies !(
    #[trigger] required_pairs(layers).contains((key, value))) by {
        lemma_removed_keys_member(layers, NUMBER_OF_POSSIBLE_KEYS as int, key);
        lemma_required_pairs_member(layers, NUMBER_OF_POSSIBLE_KEYS as int, key, value);
    }
    assert forall|i: int, j: int|
        0 <= i < removed_content(layers).len() && 0 <= j < required_content(
            layers,
        ).len() implies (#[trigger] removed_content(layers)[i]) != (#[trigger] required_content(
        layers,
    )[j]).0 by {
        let key = removed_keys(layers)[i];
        let pair = required_pairs(layers)[j];
        assert(removed_keys(layers).contains(key));
        assert(required_pairs(layers).contains((pair.0, pair.1)));
        assert(key != pair.0);
        assert(removed_content(layers)[i] == key_bytes(key));
        assert(required_content(layers)[j] == pair_bytes(pair));
        assert(key_bytes(key)[0] == key);
        assert(pair_bytes(pair).0[0] == pair.0);
    }
}

/// Collects the pairs of key and effective value in ascending order of the
/// key.
fn effective_pairs(model: &Model) -> (content: Vec<(Vec<u8>, Vec<u8>)>)
    ensures
        content.deep_view() == required_content(model@),
{
    let mut content: Vec<(Vec<u8>, Vec<u8>)> = Vec::new();
    let mut k: usize = 0;
    assert(content.deep_view() =~~= required_pairs_below(model@, 0).map_values(
        |pair: (u8, u8)| pair_bytes(pair),
    ));
    while k < NUMBER_OF_POSSIBLE_KEYS
        invariant
            k <= NUMBER_OF_POSSIBLE_KEYS,
            content.deep_view() == required_pairs_below(model@, k as int).map_values(
                |pair: (u8, u8)| pair_bytes(pair),
            ),
        decreases NUMBER_OF_POSSIBLE_KEYS - k,
    {
        let key = k as u8;
        let ghost lower = content.deep_view();
        if let Some(i) = latest_defining_layer(model, key) {
            if let Some(Some(value)) = model[i].values[k] {
                content.push((vec![key], vec![value]));
                assert(content.deep_view() =~~= lower.push(pair_bytes((key, value))));
                assert(lower.push(pair_bytes((key, value))) =~= required_pairs_below(
                    model@,
                    k + 1,
                ).map_values(|pair: (u8, u8)| pair_bytes(pair)));
            }
        }
        k += 1;
    }
    content
}

impl Simulator {
    /// Maps a model operation to the store's operation: a set where a value
    /// is given, a removal where none is. Key and value become byte strings
    /// of length one.
    pub fn map_operation(operation: &(u8, Option<u8>)) -> (mapped: Operation)
        ensures
            match operation.1 {
                Some(v) => mapped matches Operation::SetKey(key, value) && (key@, value@)
                    == pair_bytes((operation.0, v)),
                None => mapped matches Operation::RemoveKey(key) && key@ == key_bytes(operation.0),
            },
    {
        let (k, v) = *operation;
        if let Some(v) = v {
            Operation::SetKey(vec![k], vec![v])
        } else {
            Operation::RemoveKey(vec![k])
        }
    }

    /// What the store must hold: each key that has an effective value, with
    /// that value, in ascending order of the key.
    pub fn model_required_content(model: &Model) -> (content: Vec<(Vec<u8>, Vec<u8>)>)
        ensures
            content.deep_view() == required_content(model@),
    {
        effective_pairs(model)
    }

    /// What the store may hold: the same pairs as it must hold.
    pub fn model_optional_content(model: &Model) -> (content: Vec<(Vec<u8>, Vec<u8>)>)
        ensures
            content.deep_view() == optional_content(model@),
    {
        effective_pairs(model)
    }

    /// The keys whose removal is still pending, in ascending order: the
    /// store may still hold their earlier values.
    pub fn model_removed_content(model: &Model) -> (keys: Vec<Vec<u8>>)
        ensures
            keys.deep_view() == removed_content(model@),
    {
        let mut keys: Vec<Vec<u8>> = Vec::new();
        let mut k: usize = 0;
        assert(keys.deep_view() =~~= removed_keys_below(model@, 0).map_values(
            |key: u8| key_bytes(key),
        ));
        while k < NUMBER_OF_POSSIBLE_KEYS
            invariant
                k <= NUMBER_OF_POSSIBLE_KEYS,
                keys.deep_view() == removed_keys_below(model@, k as int).map_values(
                    |key: u8| key_bytes(key),
                ),
            decreases NUMBER_OF_POSSIBLE_KEYS - k,
        {
            let key = k as u8;
            let ghost lower = keys.deep_view();
            if let Some(i) = latest_defining_layer(model, key) {
                if model[i].values[k].unwrap().is_none() && !model[i].written {
                    keys.push(vec![key]);
                    assert(keys.deep_view() =~~= lower.push(key_bytes(key)));
                    assert(lower.push(key_bytes(key)) =~= removed_keys_below(
                        model@,
                        k + 1,
                    ).map_values(|key: u8| key_bytes(key)));
                }
            }
            k += 1;
        }
        keys
    }
}

} // verus!
