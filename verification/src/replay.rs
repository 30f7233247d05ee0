//! The reference the model is held against: a plain mapping on which the
//! recorded batches are replayed, the last write to a key winning. The
//! effective state of the model is that mapping.
use crate::model::{batch_entry, effective_state, effective_value, holds,
    lemma_effective_state_by_key, lemma_effective_value_step, lemma_mark_durable,
    lemma_same_values_same_effective_value, mark_durable, Layer};
use vstd::prelude::*;

verus! {

/// A mapping after one operation: the key set to the value, or removed.
pub open spec fn replay_operation(state: Map<u8, u8>, operation: (u8, Option<u8>)) -> Map<u8, u8> {
    match operation.1 {
        Some(value) => state.insert(operation.0, value),
        None => state.remove(operation.0),
    }
}

/// A mapping after the operations of a batch, in their order.
pub open spec fn replay_batch(state: Map<u8, u8>, batch: Seq<(u8, Option<u8>)>) -> Map<u8, u8>
    decreases batch.len(),
{
    if batch.len() == 0 {
        state
    } else {
        replay_operation(replay_batch(state, batch.drop_last()), batch.last())
    }
}

/// The empty mapping after the given batches, in their order.
pub open spec fn replay(batches: Seq<Seq<(u8, Option<u8>)>>) -> Map<u8, u8>
    decreases batches.len(),
{
    if batches.len() == 0 {
        Map::empty()
    } else {
        replay_batch(replay(batches.drop_last()), batches.last())
    }
}

/// `layers` is a history built by recording `batches` one after another,
/// whichever of its layers have become durable since.
pub open spec fn recorded(layers: Seq<Layer>, batches: Seq<Seq<(u8, Option<u8>)>>) -> bool {
    &&& layers.len() == batches.len()
    &&& forall|i: int| 0 <= i < layers.len() ==> holds(#[trigger] layers[i], batches[i])
}

/// After a batch a key holds what the batch's last operation on it left, or
/// what it held before if the batch has none.
pub proof fn lemma_replay_batch_by_key(state: Map<u8, u8>, batch: Seq<(u8, Option<u8>)>, key: u8)
    ensures
        replay_batch(state, batch).get(key) == match batch_entry(batch, key) {
            Some(left) => left,
            None => state.get(key),
        },
    decreases batch.len(),
{
    if batch.len() > 0 {
        lemma_replay_batch_by_key(state, batch.drop_last(), key);
    }
}

/// Recording a batch does to the effective state what replaying the batch
/// does to a plain mapping.
pub proof fn law_recording_replays_the_batch(layers: Seq<Layer>, batch: Seq<(u8, Option<u8>)>)
    requires
        layers.len() > 0,
        holds(layers.last(), batch),
    ensures
        effective_state(layers) == replay_batch(effective_state(layers.drop_last()), batch),
{
    let before = effective_state(layers.drop_last());
    let after = replay_batch(before, batch);
    assert forall|key: u8| #[trigger] effective_value(layers, key) == after.get(key) by {
        lemma_effective_value_step(layers, key);
        lemma_replay_batch_by_key(before, batch, key);
        assert(layers.last().entry(key) == batch_entry(batch, key));
    }
    lemma_effective_state_by_key(layers, after);
}

/// A history built by recording batches, with one more batch recorded on
/// top, is a history built by recording all of them.
pub proof fn law_recording_extends_the_record(
    layers: Seq<Layer>,
    batches: Seq<Seq<(u8, Option<u8>)>>,
    batch: Seq<(u8, Option<u8>)>,
)
    requires
        layers.len() > 0,
        recorded(layers.drop_last(), batches),
        holds(layers.last(), batch),
    ensures
        recorded(layers, batches.push(batch)),
{
    assert forall|i: int| 0 <= i < layers.len() implies holds(
        #[trigger] layers[i],
        batches.push(batch)[i],
    ) by {
        if i < layers.len() - 1 {
            assert(holds(layers.drop_last()[i], batches[i]));
        }
    }
}

/// The effective state of a history built by recording batches is the
/// mapping that replaying the same batches yields, the last write to each
/// key winning across all of them.
pub proof fn law_effective_state_is_replay(layers: Seq<Layer>, batches: Seq<Seq<(u8, Option<u8>)>>)
    requires
        recorded(layers, batches),
    ensures
        effective_state(layers) == replay(batches),
    decreases layers.len(),
{
    if layers.len() == 0 {
        assert(effective_state(layers) =~= Map::<u8, u8>::empty());
    } else {
        assert forall|i: int| 0 <= i < layers.len() - 1 implies holds(
            #[trigger] layers.drop_last()[i],
            batches.drop_last()[i],
        ) by {
            assert(holds(layers[i], batches[i]));
        }
        law_effective_state_is_replay(layers.drop_last(), batches.drop_last());
        assert(holds(layers.last(), batches.last()));
        law_recording_replays_the_batch(layers, batches.last());
    }
}

/// Marking a layer durable changes neither what the history holds of the
/// recorded batches nor its effective state.
pub proof fn law_marking_keeps_the_state(layers: Seq<Layer>, batches: Seq<Seq<(u8, Option<u8>)>>)
    ensures
        effective_state(mark_durable(layers)) == effective_state(layers),
        recorded(layers, batches) ==> recorded(mark_durable(layers), batches),
{
    let marked = mark_durable(layers);
    lemma_mark_durable(layers);
    assert forall|key: u8| #[trigger]
        effective_value(marked, key) == effective_state(layers).get(key) by {
        lemma_same_values_same_effective_value(marked, layers, key);
    }
    lemma_effective_state_by_key(marked, effective_state(layers));
    if recorded(layers, batches) {
        assert forall|i: int| 0 <= i < marked.len() implies holds(
            #[trigger] marked[i],
            batches[i],
        ) by {
            assert(holds(layers[i], batches[i]));
            assert forall|key: u8| #[trigger]
                marked[i].entry(key) == batch_entry(batches[i], key) by {
                assert(layers[i].entry(key) == batch_entry(batches[i], key));
            }
        }
    }
}

} // verus!
