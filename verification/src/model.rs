//! Layers, the model built from them, and the two operations that grow it:
//! recording a batch and marking the oldest pending layer durable.
use crate::Simulator;
use vstd::prelude::*;

verus! {

/// Keys are single bytes, so there are this many of them.
pub const NUMBER_OF_POSSIBLE_KEYS: usize = 256;

/// One batch of operations together with its durability flag.
#[derive(Clone, Copy, Debug, PartialEq, Eq)]
pub struct Layer {
    /// For each key: `None` if the batch did not touch it, `Some(None)` if
    /// the batch removed it, `Some(Some(v))` if the batch set it to `v`.
    pub values: [Option<Option<u8>>; NUMBER_OF_POSSIBLE_KEYS],
    /// True once the layer was explicitly forced durable.
    pub written: bool,
}

/// The recorded history, oldest layer first.
pub type Model = Vec<Layer>;

impl Layer {
    /// What the layer records for `key`.
    pub open spec fn entry(self, key: u8) -> Option<Option<u8>> {
        self.values[key as int]
    }

    /// Whether the layer sets or removes `key`.
    pub open spec fn defines(self, key: u8) -> bool {
        self.entry(key) is Some
    }
}

/// What a batch leaves for `key`: its last operation on that key, if it has
/// one.
pub open spec fn batch_entry(batch: Seq<(u8, Option<u8>)>, key: u8) -> Option<Option<u8>>
    decreases batch.len(),
{
    if batch.len() == 0 {
        None
    } else if batch.last().0 == key {
        Some(batch.last().1)
    } else {
        batch_entry(batch.drop_last(), key)
    }
}

/// `layer` holds, key by key, what `batch` leaves.
pub open spec fn holds(layer: Layer, batch: Seq<(u8, Option<u8>)>) -> bool {
    forall|key: u8| #[trigger] layer.entry(key) == batch_entry(batch, key)
}

/// `layer` is the layer that recording `batch` appends: it holds the batch
/// and is pending.
pub open spec fn records(layer: Layer, batch: Seq<(u8, Option<u8>)>) -> bool {
    holds(layer, batch) && !layer.written
}

/// Index of the newest layer that defines `key`, if any layer does.
pub open spec fn defining_layer(layers: Seq<Layer>, key: u8) -> Option<int>
    decreases layers.len(),
{
    if layers.len() == 0 {
        None
    } else if layers.last().defines(key) {
        Some(layers.len() - 1)
    } else {
        defining_layer(layers.drop_last(), key)
    }
}

/// The value the history gives `key`: what its newest defining layer set,
/// or nothing if that layer removed the key or no layer defines it.
pub open spec fn effective_value(layers: Seq<Layer>, key: u8) -> Option<u8> {
    match defining_layer(layers, key) {
        Some(i) => layers[i].entry(key).unwrap(),
        None => None,
    }
}

/// The effective state of the history: every key that has an effective
/// value, mapped to it.
pub open spec fn effective_state(layers: Seq<Layer>) -> Map<u8, u8> {
    Map::new(
        |key: u8| effective_value(layers, key) is Some,
        |key: u8| effective_value(layers, key).unwrap(),
    )
}

/// The newest defining layer of a key is a layer of the history, it defines
/// the key, and no newer layer does; without one, no layer defines the key.
pub proof fn lemma_defining_layer(layers: Seq<Layer>, key: u8)
    ensures
        match defining_layer(layers, key) {
            Some(i) => {
                &&& 0 <= i < layers.len()
                &&& layers[i].defines(key)
                &&& forall|j: int| i < j < layers.len() ==> !(#[trigger] layers[j]).defines(key)
            },
            None => forall|j: int| 0 <= j < layers.len() ==> !(#[trigger] layers[j]).defines(key),
        },
    decreases layers.len(),
{
    if layers.len() > 0 && !layers.last().defines(key) {
        lemma_defining_layer(layers.drop_last(), key);
        assert forall|j: int| 0 <= j < layers.len() - 1 implies layers[j]
            == layers.drop_last()[j] by {}
    }
}

/// The effective state is a given mapping exactly if, key by key, the
/// effective value is what the mapping holds.
pub proof fn lemma_effective_state_by_key(layers: Seq<Layer>, observed: Map<u8, u8>)
    ensures
        effective_state(layers) == observed <==> forall|key: u8|
            #[trigger] effective_value(layers, key) == observed.get(key),
{
    if forall|key: u8| #[trigger] effective_value(layers, key) == observed.get(key) {
        assert forall|key: u8| #[trigger]
            effective_state(layers).dom().contains(key) == observed.dom().contains(key) by {
            assert(effective_value(layers, key) == observed.get(key));
        }
        assert forall|key: u8| #[trigger]
            effective_state(layers).dom().contains(key) implies effective_state(layers)[key]
            == observed[key] by {
            assert(effective_value(layers, key) == observed.get(key));
        }
        assert(effective_state(layers) =~= observed);
    }
}

/// The empty history has the empty effective state.
pub proof fn lemma_effective_state_of_nothing()
    ensures
        effective_state(Seq::<Layer>::empty()) == Map::<u8, u8>::empty(),
{
    assert(effective_state(Seq::<Layer>::empty()) =~= Map::<u8, u8>::empty());
}

/// The effective value of a key is what the newest layer records for it,
/// or, if that layer leaves the key untouched, the effective value in the
/// history before that layer.
pub proof fn lemma_effective_value_step(layers: Seq<Layer>, key: u8)
    requires
        layers.len() > 0,
    ensures
        effective_value(layers, key) == match layers.last().entry(key) {
            Some(left) => left,
            None => effective_value(layers.drop_last(), key),
        },
{
    if !layers.last().defines(key) {
        lemma_defining_layer(layers.drop_last(), key);
        if let Some(i) = defining_layer(layers.drop_last(), key) {
            assert(layers.drop_last()[i] == layers[i]);
        }
    }
}

/// Histories whose layers record the same, layer by layer, give every key
/// the same effective value.
pub proof fn lemma_same_values_same_effective_value(a: Seq<Layer>, b: Seq<Layer>, key: u8)
    requires
        a.len() == b.len(),
        forall|i: int| 0 <= i < a.len() ==> (#[trigger] a[i]).values == b[i].values,
    ensures
        effective_value(a, key) == effective_value(b, key),
    decreases a.len(),
{
    if a.len() > 0 {
        assert(a.last().values == b.last().values);
        lemma_effective_value_step(a, key);
        lemma_effective_value_step(b, key);
        assert forall|i: int| 0 <= i < a.len() - 1 implies (#[trigger] a.drop_last()[i]).values
            == b.drop_last()[i].values by {
            assert(a[i].values == b[i].values);
        }
        lemma_same_values_same_effective_value(a.drop_last(), b.drop_last(), key);
    }
}

/// Index of the oldest layer that is still pending, or the number of layers
/// if all of them are durable.
pub open spec fn first_pending(layers: Seq<Layer>) -> int
    decreases layers.len(),
{
    if layers.len() == 0 || !layers.first().written {
        0
    } else {
        1 + first_pending(layers.drop_first())
    }
}

/// The history after one durability event: its oldest pending layer has
/// become durable, and nothing else has changed. Without a pending layer the
/// history stays as it is.
pub open spec fn mark_durable(layers: Seq<Layer>) -> Seq<Layer> {
    let p = first_pending(layers);
    if p < layers.len() {
        layers.update(p, Layer { values: layers[p].values, written: true })
    } else {
        layers
    }
}

/// Only durable layers come before the oldest pending one.
pub proof fn lemma_first_pending_bounds(layers: Seq<Layer>)
    ensures
        0 <= first_pending(layers) <= layers.len(),
        forall|j: int| 0 <= j < first_pending(layers) ==> (#[trigger] layers[j]).written,
        first_pending(layers) < layers.len() ==> !layers[first_pending(layers)].written,
    decreases layers.len(),
{
    if layers.len() > 0 && layers.first().written {
        let rest = layers.drop_first();
        lemma_first_pending_bounds(rest);
        assert forall|j: int| 0 <= j < first_pending(layers) implies (
        #[trigger] layers[j]).written by {
            if j > 0 {
                assert(rest[j - 1].written);
            }
        }
        if first_pending(layers) < layers.len() {
            assert(rest[first_pending(rest)] == layers[first_pending(layers)]);
        }
    }
}

/// A durability event keeps the number of layers and what each of them
/// records, and turns exactly the oldest pending layer durable.
pub proof fn lemma_mark_durable(layers: Seq<Layer>)
    ensures
        mark_durable(layers).len() == layers.len(),
        forall|i: int|
            0 <= i < layers.len() ==> {
                &&& (#[trigger] mark_durable(layers)[i]).values == layers[i].values
                &&& mark_durable(layers)[i].written == (layers[i].written || i == first_pending(
                    layers,
                ))
            },
{
    lemma_first_pending_bounds(layers);
}

/// `first_pending` is the one index with only durable layers before it that
/// is pending itself or lies past the end.
pub proof fn lemma_first_pending(layers: Seq<Layer>, p: int)
    requires
        0 <= p <= layers.len(),
        forall|j: int| 0 <= j < p ==> layers[j].written,
        p < layers.len() ==> !layers[p].written,
    ensures
        first_pending(layers) == p,
    decreases layers.len(),
{
    if p > 0 {
        let rest = layers.drop_first();
        assert forall|j: int| 0 <= j < p - 1 implies rest[j].written by {
            assert(rest[j] == layers[j + 1]);
        }
        lemma_first_pending(rest, p - 1);
    }
}

/// Scans the history newest to oldest for the first layer that defines
/// `key`.
pub fn latest_defining_layer(model: &Model, key: u8) -> (found: Option<usize>)
    ensures
        match found {
            Some(i) => {
                &&& defining_layer(model@, key) == Some(i as int)
                &&& i < model@.len()
                &&& model@[i as int].defines(key)
            },
            None => defining_layer(model@, key) is None,
        },
{
    proof {
        lemma_defining_layer(model@, key);
    }
    let mut i: usize = model.len();
    assert(model@.take(i as int) == model@);
    while i > 0
        invariant
            i <= model.len(),
            defining_layer(model@, key) == defining_layer(model@.take(i as int), key),
        decreases i,
    {
        let ghost seen = model@.take(i as int);
        assert(seen.last() == model@[i - 1]);
        assert(seen.drop_last() == model@.take(i - 1));
        i -= 1;
        if model[i].values[key as usize].is_some() {
            return Some(i);
        }
    }
    None
}

impl Simulator {
    /// Records a batch: appends one pending layer that holds, for each key,
    /// the last operation of the batch on it.
    pub fn apply_operations_on_model(operations: &[(u8, Option<u8>)], model: &mut Model)
        ensures
            final(model)@.len() == old(model)@.len() + 1,
            final(model)@.drop_last() == old(model)@,
            records(final(model)@.last(), operations@),
    {
        let mut values: [Option<Option<u8>>; NUMBER_OF_POSSIBLE_KEYS] =
            [None; NUMBER_OF_POSSIBLE_KEYS];
        let mut i: usize = 0;
        while i < operations.len()
            invariant
                i <= operations.len(),
                forall|key: u8| values[key as int] == batch_entry(operations@.take(i as int), key),
            decreases operations.len() - i,
        {
            let (k, v) = operations[i];
            values[k as usize] = Some(v);
            proof {
                let done = operations@.take(i as int + 1);
                assert(done.drop_last() == operations@.take(i as int));
                assert(done.last() == operations@[i as int]);
            }
            i += 1;
        }
        assert(operations@.take(i as int) == operations@);
        let ghost before = model@;
        model.push(Layer { values, written: false });
        assert(model@.drop_last() == before);
    }

    /// Marks the oldest pending layer durable; does nothing if there is
    /// none.
    pub fn write_first_layer_to_disk(model: &mut Model)
        ensures
            final(model)@ == mark_durable(old(model)@),
    {
        let mut i: usize = 0;
        while i < model.len()
            invariant
                model@ == old(model)@,
                i <= model.len(),
                forall|j: int| 0 <= j < i ==> model@[j].written,
            decreases model.len() - i,
        {
            if !model[i].written {
                proof {
                    lemma_first_pending(model@, i as int);
                }
                model[i].written = true;
                return ;
            }
            i += 1;
        }
        proof {
            lemma_first_pending(model@, i as int);
        }
    }
}

} // verus!
