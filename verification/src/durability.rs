//! How many layers are durable, and where they lie: durability events make
//! layers durable one at a time, oldest first, so the durable layers are
//! always the first few.
use crate::model::{first_pending, lemma_first_pending_bounds, lemma_mark_durable, mark_durable,
    Layer};
use vstd::prelude::*;

verus! {

/// The number of durable layers.
pub open spec fn durable_count(layers: Seq<Layer>) -> nat
    decreases layers.len(),
{
    if layers.len() == 0 {
        0
    } else {
        durable_count(layers.drop_last()) + if layers.last().written {
            1nat
        } else {
            0nat
        }
    }
}

/// The durable layers are the oldest ones: a layer is durable exactly if
/// its index is below the number of durable layers.
pub open spec fn durable_is_prefix(layers: Seq<Layer>) -> bool {
    forall|i: int|
        0 <= i < layers.len() ==> ((#[trigger] layers[i]).written <==> i < durable_count(layers))
}

/// The history after `n` durability events in a row.
pub open spec fn mark_durable_times(layers: Seq<Layer>, n: nat) -> Seq<Layer>
    decreases n,
{
    if n == 0 {
        layers
    } else {
        mark_durable(mark_durable_times(layers, (n - 1) as nat))
    }
}

/// No more layers are durable than there are layers, and all of them are
/// durable exactly if the count says so.
pub proof fn lemma_durable_count_bounds(layers: Seq<Layer>)
    ensures
        durable_count(layers) <= layers.len(),
        durable_count(layers) == layers.len() <==> forall|i: int|
            0 <= i < layers.len() ==> (#[trigger] layers[i]).written,
    decreases layers.len(),
{
    if layers.len() > 0 {
        let older = layers.drop_last();
        lemma_durable_count_bounds(older);
        if durable_count(layers) == layers.len() {
            assert forall|i: int| 0 <= i < layers.len() implies (#[trigger] layers[i]).written by {
                if i < layers.len() - 1 {
                    assert(older[i].written);
                }
            }
        }
        if forall|i: int| 0 <= i < layers.len() ==> (#[trigger] layers[i]).written {
            assert(layers.last().written);
            assert forall|i: int| 0 <= i < older.len() implies (#[trigger] older[i]).written by {
                assert(layers[i].written);
            }
        }
    }
}

/// Turning one pending layer durable raises the count by one.
pub proof fn lemma_durable_count_after_update(layers: Seq<Layer>, p: int, layer: Layer)
    requires
        0 <= p < layers.len(),
        !layers[p].written,
        layer.written,
    ensures
        durable_count(layers.update(p, layer)) == durable_count(layers) + 1,
    decreases layers.len(),
{
    let updated = layers.update(p, layer);
    if p == layers.len() - 1 {
        assert(updated.drop_last() == layers.drop_last());
    } else {
        assert(updated.drop_last() == layers.drop_last().update(p, layer));
        lemma_durable_count_after_update(layers.drop_last(), p, layer);
    }
}

/// One durability event makes one more layer durable, unless all are
/// already; and if the durable layers were the oldest ones, they still are.
pub proof fn law_marking_once(layers: Seq<Layer>)
    ensures
        mark_durable(layers).len() == layers.len(),
        durable_count(mark_durable(layers)) == if durable_count(layers) < layers.len() {
            durable_count(layers) + 1
        } else {
            durable_count(layers)
        },
        durable_is_prefix(layers) ==> durable_is_prefix(mark_durable(layers)),
{
    let p = first_pending(layers);
    let marked = mark_durable(layers);
    lemma_first_pending_bounds(layers);
    lemma_mark_durable(layers);
    lemma_durable_count_bounds(layers);
    if p < layers.len() {
        lemma_durable_count_after_update(
            layers,
            p,
            Layer { values: layers[p].values, written: true },
        );
        if durable_is_prefix(layers) {
            let c = durable_count(layers) as int;
            if c < p {
                assert(layers[c].written);
            }
            assert(p == c);
            assert forall|i: int| 0 <= i < marked.len() implies ((#[trigger] marked[i]).written
                <==> i < durable_count(marked)) by {
                assert(layers[i].written <==> i < c);
            }
        }
    }
}

/// After any number of durability events in a row, the number of durable
/// layers has grown by the number of events, capped at the number of layers;
/// and if the durable layers were the oldest ones before, they still are.
pub proof fn law_durable_layers_after_marking(layers: Seq<Layer>, n: nat)
    ensures
        mark_durable_times(layers, n).len() == layers.len(),
        durable_count(mark_durable_times(layers, n)) == if durable_count(layers) + n
            <= layers.len() {
            durable_count(layers) + n
        } else {
            layers.len()
        },
        durable_is_prefix(layers) ==> durable_is_prefix(mark_durable_times(layers, n)),
    decreases n,
{
    lemma_durable_count_bounds(layers);
    if n > 0 {
        let earlier = mark_durable_times(layers, (n - 1) as nat);
        law_durable_layers_after_marking(layers, (n - 1) as nat);
        law_marking_once(earlier);
    }
}

/// After any number of durability events on a history that had no durable
/// layer, as many layers are durable as there were events, or all of them
/// if there were more events than layers; and they are the oldest ones.
pub proof fn law_durable_layers_count_the_events(layers: Seq<Layer>, n: nat)
    requires
        durable_count(layers) == 0,
    ensures
        durable_count(mark_durable_times(layers, n)) == if n <= layers.len() {
            n
        } else {
            layers.len()
        },
        durable_is_prefix(mark_durable_times(layers, n)),
{
    lemma_durable_count_bounds(layers);
    assert(durable_is_prefix(layers)) by {
        lemma_no_durable_layer(layers);
    }
    law_durable_layers_after_marking(layers, n);
}

/// Where the count is zero, no layer is durable.
pub proof fn lemma_no_durable_layer(layers: Seq<Layer>)
    requires
        durable_count(layers) == 0,
    ensures
        forall|i: int| 0 <= i < layers.len() ==> !(#[trigger] layers[i]).written,
    decreases layers.len(),
{
    if layers.len() > 0 {
        lemma_no_durable_layer(layers.drop_last());
        assert forall|i: int| 0 <= i < layers.len() implies !(#[trigger] layers[i]).written by {
            if i < layers.len() - 1 {
                assert(layers.drop_last()[i] == layers[i]);
            }
        }
    }
}

/// Recording a batch appends a pending layer: the number of durable layers
/// stays, and if the durable layers were the oldest ones, they still are.
pub proof fn law_recording_keeps_durable_layers(layers: Seq<Layer>)
    requires
        layers.len() > 0,
        !layers.last().written,
    ensures
        durable_count(layers) == durable_count(layers.drop_last()),
        durable_is_prefix(layers.drop_last()) ==> durable_is_prefix(layers),
{
    let older = layers.drop_last();
    lemma_durable_count_bounds(older);
    if durable_is_prefix(older) {
        assert forall|i: int| 0 <= i < layers.len() implies ((#[trigger] layers[i]).written <==> i
            < durable_count(layers)) by {
            if i < older.len() {
                assert(older[i].written <==> i < durable_count(older));
            }
        }
    }
}

/// In a history on which nothing but recording and durability events has
/// happened, starting from the empty one, the durable layers are the oldest
/// ones: the empty history is the base of that.
pub proof fn law_no_layers_no_durable_layers()
    ensures
        durable_count(Seq::<Layer>::empty()) == 0,
        durable_is_prefix(Seq::<Layer>::empty()),
{
}

/// Cutting a history keeps its durable layers the oldest ones.
pub proof fn law_cut_keeps_durable_prefix(layers: Seq<Layer>, n: int)
    requires
        0 <= n <= layers.len(),
        durable_is_prefix(layers),
    ensures
        durable_is_prefix(layers.take(n)),
        durable_count(layers.take(n)) == if durable_count(layers) <= n {
            durable_count(layers) as int
        } else {
            n
        },
    decreases layers.len() - n,
{
    lemma_durable_count_bounds(layers);
    if n == layers.len() {
        assert(layers.take(n) == layers);
    } else {
        law_cut_keeps_durable_prefix(layers, n + 1);
        let longer = layers.take(n + 1);
        assert(longer.drop_last() == layers.take(n));
        assert(longer.last() == layers[n]);
        assert(layers[n].written <==> n < durable_count(layers));
        assert forall|i: int| 0 <= i < n implies ((#[trigger] layers.take(n)[i]).written <==> i
            < durable_count(layers.take(n))) by {
            assert(layers[i].written <==> i < durable_count(layers));
        }
    }
}

} // verus!
