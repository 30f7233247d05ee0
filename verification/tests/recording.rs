use crash_model::model::{latest_defining_layer, Layer, Model, NUMBER_OF_POSSIBLE_KEYS};
use crash_model::Simulator;
use std::collections::HashMap;

fn layer_of(entries: &[(u8, Option<u8>)], written: bool) -> Layer {
    let mut values = [None; NUMBER_OF_POSSIBLE_KEYS];
    for (k, v) in entries {
        values[usize::from(*k)] = Some(*v);
    }
    Layer { values, written }
}

fn effective_map(model: &Model) -> HashMap<u8, u8> {
    let mut map = HashMap::new();
    for (k, v) in Simulator::model_required_content(model) {
        assert_eq!(k.len(), 1);
        assert_eq!(v.len(), 1);
        assert!(map.insert(k[0], v[0]).is_none());
    }
    map
}

#[test]
fn there_are_as_many_keys_as_bytes() {
    assert_eq!(NUMBER_OF_POSSIBLE_KEYS, 256);
}

#[test]
fn recording_appends_one_pending_layer() {
    let mut model: Model = Vec::new();
    Simulator::apply_operations_on_model(&[(5, Some(9)), (7, None)], &mut model);
    assert_eq!(model.len(), 1);
    assert!(!model[0].written);
    for k in 0..NUMBER_OF_POSSIBLE_KEYS {
        let expected = match k {
            5 => Some(Some(9)),
            7 => Some(None),
            _ => None,
        };
        assert_eq!(model[0].values[k], expected);
    }
}

#[test]
fn recording_keeps_the_older_layers() {
    let mut model: Model = Vec::new();
    Simulator::apply_operations_on_model(&[(1, Some(1))], &mut model);
    Simulator::write_first_layer_to_disk(&mut model);
    let before = model.clone();
    Simulator::apply_operations_on_model(&[(2, Some(2))], &mut model);
    assert_eq!(model.len(), 2);
    assert_eq!(model[0], before[0]);
    assert_eq!(model[1], layer_of(&[(2, Some(2))], false));
}

#[test]
fn later_operation_on_a_key_overrides_earlier_one_in_the_batch() {
    let mut model: Model = Vec::new();
    Simulator::apply_operations_on_model(
        &[(4, Some(1)), (4, None), (8, None), (8, Some(3)), (4, Some(2))],
        &mut model,
    );
    assert_eq!(model[0].values[4], Some(Some(2)));
    assert_eq!(model[0].values[8], Some(Some(3)));
}

#[test]
fn recording_an_empty_batch_appends_an_untouched_layer() {
    let mut model: Model = Vec::new();
    Simulator::apply_operations_on_model(&[], &mut model);
    assert_eq!(model.len(), 1);
    assert_eq!(model[0], layer_of(&[], false));
}

#[test]
fn recording_covers_the_first_and_the_last_key() {
    let mut model: Model = Vec::new();
    Simulator::apply_operations_on_model(&[(0, Some(255)), (255, Some(0))], &mut model);
    assert_eq!(model[0].values[0], Some(Some(255)));
    assert_eq!(model[0].values[255], Some(Some(0)));
    assert_eq!(model[0].values[1], None);
    assert_eq!(model[0].values[254], None);
}

#[test]
fn marking_durable_takes_the_oldest_pending_layer_only() {
    let mut model: Model = Vec::new();
    Simulator::apply_operations_on_model(&[(1, Some(1))], &mut model);
    Simulator::apply_operations_on_model(&[(2, Some(2))], &mut model);
    Simulator::apply_operations_on_model(&[(3, Some(3))], &mut model);
    Simulator::write_first_layer_to_disk(&mut model);
    assert_eq!(
        model.iter().map(|layer| layer.written).collect::<Vec<bool>>(),
        vec![true, false, false]
    );
    Simulator::write_first_layer_to_disk(&mut model);
    assert_eq!(
        model.iter().map(|layer| layer.written).collect::<Vec<bool>>(),
        vec![true, true, false]
    );
    assert_eq!(model[0], layer_of(&[(1, Some(1))], true));
    assert_eq!(model[1], layer_of(&[(2, Some(2))], true));
    assert_eq!(model[2], layer_of(&[(3, Some(3))], false));
}

#[test]
fn marking_durable_without_pending_layer_changes_nothing() {
    let mut model: Model = Vec::new();
    Simulator::write_first_layer_to_disk(&mut model);
    assert!(model.is_empty());
    Simulator::apply_operations_on_model(&[(1, Some(1))], &mut model);
    Simulator::write_first_layer_to_disk(&mut model);
    let before = model.clone();
    Simulator::write_first_layer_to_disk(&mut model);
    assert_eq!(model, before);
}

#[test]
fn marking_durable_fills_a_gap_before_later_durable_layers() {
    let mut model: Model =
        vec![layer_of(&[], true), layer_of(&[], false), layer_of(&[], true), layer_of(&[], false)];
    Simulator::write_first_layer_to_disk(&mut model);
    assert_eq!(
        model.iter().map(|layer| layer.written).collect::<Vec<bool>>(),
        vec![true, true, true, false]
    );
}

#[test]
fn durable_layers_count_the_marks_up_to_the_number_of_layers() {
    for layers in 0..5usize {
        for marks in 0..8usize {
            let mut model: Model = Vec::new();
            for i in 0..layers {
                Simulator::apply_operations_on_model(&[(i as u8, Some(1))], &mut model);
            }
            for _ in 0..marks {
                Simulator::write_first_layer_to_disk(&mut model);
            }
            let durable = model.iter().filter(|layer| layer.written).count();
            assert_eq!(durable, marks.min(layers));
            for (i, layer) in model.iter().enumerate() {
                assert_eq!(layer.written, i < durable);
            }
        }
    }
}

#[test]
fn durable_layers_stay_the_oldest_when_recording_and_marking_alternate() {
    let mut model: Model = Vec::new();
    Simulator::write_first_layer_to_disk(&mut model);
    Simulator::apply_operations_on_model(&[(1, Some(1))], &mut model);
    Simulator::apply_operations_on_model(&[(2, Some(2))], &mut model);
    Simulator::write_first_layer_to_disk(&mut model);
    Simulator::apply_operations_on_model(&[(3, None)], &mut model);
    Simulator::write_first_layer_to_disk(&mut model);
    Simulator::apply_operations_on_model(&[(4, Some(4))], &mut model);
    assert_eq!(
        model.iter().map(|layer| layer.written).collect::<Vec<bool>>(),
        vec![true, true, false, false]
    );
}

#[test]
fn effective_state_is_the_replay_of_the_batches() {
    let batches: Vec<Vec<(u8, Option<u8>)>> = vec![
        vec![(1, Some(10)), (2, Some(20)), (3, Some(30))],
        vec![(2, None), (4, Some(40)), (4, Some(41))],
        vec![],
        vec![(1, Some(11)), (3, None), (3, Some(31)), (5, None)],
        vec![(4, None), (2, Some(22)), (255, Some(0)), (0, Some(255))],
    ];
    let mut model: Model = Vec::new();
    let mut reference: HashMap<u8, u8> = HashMap::new();
    assert_eq!(effective_map(&model), reference);
    for (i, batch) in batches.iter().enumerate() {
        Simulator::apply_operations_on_model(batch, &mut model);
        if i % 2 == 1 {
            Simulator::write_first_layer_to_disk(&mut model);
        }
        for (k, v) in batch {
            match v {
                Some(v) => {
                    reference.insert(*k, *v);
                },
                None => {
                    reference.remove(k);
                },
            }
        }
        assert_eq!(effective_map(&model), reference);
    }
    let expected: HashMap<u8, u8> =
        [(0, 255), (1, 11), (2, 22), (3, 31), (255, 0)].into_iter().collect();
    assert_eq!(reference, expected);
}

#[test]
fn the_newest_layer_that_defines_a_key_is_found() {
    let model: Model = vec![
        layer_of(&[(1, Some(1)), (2, Some(2))], true),
        layer_of(&[(2, None)], false),
        layer_of(&[(3, Some(3)), (255, None)], false),
    ];
    assert_eq!(latest_defining_layer(&model, 1), Some(0));
    assert_eq!(latest_defining_layer(&model, 2), Some(1));
    assert_eq!(latest_defining_layer(&model, 3), Some(2));
    assert_eq!(latest_defining_layer(&model, 255), Some(2));
    assert_eq!(latest_defining_layer(&model, 0), None);
    assert_eq!(latest_defining_layer(&model, 4), None);
    assert_eq!(latest_defining_layer(&Vec::new(), 1), None);
}
