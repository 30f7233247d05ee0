use crash_model::options::{ColumnOptions, CompressionType, Config};
use crash_model::Simulator;

#[test]
fn a_run_syncs_and_flushes_every_write_on_a_single_column() {
    let config = Config { btree_index: false, compression: CompressionType::NoCompression };
    let options = Simulator::build_options(&config);
    assert_eq!(options.columns.len(), 1);
    assert!(options.sync_wal);
    assert!(options.sync_data);
    assert!(!options.stats);
    assert_eq!(options.salt, None);
    assert!(options.compression_threshold.is_empty());
    assert!(options.always_flush);
    assert!(!options.with_background_thread);
}

#[test]
fn the_column_takes_index_and_compression_from_the_config() {
    let choices = [
        (false, CompressionType::NoCompression),
        (true, CompressionType::NoCompression),
        (false, CompressionType::Snappy),
        (true, CompressionType::Snappy),
        (false, CompressionType::Lz4),
        (true, CompressionType::Lz4),
    ];
    for (btree_index, compression) in choices {
        let options = Simulator::build_options(&Config { btree_index, compression });
        assert_eq!(
            options.columns,
            vec![ColumnOptions {
                preimage: false,
                uniform: false,
                ref_counted: false,
                compression,
                btree_index,
                multitree: false,
                append_only: false,
                allow_direct_node_access: false,
            }]
        );
    }
}

#[test]
fn what_the_config_leaves_open_is_the_default_of_the_store() {
    let default = parity_db::ColumnOptions::default();
    let config = Config { btree_index: false, compression: CompressionType::NoCompression };
    let column = Simulator::build_options(&config).columns[0];
    assert_eq!(column.preimage, default.preimage);
    assert_eq!(column.uniform, default.uniform);
    assert_eq!(column.ref_counted, default.ref_counted);
    assert_eq!(column.btree_index, default.btree_index);
    assert_eq!(column.multitree, default.multitree);
    assert_eq!(column.append_only, default.append_only);
    assert_eq!(column.allow_direct_node_access, default.allow_direct_node_access);
    assert_eq!(default.compression, parity_db::CompressionType::NoCompression);
    assert_eq!(column.compression, CompressionType::NoCompression);
}

#[test]
fn the_store_accepts_the_column() {
    for btree_index in [false, true] {
        let config = Config { btree_index, compression: CompressionType::Lz4 };
        let column = Simulator::build_options(&config).columns[0];
        let for_the_store = parity_db::ColumnOptions {
            preimage: column.preimage,
            uniform: column.uniform,
            ref_counted: column.ref_counted,
            compression: parity_db::CompressionType::Lz4,
            btree_index: column.btree_index,
            multitree: column.multitree,
            append_only: column.append_only,
            allow_direct_node_access: column.allow_direct_node_access,
        };
        assert!(for_the_store.is_valid());
    }
}
