//! The options under which the store is opened for a run of the model.
use crate::Simulator;
use std::collections::HashMap;
use vstd::prelude::*;

verus! {

/// How a column compresses its values.
#[derive(Clone, Copy, Debug, PartialEq, Eq, Structural)]
pub enum CompressionType {
    NoCompression,
    Snappy,
    Lz4,
}

/// What a run varies about the store.
#[derive(Clone, Copy, Debug)]
pub struct Config {
    /// Whether the column is indexed by a B-tree rather than by hash.
    pub btree_index: bool,
    /// The compression of the column.
    pub compression: CompressionType,
}

/// The settings of one column of the store.
#[derive(Clone, Copy, Debug, PartialEq, Eq, Structural)]
pub struct ColumnOptions {
    pub preimage: bool,
    pub uniform: bool,
    pub ref_counted: bool,
    pub compression: CompressionType,
    pub btree_index: bool,
    pub multitree: bool,
    pub append_only: bool,
    pub allow_direct_node_access: bool,
}

/// The settings of the store, but for where it lives on disk.
#[derive(Debug)]
pub struct Options {
    /// One entry for each column.
    pub columns: Vec<ColumnOptions>,
    /// Sync the write-ahead log before a commit counts as done.
    pub sync_wal: bool,
    /// Sync the data files before a log is dropped.
    pub sync_data: bool,
    /// Collect statistics.
    pub stats: bool,
    /// A fixed salt, where the store is not to pick its own.
    pub salt: Option<[u8; 32]>,
    /// For each column that has one, the size from which values are
    /// compressed.
    pub compression_threshold: HashMap<u8, u32>,
    /// Flush the log to the data files on every commit.
    pub always_flush: bool,
    /// Let a background thread of the store do the flushing.
    pub with_background_thread: bool,
}

/// The settings of a column for which nothing was chosen: every switch off
/// and no compression.
pub open spec fn plain_column() -> ColumnOptions {
    ColumnOptions {
        preimage: false,
        uniform: false,
        ref_counted: false,
        compression: CompressionType::NoCompression,
        btree_index: false,
        multitree: false,
        append_only: false,
        allow_direct_node_access: false,
    }
}

/// The column that a run with `config` uses: a plain column with the
/// compression and the index that `config` names.
pub open spec fn configured_column(config: Config) -> ColumnOptions {
    ColumnOptions {
        compression: config.compression,
        btree_index: config.btree_index,
        ..plain_column()
    }
}

/// The store's own default for a column, `parity_db::ColumnOptions::default`,
/// field by field. Not proved: that this default is the plain column, which
/// is what the store's source sets.
#[verifier::external_body]
fn default_column_options() -> (column: ColumnOptions)
    ensures
        column == plain_column(),
{
    let column = parity_db::ColumnOptions::default();
    let compression = match column.compression {
        parity_db::CompressionType::NoCompression => CompressionType::NoCompression,
        parity_db::CompressionType::Snappy => CompressionType::Snappy,
        parity_db::CompressionType::Lz4 => CompressionType::Lz4,
    };
    let parity_db::ColumnOptions { preimage, uniform, ref_counted, btree_index, .. } = column;
    let parity_db::ColumnOptions { multitree, append_only, allow_direct_node_access, .. } = column;
    ColumnOptions {
        preimage, uniform, ref_counted, compression,
        btree_index, multitree, append_only, allow_direct_node_access,
    }
}

impl Simulator {
    /// The options for a run: one column as `config` asks for it, every
    /// write synced to the log and to the data files and flushed at once, no
    /// background thread, no statistics, no fixed salt and no compression
    /// threshold.
    pub fn build_options(config: &Config) -> (options: Options)
        ensures
            options.columns@ == seq![configured_column(*config)],
            options.sync_wal,
            options.sync_data,
            !options.stats,
            options.salt is None,
            options.compression_threshold@ == Map::<u8, u32>::empty(),
            options.always_flush,
            !options.with_background_thread,
    {
        let plain = default_column_options();
        let column = ColumnOptions {
            compression: config.compression,
            btree_index: config.btree_index,
            ..plain
        };
        let mut columns: Vec<ColumnOptions> = Vec::new();
        columns.push(column);
        assert(columns@ == seq![configured_column(*config)]);
        Options {
            columns,
            sync_wal: true,
            sync_data: true,
            stats: false,
            salt: None,
            compression_threshold: HashMap::new(),
            always_flush: true,
            with_background_thread: false,
        }
    }
}

} // verus!
