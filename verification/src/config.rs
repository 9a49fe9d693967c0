//! Configuration of a run: what is read, how it is partitioned and where it goes.

use vstd::prelude::*;
use crate::binary64::Binary64;
use crate::error::ConfigValidationError;
use crate::manifest::copy_strings;
use crate::nonzero::{NonZeroU64, NonZeroUsize};
use crate::text::{blank, is_blank, same_text};

verus! {

/// A checked configuration.
#[derive(Debug, PartialEq, Eq)]
pub struct Config {
    pub dataset: DatasetConfig,
    pub partitioning: PartitioningConfig,
    pub statistics: StatisticsConfig,
    pub storage: StorageConfig,
    pub output: OutputConfig,
    pub job: JobConfig,
    pub join: Option<JoinConfig>,
    pub resources: ResourceConfig,
}

/// Two configurations say the same.
pub open spec fn same_config(a: Config, b: Config) -> bool {
    &&& a.dataset == b.dataset
    &&& a.partitioning.key_columns@ == b.partitioning.key_columns@
    &&& a.partitioning == (PartitioningConfig {
        key_columns: a.partitioning.key_columns,
        ..b.partitioning
    })
    &&& a.statistics == b.statistics
    &&& a.storage == b.storage
    &&& a.output == b.output
    &&& a.job == b.job
    &&& match (a.join, b.join) {
        (Some(x), Some(y)) => x.join_keys@ == y.join_keys@ && x == (JoinConfig {
            join_keys: x.join_keys,
            ..y
        }),
        (None, None) => true,
        _ => false,
    }
    &&& a.resources == b.resources
}

impl Clone for Config {
    fn clone(&self) -> (copy: Self)
        ensures
            same_config(copy, *self),
    {
        Config {
            dataset: self.dataset.clone(),
            partitioning: self.partitioning.clone(),
            statistics: self.statistics,
            storage: self.storage,
            output: self.output.clone(),
            job: self.job,
            join: match &self.join {
                Some(join) => Some(join.clone()),
                None => None,
            },
            resources: self.resources,
        }
    }
}

/// The dataset that is read.
#[derive(Debug, PartialEq, Eq)]
pub struct DatasetConfig {
    pub input: String,
    pub input_format: DatasetFormat,
}

impl Clone for DatasetConfig {
    fn clone(&self) -> (copy: Self)
        ensures
            copy == *self,
    {
        DatasetConfig { input: self.input.clone(), input_format: self.input_format }
    }
}

/// File format of a dataset.
#[derive(Debug, Clone, Copy, PartialEq, Eq, Structural)]
pub enum DatasetFormat {
    Parquet,
    Csv,
}

/// How the rows are partitioned.
#[derive(Debug, PartialEq, Eq)]
pub struct PartitioningConfig {
    pub key_columns: Vec<String>,
    pub min_partitions: NonZeroUsize,
    pub target_partition_size_mb: NonZeroU64,
    pub max_partitions: NonZeroUsize,
    pub strategy: PartitioningStrategy,
    pub normal_key_assignment: NormalKeyAssignment,
    pub heavy_key_alpha: Binary64,
    pub force_rewrite: bool,
    pub no_op_max_imbalance_ratio: Binary64,
    pub seed: u64,
}

impl Clone for PartitioningConfig {
    fn clone(&self) -> (copy: Self)
        ensures
            copy.key_columns@ == self.key_columns@,
            copy == (PartitioningConfig { key_columns: copy.key_columns, ..*self }),
    {
        PartitioningConfig {
            key_columns: copy_strings(&self.key_columns),
            min_partitions: self.min_partitions,
            target_partition_size_mb: self.target_partition_size_mb,
            max_partitions: self.max_partitions,
            strategy: self.strategy,
            normal_key_assignment: self.normal_key_assignment,
            heavy_key_alpha: self.heavy_key_alpha,
            force_rewrite: self.force_rewrite,
            no_op_max_imbalance_ratio: self.no_op_max_imbalance_ratio,
            seed: self.seed,
        }
    }
}

/// How key frequencies are counted.
#[derive(Debug, Clone, Copy, PartialEq, Eq)]
pub struct StatisticsConfig {
    pub heavy_hitter_mode: HeavyHitterMode,
    pub approximate_capacity: NonZeroUsize,
}

/// Sizes of files.
#[derive(Debug, Clone, Copy, PartialEq, Eq)]
pub struct StorageConfig {
    pub target_file_size_mb: NonZeroU64,
    pub min_file_size_mb: NonZeroU64,
}

/// Whether all keys are counted or a bounded summary is kept.
#[derive(Debug, Clone, Copy, PartialEq, Eq, Structural)]
pub enum HeavyHitterMode {
    Exact,
    Approximate,
}

/// Where the rows go and which technical columns go with them.
#[derive(Debug, PartialEq, Eq)]
pub struct OutputConfig {
    pub path: String,
    pub format: DatasetFormat,
    pub include_technical_columns: bool,
    pub partition_column: String,
    pub salt_column: String,
    pub heavy_key_column: String,
}

impl Clone for OutputConfig {
    fn clone(&self) -> (copy: Self)
        ensures
            copy == *self,
    {
        OutputConfig {
            path: self.path.clone(),
            format: self.format,
            include_technical_columns: self.include_technical_columns,
            partition_column: self.partition_column.clone(),
            salt_column: self.salt_column.clone(),
            heavy_key_column: self.heavy_key_column.clone(),
        }
    }
}

/// Partitioning method.
#[derive(Debug, Clone, Copy, PartialEq, Eq, Structural)]
pub enum PartitioningStrategy {
    AdaptiveHashSalt,
    FileSizeBalancing,
}

/// How keys that are not heavy get their partition.
#[derive(Debug, Clone, Copy, PartialEq, Eq, Structural)]
pub enum NormalKeyAssignment {
    Hash,
    LoadAware,
}

/// The job that reads the rows afterwards.
#[derive(Debug, Clone, Copy, PartialEq, Eq, Structural)]
pub struct JobConfig {
    pub job_type: JobType,
    pub downstream_engine: DownstreamEngine,
}

/// The other side of a join.
#[derive(Debug, PartialEq, Eq)]
pub struct JoinConfig {
    pub left_input: String,
    pub right_input: String,
    pub join_keys: Vec<String>,
    pub right_side_mode: RightSideMode,
    pub broadcast_threshold_mb: u64,
}

impl Clone for JoinConfig {
    fn clone(&self) -> (copy: Self)
        ensures
            copy.join_keys@ == self.join_keys@,
            copy == (JoinConfig { join_keys: copy.join_keys, ..*self }),
    {
        JoinConfig {
            left_input: self.left_input.clone(),
            right_input: self.right_input.clone(),
            join_keys: copy_strings(&self.join_keys),
            right_side_mode: self.right_side_mode,
            broadcast_threshold_mb: self.broadcast_threshold_mb,
        }
    }
}

/// Whether the right side of a join may be broadcast.
#[derive(Debug, Clone, Copy, PartialEq, Eq, Structural)]
pub enum RightSideMode {
    BroadcastIfSmall,
    Shuffle,
}

/// Kind of job.
#[derive(Debug, Clone, Copy, PartialEq, Eq, Structural)]
pub enum JobType {
    Scan,
    GroupBy,
    Join,
    Filter,
    Generic,
}

/// Engine that runs the job.
#[derive(Debug, Clone, Copy, PartialEq, Eq, Structural)]
pub enum DownstreamEngine {
    Spark,
    Generic,
}

/// Limits of the machine.
#[derive(Debug, Clone, Copy, PartialEq, Eq, Structural)]
pub struct ResourceConfig {
    pub local_threads: usize,
    pub memory_limit_mb: u64,
    pub fail_on_memory_limit: bool,
}

/// A configuration as it is written down, before it is checked.
#[derive(Debug)]
pub struct RawConfig {
    pub dataset: RawDatasetConfig,
    pub partitioning: RawPartitioningConfig,
    pub statistics: Option<RawStatisticsConfig>,
    pub storage: Option<RawStorageConfig>,
    pub output: Option<RawOutputConfig>,
    pub job: JobConfig,
    pub join: Option<RawJoinConfig>,
    pub resources: RawResourceConfig,
}

/// The `dataset` section.
#[derive(Debug)]
pub struct RawDatasetConfig {
    pub input: String,
    pub output: Option<String>,
    pub format: Option<DatasetFormat>,
    pub input_format: Option<DatasetFormat>,
}

/// The `partitioning` section.
#[derive(Debug)]
pub struct RawPartitioningConfig {
    pub key_columns: Vec<String>,
    pub min_partitions: Option<usize>,
    pub target_partition_size_mb: u64,
    pub max_partitions: usize,
    pub strategy: String,
    pub normal_key_assignment: Option<NormalKeyAssignment>,
    pub heavy_key_alpha: Binary64,
    pub force_rewrite: Option<bool>,
    pub no_op_max_imbalance_ratio: Option<Binary64>,
    pub seed: u64,
}

/// The `statistics` section.
#[derive(Debug, Clone, Copy)]
pub struct RawStatisticsConfig {
    pub heavy_hitter_mode: Option<HeavyHitterMode>,
    pub approximate_capacity: Option<usize>,
}

/// The `storage` section.
#[derive(Debug, Clone, Copy)]
pub struct RawStorageConfig {
    pub target_file_size_mb: Option<u64>,
    pub min_file_size_mb: Option<u64>,
}

/// The `output` section.
#[derive(Debug)]
pub struct RawOutputConfig {
    pub path: Option<String>,
    pub format: Option<DatasetFormat>,
    pub include_technical_columns: Option<bool>,
    pub partition_column: Option<String>,
    pub salt_column: Option<String>,
    pub heavy_key_column: Option<String>,
}

/// The `join` section.
#[derive(Debug)]
pub struct RawJoinConfig {
    pub left_input: Option<String>,
    pub right_input: String,
    pub join_keys: Vec<String>,
    pub right_side_mode: Option<RightSideMode>,
    pub broadcast_threshold_mb: Option<u64>,
}

/// The `resources` section.
#[derive(Debug, Clone, Copy)]
pub struct RawResourceConfig {
    pub local_threads: usize,
    pub memory_limit_mb: u64,
    pub fail_on_memory_limit: Option<bool>,
}

/// Bit pattern of 1.2, the imbalance that is tolerated by default.
pub const DEFAULT_IMBALANCE_RATIO_BITS: u64 = 0x3FF3_3333_3333_3333;

/// Keys that the approximate summary holds by default.
pub const DEFAULT_APPROXIMATE_CAPACITY: usize = 10_000;

/// File size that is aimed at by default, in MB.
pub const DEFAULT_TARGET_FILE_SIZE_MB: u64 = 128;

/// Size in MB below which a file counts as small by default.
pub const DEFAULT_MIN_FILE_SIZE_MB: u64 = 16;

/// Size in MB up to which the right side of a join is broadcast by default.
pub const DEFAULT_BROADCAST_THRESHOLD_MB: u64 = 10;

/// No string of the sequence holds more than white space.
pub open spec fn all_blank(columns: Seq<String>) -> bool {
    forall|i: int| 0 <= i < columns.len() ==> blank(#[trigger] columns[i]@)
}

fn are_all_blank(columns: &Vec<String>) -> (result: bool)
    ensures
        result == all_blank(columns@),
{
    let mut i: usize = 0;
    while i < columns.len()
        invariant
            i <= columns@.len(),
            forall|j: int| 0 <= j < i ==> blank(#[trigger] columns@[j]@),
        decreases columns.len() - i,
    {
        if !is_blank(&columns[i]) {
            assert(!blank(columns@[i as int]@));
            return false;
        }
        i += 1;
    }
    true
}

/// The value that is given, else the default.
pub open spec fn or_default<T>(given: Option<T>, default: T) -> T {
    match given {
        Some(value) => value,
        None => default,
    }
}

/// The text that is given, else the default.
pub open spec fn text_or(given: Option<String>, default: Seq<char>) -> Seq<char> {
    match given {
        Some(value) => value@,
        None => default,
    }
}

/// The strategy with a name.
pub open spec fn strategy_named(name: Seq<char>) -> Option<PartitioningStrategy> {
    if name == "adaptive_hash_salt"@ {
        Some(PartitioningStrategy::AdaptiveHashSalt)
    } else if name == "file_size_balancing"@ {
        Some(PartitioningStrategy::FileSizeBalancing)
    } else {
        None
    }
}

fn find_strategy(name: &str) -> (strategy: Option<PartitioningStrategy>)
    ensures
        strategy == strategy_named(name@),
{
    if same_text(name, "adaptive_hash_salt") {
        Some(PartitioningStrategy::AdaptiveHashSalt)
    } else if same_text(name, "file_size_balancing") {
        Some(PartitioningStrategy::FileSizeBalancing)
    } else {
        None
    }
}

impl PartitioningStrategy {
    /// The strategy with a name.
    pub fn from_str(value: &str) -> (result: Result<PartitioningStrategy, ConfigValidationError>)
        ensures
            match result {
                Ok(strategy) => strategy_named(value@) == Some(strategy),
                Err(error) => strategy_named(value@) is None && (error matches
                    ConfigValidationError::InvalidStrategyName { value: name } && name@ == value@),
            },
    {
        match find_strategy(value) {
            Some(strategy) => Ok(strategy),
            None => Err(ConfigValidationError::InvalidStrategyName { value: value.to_owned() }),
        }
    }
}

impl Default for OutputConfig {
    fn default() -> (output: Self)
        ensures
            output.path@ == "./data/output_partitioned"@,
            output.format == DatasetFormat::Parquet,
            output.include_technical_columns,
            output.partition_column@ == "_rp_partition_id"@,
            output.salt_column@ == "_rp_salt"@,
            output.heavy_key_column@ == "_rp_is_heavy_key"@,
    {
        OutputConfig {
            path: "./data/output_partitioned".to_owned(),
            format: DatasetFormat::Parquet,
            include_technical_columns: true,
            partition_column: "_rp_partition_id".to_owned(),
            salt_column: "_rp_salt".to_owned(),
            heavy_key_column: "_rp_is_heavy_key".to_owned(),
        }
    }
}

/// The first thing that is wrong with a configuration whose parts were checked
/// one by one.
pub open spec fn config_problem(config: Config) -> Option<ConfigValidationError> {
    if config.dataset.input@.len() == 0 {
        Some(ConfigValidationError::MissingInputPath)
    } else if config.output.path@.len() == 0 {
        Some(ConfigValidationError::MissingOutputPath)
    } else if all_blank(config.partitioning.key_columns@) {
        Some(ConfigValidationError::MissingKeyColumns)
    } else if config.partitioning.min_partitions@ > config.partitioning.max_partitions@ {
        Some(
            ConfigValidationError::MinPartitionsGreaterThanMax {
                min: config.partitioning.min_partitions@,
                max: config.partitioning.max_partitions@,
            },
        )
    } else if !config.partitioning.no_op_max_imbalance_ratio.positive() {
        Some(
            ConfigValidationError::InvalidNoOpMaxImbalanceRatio {
                value: config.partitioning.no_op_max_imbalance_ratio,
            },
        )
    } else {
        None
    }
}

impl Config {
    /// Checks what a change of single fields can break.
    pub fn validate(&self) -> (result: Result<(), ConfigValidationError>)
        ensures
            match result {
                Ok(_) => config_problem(*self) is None,
                Err(error) => config_problem(*self) == Some(error),
            },
    {
        if self.dataset.input.as_str().is_empty() {
            return Err(ConfigValidationError::MissingInputPath);
        }
        if self.output.path.as_str().is_empty() {
            return Err(ConfigValidationError::MissingOutputPath);
        }
        if are_all_blank(&self.partitioning.key_columns) {
            return Err(ConfigValidationError::MissingKeyColumns);
        }
        let min: usize = self.partitioning.min_partitions.get();
        let max: usize = self.partitioning.max_partitions.get();
        if min > max {
            return Err(ConfigValidationError::MinPartitionsGreaterThanMax { min, max });
        }
        if !self.partitioning.no_op_max_imbalance_ratio.is_positive() {
            return Err(
                ConfigValidationError::InvalidNoOpMaxImbalanceRatio {
                    value: self.partitioning.no_op_max_imbalance_ratio,
                },
            );
        }
        Ok(())
    }
}

/// The capacity that the `statistics` section asks for.
pub open spec fn raw_capacity(raw: Option<RawStatisticsConfig>) -> usize {
    match raw {
        Some(section) => or_default(section.approximate_capacity, DEFAULT_APPROXIMATE_CAPACITY),
        None => DEFAULT_APPROXIMATE_CAPACITY,
    }
}

/// The counting mode that the `statistics` section asks for.
pub open spec fn raw_mode(raw: Option<RawStatisticsConfig>) -> HeavyHitterMode {
    match raw {
        Some(section) => or_default(section.heavy_hitter_mode, HeavyHitterMode::Exact),
        None => HeavyHitterMode::Exact,
    }
}

/// Checks the `statistics` section.
pub fn statistics_config(raw: Option<RawStatisticsConfig>) -> (result: Result<
    StatisticsConfig,
    ConfigValidationError,
>)
    ensures
        match result {
            Ok(statistics) => raw_capacity(raw) > 0 && statistics.approximate_capacity@
                == raw_capacity(raw) && statistics.heavy_hitter_mode == raw_mode(raw),
            Err(error) => raw_capacity(raw) == 0 && error
                == (ConfigValidationError::InvalidApproximateCapacity { value: 0 }),
        },
{
    let section = match raw {
        Some(section) => section,
        None => RawStatisticsConfig { heavy_hitter_mode: None, approximate_capacity: None },
    };
    let capacity: usize = section.approximate_capacity.unwrap_or(DEFAULT_APPROXIMATE_CAPACITY);
    match NonZeroUsize::new(capacity) {
        Some(approximate_capacity) => Ok(
            StatisticsConfig {
                heavy_hitter_mode: section.heavy_hitter_mode.unwrap_or(HeavyHitterMode::Exact),
                approximate_capacity,
            },
        ),
        None => Err(ConfigValidationError::InvalidApproximateCapacity { value: capacity }),
    }
}

/// What is wrong with the `join` section.
pub open spec fn join_problem(raw: Option<RawJoinConfig>) -> Option<ConfigValidationError> {
    match raw {
        None => None,
        Some(section) => if blank(section.right_input@) {
            Some(ConfigValidationError::MissingJoinRightInput)
        } else if all_blank(section.join_keys@) {
            Some(ConfigValidationError::MissingJoinKeys)
        } else {
            None
        },
    }
}

/// `join` is what the `join` section says.
pub open spec fn join_follows(
    raw: Option<RawJoinConfig>,
    default_left_input: Seq<char>,
    join: Option<JoinConfig>,
) -> bool {
    match (raw, join) {
        (None, None) => true,
        (Some(section), Some(config)) => {
            &&& config.left_input@ == text_or(section.left_input, default_left_input)
            &&& config.right_input@ == section.right_input@
            &&& config.join_keys == section.join_keys
            &&& config.right_side_mode == or_default(
                section.right_side_mode,
                RightSideMode::BroadcastIfSmall,
            )
            &&& config.broadcast_threshold_mb == or_default(
                section.broadcast_threshold_mb,
                DEFAULT_BROADCAST_THRESHOLD_MB,
            )
        },
        _ => false,
    }
}

/// Checks the `join` section.
pub fn join_config(raw: Option<RawJoinConfig>, default_left_input: &str) -> (result: Result<
    Option<JoinConfig>,
    ConfigValidationError,
>)
    ensures
        match result {
            Ok(join) => join_problem(raw) is None && join_follows(raw, default_left_input@, join),
            Err(error) => join_problem(raw) == Some(error),
        },
{
    match raw {
        None => Ok(None),
        Some(section) => {
            if is_blank(&section.right_input) {
                return Err(ConfigValidationError::MissingJoinRightInput);
            }
            if are_all_blank(&section.join_keys) {
                return Err(ConfigValidationError::MissingJoinKeys);
            }
            let left_input = match section.left_input {
                Some(path) => path,
                None => default_left_input.to_owned(),
            };
            Ok(
                Some(
                    JoinConfig {
                        left_input,
                        right_input: section.right_input,
                        join_keys: section.join_keys,
                        right_side_mode: section.right_side_mode.unwrap_or(
                            RightSideMode::BroadcastIfSmall,
                        ),
                        broadcast_threshold_mb: section.broadcast_threshold_mb.unwrap_or(
                            DEFAULT_BROADCAST_THRESHOLD_MB,
                        ),
                    },
                ),
            )
        },
    }
}

/// The file size that the `storage` section aims at.
pub open spec fn raw_target_file_size(raw: Option<RawStorageConfig>) -> u64 {
    match raw {
        Some(section) => or_default(section.target_file_size_mb, DEFAULT_TARGET_FILE_SIZE_MB),
        None => DEFAULT_TARGET_FILE_SIZE_MB,
    }
}

/// The size below which the `storage` section calls a file small.
pub open spec fn raw_min_file_size(raw: Option<RawStorageConfig>) -> u64 {
    match raw {
        Some(section) => or_default(section.min_file_size_mb, DEFAULT_MIN_FILE_SIZE_MB),
        None => DEFAULT_MIN_FILE_SIZE_MB,
    }
}

/// What is wrong with the `storage` section.
pub open spec fn storage_problem(raw: Option<RawStorageConfig>) -> Option<ConfigValidationError> {
    let target = raw_target_file_size(raw);
    let min = raw_min_file_size(raw);
    if target == 0 {
        Some(ConfigValidationError::InvalidTargetFileSize { value: target })
    } else if min == 0 {
        Some(ConfigValidationError::InvalidMinFileSize { value: min })
    } else if min > target {
        Some(ConfigValidationError::MinFileSizeGreaterThanTarget { min, target })
    } else {
        None
    }
}

/// Checks the `storage` section.
pub fn storage_config(raw: Option<RawStorageConfig>) -> (result: Result<
    StorageConfig,
    ConfigValidationError,
>)
    ensures
        match result {
            Ok(storage) => storage_problem(raw) is None && storage.target_file_size_mb@
                == raw_target_file_size(raw) && storage.min_file_size_mb@ == raw_min_file_size(raw),
            Err(error) => storage_problem(raw) == Some(error),
        },
{
    let section = match raw {
        Some(section) => section,
        None => RawStorageConfig { target_file_size_mb: None, min_file_size_mb: None },
    };
    let target: u64 = section.target_file_size_mb.unwrap_or(DEFAULT_TARGET_FILE_SIZE_MB);
    let min: u64 = section.min_file_size_mb.unwrap_or(DEFAULT_MIN_FILE_SIZE_MB);
    let target_file_size_mb = match NonZeroU64::new(target) {
        Some(size) => size,
        None => return Err(ConfigValidationError::InvalidTargetFileSize { value: target }),
    };
    let min_file_size_mb = match NonZeroU64::new(min) {
        Some(size) => size,
        None => return Err(ConfigValidationError::InvalidMinFileSize { value: min }),
    };
    if min > target {
        return Err(ConfigValidationError::MinFileSizeGreaterThanTarget { min, target });
    }
    Ok(StorageConfig { target_file_size_mb, min_file_size_mb })
}

/// The output path: that of the `output` section before that of `dataset`.
pub open spec fn raw_output_path(raw: Option<RawOutputConfig>, legacy_output: Option<String>) -> Option<
    String,
> {
    match raw {
        Some(section) => match section.path {
            Some(path) => Some(path),
            None => legacy_output,
        },
        None => legacy_output,
    }
}

/// The output path is missing or blank.
pub open spec fn output_path_missing(
    raw: Option<RawOutputConfig>,
    legacy_output: Option<String>,
) -> bool {
    match raw_output_path(raw, legacy_output) {
        Some(path) => blank(path@),
        None => true,
    }
}

/// `output` is what the `output` section says, with the older fields of
/// `dataset` and the defaults in the gaps.
pub open spec fn output_follows(
    raw: Option<RawOutputConfig>,
    legacy_output: Option<String>,
    legacy_format: Option<DatasetFormat>,
    output: OutputConfig,
) -> bool {
    &&& raw_output_path(raw, legacy_output) == Some(output.path)
    &&& match raw {
        Some(section) => {
            &&& output.format == or_default(
                section.format,
                or_default(legacy_format, DatasetFormat::Parquet),
            )
            &&& output.include_technical_columns == or_default(
                section.include_technical_columns,
                true,
            )
            &&& output.partition_column@ == text_or(
                section.partition_column,
                "_rp_partition_id"@,
            )
            &&& output.salt_column@ == text_or(section.salt_column, "_rp_salt"@)
            &&& output.heavy_key_column@ == text_or(section.heavy_key_column, "_rp_is_heavy_key"@)
        },
        None => {
            &&& output.format == or_default(legacy_format, DatasetFormat::Parquet)
            &&& output.include_technical_columns
            &&& output.partition_column@ == "_rp_partition_id"@
            &&& output.salt_column@ == "_rp_salt"@
            &&& output.heavy_key_column@ == "_rp_is_heavy_key"@
        },
    }
}

fn string_or(given: Option<String>, default: String) -> (s: String)
    ensures
        s@ == text_or(given, default@),
{
    match given {
        Some(value) => value,
        None => default,
    }
}

/// Checks the `output` section.
pub fn output_config(
    raw: Option<RawOutputConfig>,
    legacy_dataset_output: Option<String>,
    legacy_dataset_format: Option<DatasetFormat>,
) -> (result: Result<OutputConfig, ConfigValidationError>)
    ensures
        match result {
            Ok(output) => !output_path_missing(raw, legacy_dataset_output) && output_follows(
                raw,
                legacy_dataset_output,
                legacy_dataset_format,
                output,
            ),
            Err(error) => output_path_missing(raw, legacy_dataset_output) && error
                == ConfigValidationError::MissingOutputPath,
        },
{
    let defaults = OutputConfig::default();
    let legacy_format = match legacy_dataset_format {
        Some(format) => format,
        None => defaults.format,
    };
    match raw {
        Some(section) => {
            let chosen = match section.path {
                Some(path) => Some(path),
                None => legacy_dataset_output,
            };
            let path = match chosen {
                Some(path) => path,
                None => return Err(ConfigValidationError::MissingOutputPath),
            };
            if is_blank(&path) {
                return Err(ConfigValidationError::MissingOutputPath);
            }
            Ok(
                OutputConfig {
                    path,
                    format: section.format.unwrap_or(legacy_format),
                    include_technical_columns: section.include_technical_columns.unwrap_or(
                        defaults.include_technical_columns,
                    ),
                    partition_column: string_or(
                        section.partition_column,
                        defaults.partition_column,
                    ),
                    salt_column: string_or(section.salt_column, defaults.salt_column),
                    heavy_key_column: string_or(
                        section.heavy_key_column,
                        defaults.heavy_key_column,
                    ),
                },
            )
        },
        None => {
            let path = match legacy_dataset_output {
                Some(path) => path,
                None => return Err(ConfigValidationError::MissingOutputPath),
            };
            if is_blank(&path) {
                return Err(ConfigValidationError::MissingOutputPath);
            }
            Ok(
                OutputConfig {
                    path,
                    format: legacy_format,
                    include_technical_columns: defaults.include_technical_columns,
                    partition_column: defaults.partition_column,
                    salt_column: defaults.salt_column,
                    heavy_key_column: defaults.heavy_key_column,
                },
            )
        },
    }
}

/// The imbalance that the `partitioning` section tolerates.
pub open spec fn raw_imbalance_ratio(raw: RawPartitioningConfig) -> Binary64 {
    or_default(raw.no_op_max_imbalance_ratio, Binary64 { bits: DEFAULT_IMBALANCE_RATIO_BITS })
}

/// What is wrong with the `partitioning` section, its strategy aside.
pub open spec fn partitioning_problem(raw: RawPartitioningConfig) -> Option<ConfigValidationError> {
    let min = or_default(raw.min_partitions, 1);
    if all_blank(raw.key_columns@) {
        Some(ConfigValidationError::MissingKeyColumns)
    } else if raw.target_partition_size_mb == 0 {
        Some(ConfigValidationError::InvalidTargetPartitionSize { value: 0 })
    } else if min == 0 {
        Some(ConfigValidationError::InvalidMinPartitionCount { value: 0 })
    } else if raw.max_partitions == 0 {
        Some(ConfigValidationError::InvalidMaxPartitionCount { value: 0 })
    } else if min > raw.max_partitions {
        Some(ConfigValidationError::MinPartitionsGreaterThanMax { min, max: raw.max_partitions })
    } else if !raw_imbalance_ratio(raw).positive() {
        Some(
            ConfigValidationError::InvalidNoOpMaxImbalanceRatio { value: raw_imbalance_ratio(raw) },
        )
    } else if strategy_named(raw.strategy@) is None {
        Some(ConfigValidationError::InvalidStrategyName { value: raw.strategy })
    } else {
        None
    }
}

/// The first thing that is wrong with a configuration as it is written down.
pub open spec fn raw_problem(raw: RawConfig) -> Option<ConfigValidationError> {
    if blank(raw.dataset.input@) {
        Some(ConfigValidationError::MissingInputPath)
    } else if partitioning_problem(raw.partitioning) is Some {
        partitioning_problem(raw.partitioning)
    } else if raw_capacity(raw.statistics) == 0 {
        Some(ConfigValidationError::InvalidApproximateCapacity { value: 0 })
    } else if storage_problem(raw.storage) is Some {
        storage_problem(raw.storage)
    } else if raw.dataset.input_format is None && raw.dataset.format is None {
        Some(ConfigValidationError::MissingInputFormat)
    } else if output_path_missing(raw.output, raw.dataset.output) {
        Some(ConfigValidationError::MissingOutputPath)
    } else {
        join_problem(raw.join)
    }
}

/// `partitioning` is what the `partitioning` section says.
pub open spec fn partitioning_follows(
    raw: RawPartitioningConfig,
    partitioning: PartitioningConfig,
) -> bool {
    &&& partitioning.key_columns == raw.key_columns
    &&& partitioning.min_partitions@ == or_default(raw.min_partitions, 1)
    &&& partitioning.target_partition_size_mb@ == raw.target_partition_size_mb
    &&& partitioning.max_partitions@ == raw.max_partitions
    &&& strategy_named(raw.strategy@) == Some(partitioning.strategy)
    &&& partitioning.normal_key_assignment == or_default(
        raw.normal_key_assignment,
        NormalKeyAssignment::LoadAware,
    )
    &&& partitioning.heavy_key_alpha == raw.heavy_key_alpha
    &&& partitioning.force_rewrite == or_default(raw.force_rewrite, false)
    &&& partitioning.no_op_max_imbalance_ratio == raw_imbalance_ratio(raw)
    &&& partitioning.seed == raw.seed
}

/// `config` is what is written down, with defaults in the gaps.
pub open spec fn config_follows(raw: RawConfig, config: Config) -> bool {
    &&& config.dataset.input == raw.dataset.input
    &&& config.dataset.input_format == or_default(
        raw.dataset.input_format,
        or_default(raw.dataset.format, DatasetFormat::Parquet),
    )
    &&& partitioning_follows(raw.partitioning, config.partitioning)
    &&& config.statistics.approximate_capacity@ == raw_capacity(raw.statistics)
    &&& config.statistics.heavy_hitter_mode == raw_mode(raw.statistics)
    &&& config.storage.target_file_size_mb@ == raw_target_file_size(raw.storage)
    &&& config.storage.min_file_size_mb@ == raw_min_file_size(raw.storage)
    &&& output_follows(raw.output, raw.dataset.output, raw.dataset.format, config.output)
    &&& config.job == raw.job
    &&& join_follows(raw.join, raw.dataset.input@, config.join)
    &&& config.resources.local_threads == raw.resources.local_threads
    &&& config.resources.memory_limit_mb == raw.resources.memory_limit_mb
    &&& config.resources.fail_on_memory_limit == or_default(
        raw.resources.fail_on_memory_limit,
        false,
    )
}

/// Checks the `partitioning` section.
fn partitioning_config(raw: RawPartitioningConfig) -> (result: Result<
    PartitioningConfig,
    ConfigValidationError,
>)
    ensures
        match result {
            Ok(partitioning) => partitioning_problem(raw) is None && partitioning_follows(
                raw,
                partitioning,
            ),
            Err(error) => partitioning_problem(raw) == Some(error),
        },
{
    if are_all_blank(&raw.key_columns) {
        return Err(ConfigValidationError::MissingKeyColumns);
    }
    let target_partition_size_mb = match NonZeroU64::new(raw.target_partition_size_mb) {
        Some(size) => size,
        None => return Err(
            ConfigValidationError::InvalidTargetPartitionSize {
                value: raw.target_partition_size_mb,
            },
        ),
    };
    let min: usize = raw.min_partitions.unwrap_or(1);
    let min_partitions = match NonZeroUsize::new(min) {
        Some(count) => count,
        None => return Err(ConfigValidationError::InvalidMinPartitionCount { value: min }),
    };
    let max: usize = raw.max_partitions;
    let max_partitions = match NonZeroUsize::new(max) {
        Some(count) => count,
        None => return Err(ConfigValidationError::InvalidMaxPartitionCount { value: max }),
    };
    if min > max {
        return Err(ConfigValidationError::MinPartitionsGreaterThanMax { min, max });
    }
    let ratio = raw.no_op_max_imbalance_ratio.unwrap_or(
        Binary64 { bits: DEFAULT_IMBALANCE_RATIO_BITS },
    );
    if !ratio.is_positive() {
        return Err(ConfigValidationError::InvalidNoOpMaxImbalanceRatio { value: ratio });
    }
    let strategy = match find_strategy(&raw.strategy) {
        Some(strategy) => strategy,
        None => return Err(ConfigValidationError::InvalidStrategyName { value: raw.strategy }),
    };
    Ok(
        PartitioningConfig {
            key_columns: raw.key_columns,
            min_partitions,
            target_partition_size_mb,
            max_partitions,
            strategy,
            normal_key_assignment: raw.normal_key_assignment.unwrap_or(
                NormalKeyAssignment::LoadAware,
            ),
            heavy_key_alpha: raw.heavy_key_alpha,
            force_rewrite: raw.force_rewrite.unwrap_or(false),
            no_op_max_imbalance_ratio: ratio,
            seed: raw.seed,
        },
    )
}

impl TryFrom<RawConfig> for Config {
    type Error = ConfigValidationError;

    /// Checks a configuration as it is written down and fills its gaps.
    fn try_from(raw: RawConfig) -> (result: Result<Self, ConfigValidationError>)
        ensures
            match result {
                Ok(config) => raw_problem(raw) is None && config_follows(raw, config)
                    && config_problem(config) is None,
                Err(error) => raw_problem(raw) == Some(error),
            },
    {
        if is_blank(&raw.dataset.input) {
            return Err(ConfigValidationError::MissingInputPath);
        }
        let partitioning = match partitioning_config(raw.partitioning) {
            Ok(partitioning) => partitioning,
            Err(error) => return Err(error),
        };
        let statistics = match statistics_config(raw.statistics) {
            Ok(statistics) => statistics,
            Err(error) => return Err(error),
        };
        let storage = match storage_config(raw.storage) {
            Ok(storage) => storage,
            Err(error) => return Err(error),
        };
        let input_format = match raw.dataset.input_format {
            Some(format) => format,
            None => match raw.dataset.format {
                Some(format) => format,
                None => return Err(ConfigValidationError::MissingInputFormat),
            },
        };
        let output = match output_config(raw.output, raw.dataset.output, raw.dataset.format) {
            Ok(output) => output,
            Err(error) => return Err(error),
        };
        let join = match join_config(raw.join, &raw.dataset.input) {
            Ok(join) => join,
            Err(error) => return Err(error),
        };
        let config = Config {
            dataset: DatasetConfig { input: raw.dataset.input, input_format },
            partitioning,
            statistics,
            storage,
            output,
            job: raw.job,
            join,
            resources: ResourceConfig {
                local_threads: raw.resources.local_threads,
                memory_limit_mb: raw.resources.memory_limit_mb,
                fail_on_memory_limit: raw.resources.fail_on_memory_limit.unwrap_or(false),
            },
        };
        match config.validate() {
            Ok(_) => Ok(config),
            Err(error) => Err(error),
        }
    }
}

impl vstd::std_specs::convert::TryFromSpecImpl<RawConfig> for Config {
    open spec fn obeys_try_from_spec() -> bool {
        false
    }

    open spec fn try_from_spec(raw: RawConfig) -> Result<Self, ConfigValidationError> {
        arbitrary()
    }
}

/// The limits of a configuration that was accepted make sense: at least one
/// partition, no more at least than at most, partitions and files of some size.
pub proof fn accepted_limits(raw: RawConfig, config: Config)
    requires
        raw_problem(raw) is None,
        config_follows(raw, config),
    ensures
        0 < config.partitioning.min_partitions@ <= config.partitioning.max_partitions@,
        config.partitioning.target_partition_size_mb@ > 0,
        config.statistics.approximate_capacity@ > 0,
        0 < config.storage.min_file_size_mb@ <= config.storage.target_file_size_mb@,
{
}

/// A configuration in the older form, with output and format in the `dataset`
/// section, stays valid: its format is that of the input and of the output.
pub proof fn older_form_accepted(raw: RawConfig, config: Config)
    requires
        raw.output is None,
        raw.dataset.input_format is None,
        raw.dataset.output is Some,
        raw.dataset.format is Some,
        !blank(raw.dataset.output->0@),
        config_follows(raw, config),
    ensures
        !output_path_missing(raw.output, raw.dataset.output),
        config.output.path == raw.dataset.output->0,
        config.output.format == raw.dataset.format->0,
        config.dataset.input_format == raw.dataset.format->0,
{
}

} // verus!
