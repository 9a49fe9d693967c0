//! What is accepted as a configuration, stated on what is written down.

use vstd::prelude::*;
use crate::binary64::Binary64;
use crate::cli::{with_arguments, CliArgs};
use crate::config::{
    all_blank, config_follows, config_problem, raw_problem, Config, DatasetFormat, HeavyHitterMode,
    NormalKeyAssignment, PartitioningStrategy, RawConfig, RawPartitioningConfig, RightSideMode,
};
use crate::error::ConfigValidationError;
use crate::text::blank;

verus! {

/// A ratio is above zero and finite exactly if its bits lie between those of zero and
/// those of infinity.
pub proof fn ratios_lie_between_zero_and_infinity(x: Binary64)
    ensures
        x.positive() <==> 0 < x.bits < 0x7FF0_0000_0000_0000,
{
    let field = x.bits as int / 0x10_0000_0000_0000;
    let rest = x.bits as int % 0x10_0000_0000_0000;
    assert(x.bits == field * 0x10_0000_0000_0000 + rest);
    assert(0 <= field < 4096);
}

/// The `partitioning` section can be used: it names a key column, a size, limits that
/// leave at least one number of partitions, a ratio above zero and a known strategy.
pub open spec fn usable_partitioning(raw: RawPartitioningConfig) -> bool {
    &&& exists|i: int| 0 <= i < raw.key_columns@.len() && !blank(#[trigger] raw.key_columns@[i]@)
    &&& raw.target_partition_size_mb > 0
    &&& raw.max_partitions > 0
    &&& raw.min_partitions matches Some(min) ==> 0 < min <= raw.max_partitions
    &&& raw.no_op_max_imbalance_ratio matches Some(ratio) ==> 0 < ratio.bits
        < 0x7FF0_0000_0000_0000
    &&& raw.strategy@ == "adaptive_hash_salt"@ || raw.strategy@ == "file_size_balancing"@
}

/// The other sections can be used: an input and an output are named, the input has a
/// format, files have sizes that go together, a summary holds at least one key, and a
/// join names its right side and a key.
pub open spec fn usable_sections(raw: RawConfig) -> bool {
    &&& !blank(raw.dataset.input@)
    &&& raw.dataset.input_format is Some || raw.dataset.format is Some
    &&& match raw.output {
        Some(section) if section.path is Some => !blank(section.path->0@),
        _ => raw.dataset.output matches Some(path) && !blank(path@),
    }
    &&& raw.statistics matches Some(section) ==> section.approximate_capacity != Some(0usize)
    &&& raw.storage matches Some(section) ==> match (
        section.min_file_size_mb,
        section.target_file_size_mb,
    ) {
        (Some(min), Some(target)) => 0 < min <= target,
        (Some(min), None) => 0 < min <= 128,
        (None, Some(target)) => target >= 16,
        (None, None) => true,
    }
    &&& raw.join matches Some(section) ==> !blank(section.right_input@) && exists|i: int|
        0 <= i < section.join_keys@.len() && !blank(#[trigger] section.join_keys@[i]@)
}

/// A configuration is accepted exactly if each of its sections can be used.
pub proof fn usable_configurations_are_accepted(raw: RawConfig)
    ensures
        raw_problem(raw) is None <==> usable_partitioning(raw.partitioning) && usable_sections(raw),
{
    if let Some(ratio) = raw.partitioning.no_op_max_imbalance_ratio {
        ratios_lie_between_zero_and_infinity(ratio);
    }
    ratios_lie_between_zero_and_infinity(Binary64 { bits: 0x3FF3_3333_3333_3333 });
    some_not_blank(raw.partitioning.key_columns@);
    if let Some(section) = raw.join {
        some_not_blank(section.join_keys@);
    }
}

proof fn some_not_blank(columns: Seq<String>)
    ensures
        !all_blank(columns) <==> exists|i: int|
            0 <= i < columns.len() && !blank(#[trigger] columns[i]@),
{
}

/// A refusal names a fault that is there, and repeats the value at fault.
pub proof fn refusals_name_a_fault(raw: RawConfig, error: ConfigValidationError)
    requires
        raw_problem(raw) == Some(error),
    ensures
        match error {
            ConfigValidationError::MissingInputPath => blank(raw.dataset.input@),
            ConfigValidationError::MissingInputFormat => raw.dataset.input_format is None
                && raw.dataset.format is None,
            ConfigValidationError::MissingOutputPath => match raw.output {
                Some(section) if section.path is Some => blank(section.path->0@),
                _ => raw.dataset.output matches Some(path) ==> blank(path@),
            },
            ConfigValidationError::MissingKeyColumns => forall|i: int|
                0 <= i < raw.partitioning.key_columns@.len() ==> blank(
                    #[trigger] raw.partitioning.key_columns@[i]@,
                ),
            ConfigValidationError::InvalidTargetPartitionSize { value } => value == 0
                && raw.partitioning.target_partition_size_mb == 0,
            ConfigValidationError::InvalidMinPartitionCount { value } => value == 0
                && raw.partitioning.min_partitions == Some(0usize),
            ConfigValidationError::InvalidMaxPartitionCount { value } => value == 0
                && raw.partitioning.max_partitions == 0,
            ConfigValidationError::MinPartitionsGreaterThanMax { min, max } => min > max
                && raw.partitioning.min_partitions == Some(min) && raw.partitioning.max_partitions
                == max,
            ConfigValidationError::InvalidNoOpMaxImbalanceRatio { value } => {
                &&& raw.partitioning.no_op_max_imbalance_ratio == Some(value)
                &&& value.bits == 0 || value.bits >= 0x7FF0_0000_0000_0000
            },
            ConfigValidationError::InvalidApproximateCapacity { value } => value == 0
                && raw.statistics is Some && raw.statistics->0.approximate_capacity == Some(0usize),
            ConfigValidationError::MissingJoinRightInput => raw.join is Some && blank(
                raw.join->0.right_input@,
            ),
            ConfigValidationError::MissingJoinKeys => raw.join is Some && forall|i: int|
                0 <= i < raw.join->0.join_keys@.len() ==> blank(
                    #[trigger] raw.join->0.join_keys@[i]@,
                ),
            ConfigValidationError::InvalidTargetFileSize { value } => value == 0
                && raw.storage is Some && raw.storage->0.target_file_size_mb == Some(0u64),
            ConfigValidationError::InvalidMinFileSize { value } => value == 0
                && raw.storage is Some && raw.storage->0.min_file_size_mb == Some(0u64),
            ConfigValidationError::MinFileSizeGreaterThanTarget { min, target } => {
                &&& min > target
                &&& raw.storage is Some
                &&& raw.storage->0.min_file_size_mb == Some(min) || (
                raw.storage->0.min_file_size_mb is None && min == 16)
                &&& raw.storage->0.target_file_size_mb == Some(target) || (
                raw.storage->0.target_file_size_mb is None && target == 128)
            },
            ConfigValidationError::InvalidStrategyName { value } => value
                == raw.partitioning.strategy && value@ != "adaptive_hash_salt"@ && value@
                != "file_size_balancing"@,
        },
{
    if let Some(ratio) = raw.partitioning.no_op_max_imbalance_ratio {
        ratios_lie_between_zero_and_infinity(ratio);
    }
    ratios_lie_between_zero_and_infinity(Binary64 { bits: 0x3FF3_3333_3333_3333 });
}

/// A value that is written down is the value that counts.
pub proof fn given_values_are_kept(raw: RawConfig, config: Config)
    requires
        config_follows(raw, config),
    ensures
        config.dataset.input == raw.dataset.input,
        raw.dataset.input_format matches Some(format) ==> config.dataset.input_format == format,
        config.partitioning.key_columns == raw.partitioning.key_columns,
        config.partitioning.target_partition_size_mb@ == raw.partitioning.target_partition_size_mb,
        config.partitioning.max_partitions@ == raw.partitioning.max_partitions,
        config.partitioning.heavy_key_alpha == raw.partitioning.heavy_key_alpha,
        config.partitioning.seed == raw.partitioning.seed,
        raw.partitioning.min_partitions matches Some(min) ==> config.partitioning.min_partitions@
            == min,
        raw.partitioning.normal_key_assignment matches Some(assignment) ==>
            config.partitioning.normal_key_assignment == assignment,
        raw.partitioning.force_rewrite matches Some(force) ==> config.partitioning.force_rewrite
            == force,
        raw.partitioning.no_op_max_imbalance_ratio matches Some(ratio) ==>
            config.partitioning.no_op_max_imbalance_ratio == ratio,
        raw.partitioning.strategy@ == "adaptive_hash_salt"@ ==> config.partitioning.strategy
            == PartitioningStrategy::AdaptiveHashSalt,
        raw.partitioning.strategy@ == "file_size_balancing"@ ==> config.partitioning.strategy
            == PartitioningStrategy::FileSizeBalancing,
        raw.statistics matches Some(section) ==> {
            &&& section.heavy_hitter_mode matches Some(mode)
                ==> config.statistics.heavy_hitter_mode == mode
            &&& section.approximate_capacity matches Some(capacity)
                ==> config.statistics.approximate_capacity@ == capacity
        },
        raw.storage matches Some(section) ==> {
            &&& section.target_file_size_mb matches Some(target)
                ==> config.storage.target_file_size_mb@ == target
            &&& section.min_file_size_mb matches Some(min)
                ==> config.storage.min_file_size_mb@ == min
        },
        raw.output matches Some(section) ==> {
            &&& section.path matches Some(path) ==> config.output.path == path
            &&& section.format matches Some(format) ==> config.output.format == format
            &&& section.include_technical_columns matches Some(included)
                ==> config.output.include_technical_columns == included
            &&& section.partition_column matches Some(name)
                ==> config.output.partition_column@ == name@
            &&& section.salt_column matches Some(name) ==> config.output.salt_column@ == name@
            &&& section.heavy_key_column matches Some(name)
                ==> config.output.heavy_key_column@ == name@
        },
        raw.join is Some <==> config.join is Some,
        raw.join matches Some(section) ==> {
            &&& config.join->0.right_input@ == section.right_input@
            &&& config.join->0.join_keys == section.join_keys
            &&& section.left_input matches Some(path) ==> config.join->0.left_input@ == path@
            &&& section.right_side_mode matches Some(mode)
                ==> config.join->0.right_side_mode == mode
            &&& section.broadcast_threshold_mb matches Some(threshold)
                ==> config.join->0.broadcast_threshold_mb == threshold
        },
        config.job == raw.job,
        config.resources.local_threads == raw.resources.local_threads,
        config.resources.memory_limit_mb == raw.resources.memory_limit_mb,
        raw.resources.fail_on_memory_limit matches Some(fail)
            ==> config.resources.fail_on_memory_limit == fail,
{
    reveal_strlit("adaptive_hash_salt");
    reveal_strlit("file_size_balancing");
    if raw.partitioning.strategy@ == "file_size_balancing"@ {
        assert("adaptive_hash_salt"@.len() == 18);
        assert("file_size_balancing"@.len() == 19);
    }
}

/// What is not written down is taken from the input where it can be, and otherwise is
/// one partition at least, a ratio of 1.2, keys placed by load, no rewrite without
/// cause, exact counts or 10000 keys, files of 128 MB that are small below 16 MB,
/// technical columns under names of their own, sides of a join that are broadcast up
/// to 10 MB, and a memory limit that only warns.
pub proof fn gaps_are_filled(raw: RawConfig, config: Config)
    requires
        config_follows(raw, config),
    ensures
        raw.dataset.input_format is None ==> (raw.dataset.format matches Some(format)
            ==> config.dataset.input_format == format),
        raw.partitioning.min_partitions is None ==> config.partitioning.min_partitions@ == 1,
        raw.partitioning.normal_key_assignment is None ==> config.partitioning.normal_key_assignment
            == NormalKeyAssignment::LoadAware,
        raw.partitioning.force_rewrite is None ==> !config.partitioning.force_rewrite,
        raw.partitioning.no_op_max_imbalance_ratio is None ==>
            config.partitioning.no_op_max_imbalance_ratio.bits == 0x3FF3_3333_3333_3333,
        raw.statistics is None || raw.statistics->0.heavy_hitter_mode is None ==>
            config.statistics.heavy_hitter_mode == HeavyHitterMode::Exact,
        raw.statistics is None || raw.statistics->0.approximate_capacity is None ==>
            config.statistics.approximate_capacity@ == 10_000,
        raw.storage is None || raw.storage->0.target_file_size_mb is None ==>
            config.storage.target_file_size_mb@ == 128,
        raw.storage is None || raw.storage->0.min_file_size_mb is None ==>
            config.storage.min_file_size_mb@ == 16,
        raw.output is None || raw.output->0.path is None ==> raw.dataset.output == Some(
            config.output.path,
        ),
        raw.output is None || raw.output->0.format is None ==> match raw.dataset.format {
            Some(format) => config.output.format == format,
            None => config.output.format == DatasetFormat::Parquet,
        },
        raw.output is None || raw.output->0.include_technical_columns is None ==>
            config.output.include_technical_columns,
        raw.output is None || raw.output->0.partition_column is None ==>
            config.output.partition_column@ == "_rp_partition_id"@,
        raw.output is None || raw.output->0.salt_column is None ==> config.output.salt_column@
            == "_rp_salt"@,
        raw.output is None || raw.output->0.heavy_key_column is None ==>
            config.output.heavy_key_column@ == "_rp_is_heavy_key"@,
        raw.join matches Some(section) ==> {
            &&& section.left_input is None ==> config.join->0.left_input@ == raw.dataset.input@
            &&& section.right_side_mode is None ==> config.join->0.right_side_mode
                == RightSideMode::BroadcastIfSmall
            &&& section.broadcast_threshold_mb is None ==> config.join->0.broadcast_threshold_mb
                == 10
        },
        raw.resources.fail_on_memory_limit is None ==> !config.resources.fail_on_memory_limit,
{
}

/// Paths on the command line win over those of the file, and nothing else changes.
pub proof fn arguments_win(args: CliArgs, config: Config)
    ensures
        ({
            let loaded = with_arguments(args, config);
            &&& args.input matches Some(path) ==> loaded.dataset.input == path
            &&& args.input is None ==> loaded.dataset.input == config.dataset.input
            &&& args.output matches Some(path) ==> loaded.output.path == path
            &&& args.output is None ==> loaded.output.path == config.output.path
            &&& loaded.dataset.input_format == config.dataset.input_format
            &&& loaded.output.format == config.output.format
            &&& loaded.output.include_technical_columns
                == config.output.include_technical_columns
            &&& loaded.partitioning == config.partitioning
            &&& loaded.statistics == config.statistics
            &&& loaded.storage == config.storage
            &&& loaded.job == config.job
            &&& loaded.join == config.join
            &&& loaded.resources == config.resources
        }),
{
}

/// A completed configuration is turned down exactly if a path is empty, no key column is
/// named, no number of partitions lies within the limits or the ratio is not above
/// zero; the refusal names a fault that is there.
pub proof fn completed_configurations_are_checked(config: Config)
    ensures
        config_problem(config) is None <==> {
            &&& config.dataset.input@.len() > 0
            &&& config.output.path@.len() > 0
            &&& exists|i: int|
                0 <= i < config.partitioning.key_columns@.len() && !blank(
                    #[trigger] config.partitioning.key_columns@[i]@,
                )
            &&& config.partitioning.min_partitions@ <= config.partitioning.max_partitions@
            &&& 0 < config.partitioning.no_op_max_imbalance_ratio.bits < 0x7FF0_0000_0000_0000
        },
        match config_problem(config) {
            Some(ConfigValidationError::MissingInputPath) => config.dataset.input@.len() == 0,
            Some(ConfigValidationError::MissingOutputPath) => config.output.path@.len() == 0,
            Some(ConfigValidationError::MissingKeyColumns) => forall|i: int|
                0 <= i < config.partitioning.key_columns@.len() ==> blank(
                    #[trigger] config.partitioning.key_columns@[i]@,
                ),
            Some(ConfigValidationError::MinPartitionsGreaterThanMax { min, max }) => min > max
                && min == config.partitioning.min_partitions@ && max
                == config.partitioning.max_partitions@,
            Some(ConfigValidationError::InvalidNoOpMaxImbalanceRatio { value }) => value
                == config.partitioning.no_op_max_imbalance_ratio && (value.bits == 0 || value.bits
                >= 0x7FF0_0000_0000_0000),
            Some(_) => false,
            None => true,
        },
{
    ratios_lie_between_zero_and_infinity(config.partitioning.no_op_max_imbalance_ratio);
    some_not_blank(config.partitioning.key_columns@);
}

} // verus!
