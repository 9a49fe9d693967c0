//! Checks of configurations.

use repartitioner::binary64::Binary64;
use repartitioner::config::{
    DatasetFormat, DownstreamEngine, HeavyHitterMode, JobConfig, JobType, NormalKeyAssignment,
    RawConfig, RawDatasetConfig, RawJoinConfig, RawOutputConfig, RawPartitioningConfig,
    RawResourceConfig, RawStatisticsConfig, RawStorageConfig, RightSideMode, PartitioningStrategy,
};
use repartitioner::error::ConfigValidationError;
use repartitioner::Config;
use serde_yaml::Value;

fn text_field(section: &Value, name: &str) -> Option<String> {
    section.get(name).and_then(Value::as_str).map(String::from)
}

fn count_field(section: &Value, name: &str) -> Option<u64> {
    section.get(name).and_then(Value::as_u64)
}

fn flag_field(section: &Value, name: &str) -> Option<bool> {
    section.get(name).and_then(Value::as_bool)
}

fn number_field(section: &Value, name: &str) -> Option<Binary64> {
    section.get(name).and_then(Value::as_f64).map(|number| Binary64::from_bits(number.to_bits()))
}

fn list_field(section: &Value, name: &str) -> Vec<String> {
    section
        .get(name)
        .and_then(Value::as_sequence)
        .map(|items| items.iter().filter_map(Value::as_str).map(String::from).collect())
        .unwrap_or_default()
}

fn format_field(section: &Value, name: &str) -> Option<DatasetFormat> {
    text_field(section, name).map(|format| match format.as_str() {
        "csv" => DatasetFormat::Csv,
        _ => DatasetFormat::Parquet,
    })
}

/// Reads a configuration that is written down in YAML.
fn config_from_yaml(text: &str) -> Result<Config, ConfigValidationError> {
    let document: Value = serde_yaml::from_str(text).expect("yaml should parse");
    let dataset = &document["dataset"];
    let partitioning = &document["partitioning"];
    let job = &document["job"];
    let resources = &document["resources"];
    let raw = RawConfig {
        dataset: RawDatasetConfig {
            input: text_field(dataset, "input").expect("input should be given"),
            output: text_field(dataset, "output"),
            format: format_field(dataset, "format"),
            input_format: format_field(dataset, "input_format"),
        },
        partitioning: RawPartitioningConfig {
            key_columns: list_field(partitioning, "key_columns"),
            min_partitions: count_field(partitioning, "min_partitions").map(|n| n as usize),
            target_partition_size_mb: count_field(partitioning, "target_partition_size_mb")
                .expect("target size should be given"),
            max_partitions: count_field(partitioning, "max_partitions")
                .expect("max partitions should be given") as usize,
            strategy: text_field(partitioning, "strategy").expect("strategy should be given"),
            normal_key_assignment: text_field(partitioning, "normal_key_assignment").map(|mode| {
                match mode.as_str() {
                    "hash" => NormalKeyAssignment::Hash,
                    _ => NormalKeyAssignment::LoadAware,
                }
            }),
            heavy_key_alpha: number_field(partitioning, "heavy_key_alpha")
                .expect("alpha should be given"),
            force_rewrite: flag_field(partitioning, "force_rewrite"),
            no_op_max_imbalance_ratio: number_field(partitioning, "no_op_max_imbalance_ratio"),
            seed: count_field(partitioning, "seed").expect("seed should be given"),
        },
        statistics: document.get("statistics").map(|section| RawStatisticsConfig {
            heavy_hitter_mode: text_field(section, "heavy_hitter_mode").map(|mode| {
                match mode.as_str() {
                    "approximate" => HeavyHitterMode::Approximate,
                    _ => HeavyHitterMode::Exact,
                }
            }),
            approximate_capacity: count_field(section, "approximate_capacity").map(|n| n as usize),
        }),
        storage: document.get("storage").map(|section| RawStorageConfig {
            target_file_size_mb: count_field(section, "target_file_size_mb"),
            min_file_size_mb: count_field(section, "min_file_size_mb"),
        }),
        output: document.get("output").map(|section| RawOutputConfig {
            path: text_field(section, "path"),
            format: format_field(section, "format"),
            include_technical_columns: flag_field(section, "include_technical_columns"),
            partition_column: text_field(section, "partition_column"),
            salt_column: text_field(section, "salt_column"),
            heavy_key_column: text_field(section, "heavy_key_column"),
        }),
        job: JobConfig {
            job_type: match text_field(job, "type").expect("job should be given").as_str() {
                "scan" => JobType::Scan,
                "group_by" => JobType::GroupBy,
                "join" => JobType::Join,
                "filter" => JobType::Filter,
                _ => JobType::Generic,
            },
            downstream_engine: match text_field(job, "downstream_engine")
                .expect("engine should be given")
                .as_str()
            {
                "spark" => DownstreamEngine::Spark,
                _ => DownstreamEngine::Generic,
            },
        },
        join: document.get("join").map(|section| RawJoinConfig {
            left_input: text_field(section, "left_input"),
            right_input: text_field(section, "right_input").expect("right side should be given"),
            join_keys: list_field(section, "join_keys"),
            right_side_mode: text_field(section, "right_side_mode").map(|mode| {
                match mode.as_str() {
                    "shuffle" => RightSideMode::Shuffle,
                    _ => RightSideMode::BroadcastIfSmall,
                }
            }),
            broadcast_threshold_mb: count_field(section, "broadcast_threshold_mb"),
        }),
        resources: RawResourceConfig {
            local_threads: count_field(resources, "local_threads")
                .expect("threads should be given") as usize,
            memory_limit_mb: count_field(resources, "memory_limit_mb")
                .expect("memory limit should be given"),
            fail_on_memory_limit: flag_field(resources, "fail_on_memory_limit"),
        },
    };
    Config::try_from(raw)
}

/// The number that a bit pattern stands for.
fn number(value: Binary64) -> f64 {
    f64::from_bits(value.to_bits())
}

const EXAMPLE_CONFIG: &str = r#"
dataset:
  input: "./data/input.parquet"
  output: "./data/output_partitioned"
  format: "parquet"

partitioning:
  key_columns: ["user_id"]
  target_partition_size_mb: 128
  max_partitions: 128
  strategy: "adaptive_hash_salt"
  heavy_key_alpha: 2.0
  seed: 42

job:
  type: "group_by"
  downstream_engine: "spark"

resources:
  local_threads: 8
  memory_limit_mb: 4096
"#;

#[test]
fn parses_yaml_config() {
    let config = config_from_yaml(EXAMPLE_CONFIG).expect("config should parse");

    assert_eq!(config.dataset.input, String::from("./data/input.parquet"));
    assert_eq!(config.dataset.input_format, DatasetFormat::Parquet);
    assert_eq!(config.partitioning.key_columns, vec!["user_id".to_string()]);
    assert_eq!(config.partitioning.min_partitions.get(), 1);
    assert_eq!(config.partitioning.target_partition_size_mb.get(), 128);
    assert_eq!(config.partitioning.max_partitions.get(), 128);
    assert!(!config.partitioning.force_rewrite);
    assert_eq!(number(config.partitioning.no_op_max_imbalance_ratio), 1.2);
    assert_eq!(config.statistics.heavy_hitter_mode, HeavyHitterMode::Exact);
    assert_eq!(config.statistics.approximate_capacity.get(), 10_000);
    assert_eq!(config.storage.target_file_size_mb.get(), 128);
    assert_eq!(config.storage.min_file_size_mb.get(), 16);
    assert_eq!(
        config.output.path,
        String::from("./data/output_partitioned")
    );
    assert_eq!(config.output.format, DatasetFormat::Parquet);
    assert!(config.output.include_technical_columns);
    assert_eq!(config.output.partition_column, "_rp_partition_id");
    assert_eq!(config.output.salt_column, "_rp_salt");
    assert_eq!(config.output.heavy_key_column, "_rp_is_heavy_key");
    assert_eq!(
        config.partitioning.strategy,
        PartitioningStrategy::AdaptiveHashSalt
    );
    assert_eq!(
        config.partitioning.normal_key_assignment,
        NormalKeyAssignment::LoadAware
    );
    assert_eq!(config.job.job_type, JobType::GroupBy);
    assert_eq!(config.job.downstream_engine, DownstreamEngine::Spark);
    assert!(config.join.is_none());
    assert_eq!(config.resources.local_threads, 8);
    assert_eq!(config.resources.memory_limit_mb, 4096);
    assert!(!config.resources.fail_on_memory_limit);
}

#[test]
fn old_dataset_format_config_still_parses() {
    let config = config_from_yaml(EXAMPLE_CONFIG).expect("old config should parse");

    assert_eq!(config.dataset.input_format, DatasetFormat::Parquet);
    assert_eq!(
        config.output.path,
        String::from("./data/output_partitioned")
    );
    assert_eq!(config.output.format, DatasetFormat::Parquet);
}

#[test]
fn parquet_input_parquet_output_unchanged() {
    let config = config_from_yaml(EXAMPLE_CONFIG).expect("parquet config should parse");

    assert_eq!(config.dataset.input, String::from("./data/input.parquet"));
    assert_eq!(config.dataset.input_format, DatasetFormat::Parquet);
    assert_eq!(
        config.output.path,
        String::from("./data/output_partitioned")
    );
    assert_eq!(config.output.format, DatasetFormat::Parquet);
}

#[test]
fn new_input_output_format_config_parses() {
    let config = config_from_yaml(
        r#"
dataset:
  input: "./data/input.csv"
  input_format: "csv"

output:
  path: "./data/output_partitioned"
  format: "parquet"
  include_technical_columns: true
  partition_column: "_rp_partition_id"
  salt_column: "_rp_salt"
  heavy_key_column: "_rp_is_heavy_key"

partitioning:
  key_columns: ["user_id"]
  target_partition_size_mb: 128
  max_partitions: 128
  strategy: "adaptive_hash_salt"
  heavy_key_alpha: 2.0
  seed: 42

job:
  type: "group_by"
  downstream_engine: "spark"

resources:
  local_threads: 8
  memory_limit_mb: 4096
"#,
    )
    .expect("new config should parse");

    assert_eq!(config.dataset.input, String::from("./data/input.csv"));
    assert_eq!(config.dataset.input_format, DatasetFormat::Csv);
    assert_eq!(
        config.output.path,
        String::from("./data/output_partitioned")
    );
    assert_eq!(config.output.format, DatasetFormat::Parquet);
}

#[test]
fn parses_csv_dataset_format_as_legacy_input_and_output_format() {
    let config = parse_replacing("format: \"parquet\"", "format: \"csv\"")
        .expect("csv config should parse");

    assert_eq!(config.dataset.input_format, DatasetFormat::Csv);
    assert_eq!(config.output.format, DatasetFormat::Csv);
}

#[test]
fn config_rejects_missing_input_path() {
    let error = parse_replacing("input: \"./data/input.parquet\"", "input: \"\"")
        .expect_err("empty input should be rejected");
    assert_validation_error(error, ConfigValidationError::MissingInputPath);
}

#[test]
fn rejects_missing_key_columns() {
    let error = parse_replacing("key_columns: [\"user_id\"]", "key_columns: []")
        .expect_err("empty keys should be rejected");
    assert_validation_error(error, ConfigValidationError::MissingKeyColumns);
}

#[test]
fn rejects_invalid_target_partition_size() {
    let error = parse_replacing(
        "target_partition_size_mb: 128",
        "target_partition_size_mb: 0",
    )
    .expect_err("zero target size should be rejected");
    assert_validation_error(
        error,
        ConfigValidationError::InvalidTargetPartitionSize { value: 0 },
    );
}

#[test]
fn rejects_invalid_max_partition_count() {
    let error = parse_replacing("max_partitions: 128", "max_partitions: 0")
        .expect_err("zero partitions should be rejected");
    assert_validation_error(
        error,
        ConfigValidationError::InvalidMaxPartitionCount { value: 0 },
    );
}

#[test]
fn parses_optional_min_partition_count() {
    let config = parse_replacing(
        "max_partitions: 128",
        "min_partitions: 2\n  max_partitions: 128",
    )
    .expect("config with min_partitions should parse");

    assert_eq!(config.partitioning.min_partitions.get(), 2);
}

#[test]
fn parses_optional_rewrite_controls() {
    let config = parse_replacing(
        "heavy_key_alpha: 2.0",
        "heavy_key_alpha: 2.0\n  force_rewrite: true\n  no_op_max_imbalance_ratio: 1.5",
    )
    .expect("config with rewrite controls should parse");

    assert!(config.partitioning.force_rewrite);
    assert_eq!(number(config.partitioning.no_op_max_imbalance_ratio), 1.5);
}

#[test]
fn parses_optional_normal_key_assignment() {
    let config = parse_replacing(
        "strategy: \"adaptive_hash_salt\"",
        "strategy: \"adaptive_hash_salt\"\n  normal_key_assignment: \"hash\"",
    )
    .expect("config with normal key assignment should parse");

    assert_eq!(
        config.partitioning.normal_key_assignment,
        NormalKeyAssignment::Hash
    );
}

#[test]
fn parses_optional_resource_memory_guard() {
    let config = parse_replacing(
        "memory_limit_mb: 4096",
        "memory_limit_mb: 4096\n  fail_on_memory_limit: true",
    )
    .expect("config with memory guard should parse");

    assert!(config.resources.fail_on_memory_limit);
}

#[test]
fn parses_optional_statistics_config() {
    let config = config_from_yaml(&format!(
        "{EXAMPLE_CONFIG}\nstatistics:\n  heavy_hitter_mode: \"approximate\"\n  approximate_capacity: 512\n"
    ))
    .expect("config with statistics controls should parse");

    assert_eq!(
        config.statistics.heavy_hitter_mode,
        HeavyHitterMode::Approximate
    );
    assert_eq!(config.statistics.approximate_capacity.get(), 512);
}

#[test]
fn parses_optional_storage_config() {
    let config = config_from_yaml(&format!(
        "{EXAMPLE_CONFIG}\nstorage:\n  target_file_size_mb: 64\n  min_file_size_mb: 8\n"
    ))
    .expect("config with storage controls should parse");

    assert_eq!(config.storage.target_file_size_mb.get(), 64);
    assert_eq!(config.storage.min_file_size_mb.get(), 8);
}

#[test]
fn parses_optional_output_config() {
    let config = config_from_yaml(&format!(
        "{EXAMPLE_CONFIG}\noutput:\n  include_technical_columns: false\n  partition_column: \"partition_id\"\n  salt_column: \"salt\"\n  heavy_key_column: \"is_heavy\"\n"
    ))
    .expect("config with output controls should parse");

    assert!(!config.output.include_technical_columns);
    assert_eq!(
        config.output.path,
        String::from("./data/output_partitioned")
    );
    assert_eq!(config.output.format, DatasetFormat::Parquet);
    assert_eq!(config.output.partition_column, "partition_id");
    assert_eq!(config.output.salt_column, "salt");
    assert_eq!(config.output.heavy_key_column, "is_heavy");
}

#[test]
fn parses_optional_join_config() {
    let config = config_from_yaml(&format!(
        "{EXAMPLE_CONFIG}\njoin:\n  left_input: \"./data/left\"\n  right_input: \"./data/right\"\n  join_keys: [\"user_id\"]\n  right_side_mode: \"broadcast_if_small\"\n  broadcast_threshold_mb: 10\n"
    ))
    .expect("config with join controls should parse");

    let join = config.join.expect("join config should be present");
    assert_eq!(join.left_input, String::from("./data/left"));
    assert_eq!(join.right_input, String::from("./data/right"));
    assert_eq!(join.join_keys, vec!["user_id".to_string()]);
    assert_eq!(join.right_side_mode, RightSideMode::BroadcastIfSmall);
    assert_eq!(join.broadcast_threshold_mb, 10);
}

#[test]
fn join_config_defaults_left_input_to_dataset_input() {
    let config = config_from_yaml(&format!(
        "{EXAMPLE_CONFIG}\njoin:\n  right_input: \"./data/right\"\n  join_keys: [\"user_id\"]\n"
    ))
    .expect("config with minimal join controls should parse");

    let join = config.join.expect("join config should be present");
    assert_eq!(join.left_input, String::from("./data/input.parquet"));
    assert_eq!(join.right_side_mode, RightSideMode::BroadcastIfSmall);
    assert_eq!(join.broadcast_threshold_mb, 10);
}

#[test]
fn rejects_missing_join_right_input() {
    let error = config_from_yaml(&format!(
        "{EXAMPLE_CONFIG}\njoin:\n  right_input: \"\"\n  join_keys: [\"user_id\"]\n"
    ))
    .expect_err("empty join right input should be rejected");
    assert_validation_error(error, ConfigValidationError::MissingJoinRightInput);
}

#[test]
fn rejects_missing_join_keys() {
    let error = config_from_yaml(&format!(
        "{EXAMPLE_CONFIG}\njoin:\n  right_input: \"./data/right\"\n  join_keys: []\n"
    ))
    .expect_err("empty join keys should be rejected");
    assert_validation_error(error, ConfigValidationError::MissingJoinKeys);
}

#[test]
fn rejects_invalid_min_partition_count() {
    let error = parse_replacing(
        "max_partitions: 128",
        "min_partitions: 0\n  max_partitions: 128",
    )
    .expect_err("zero min partitions should be rejected");
    assert_validation_error(
        error,
        ConfigValidationError::InvalidMinPartitionCount { value: 0 },
    );
}

#[test]
fn rejects_min_partition_count_greater_than_max() {
    let error = parse_replacing(
        "max_partitions: 128",
        "min_partitions: 129\n  max_partitions: 128",
    )
    .expect_err("min partitions greater than max should be rejected");
    assert_validation_error(
        error,
        ConfigValidationError::MinPartitionsGreaterThanMax { min: 129, max: 128 },
    );
}

#[test]
fn rejects_invalid_no_op_max_imbalance_ratio() {
    let error = parse_replacing(
        "heavy_key_alpha: 2.0",
        "heavy_key_alpha: 2.0\n  no_op_max_imbalance_ratio: 0.0",
    )
    .expect_err("zero no-op ratio should be rejected");
    assert_validation_error(
        error,
        ConfigValidationError::InvalidNoOpMaxImbalanceRatio { value: Binary64::from_bits(0.0f64.to_bits()) },
    );
}

#[test]
fn rejects_invalid_approximate_capacity() {
    let error = config_from_yaml(&format!(
        "{EXAMPLE_CONFIG}\nstatistics:\n  heavy_hitter_mode: \"approximate\"\n  approximate_capacity: 0\n"
    ))
    .expect_err("zero approximate capacity should be rejected");
    assert_validation_error(
        error,
        ConfigValidationError::InvalidApproximateCapacity { value: 0 },
    );
}

#[test]
fn rejects_invalid_storage_file_sizes() {
    let error = config_from_yaml(&format!(
        "{EXAMPLE_CONFIG}\nstorage:\n  target_file_size_mb: 16\n  min_file_size_mb: 32\n"
    ))
    .expect_err("min file size greater than target should be rejected");
    assert_validation_error(
        error,
        ConfigValidationError::MinFileSizeGreaterThanTarget {
            min: 32,
            target: 16,
        },
    );
}

#[test]
fn rejects_invalid_strategy_name() {
    let error = parse_replacing("strategy: \"adaptive_hash_salt\"", "strategy: \"range\"")
        .expect_err("bad strategy should be rejected");
    assert_validation_error(
        error,
        ConfigValidationError::InvalidStrategyName {
            value: "range".to_string(),
        },
    );
}

fn parse_replacing(target: &str, replacement: &str) -> Result<Config, ConfigValidationError> {
    let config = EXAMPLE_CONFIG.replace(target, replacement);
    config_from_yaml(&config)
}

fn assert_validation_error(actual: ConfigValidationError, expected: ConfigValidationError) {
    assert_eq!(actual, expected);
}


#[test]
fn rejects_missing_formats_and_paths() {
    let error = parse_replacing("  format: \"parquet\"\n", "").expect_err("no format is given");
    assert_validation_error(error, ConfigValidationError::MissingInputFormat);
    let error = parse_replacing("  output: \"./data/output_partitioned\"\n", "")
        .expect_err("no output is given");
    assert_validation_error(error, ConfigValidationError::MissingOutputPath);
    let error = parse_replacing("output: \"./data/output_partitioned\"", "output: \"  \"")
        .expect_err("blank output should be rejected");
    assert_validation_error(error, ConfigValidationError::MissingOutputPath);
}

#[test]
fn rejects_file_sizes_of_zero() {
    let error = config_from_yaml(&format!("{EXAMPLE_CONFIG}\nstorage:\n  target_file_size_mb: 0\n"))
        .expect_err("zero target file size should be rejected");
    assert_validation_error(error, ConfigValidationError::InvalidTargetFileSize { value: 0 });
    let error = config_from_yaml(&format!("{EXAMPLE_CONFIG}\nstorage:\n  min_file_size_mb: 0\n"))
        .expect_err("zero min file size should be rejected");
    assert_validation_error(error, ConfigValidationError::InvalidMinFileSize { value: 0 });
}

#[test]
fn reports_the_first_problem() {
    let text = EXAMPLE_CONFIG
        .replace("key_columns: [\"user_id\"]", "key_columns: [\" \"]")
        .replace("max_partitions: 128", "max_partitions: 0");
    let error = config_from_yaml(&text).expect_err("two problems");
    assert_validation_error(error, ConfigValidationError::MissingKeyColumns);
}

#[test]
fn validates_changed_fields() {
    let mut config = config_from_yaml(EXAMPLE_CONFIG).expect("config should parse");
    assert_eq!(config.validate(), Ok(()));
    config.output.path = String::new();
    assert_eq!(config.validate(), Err(ConfigValidationError::MissingOutputPath));
    config.dataset.input = String::new();
    assert_eq!(config.validate(), Err(ConfigValidationError::MissingInputPath));
}

#[test]
fn strategies_have_names() {
    assert_eq!(
        PartitioningStrategy::from_str("file_size_balancing"),
        Ok(PartitioningStrategy::FileSizeBalancing)
    );
    assert_eq!(
        PartitioningStrategy::from_str("adaptive_hash_salt"),
        Ok(PartitioningStrategy::AdaptiveHashSalt)
    );
}
