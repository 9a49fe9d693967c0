//! Statistics of datasets.

use repartitioner::binary64::Binary64;
use repartitioner::config::{
    DatasetFormat, DownstreamEngine, HeavyHitterMode, JobConfig, JobType, NormalKeyAssignment,
    RawConfig, RawDatasetConfig, RawJoinConfig, RawOutputConfig, RawPartitioningConfig,
    RawResourceConfig, RawStatisticsConfig, RawStorageConfig, RightSideMode,
};
use repartitioner::error::ConfigValidationError;
use repartitioner::Config;
use serde_yaml::Value;
use repartitioner::dataset::Dataset;
use repartitioner::manifest::HeavyKeyReason;
use repartitioner::reader::{InputDataset, InputFile};
use repartitioner::statistics::compute_statistics;
use repartitioner::Error;

fn text_field(section: &Value, name: &str) -> Option<String> {
    section.get(name).and_then(Value::as_str).map(String::from)
}

fn count_field(section: &Value, name: &str) -> Option<u64> {
    section.get(name).and_then(Value::as_u64)
}

fn flag_field(section: &Value, name: &str) -> Option<bool> {
    section.get(name).and_then(Value::as_bool)
}

fn number_field(section: &Value, name: &str) -> Option<Binary64> {
    section.get(name).and_then(Value::as_f64).map(|number| Binary64::from_bits(number.to_bits()))
}

fn list_field(section: &Value, name: &str) -> Vec<String> {
    section
        .get(name)
        .and_then(Value::as_sequence)
        .map(|items| items.iter().filter_map(Value::as_str).map(String::from).collect())
        .unwrap_or_default()
}

fn format_field(section: &Value, name: &str) -> Option<DatasetFormat> {
    text_field(section, name).map(|format| match format.as_str() {
        "csv" => DatasetFormat::Csv,
        _ => DatasetFormat::Parquet,
    })
}

/// Reads a configuration that is written down in YAML.
fn config_from_yaml(text: &str) -> Result<Config, ConfigValidationError> {
    let document: Value = serde_yaml::from_str(text).expect("yaml should parse");
    let dataset = &document["dataset"];
    let partitioning = &document["partitioning"];
    let job = &document["job"];
    let resources = &document["resources"];
    let raw = RawConfig {
        dataset: RawDatasetConfig {
            input: text_field(dataset, "input").expect("input should be given"),
            output: text_field(dataset, "output"),
            format: format_field(dataset, "format"),
            input_format: format_field(dataset, "input_format"),
        },
        partitioning: RawPartitioningConfig {
            key_columns: list_field(partitioning, "key_columns"),
            min_partitions: count_field(partitioning, "min_partitions").map(|n| n as usize),
            target_partition_size_mb: count_field(partitioning, "target_partition_size_mb")
                .expect("target size should be given"),
            max_partitions: count_field(partitioning, "max_partitions")
                .expect("max partitions should be given") as usize,
            strategy: text_field(partitioning, "strategy").expect("strategy should be given"),
            normal_key_assignment: text_field(partitioning, "normal_key_assignment").map(|mode| {
                match mode.as_str() {
                    "hash" => NormalKeyAssignment::Hash,
                    _ => NormalKeyAssignment::LoadAware,
                }
            }),
            heavy_key_alpha: number_field(partitioning, "heavy_key_alpha")
                .expect("alpha should be given"),
            force_rewrite: flag_field(partitioning, "force_rewrite"),
            no_op_max_imbalance_ratio: number_field(partitioning, "no_op_max_imbalance_ratio"),
            seed: count_field(partitioning, "seed").expect("seed should be given"),
        },
        statistics: document.get("statistics").map(|section| RawStatisticsConfig {
            heavy_hitter_mode: text_field(section, "heavy_hitter_mode").map(|mode| {
                match mode.as_str() {
                    "approximate" => HeavyHitterMode::Approximate,
                    _ => HeavyHitterMode::Exact,
                }
            }),
            approximate_capacity: count_field(section, "approximate_capacity").map(|n| n as usize),
        }),
        storage: document.get("storage").map(|section| RawStorageConfig {
            target_file_size_mb: count_field(section, "target_file_size_mb"),
            min_file_size_mb: count_field(section, "min_file_size_mb"),
        }),
        output: document.get("output").map(|section| RawOutputConfig {
            path: text_field(section, "path"),
            format: format_field(section, "format"),
            include_technical_columns: flag_field(section, "include_technical_columns"),
            partition_column: text_field(section, "partition_column"),
            salt_column: text_field(section, "salt_column"),
            heavy_key_column: text_field(section, "heavy_key_column"),
        }),
        job: JobConfig {
            job_type: match text_field(job, "type").expect("job should be given").as_str() {
                "scan" => JobType::Scan,
                "group_by" => JobType::GroupBy,
                "join" => JobType::Join,
                "filter" => JobType::Filter,
                _ => JobType::Generic,
            },
            downstream_engine: match text_field(job, "downstream_engine")
                .expect("engine should be given")
                .as_str()
            {
                "spark" => DownstreamEngine::Spark,
                _ => DownstreamEngine::Generic,
            },
        },
        join: document.get("join").map(|section| RawJoinConfig {
            left_input: text_field(section, "left_input"),
            right_input: text_field(section, "right_input").expect("right side should be given"),
            join_keys: list_field(section, "join_keys"),
            right_side_mode: text_field(section, "right_side_mode").map(|mode| {
                match mode.as_str() {
                    "shuffle" => RightSideMode::Shuffle,
                    _ => RightSideMode::BroadcastIfSmall,
                }
            }),
            broadcast_threshold_mb: count_field(section, "broadcast_threshold_mb"),
        }),
        resources: RawResourceConfig {
            local_threads: count_field(resources, "local_threads")
                .expect("threads should be given") as usize,
            memory_limit_mb: count_field(resources, "memory_limit_mb")
                .expect("memory limit should be given"),
            fail_on_memory_limit: flag_field(resources, "fail_on_memory_limit"),
        },
    };
    Config::try_from(raw)
}

/// The number that a bit pattern stands for.
fn number(value: Binary64) -> f64 {
    f64::from_bits(value.to_bits())
}

fn example_config() -> Config {
    config_from_yaml(
        r#"
dataset:
  input: "./data/input.parquet"
  output: "./data/output_partitioned"
  format: "parquet"

partitioning:
  key_columns: ["user_id"]
  target_partition_size_mb: 128
  max_partitions: 4
  strategy: "adaptive_hash_salt"
  heavy_key_alpha: 2.0
  seed: 42

job:
  type: "group_by"
  downstream_engine: "spark"

resources:
  local_threads: 8
  memory_limit_mb: 4096
"#,
    )
    .expect("example config should be valid")
}

/// One row for each text, under one key column.
fn key_values<I>(column: &str, values: I) -> Dataset
where
    I: IntoIterator,
    I::Item: Into<String>,
{
    Dataset::from_key_values(column, values.into_iter().map(Into::into).collect())
}

#[test]
fn computes_key_statistics_from_in_memory_rows() {
    let config = example_config();
    let dataset = InputDataset::from_rows(key_values(
        "user_id",
        ["a", "a", "b", "c"].into_iter().map(String::from),
    ));

    let statistics = compute_statistics(&config, &dataset).expect("statistics should compute");

    assert_eq!(statistics.metadata.input.total_rows, 4);
    assert_eq!(statistics.metadata.input.distinct_keys, Some(3));
    assert_eq!(number(statistics.metadata.input.mean_key_frequency), 4.0 / 3.0);
    assert_eq!(statistics.metadata.input.max_key_frequency, 2);
    assert_eq!(
        statistics
            .metadata
            .input
            .key_frequencies
            .get("7:user_id#utf8:1:a"),
        Some(&2)
    );
}

#[test]
fn detects_heavy_key_from_in_memory_rows() {
    let config = example_config();
    let dataset = InputDataset::from_rows(key_values(
        "user_id",
        ["heavy", "heavy", "heavy", "heavy", "heavy", "a", "b"]
            .into_iter()
            .map(String::from),
    ));

    let statistics = compute_statistics(&config, &dataset).expect("statistics should compute");

    assert_eq!(statistics.metadata.input.heavy_hitters.len(), 1);
    assert_eq!(statistics.metadata.input.heavy_hitter_candidates.len(), 1);
    assert_eq!(
        statistics.metadata.input.heavy_hitters[0].key,
        "7:user_id#utf8:5:heavy"
    );
    assert_eq!(
        statistics.metadata.input.heavy_hitters[0].estimated_frequency,
        5
    );
}

#[test]
fn approximate_heavy_hitter_mode_detects_synthetic_heavy_key() {
    let config = config_from_yaml(
        r#"
dataset:
  input: "./data/input.parquet"
  output: "./data/output_partitioned"
  format: "parquet"

partitioning:
  key_columns: ["user_id"]
  target_partition_size_mb: 128
  max_partitions: 4
  strategy: "adaptive_hash_salt"
  heavy_key_alpha: 2.0
  seed: 42

statistics:
  heavy_hitter_mode: "approximate"
  approximate_capacity: 32

job:
  type: "group_by"
  downstream_engine: "spark"

resources:
  local_threads: 8
  memory_limit_mb: 4096
"#,
    )
    .expect("config should parse");
    let dataset = InputDataset::from_rows(key_values(
        "user_id",
        std::iter::repeat_n("heavy".to_string(), 200)
            .chain((0..800).map(|index| format!("key_{index}"))),
    ));

    let statistics = compute_statistics(&config, &dataset).expect("statistics should compute");

    assert_eq!(
        statistics.metadata.heavy_hitter_detection.mode,
        "approximate"
    );
    assert_eq!(statistics.metadata.heavy_hitter_detection.capacity, 32);
    assert!(statistics
        .metadata
        .heavy_hitter_detection
        .error_bound
        .starts_with("space_saving_max_overestimate="));
    assert!(statistics
        .metadata
        .input
        .heavy_hitters
        .iter()
        .any(|heavy| heavy.key == "7:user_id#utf8:5:heavy"));
    assert!(statistics.metadata.input.key_frequencies.len() <= 32);
}

#[test]
fn does_not_overreact_to_uniform_in_memory_rows() {
    let config = example_config();
    let dataset = InputDataset::from_rows(key_values(
        "user_id",
        ["a", "a", "b", "b", "c", "c"].into_iter().map(String::from),
    ));

    let statistics = compute_statistics(&config, &dataset).expect("statistics should compute");

    assert!(statistics.metadata.input.heavy_hitters.is_empty());
    assert!(statistics.metadata.input.heavy_hitter_candidates.is_empty());
}

#[test]
fn computes_partition_estimates_and_skew_metrics() {
    let config = example_config();
    let dataset = InputDataset::from_rows(key_values(
        "user_id",
        ["a", "a", "a", "b", "b", "c", "d", "e"]
            .into_iter()
            .map(String::from),
    ));

    let statistics = compute_statistics(&config, &dataset).expect("statistics should compute");
    let estimates = &statistics.metadata.estimates.before_partition_sizes;
    let skew = &statistics.metadata.skew;

    assert_eq!(statistics.metadata.estimates.target_partitions, 4);
    assert_eq!(estimates.len(), 4);
    assert_eq!(estimates.iter().sum::<u64>(), 8);
    assert_eq!(skew.max_partition_size, *estimates.iter().max().unwrap());
    assert_eq!(number(skew.mean_partition_size), 2.0);
    assert!(number(skew.max_mean_imbalance_ratio) >= 1.0);
    assert!(number(skew.partition_size_variance) >= 0.0);
    assert!(number(skew.coefficient_of_variation) >= 0.0);
}

#[test]
fn small_dataset_does_not_exceed_memory_limit() {
    let config = example_config();
    let dataset = input_dataset_with_file_size(
        key_values("user_id", ["a", "b"]),
        1024 * 1024,
    );

    let statistics = compute_statistics(&config, &dataset).expect("statistics should compute");

    assert_eq!(
        statistics.metadata.resources.configured_memory_limit_mb,
        4096
    );
    assert_eq!(
        statistics.metadata.resources.estimated_dataset_size_mb,
        Some(1)
    );
    assert!(statistics.metadata.resources.in_memory_processing_used);
    assert!(!statistics.metadata.resources.memory_limit_exceeded);
    assert!(statistics.metadata.resources.warnings.is_empty());
}

#[test]
fn memory_limit_warning_allows_execution_when_not_strict() {
    let config = config_with_memory_guard(1, false);
    let dataset = input_dataset_with_file_size(
        key_values("user_id", ["a", "b"]),
        2 * 1024 * 1024,
    );

    let statistics = compute_statistics(&config, &dataset).expect("statistics should compute");

    assert_eq!(
        statistics.metadata.resources.estimated_dataset_size_mb,
        Some(2)
    );
    assert!(statistics.metadata.resources.memory_limit_exceeded);
    assert_eq!(
        statistics.metadata.resources.warnings,
        vec!["estimated_dataset_size_exceeds_configured_memory_limit".to_string()]
    );
}

#[test]
fn strict_memory_limit_returns_error_when_estimate_exceeds_limit() {
    let config = config_with_memory_guard(1, true);
    let dataset = input_dataset_with_file_size(
        key_values("user_id", ["a", "b"]),
        2 * 1024 * 1024,
    );

    let error =
        compute_statistics(&config, &dataset).expect_err("strict memory guard should fail");

    assert!(matches!(
        error,
        Error::ResourceLimitExceeded {
            configured_memory_limit_mb: 1,
            estimated_dataset_size_mb: 2,
        }
    ));
}

#[test]
fn small_dataset_uses_adaptive_partition_count_from_size_estimate() {
    let config = example_config();
    let dataset = InputDataset {
        path: "<memory>".to_string(),
        format: DatasetFormat::Parquet,
        files: vec![InputFile {
            path: "input.parquet".to_string(),
            size_bytes: 1024,
        }],
        rows: key_values(
            "user_id",
            ["a", "a", "b", "b", "c", "c", "d", "d"]
                .into_iter()
                .map(String::from),
        ),
        batches: Vec::new(),
    };

    let statistics = compute_statistics(&config, &dataset).expect("statistics should compute");

    assert_eq!(statistics.metadata.estimates.target_partitions, 1);
    assert_eq!(
        statistics.metadata.estimates.before_partition_sizes,
        vec![dataset.rows.row_count()]
    );
}

#[test]
fn final_heavy_keys_include_keys_that_only_exceed_target_partition_rows() {
    let config = config_from_yaml(
        r#"
dataset:
  input: "./data/input.parquet"
  output: "./data/output_partitioned"
  format: "parquet"

partitioning:
  key_columns: ["user_id"]
  target_partition_size_mb: 1
  max_partitions: 128
  strategy: "adaptive_hash_salt"
  heavy_key_alpha: 2.0
  seed: 42

job:
  type: "group_by"
  downstream_engine: "spark"

resources:
  local_threads: 8
  memory_limit_mb: 4096
"#,
    )
    .expect("config should parse");
    let rows = key_values(
        "user_id",
        std::iter::repeat_n("a", 2500)
            .chain(std::iter::repeat_n("b", 2500))
            .chain(std::iter::repeat_n("c", 2500))
            .chain(std::iter::repeat_n("d", 2500)),
    );
    let dataset = InputDataset {
        path: "<memory>".to_string(),
        format: DatasetFormat::Parquet,
        files: vec![InputFile {
            path: "input.parquet".to_string(),
            size_bytes: 104_850_000,
        }],
        rows,
        batches: Vec::new(),
    };

    let statistics = compute_statistics(&config, &dataset).expect("statistics should compute");

    assert_eq!(number(statistics.metadata.input.mean_key_frequency), 2500.0);
    assert_eq!(statistics.metadata.input.heavy_hitter_candidates.len(), 0);
    assert_eq!(statistics.metadata.input.heavy_hitters.len(), 4);
    assert!(statistics.metadata.input.heavy_hitters.iter().all(|heavy| {
        heavy.detection_reasons
            == vec![HeavyKeyReason::ExceedsTargetPartitionRows]
    }));
}

#[test]
fn before_partition_sizes_sum_to_row_count_for_uniform_data() {
    let config = example_config();
    let dataset = InputDataset::from_rows(key_values(
        "user_id",
        ["a", "a", "b", "b", "c", "c", "d", "d"]
            .into_iter()
            .map(String::from),
    ));

    let statistics = compute_statistics(&config, &dataset).expect("statistics should compute");

    assert!(statistics.metadata.input.heavy_hitters.is_empty());
    assert_eq!(
        statistics
            .metadata
            .estimates
            .before_partition_sizes
            .iter()
            .sum::<u64>(),
        dataset.rows.row_count()
    );
}

fn config_with_memory_guard(memory_limit_mb: u64, fail_on_memory_limit: bool) -> Config {
    config_from_yaml(&format!(
        r#"
dataset:
  input: "./data/input.parquet"
  output: "./data/output_partitioned"
  format: "parquet"

partitioning:
  key_columns: ["user_id"]
  target_partition_size_mb: 128
  max_partitions: 4
  strategy: "adaptive_hash_salt"
  heavy_key_alpha: 2.0
  seed: 42

job:
  type: "group_by"
  downstream_engine: "spark"

resources:
  local_threads: 8
  memory_limit_mb: {memory_limit_mb}
  fail_on_memory_limit: {fail_on_memory_limit}
"#
    ))
    .expect("test config should parse")
}

fn input_dataset_with_file_size(rows: Dataset, size_bytes: u64) -> InputDataset {
    InputDataset {
        path: "input.parquet".to_string(),
        format: DatasetFormat::Parquet,
        files: vec![InputFile {
            path: "input.parquet".to_string(),
            size_bytes,
        }],
        rows,
        batches: Vec::new(),
    }
}
