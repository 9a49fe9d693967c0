//! Plans and the assignment of rows.

use std::collections::BTreeMap;

use repartitioner::binary64::Binary64;
use repartitioner::config::{
    DatasetFormat, DownstreamEngine, HeavyHitterMode, JobConfig, JobType, NormalKeyAssignment,
    RawConfig, RawDatasetConfig, RawJoinConfig, RawOutputConfig, RawPartitioningConfig,
    RawResourceConfig, RawStatisticsConfig, RawStorageConfig, RightSideMode, PartitioningStrategy,
};
use repartitioner::error::ConfigValidationError;
use repartitioner::Config;
use serde_yaml::Value;
use repartitioner::cli::CliArgs;
use repartitioner::dataset::{Dataset, Row};
use repartitioner::execution::ExecutionResources;
use repartitioner::hashing;
use repartitioner::join::{apply_join_inputs, build_join_statistics, right_side_config};
use repartitioner::key_encoding::KeyValue;
use repartitioner::manifest::{HeavyKeyPlan, NormalKeyPlan, PlanAction, SaltPartitionPlan};
use repartitioner::partitioner::assign_partitions;
use repartitioner::placement::{estimated_salt_load, salt_count};
use repartitioner::planner::{build_plan, build_plan_at, Plan};
use repartitioner::reader::{InputDataset, InputFile};
use repartitioner::statistics::compute_statistics;
use repartitioner::targeting::{
    compute_target_partitioning,
    REASON_ESTIMATED_ROW_WIDTH_UNAVAILABLE, REASON_REQUIRED_PARTITIONS_EXCEED_MAX,
};
use repartitioner::Error;

fn text_field(section: &Value, name: &str) -> Option<String> {
    section.get(name).and_then(Value::as_str).map(String::from)
}

fn count_field(section: &Value, name: &str) -> Option<u64> {
    section.get(name).and_then(Value::as_u64)
}

fn flag_field(section: &Value, name: &str) -> Option<bool> {
    section.get(name).and_then(Value::as_bool)
}

fn number_field(section: &Value, name: &str) -> Option<Binary64> {
    section.get(name).and_then(Value::as_f64).map(|number| Binary64::from_bits(number.to_bits()))
}

fn list_field(section: &Value, name: &str) -> Vec<String> {
    section
        .get(name)
        .and_then(Value::as_sequence)
        .map(|items| items.iter().filter_map(Value::as_str).map(String::from).collect())
        .unwrap_or_default()
}

fn format_field(section: &Value, name: &str) -> Option<DatasetFormat> {
    text_field(section, name).map(|format| match format.as_str() {
        "csv" => DatasetFormat::Csv,
        _ => DatasetFormat::Parquet,
    })
}

/// Reads a configuration that is written down in YAML.
fn config_from_yaml(text: &str) -> Result<Config, ConfigValidationError> {
    let document: Value = serde_yaml::from_str(text).expect("yaml should parse");
    let dataset = &document["dataset"];
    let partitioning = &document["partitioning"];
    let job = &document["job"];
    let resources = &document["resources"];
    let raw = RawConfig {
        dataset: RawDatasetConfig {
            input: text_field(dataset, "input").expect("input should be given"),
            output: text_field(dataset, "output"),
            format: format_field(dataset, "format"),
            input_format: format_field(dataset, "input_format"),
        },
        partitioning: RawPartitioningConfig {
            key_columns: list_field(partitioning, "key_columns"),
            min_partitions: count_field(partitioning, "min_partitions").map(|n| n as usize),
            target_partition_size_mb: count_field(partitioning, "target_partition_size_mb")
                .expect("target size should be given"),
            max_partitions: count_field(partitioning, "max_partitions")
                .expect("max partitions should be given") as usize,
            strategy: text_field(partitioning, "strategy").expect("strategy should be given"),
            normal_key_assignment: text_field(partitioning, "normal_key_assignment").map(|mode| {
                match mode.as_str() {
                    "hash" => NormalKeyAssignment::Hash,
                    _ => NormalKeyAssignment::LoadAware,
                }
            }),
            heavy_key_alpha: number_field(partitioning, "heavy_key_alpha")
                .expect("alpha should be given"),
            force_rewrite: flag_field(partitioning, "force_rewrite"),
            no_op_max_imbalance_ratio: number_field(partitioning, "no_op_max_imbalance_ratio"),
            seed: count_field(partitioning, "seed").expect("seed should be given"),
        },
        statistics: document.get("statistics").map(|section| RawStatisticsConfig {
            heavy_hitter_mode: text_field(section, "heavy_hitter_mode").map(|mode| {
                match mode.as_str() {
                    "approximate" => HeavyHitterMode::Approximate,
                    _ => HeavyHitterMode::Exact,
                }
            }),
            approximate_capacity: count_field(section, "approximate_capacity").map(|n| n as usize),
        }),
        storage: document.get("storage").map(|section| RawStorageConfig {
            target_file_size_mb: count_field(section, "target_file_size_mb"),
            min_file_size_mb: count_field(section, "min_file_size_mb"),
        }),
        output: document.get("output").map(|section| RawOutputConfig {
            path: text_field(section, "path"),
            format: format_field(section, "format"),
            include_technical_columns: flag_field(section, "include_technical_columns"),
            partition_column: text_field(section, "partition_column"),
            salt_column: text_field(section, "salt_column"),
            heavy_key_column: text_field(section, "heavy_key_column"),
        }),
        job: JobConfig {
            job_type: match text_field(job, "type").expect("job should be given").as_str() {
                "scan" => JobType::Scan,
                "group_by" => JobType::GroupBy,
                "join" => JobType::Join,
                "filter" => JobType::Filter,
                _ => JobType::Generic,
            },
            downstream_engine: match text_field(job, "downstream_engine")
                .expect("engine should be given")
                .as_str()
            {
                "spark" => DownstreamEngine::Spark,
                _ => DownstreamEngine::Generic,
            },
        },
        join: document.get("join").map(|section| RawJoinConfig {
            left_input: text_field(section, "left_input"),
            right_input: text_field(section, "right_input").expect("right side should be given"),
            join_keys: list_field(section, "join_keys"),
            right_side_mode: text_field(section, "right_side_mode").map(|mode| {
                match mode.as_str() {
                    "shuffle" => RightSideMode::Shuffle,
                    _ => RightSideMode::BroadcastIfSmall,
                }
            }),
            broadcast_threshold_mb: count_field(section, "broadcast_threshold_mb"),
        }),
        resources: RawResourceConfig {
            local_threads: count_field(resources, "local_threads")
                .expect("threads should be given") as usize,
            memory_limit_mb: count_field(resources, "memory_limit_mb")
                .expect("memory limit should be given"),
            fail_on_memory_limit: flag_field(resources, "fail_on_memory_limit"),
        },
    };
    Config::try_from(raw)
}

/// The number that a bit pattern stands for.
fn number(value: Binary64) -> f64 {
    f64::from_bits(value.to_bits())
}

fn example_config() -> Config {
    config_from_yaml(
        r#"
dataset:
  input: "./data/input.parquet"
  output: "./data/output_partitioned"
  format: "parquet"

partitioning:
  key_columns: ["user_id"]
  target_partition_size_mb: 128
  max_partitions: 4
  strategy: "adaptive_hash_salt"
  heavy_key_alpha: 2.0
  seed: 42

job:
  type: "group_by"
  downstream_engine: "spark"

resources:
  local_threads: 8
  memory_limit_mb: 4096
"#,
    )
    .expect("example config should be valid")
}

/// One row for each text, under one key column.
fn key_values<I>(column: &str, values: I) -> Dataset
where
    I: IntoIterator,
    I::Item: Into<String>,
{
    Dataset::from_key_values(column, values.into_iter().map(Into::into).collect())
}

#[test]
fn plans_salt_buckets_for_heavy_key() {
    let config = example_config();
    let dataset = InputDataset::from_rows(key_values(
        "user_id",
        [
            "heavy", "heavy", "heavy", "heavy", "heavy", "heavy", "heavy", "heavy", "heavy",
            "heavy", "a", "b", "c", "d",
        ]
        .into_iter()
        .map(String::from),
    ));
    let statistics = compute_statistics(&config, &dataset).expect("statistics should compute");

    let plan = build_plan(&config, &statistics).expect("plan should build");

    assert_eq!(plan.metadata.output_partitions, 4);
    assert_eq!(plan.metadata.heavy_keys.len(), 1);
    assert_eq!(plan.metadata.heavy_keys[0].key, "7:user_id#utf8:5:heavy");
    assert_eq!(plan.metadata.heavy_keys[0].estimated_frequency, 10);
    assert_eq!(plan.metadata.heavy_keys[0].salt_count, 3);
    assert_eq!(plan.metadata.heavy_keys[0].salt_partitions.len(), 3);
    assert!(plan.metadata.heavy_keys[0]
        .salt_partitions
        .iter()
        .all(|salt| salt.partition_id < plan.metadata.output_partitions));
}

#[test]
fn heavy_key_plan_contains_structured_string_key() {
    let config = example_config();
    let dataset = InputDataset::from_rows(key_values(
        "user_id",
        std::iter::repeat_n("heavy", 10).chain(["a", "b", "c", "d"]),
    ));
    let statistics = compute_statistics(&config, &dataset).expect("statistics should compute");
    let plan = build_plan(&config, &statistics).expect("plan should build");
    let heavy = &plan.metadata.heavy_keys[0];
    let structured_key = heavy
        .structured_key
        .as_ref()
        .expect("structured key should be present");

    assert_eq!(heavy.key, "7:user_id#utf8:5:heavy");
    assert_eq!(structured_key.encoded, heavy.key);
    assert_eq!(structured_key.parts[0].column, "user_id");
    assert_eq!(structured_key.parts[0].value_type, "utf8");
    assert_eq!(structured_key.parts[0].value.as_deref(), Some("heavy"));
}

#[test]
fn heavy_key_plan_contains_structured_int64_key() {
    let config = example_config();
    let rows = std::iter::repeat_n(Row::from_key_value("user_id", KeyValue::Int64(42)), 10)
        .chain([
            Row::from_key_value("user_id", KeyValue::Int64(1)),
            Row::from_key_value("user_id", KeyValue::Int64(2)),
            Row::from_key_value("user_id", KeyValue::Int64(3)),
            Row::from_key_value("user_id", KeyValue::Int64(4)),
        ])
        .collect();
    let dataset = InputDataset::from_rows(Dataset::new(rows));
    let statistics = compute_statistics(&config, &dataset).expect("statistics should compute");
    let plan = build_plan(&config, &statistics).expect("plan should build");
    let part = &plan.metadata.heavy_keys[0]
        .structured_key
        .as_ref()
        .unwrap()
        .parts[0];

    assert_eq!(plan.metadata.heavy_keys[0].key, "7:user_id#int64:42");
    assert_eq!(part.value_type, "int64");
    assert_eq!(part.value.as_deref(), Some("42"));
}

#[test]
fn heavy_key_plan_represents_null_key() {
    let config = example_config();
    let rows = std::iter::repeat_n(Row::from_key_value("user_id", KeyValue::Null), 10)
        .chain([
            Row::from_key_value("user_id", KeyValue::Utf8("a".to_string())),
            Row::from_key_value("user_id", KeyValue::Utf8("b".to_string())),
            Row::from_key_value("user_id", KeyValue::Utf8("c".to_string())),
            Row::from_key_value("user_id", KeyValue::Utf8("d".to_string())),
        ])
        .collect();
    let dataset = InputDataset::from_rows(Dataset::new(rows));
    let statistics = compute_statistics(&config, &dataset).expect("statistics should compute");
    let plan = build_plan(&config, &statistics).expect("plan should build");
    let part = &plan.metadata.heavy_keys[0]
        .structured_key
        .as_ref()
        .unwrap()
        .parts[0];

    assert_eq!(plan.metadata.heavy_keys[0].key, "7:user_id#null");
    assert_eq!(part.value_type, "null");
    assert_eq!(part.value, None);
}

#[test]
fn encoded_key_field_is_preserved_for_backward_compatibility() {
    let config = example_config();
    let dataset = InputDataset::from_rows(key_values(
        "user_id",
        std::iter::repeat_n("heavy", 10).chain(["a", "b", "c", "d"]),
    ));
    let statistics = compute_statistics(&config, &dataset).expect("statistics should compute");
    let plan = build_plan(&config, &statistics).expect("plan should build");

    assert_eq!(plan.metadata.heavy_keys[0].key, "7:user_id#utf8:5:heavy");
    assert!(plan.metadata.heavy_keys[0].structured_key.is_some());
}

#[test]
fn keeps_uniform_data_unsalted() {
    let config = example_config();
    let dataset = InputDataset::from_rows(key_values(
        "user_id",
        ["a", "a", "b", "b", "c", "c", "d", "d"]
            .into_iter()
            .map(String::from),
    ));
    let statistics = compute_statistics(&config, &dataset).expect("statistics should compute");

    let plan = build_plan(&config, &statistics).expect("plan should build");

    assert!(plan.metadata.heavy_keys.is_empty());
    assert_eq!(plan.metadata.normal_keys.len(), 4);
    assert!(plan
        .metadata
        .normal_keys
        .iter()
        .all(|key| key.partition_id < plan.metadata.output_partitions));
}

#[test]
fn derives_target_rows_from_configured_size_when_row_width_is_known() {
    let config = example_config();
    let dataset = InputDataset::from_rows(key_values(
        "user_id",
        [
            "heavy", "heavy", "heavy", "heavy", "heavy", "a", "b", "c", "d", "e",
        ]
        .into_iter()
        .map(String::from),
    ));
    let mut statistics =
        compute_statistics(&config, &dataset).expect("statistics should compute");
    statistics.metadata.input.estimated_row_width_bytes = Some(64 * 1024 * 1024);

    let plan = build_plan(&config, &statistics).expect("plan should build");

    assert_eq!(plan.metadata.target_partition_rows, 2);
    assert_eq!(plan.metadata.heavy_keys[0].salt_count, 3);
}

#[test]
fn small_dataset_does_not_use_max_partitions_when_one_partition_is_enough() {
    let config = config_with_partition_limits(1, 128, 128);
    let dataset = InputDataset::from_rows(key_values(
        "user_id",
        ["a", "a", "b", "b", "c", "c", "d", "d"]
            .into_iter()
            .map(String::from),
    ));
    let mut statistics =
        compute_statistics(&config, &dataset).expect("statistics should compute");
    statistics.metadata.input.estimated_row_width_bytes = Some(1024);

    let plan = build_plan(&config, &statistics).expect("plan should build");

    assert_eq!(plan.metadata.min_partitions, 1);
    assert_eq!(plan.metadata.max_partitions, 128);
    assert_eq!(plan.metadata.required_partitions_by_size, 1);
    assert_eq!(plan.metadata.output_partitions, 1);
    assert!(plan.metadata.feasibility.target_partition_size_satisfied);
    assert_eq!(plan.metadata.feasibility.reason, None);
}

#[test]
fn uniform_dataset_without_skew_produces_no_op_plan() {
    let config = config_with_rewrite_controls(false, 1.2);
    let dataset = input_dataset_with_file_size(
        key_values(
            "user_id",
            (0..100).flat_map(|_| ["a", "b", "c", "d"].into_iter().map(String::from)),
        ),
        1024,
    );
    let statistics = compute_statistics(&config, &dataset).expect("statistics should compute");

    let plan = build_plan(&config, &statistics).expect("plan should build");

    assert!(number(statistics.metadata.skew.max_mean_imbalance_ratio) <= 1.2);
    assert!(statistics.metadata.input.heavy_hitters.is_empty());
    assert!(plan.metadata.heavy_keys.is_empty());
    assert_eq!(plan.metadata.action, PlanAction::NoOp);
    assert!(!plan.metadata.rewrite_required);
    assert_eq!(
        plan.metadata.skip_reason.as_deref(),
        Some("no_rewrite_needed")
    );
    assert_eq!(plan.metadata.cost_estimate.estimated_rows_written, 0);
    assert_eq!(plan.metadata.cost_estimate.estimated_bytes_written, Some(0));
}

#[test]
fn heavy_key_dataset_produces_rewrite_plan() {
    let config = example_config();
    let dataset = InputDataset::from_rows(key_values(
        "user_id",
        std::iter::repeat_n("heavy", 40).chain(["a", "b", "c", "d"]),
    ));
    let statistics = compute_statistics(&config, &dataset).expect("statistics should compute");

    let plan = build_plan(&config, &statistics).expect("plan should build");

    assert_eq!(plan.metadata.action, PlanAction::Rewrite);
    assert!(plan.metadata.rewrite_required);
    assert_eq!(plan.metadata.cost_estimate.reason, "heavy_keys_detected");
    assert_eq!(plan.metadata.cost_estimate.estimated_rows_written, 44);
}

#[test]
fn force_rewrite_overrides_no_op_decision() {
    let config = config_with_rewrite_controls(true, 1.2);
    let dataset = input_dataset_with_file_size(
        key_values(
            "user_id",
            ["a", "a", "b", "b", "c", "c", "d", "d"]
                .into_iter()
                .map(String::from),
        ),
        1024,
    );
    let statistics = compute_statistics(&config, &dataset).expect("statistics should compute");

    let plan = build_plan(&config, &statistics).expect("plan should build");

    assert_eq!(plan.metadata.action, PlanAction::Rewrite);
    assert!(plan.metadata.rewrite_required);
    assert_eq!(plan.metadata.cost_estimate.reason, "force_rewrite");
    assert_eq!(plan.metadata.cost_estimate.estimated_rows_written, 8);
}

#[test]
fn large_dataset_is_capped_by_max_partitions() {
    let config = config_with_partition_limits(1, 4, 1);
    let dataset = InputDataset::from_rows(key_values(
        "user_id",
        (0..10).map(|index| format!("key_{index}")),
    ));
    let mut statistics =
        compute_statistics(&config, &dataset).expect("statistics should compute");
    statistics.metadata.input.estimated_row_width_bytes = Some(1024 * 1024);

    let plan = build_plan(&config, &statistics).expect("plan should build");

    assert_eq!(plan.metadata.required_partitions_by_size, 10);
    assert_eq!(plan.metadata.output_partitions, 4);
    assert!(!plan.metadata.feasibility.target_partition_size_satisfied);
    assert_eq!(
        plan.metadata.feasibility.reason.as_deref(),
        Some(REASON_REQUIRED_PARTITIONS_EXCEED_MAX)
    );
}

#[test]
fn plan_salts_keys_that_exceed_target_rows_even_without_mean_outliers() {
    let config = config_with_partition_limits(1, 128, 1);
    let rows = key_values(
        "user_id",
        std::iter::repeat_n("a", 2500)
            .chain(std::iter::repeat_n("b", 2500))
            .chain(std::iter::repeat_n("c", 2500))
            .chain(std::iter::repeat_n("d", 2500)),
    );
    let dataset = InputDataset {
        path: "<memory>".to_string(),
        format: DatasetFormat::Parquet,
        files: vec![InputFile {
            path: "input.parquet".to_string(),
            size_bytes: 104_850_000,
        }],
        rows,
        batches: Vec::new(),
    };
    let statistics = compute_statistics(&config, &dataset).expect("statistics should compute");

    let plan = build_plan(&config, &statistics).expect("plan should build");

    assert!(statistics.metadata.input.heavy_hitter_candidates.is_empty());
    assert_eq!(statistics.metadata.input.heavy_hitters.len(), 4);
    assert_eq!(plan.metadata.target_partition_rows, 100);
    assert_eq!(plan.metadata.heavy_keys.len(), 4);
    assert!(plan.metadata.normal_keys.is_empty());
    assert!(plan
        .metadata
        .heavy_keys
        .iter()
        .all(|heavy| heavy.salt_count == 25 && !heavy.salt_partitions.is_empty()));
}

#[test]
fn assigns_normal_keys_to_deterministic_hash_partitions() {
    let config = example_config();
    let dataset = InputDataset::from_rows(key_values(
        "user_id",
        ["a", "a", "b", "b", "c", "c", "d", "d"]
            .into_iter()
            .map(String::from),
    ));
    let statistics = compute_statistics(&config, &dataset).expect("statistics should compute");

    let first_plan = build_plan(&config, &statistics).expect("first plan should build");
    let second_plan = build_plan(&config, &statistics).expect("second plan should build");

    assert_eq!(
        first_plan.metadata.normal_keys,
        second_plan.metadata.normal_keys
    );
    assert_eq!(
        first_plan.metadata.hash_function,
        hashing::HASH_FUNCTION_NAME
    );
}

#[test]
fn statistics_before_estimates_use_same_hash_function_as_planner() {
    let config = config_with_normal_key_assignment("hash");
    let dataset = InputDataset::from_rows(key_values(
        "user_id",
        ["a", "a", "b", "b", "c", "c", "d", "d"]
            .into_iter()
            .map(String::from),
    ));
    let statistics = compute_statistics(&config, &dataset).expect("statistics should compute");
    let plan = build_plan(&config, &statistics).expect("plan should build");

    assert!(plan.metadata.heavy_keys.is_empty());

    let mut planned_sizes = vec![0_u64; plan.metadata.output_partitions];
    for key in &plan.metadata.normal_keys {
        planned_sizes[key.partition_id] += key.estimated_frequency;
    }

    assert_eq!(
        statistics.metadata.estimates.before_partition_sizes,
        planned_sizes
    );
}

#[test]
fn load_aware_assignment_reduces_normal_key_hash_skew() {
    let config = config_with_normal_key_assignment("load_aware");
    let dataset = InputDataset::from_rows(key_values(
        "user_id",
        normal_key_values_for_hash_partition(0, 12),
    ));
    let statistics = compute_statistics(&config, &dataset).expect("statistics should compute");
    let plan = build_plan(&config, &statistics).expect("plan should build");
    let planned_sizes = planned_normal_partition_sizes(&plan);

    assert!(plan.metadata.heavy_keys.is_empty());
    assert_eq!(
        plan.metadata.normal_key_assignment,
        NormalKeyAssignment::LoadAware
    );
    assert!(
        max_mean_imbalance_ratio(&planned_sizes)
            < max_mean_imbalance_ratio(&statistics.metadata.estimates.before_partition_sizes)
    );
}

#[test]
fn hash_assignment_preserves_previous_behavior_when_configured() {
    let config = config_with_normal_key_assignment("hash");
    let dataset = InputDataset::from_rows(key_values(
        "user_id",
        normal_key_values_for_hash_partition(0, 12),
    ));
    let statistics = compute_statistics(&config, &dataset).expect("statistics should compute");
    let plan = build_plan(&config, &statistics).expect("plan should build");

    assert_eq!(
        plan.metadata.normal_key_assignment,
        NormalKeyAssignment::Hash
    );
    assert!(plan.metadata.normal_keys.iter().all(|normal| {
        normal.partition_id
            == hashing::partition_id(
                &normal.key,
                plan.metadata.output_partitions,
                plan.metadata.seed,
            )
    }));
    assert_eq!(plan.metadata.action, PlanAction::NoOp);
    assert_eq!(
        plan.metadata.skip_reason.as_deref(),
        Some("planned_distribution_does_not_improve_skew")
    );
}

#[test]
fn rewrite_with_normal_key_skew_improves_after_partition_sizes() {
    let config = config_with_normal_key_assignment("load_aware");
    let dataset = InputDataset::from_rows(key_values(
        "user_id",
        normal_key_values_for_hash_partition(0, 12),
    ));
    let statistics = compute_statistics(&config, &dataset).expect("statistics should compute");
    let plan = build_plan(&config, &statistics).expect("plan should build");
    let planned_sizes = planned_normal_partition_sizes(&plan);

    assert_eq!(plan.metadata.action, PlanAction::Rewrite);
    assert!(plan.metadata.rewrite_required);
    assert_eq!(
        plan.metadata.cost_estimate.reason,
        "max_partition_exceeds_target_rows"
    );
    assert!(
        max_mean_imbalance_ratio(&planned_sizes)
            < max_mean_imbalance_ratio(&statistics.metadata.estimates.before_partition_sizes)
    );
}

#[test]
fn normal_key_assignment_is_deterministic() {
    let config = config_with_normal_key_assignment("load_aware");
    let dataset = InputDataset::from_rows(key_values(
        "user_id",
        normal_key_values_for_hash_partition(0, 12),
    ));
    let statistics = compute_statistics(&config, &dataset).expect("statistics should compute");

    let first_plan = build_plan(&config, &statistics).expect("first plan should build");
    let second_plan = build_plan(&config, &statistics).expect("second plan should build");

    assert_eq!(
        first_plan.metadata.normal_keys,
        second_plan.metadata.normal_keys
    );
}

#[test]
fn produces_serializable_partition_plan() {
    let config = example_config();
    let dataset = InputDataset::from_rows(key_values(
        "user_id",
        [
            "heavy", "heavy", "heavy", "heavy", "heavy", "heavy", "heavy", "heavy", "heavy",
            "heavy", "a", "b", "c", "d",
        ]
        .into_iter()
        .map(String::from),
    ));
    let statistics = compute_statistics(&config, &dataset).expect("statistics should compute");
    let plan = build_plan(&config, &statistics).expect("plan should build");

    assert_eq!(plan.metadata.normal_keys.len(), 4);
    assert!(!plan.metadata.heavy_keys[0].salt_partitions.is_empty());
    assert_eq!(plan.metadata.target_partition_rows, 4);
    assert_eq!(plan.metadata.required_partitions_by_size, 4);
    assert!(!plan.metadata.feasibility.target_partition_size_satisfied);
    assert_eq!(
        plan.metadata.feasibility.reason.as_deref(),
        Some(REASON_ESTIMATED_ROW_WIDTH_UNAVAILABLE)
    );
    assert_eq!(
        plan.metadata.recommended_downstream_plan.strategy,
        "two_stage_group_by"
    );
    assert_eq!(
        plan.metadata.normal_key_assignment,
        NormalKeyAssignment::LoadAware
    );
}

#[test]
fn group_by_plan_recommends_two_stage_group_by() {
    let config = config_with_job_type("group_by");
    let plan = build_plan_for_job_config(&config);

    let recommendation = &plan.metadata.recommended_downstream_plan;
    assert_eq!(plan.metadata.job_type, JobType::GroupBy);
    assert_eq!(recommendation.strategy, "two_stage_group_by");
    assert!(recommendation.requires_operator_rewrite);
    assert_eq!(
        recommendation.partition_column.as_deref(),
        Some("_rp_partition_id")
    );
    assert_eq!(recommendation.salt_column.as_deref(), Some("_rp_salt"));
    assert_eq!(
        recommendation.heavy_key_column.as_deref(),
        Some("_rp_is_heavy_key")
    );
    assert_eq!(
        recommendation.partial_group_keys,
        vec![
            "_rp_partition_id".to_string(),
            "_rp_salt".to_string(),
            "user_id".to_string()
        ]
    );
    assert_eq!(recommendation.final_group_keys, vec!["user_id".to_string()]);
}

#[test]
fn group_by_recommendation_contains_salt_column() {
    let config = config_with_job_type("group_by");
    let plan = build_plan_for_job_config(&config);

    assert!(plan
        .metadata
        .recommended_downstream_plan
        .partial_group_keys
        .contains(&"_rp_salt".to_string()));
}

#[test]
fn group_by_plan_notes_missing_technical_columns_for_method_aware_mode() {
    let config = config_with_disabled_technical_columns("group_by");
    let plan = build_plan_for_job_config(&config);
    let recommendation = &plan.metadata.recommended_downstream_plan;

    assert_eq!(
        recommendation.partial_group_keys,
        vec!["user_id".to_string()]
    );
    assert_eq!(recommendation.salt_column, None);
    assert!(recommendation
        .notes
        .contains(&"method_aware_group_by_requires_technical_columns".to_string()));
}

#[test]
fn join_recommendation_records_missing_join_plan_note() {
    let config = config_with_job_type("join");
    let plan = build_plan_for_job_config(&config);

    let recommendation = &plan.metadata.recommended_downstream_plan;
    assert_eq!(plan.metadata.job_type, JobType::Join);
    assert!(plan.metadata.join_plan.is_none());
    assert_eq!(recommendation.strategy, "generic_join_repartitioning");
    assert!(recommendation.requires_operator_rewrite);
    assert_eq!(recommendation.join_keys, vec!["user_id".to_string()]);
    assert!(recommendation
        .notes
        .contains(&"join_plan_missing".to_string()));
    assert_eq!(recommendation.salt_column.as_deref(), Some("_rp_salt"));
    assert_eq!(
        recommendation.heavy_key_column.as_deref(),
        Some("_rp_is_heavy_key")
    );
}

#[test]
fn join_recommendation_uses_broadcast_strategy_for_small_right_side() {
    let config = config_with_join(10);
    let left_dataset =
        InputDataset::from_rows(key_values("user_id", ["a", "b", "c", "d"]));
    let right_dataset = input_dataset_with_file_size(
        key_values("user_id", ["a", "b"]),
        2 * 1024 * 1024,
    );

    let plan = build_join_plan(&config, left_dataset, right_dataset);
    let join_plan = plan.metadata.join_plan.as_ref().unwrap();
    let recommendation = &plan.metadata.recommended_downstream_plan;

    assert_eq!(
        join_plan.recommended_strategy,
        "broadcast_join_recommendation"
    );
    assert_eq!(recommendation.strategy, "broadcast_join");
    assert!(recommendation.requires_operator_rewrite);
    assert!(recommendation
        .notes
        .contains(&"right_side_broadcastable".to_string()));
    assert_eq!(join_plan.right_side_size_mb, Some(2));
    assert_eq!(join_plan.broadcast_threshold_mb, Some(10));
}

#[test]
fn join_recommendation_uses_salted_strategy_for_shared_heavy_keys() {
    let config = config_with_join(0);
    let left_dataset = InputDataset::from_rows(key_values(
        "user_id",
        std::iter::repeat_n("heavy", 40).chain(["a", "b", "c", "d"]),
    ));
    let right_dataset = input_dataset_with_file_size(
        key_values(
            "user_id",
            std::iter::repeat_n("heavy", 30).chain(["x", "y"]),
        ),
        2 * 1024 * 1024,
    );

    let plan = build_join_plan(&config, left_dataset, right_dataset);
    let join_plan = plan.metadata.join_plan.as_ref().unwrap();
    let recommendation = &plan.metadata.recommended_downstream_plan;

    assert_eq!(join_plan.recommended_strategy, "salted_heavy_key_join");
    assert_eq!(recommendation.strategy, "salted_heavy_key_join");
    assert!(recommendation.requires_operator_rewrite);
    assert!(recommendation
        .notes
        .contains(&"shared_heavy_keys_detected".to_string()));
    assert_eq!(
        join_plan.shared_heavy_keys,
        vec!["7:user_id#utf8:5:heavy".to_string()]
    );
    assert_eq!(join_plan.shared_heavy_key_values.len(), 1);
    assert_eq!(
        join_plan.shared_heavy_key_values[0].encoded,
        "7:user_id#utf8:5:heavy"
    );
    assert_eq!(
        join_plan.shared_heavy_key_values[0].parts[0].column,
        "user_id"
    );
    assert_eq!(
        join_plan.shared_heavy_key_values[0].parts[0].value_type,
        "utf8"
    );
    assert_eq!(
        join_plan.shared_heavy_key_values[0].parts[0]
            .value
            .as_deref(),
        Some("heavy")
    );
    assert_eq!(join_plan.left_heavy_keys.len(), 1);
    assert_eq!(join_plan.right_heavy_keys.len(), 1);
}

#[test]
fn join_plan_contains_shared_structured_heavy_keys() {
    let config = config_with_join(0);
    let left_dataset = InputDataset::from_rows(key_values(
        "user_id",
        std::iter::repeat_n("heavy", 40).chain(["a", "b", "c", "d"]),
    ));
    let right_dataset = input_dataset_with_file_size(
        key_values(
            "user_id",
            std::iter::repeat_n("heavy", 30).chain(["x", "y"]),
        ),
        2 * 1024 * 1024,
    );

    let plan = build_join_plan(&config, left_dataset, right_dataset);
    let join_plan = plan.metadata.join_plan.as_ref().unwrap();

    assert_eq!(join_plan.left_heavy_key_values.len(), 1);
    assert_eq!(join_plan.right_heavy_key_values.len(), 1);
    assert_eq!(join_plan.shared_heavy_key_values.len(), 1);
    assert_eq!(
        join_plan.shared_heavy_key_values[0].parts[0]
            .value
            .as_deref(),
        Some("heavy")
    );
}

#[test]
fn join_recommendation_uses_heavy_key_isolation_for_one_sided_heavy_keys() {
    let config = config_with_join(0);
    let left_dataset = InputDataset::from_rows(key_values(
        "user_id",
        std::iter::repeat_n("heavy", 40).chain(["a", "b", "c", "d"]),
    ));
    let right_dataset = input_dataset_with_file_size(
        key_values("user_id", (0..40).map(|index| format!("right_{index}"))),
        2 * 1024 * 1024,
    );

    let plan = build_join_plan(&config, left_dataset, right_dataset);
    let join_plan = plan.metadata.join_plan.as_ref().unwrap();
    let recommendation = &plan.metadata.recommended_downstream_plan;

    assert_eq!(join_plan.recommended_strategy, "heavy_key_isolation_join");
    assert_eq!(recommendation.strategy, "heavy_key_isolation_join");
    assert!(recommendation.requires_operator_rewrite);
    assert!(recommendation
        .notes
        .contains(&"one_sided_heavy_keys_detected".to_string()));
    assert!(join_plan.shared_heavy_keys.is_empty());
    assert_eq!(join_plan.left_heavy_keys.len(), 1);
    assert!(join_plan.right_heavy_keys.is_empty());
}

#[test]
fn join_recommendation_uses_physical_only_without_heavy_keys() {
    let config = config_with_join(0);
    let left_dataset = InputDataset::from_rows(key_values(
        "user_id",
        (0..40).map(|index| format!("left_{index}")),
    ));
    let right_dataset = input_dataset_with_file_size(
        key_values("user_id", (0..40).map(|index| format!("right_{index}"))),
        2 * 1024 * 1024,
    );

    let plan = build_join_plan(&config, left_dataset, right_dataset);
    let join_plan = plan.metadata.join_plan.as_ref().unwrap();
    let recommendation = &plan.metadata.recommended_downstream_plan;

    assert_eq!(join_plan.recommended_strategy, "physical_only");
    assert_eq!(recommendation.strategy, "physical_repartitioning");
    assert!(!recommendation.requires_operator_rewrite);
    assert!(recommendation
        .notes
        .contains(&"no_join_heavy_keys_detected".to_string()));
    assert!(join_plan.left_heavy_keys.is_empty());
    assert!(join_plan.right_heavy_keys.is_empty());
    assert!(join_plan.shared_heavy_keys.is_empty());
}

#[test]
fn scan_plan_does_not_require_operator_rewrite() {
    let config = config_with_job_type("scan");
    let plan = build_plan_for_job_config(&config);

    let recommendation = &plan.metadata.recommended_downstream_plan;
    assert_eq!(plan.metadata.job_type, JobType::Scan);
    assert_eq!(recommendation.strategy, "physical_repartitioning");
    assert!(!recommendation.requires_operator_rewrite);
    assert_eq!(
        recommendation.partition_column.as_deref(),
        Some("_rp_partition_id")
    );
}

#[test]
fn filter_plan_records_unknown_selectivity_note() {
    let config = config_with_job_type("filter");
    let plan = build_plan_for_job_config(&config);

    let recommendation = &plan.metadata.recommended_downstream_plan;
    assert_eq!(
        recommendation.strategy,
        "physical_repartitioning_with_filter_awareness"
    );
    assert!(!recommendation.requires_operator_rewrite);
    assert!(recommendation
        .notes
        .contains(&"filter_selectivity_unknown".to_string()));
}

fn config_with_partition_limits(
    min_partitions: usize,
    max_partitions: usize,
    target_partition_size_mb: u64,
) -> Config {
    config_from_yaml(&format!(
        r#"
dataset:
  input: "./data/input.parquet"
  output: "./data/output_partitioned"
  format: "parquet"

partitioning:
  key_columns: ["user_id"]
  min_partitions: {min_partitions}
  target_partition_size_mb: {target_partition_size_mb}
  max_partitions: {max_partitions}
  strategy: "adaptive_hash_salt"
  heavy_key_alpha: 2.0
  seed: 42

job:
  type: "group_by"
  downstream_engine: "spark"

resources:
  local_threads: 8
  memory_limit_mb: 4096
"#
    ))
    .expect("test config should parse")
}

fn config_with_rewrite_controls(force_rewrite: bool, no_op_max_imbalance_ratio: f64) -> Config {
    config_from_yaml(&format!(
        r#"
dataset:
  input: "./data/input.parquet"
  output: "./data/output_partitioned"
  format: "parquet"

partitioning:
  key_columns: ["user_id"]
  target_partition_size_mb: 128
  max_partitions: 128
  strategy: "adaptive_hash_salt"
  heavy_key_alpha: 2.0
  force_rewrite: {force_rewrite}
  no_op_max_imbalance_ratio: {no_op_max_imbalance_ratio}
  seed: 42

job:
  type: "group_by"
  downstream_engine: "spark"

resources:
  local_threads: 8
  memory_limit_mb: 4096
"#
    ))
    .expect("test config should parse")
}

fn config_with_normal_key_assignment(normal_key_assignment: &str) -> Config {
    config_from_yaml(&format!(
        r#"
dataset:
  input: "./data/input.parquet"
  output: "./data/output_partitioned"
  format: "parquet"

partitioning:
  key_columns: ["user_id"]
  target_partition_size_mb: 128
  max_partitions: 4
  strategy: "adaptive_hash_salt"
  normal_key_assignment: "{normal_key_assignment}"
  heavy_key_alpha: 2.0
  seed: 42

job:
  type: "group_by"
  downstream_engine: "spark"

resources:
  local_threads: 8
  memory_limit_mb: 4096
"#
    ))
    .expect("test config should parse")
}

fn config_with_job_type(job_type: &str) -> Config {
    config_from_yaml(&format!(
        r#"
dataset:
  input: "./data/input.parquet"
  output: "./data/output_partitioned"
  format: "parquet"

partitioning:
  key_columns: ["user_id"]
  target_partition_size_mb: 128
  max_partitions: 4
  strategy: "adaptive_hash_salt"
  heavy_key_alpha: 2.0
  seed: 42

job:
  type: "{job_type}"
  downstream_engine: "spark"

resources:
  local_threads: 8
  memory_limit_mb: 4096
"#
    ))
    .expect("test config should parse")
}

fn config_with_disabled_technical_columns(job_type: &str) -> Config {
    config_from_yaml(&format!(
        r#"
dataset:
  input: "./data/input.parquet"
  output: "./data/output_partitioned"
  format: "parquet"

partitioning:
  key_columns: ["user_id"]
  target_partition_size_mb: 128
  max_partitions: 4
  strategy: "adaptive_hash_salt"
  heavy_key_alpha: 2.0
  seed: 42

output:
  include_technical_columns: false

job:
  type: "{job_type}"
  downstream_engine: "spark"

resources:
  local_threads: 8
  memory_limit_mb: 4096
"#
    ))
    .expect("test config should parse")
}

fn config_with_join(broadcast_threshold_mb: u64) -> Config {
    config_from_yaml(&format!(
        r#"
dataset:
  input: "./data/left.parquet"
  output: "./data/output_partitioned"
  format: "parquet"

partitioning:
  key_columns: ["user_id"]
  target_partition_size_mb: 128
  max_partitions: 4
  strategy: "adaptive_hash_salt"
  heavy_key_alpha: 2.0
  seed: 42

job:
  type: "join"
  downstream_engine: "spark"

join:
  left_input: "./data/left.parquet"
  right_input: "./data/right.parquet"
  join_keys: ["user_id"]
  right_side_mode: "broadcast_if_small"
  broadcast_threshold_mb: {broadcast_threshold_mb}

resources:
  local_threads: 8
  memory_limit_mb: 4096
"#
    ))
    .expect("join test config should parse")
}

fn build_plan_for_job_config(config: &Config) -> Plan {
    let dataset = InputDataset::from_rows(key_values(
        "user_id",
        ["heavy", "heavy", "heavy", "heavy", "a", "b", "c", "d"],
    ));
    let statistics = compute_statistics(config, &dataset).expect("statistics should compute");
    build_plan(config, &statistics).expect("plan should build")
}

fn build_join_plan(
    config: &Config,
    left_dataset: InputDataset,
    right_dataset: InputDataset,
) -> Plan {
    let mut left_statistics =
        compute_statistics(config, &left_dataset).expect("left statistics should compute");
    let right_statistics =
        compute_statistics(config, &right_dataset).expect("right statistics should compute");
    left_statistics.set_join_statistics(build_join_statistics(
        config.join.as_ref().unwrap().join_keys.clone(),
        &left_statistics,
        Some(&right_statistics),
    ));

    build_plan(config, &left_statistics).expect("join plan should build")
}

fn input_dataset_with_file_size(rows: Dataset, size_bytes: u64) -> InputDataset {
    InputDataset {
        path: "input.parquet".to_string(),
        format: DatasetFormat::Parquet,
        files: vec![InputFile {
            path: "input.parquet".to_string(),
            size_bytes,
        }],
        rows,
        batches: Vec::new(),
    }
}

fn normal_key_values_for_hash_partition(partition_id: usize, count: usize) -> Vec<String> {
    let mut values = Vec::new();
    let mut candidate = 0;
    while values.len() < count {
        let value = format!("normal_{candidate}");
        let row = Row::from_key_value("user_id", KeyValue::Utf8(value.clone()));
        let key = row
            .partition_key(&["user_id".to_string()])
            .expect("row should have partition key");
        if hashing::partition_id(&key, 4, 42) == partition_id {
            values.push(value);
        }
        candidate += 1;
    }
    values
}

fn planned_normal_partition_sizes(plan: &Plan) -> Vec<u64> {
    let mut sizes = vec![0; plan.metadata.output_partitions];
    for normal in &plan.metadata.normal_keys {
        sizes[normal.partition_id] += normal.estimated_frequency;
    }
    sizes
}

#[test]
fn assigns_records_deterministically() {
    let config = example_config();
    let dataset = InputDataset::from_rows(key_values(
        "user_id",
        ["heavy", "heavy", "heavy", "heavy", "a", "b", "c", "d"],
    ));
    let statistics = compute_statistics(&config, &dataset).expect("statistics should compute");
    let plan = build_plan(&config, &statistics).expect("plan should build");

    let first = assign_partitions(&plan, &dataset).expect("first assignment should work");
    let second = assign_partitions(&plan, &dataset).expect("second assignment should work");

    assert_eq!(first, second);
    assert_eq!(first.records.len(), 8);
    assert_eq!(first.partition_row_counts.iter().sum::<u64>(), 8);
}

#[test]
fn assigns_heavy_key_records_across_salt_partitions() {
    let config = example_config();
    let dataset = InputDataset::from_rows(key_values(
        "user_id",
        [
            "heavy", "heavy", "heavy", "heavy", "heavy", "heavy", "heavy", "heavy", "heavy",
            "heavy", "a", "b", "c", "d",
        ],
    ));
    let statistics = compute_statistics(&config, &dataset).expect("statistics should compute");
    let plan = build_plan(&config, &statistics).expect("plan should build");

    let assignments = assign_partitions(&plan, &dataset).expect("assignment should work");
    let heavy_salt_indexes: Vec<_> = assignments
        .records
        .iter()
        .filter(|record| record.key.as_deref() == Some("7:user_id#utf8:5:heavy"))
        .filter_map(|record| record.salt_index)
        .collect();

    assert_eq!(heavy_salt_indexes.len(), 10);
    assert_eq!(&heavy_salt_indexes[0..6], &[0, 1, 2, 0, 1, 2]);
}

#[test]
fn skewed_data_has_lower_max_mean_imbalance_after_adaptive_partitioning() {
    let config = example_config();
    let dataset = InputDataset::from_rows(key_values(
        "user_id",
        std::iter::repeat_n("heavy", 40).chain(["a", "b", "c", "d", "e", "f", "g", "h"]),
    ));
    let statistics = compute_statistics(&config, &dataset).expect("statistics should compute");
    let plan = build_plan(&config, &statistics).expect("plan should build");

    let adaptive = assign_partitions(&plan, &dataset).expect("assignment should work");
    let before_ratio =
        max_mean_imbalance_ratio(&statistics.metadata.estimates.before_partition_sizes);
    let after_ratio = max_mean_imbalance_ratio(&adaptive.partition_row_counts);

    assert!(after_ratio < before_ratio);
}

#[test]
fn partitioner_uses_normal_key_plan_not_hash_fallback() {
    let config = config_with_load_aware_normal_keys();
    let values = normal_key_values_for_hash_partition(0, 12);
    let dataset = InputDataset::from_rows(key_values("user_id", values));
    let statistics = compute_statistics(&config, &dataset).expect("statistics should compute");
    let plan = build_plan(&config, &statistics).expect("plan should build");

    let assignments = assign_partitions(&plan, &dataset).expect("assignment should work");
    let normal_lookup: BTreeMap<&str, usize> = plan
        .metadata
        .normal_keys
        .iter()
        .map(|key| (key.key.as_str(), key.partition_id))
        .collect();

    assert!(plan.metadata.normal_keys.iter().any(|normal| {
        normal.partition_id
            != hashing::partition_id(
                &normal.key,
                plan.metadata.output_partitions,
                plan.metadata.seed,
            )
    }));
    assert!(assignments.records.iter().all(|record| {
        let Some(key) = record.key.as_deref() else {
            return false;
        };
        normal_lookup.get(key).copied() == Some(record.partition_id)
    }));
}

fn max_mean_imbalance_ratio(partition_sizes: &[u64]) -> f64 {
    if partition_sizes.is_empty() {
        return 0.0;
    }

    let mean = partition_sizes.iter().sum::<u64>() as f64 / partition_sizes.len() as f64;
    if mean == 0.0 {
        return 0.0;
    }

    *partition_sizes.iter().max().unwrap_or(&0) as f64 / mean
}

fn config_with_load_aware_normal_keys() -> Config {
    config_from_yaml(
        r#"
dataset:
  input: "./data/input.parquet"
  output: "./data/output_partitioned"
  format: "parquet"

partitioning:
  key_columns: ["user_id"]
  target_partition_size_mb: 128
  max_partitions: 4
  strategy: "adaptive_hash_salt"
  normal_key_assignment: "load_aware"
  heavy_key_alpha: 2.0
  seed: 42

job:
  type: "group_by"
  downstream_engine: "spark"

resources:
  local_threads: 8
  memory_limit_mb: 4096
"#,
    )
    .expect("test config should parse")
}

#[test]
fn file_size_balancing_is_refused() {
    let mut config = example_config();
    config.partitioning.strategy = PartitioningStrategy::FileSizeBalancing;
    let dataset = InputDataset::from_rows(key_values("user_id", ["a", "b"]));
    let statistics = compute_statistics(&config, &dataset).expect("statistics should compute");
    let error = build_plan(&config, &statistics).expect_err("the strategy is not implemented");
    assert!(matches!(
        error,
        Error::UnsupportedStrategy(message) if message
            == "partitioning.strategy file_size_balancing is not implemented; use adaptive_hash_salt"
    ));
}

#[test]
fn plan_carries_its_time() {
    let config = example_config();
    let dataset = InputDataset::from_rows(key_values("user_id", ["a", "b"]));
    let statistics = compute_statistics(&config, &dataset).expect("statistics should compute");
    let plan = build_plan_at(&config, &statistics, 1_700_000_000).expect("plan should build");
    assert_eq!(plan.metadata.created_at, "unix_seconds:1700000000");
    let now = build_plan(&config, &statistics).expect("plan should build").metadata.created_at;
    let seconds: u64 = now
        .strip_prefix("unix_seconds:")
        .and_then(|text| text.parse().ok())
        .expect("the time should be a number");
    assert!(seconds > 1_600_000_000);
}

/// Plans a dataset and compares what the partitions receive with what they were
/// given.
fn assert_loads_met(config: &Config, values: Vec<&str>) {
    let dataset = InputDataset::from_rows(key_values("user_id", values));
    let statistics = compute_statistics(config, &dataset).expect("statistics should compute");
    let plan = build_plan(config, &statistics).expect("plan should build");
    let assignments = assign_partitions(&plan, &dataset).expect("assignment should work");

    let mut planned = planned_normal_partition_sizes(&plan);
    for heavy in &plan.metadata.heavy_keys {
        for salt in &heavy.salt_partitions {
            planned[salt.partition_id] += estimated_salt_load(
                heavy.estimated_frequency,
                heavy.salt_count,
                salt.salt_index,
            );
        }
    }
    assert_eq!(assignments.partition_row_counts, planned);
    assert_eq!(planned.iter().sum::<u64>(), dataset.rows.row_count());
}

#[test]
fn partitions_receive_their_planned_loads() {
    let values: Vec<&str> = std::iter::repeat_n("heavy", 41)
        .chain(["a", "b", "c", "d", "a"])
        .chain(std::iter::repeat_n("large", 17))
        .collect();
    assert_loads_met(&example_config(), values.clone());
    assert_loads_met(&config_with_normal_key_assignment("hash"), values);
}

#[test]
fn heavy_rows_are_spread_evenly() {
    let config = example_config();
    let dataset = InputDataset::from_rows(key_values(
        "user_id",
        std::iter::repeat_n("heavy", 41).chain(["a", "b", "c", "d"]),
    ));
    let statistics = compute_statistics(&config, &dataset).expect("statistics should compute");
    let plan = build_plan(&config, &statistics).expect("plan should build");
    let assignments = assign_partitions(&plan, &dataset).expect("assignment should work");
    let salts = plan.metadata.heavy_keys[0].salt_count;
    assert_eq!(salts, 4);
    let mut rows = vec![0u64; salts];
    for record in &assignments.records {
        if let Some(salt) = record.salt_index {
            rows[salt] += 1;
        }
    }
    assert_eq!(rows, vec![11, 10, 10, 10]);
}

#[test]
fn rows_without_a_key_share_a_partition() {
    let config = example_config();
    let dataset = InputDataset::from_rows(Dataset::new(vec![
        Row::from_key_value("user_id", KeyValue::Utf8("a".to_string())),
        Row::from_key_value("other", KeyValue::Int64(1)),
        Row::from_key_value("other", KeyValue::Int64(2)),
    ]));
    let statistics = compute_statistics(&config, &dataset).expect("statistics should compute");
    assert_eq!(statistics.metadata.input.total_rows, 3);
    assert_eq!(statistics.metadata.input.distinct_keys, Some(1));
    let plan = build_plan(&config, &statistics).expect("plan should build");
    let assignments = assign_partitions(&plan, &dataset).expect("assignment should work");
    let hashed = hashing::partition_id(
        "<missing_partition_key>",
        plan.metadata.output_partitions,
        plan.metadata.seed,
    );
    assert_eq!(assignments.records[1].key, None);
    assert_eq!(assignments.records[1].partition_id, hashed);
    assert_eq!(assignments.records[2].partition_id, hashed);
    assert_eq!(assignments.records[1].salt_index, None);
}

#[test]
fn unplanned_keys_go_by_hash_and_last_entries_win() {
    let config = example_config();
    let dataset = InputDataset::from_rows(key_values("user_id", ["a", "b", "b", "b"]));
    let statistics = compute_statistics(&config, &dataset).expect("statistics should compute");
    let mut plan = build_plan(&config, &statistics).expect("plan should build");
    let a = "7:user_id#utf8:1:a".to_string();
    let b = "7:user_id#utf8:1:b".to_string();
    plan.metadata.normal_keys = vec![
        NormalKeyPlan { key: a.clone(), estimated_frequency: 1, partition_id: 1 },
        NormalKeyPlan { key: a.clone(), estimated_frequency: 1, partition_id: 3 },
    ];
    plan.metadata.heavy_keys = vec![HeavyKeyPlan {
        key: b.clone(),
        structured_key: None,
        estimated_frequency: 3,
        detection_reasons: Vec::new(),
        salt_count: 2,
        salt_partitions: vec![
            SaltPartitionPlan { salt_index: 0, partition_id: 2 },
            SaltPartitionPlan { salt_index: 5, partition_id: 9 },
        ],
    }];
    let assignments = assign_partitions(&plan, &dataset).expect("assignment should work");
    let hashed = hashing::partition_id(&b, plan.metadata.output_partitions, plan.metadata.seed);
    let places: Vec<(usize, Option<usize>)> = assignments
        .records
        .iter()
        .map(|record| (record.partition_id, record.salt_index))
        .collect();
    assert_eq!(places, vec![(3, None), (2, Some(0)), (hashed, Some(1)), (2, Some(0))]);

    plan.metadata.normal_keys.clear();
    plan.metadata.heavy_keys.clear();
    let assignments = assign_partitions(&plan, &dataset).expect("assignment should work");
    assert_eq!(
        assignments.records[0].partition_id,
        hashing::partition_id(&a, plan.metadata.output_partitions, plan.metadata.seed)
    );
}

#[test]
fn approximate_statistics_plan_no_normal_keys() {
    let mut config = example_config();
    config.statistics.heavy_hitter_mode = HeavyHitterMode::Approximate;
    let dataset = InputDataset::from_rows(key_values(
        "user_id",
        std::iter::repeat_n("heavy", 40).chain(["a", "b", "c", "d"]),
    ));
    let statistics = compute_statistics(&config, &dataset).expect("statistics should compute");
    assert_eq!(statistics.metadata.input.distinct_keys, None);
    assert!(!statistics.metadata.heavy_hitter_detection.key_frequencies_exact);
    assert!(statistics.metadata.heavy_hitter_detection.key_frequencies_truncated);
    assert!(!statistics.metadata.heavy_hitter_detection.normal_keys_materialized);
    let plan = build_plan(&config, &statistics).expect("plan should build");
    assert!(plan.metadata.normal_keys.is_empty());
    assert_eq!(plan.metadata.heavy_keys.len(), 1);
}

#[test]
fn left_side_of_a_join_takes_the_input() {
    let mut config = config_with_join(10);
    config.dataset.input = "elsewhere".to_string();
    config.partitioning.key_columns = vec!["other".to_string()];
    let right = right_side_config(&config).expect("a join is asked for");
    assert_eq!(right.dataset.input, "./data/right.parquet");
    assert_eq!(right.partitioning.key_columns, vec!["user_id".to_string()]);
    assert_eq!(right.output, config.output);

    apply_join_inputs(&mut config);
    assert_eq!(config.dataset.input, "./data/left.parquet");
    assert_eq!(config.partitioning.key_columns, vec!["user_id".to_string()]);

    let mut scan = config_with_job_type("scan");
    let before = scan.clone();
    apply_join_inputs(&mut scan);
    assert_eq!(scan, before);
    assert!(right_side_config(&scan).is_none());
}

#[test]
fn arguments_win_over_the_configuration() {
    let args = CliArgs {
        input: Some("in.parquet".to_string()),
        output: Some("out".to_string()),
        config: "config.yaml".to_string(),
    };
    let loaded = args.load_config(example_config()).expect("config should be valid");
    assert_eq!(loaded.dataset.input, "in.parquet");
    assert_eq!(loaded.output.path, "out");

    let silent = CliArgs { input: None, output: None, config: "config.yaml".to_string() };
    assert_eq!(silent.load_config(example_config()).expect("config should be valid"), example_config());

    let empty = CliArgs { input: Some(String::new()), output: None, config: String::new() };
    let error = empty.load_config(example_config()).expect_err("an empty path is no input");
    assert!(matches!(
        error,
        Error::InvalidConfig(ConfigValidationError::MissingInputPath)
    ));
}

#[test]
fn resources_allow_at_least_one_thread() {
    let mut config = example_config();
    let resources = ExecutionResources::from_config(&config);
    assert_eq!(resources.local_threads, 8);
    assert_eq!(resources.memory_limit_mb, 4096);
    assert!(!resources.parallel_execution_enabled);
    assert_eq!(resources.open_writer_limit(), 8);
    config.resources.local_threads = 0;
    assert_eq!(ExecutionResources::from_config(&config).local_threads, 1);
    let none = ExecutionResources { local_threads: 0, ..resources };
    assert_eq!(none.open_writer_limit(), 1);
}

#[test]
fn targets_are_clamped() {
    let config = config_with_partition_limits(2, 4, 1);
    let few = compute_target_partitioning(&config, 10, Some(1));
    assert_eq!(few.output_partitions, 2);
    assert_eq!(few.required_partitions_by_size, 1);
    assert_eq!(few.target_partition_rows, 5);
    assert!(few.target_size_satisfied);
    let many = compute_target_partitioning(&config, 1_000, Some(1024 * 1024));
    assert_eq!(many.output_partitions, 4);
    assert_eq!(many.required_partitions_by_size, 1_000);
    assert_eq!(many.target_partition_rows, 1);
    let empty = compute_target_partitioning(&config, 0, None);
    assert_eq!(empty.output_partitions, 4);
    assert_eq!(empty.target_partition_rows, 1);
    let huge = compute_target_partitioning(&config, u64::MAX, Some(u64::MAX));
    assert_eq!(huge.output_partitions, 4);
    assert_eq!(huge.required_partitions_by_size, 17_592_186_044_416);
}

#[test]
fn salts_follow_the_frequency() {
    assert_eq!(salt_count(10, 4), 3);
    assert_eq!(salt_count(8, 4), 2);
    assert_eq!(salt_count(0, 4), 1);
    assert_eq!(salt_count(5, 0), 5);
    assert_eq!(estimated_salt_load(10, 3, 0), 4);
    assert_eq!(estimated_salt_load(10, 3, 1), 3);
    assert_eq!(estimated_salt_load(10, 3, 2), 3);
    assert_eq!(estimated_salt_load(10, 0, 0), 10);
}

#[test]
fn planned_loads_stay_near_the_mean() {
    let config = config_with_normal_key_assignment("load_aware");
    let values: Vec<String> = (0..200u64)
        .flat_map(|index| std::iter::repeat_n(format!("key_{index}"), (index % 13) as usize))
        .chain(std::iter::repeat_n("heavy".to_string(), 500))
        .collect();
    let dataset = InputDataset::from_rows(key_values("user_id", values));
    let statistics = compute_statistics(&config, &dataset).expect("statistics should compute");
    let plan = build_plan(&config, &statistics).expect("plan should build");
    let assignments = assign_partitions(&plan, &dataset).expect("assignment should work");
    let n = plan.metadata.output_partitions as u64;
    for rows in &assignments.partition_row_counts {
        assert!(n * rows <= dataset.rows.row_count() + n * plan.metadata.target_partition_rows);
    }
}

#[test]
fn salts_hold_no_more_than_a_partition_should() {
    for frequency in [1u64, 7, 100, 101, 99_999] {
        for rows in [1u64, 3, 10, 100_000] {
            let salts = salt_count(frequency, rows);
            for salt in 0..salts {
                assert!(estimated_salt_load(frequency, salts, salt) <= rows);
            }
        }
    }
}
