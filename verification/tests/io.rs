//! Reading of tables and comma-separated values, and what is written.

use std::sync::Arc;

use arrow_array::types::{ArrowPrimitiveType, Decimal256Type};
use arrow_array::{
    Array, ArrayRef, BooleanArray, Date32Array, Decimal128Array, Decimal256Array, Float64Array,
    Int16Array, Int32Array, Int64Array, Int8Array, LargeStringArray, RecordBatch,
    RecordBatchOptions, StringArray, TimestampMicrosecondArray, TimestampMillisecondArray,
    TimestampNanosecondArray, TimestampSecondArray, UInt16Array, UInt32Array, UInt64Array,
    UInt8Array,
};
use arrow_schema::{Field, Schema};
use parquet::arrow::ArrowWriter;
use repartitioner::binary64::Binary64;
use repartitioner::config::{
    DatasetFormat, DownstreamEngine, HeavyHitterMode, JobConfig, JobType, NormalKeyAssignment,
    RawConfig, RawDatasetConfig, RawJoinConfig, RawOutputConfig, RawPartitioningConfig,
    RawResourceConfig, RawStatisticsConfig, RawStorageConfig, RightSideMode,
};
use repartitioner::error::ConfigValidationError;
use repartitioner::Config;
use serde_yaml::Value;
use repartitioner::csv_input::{key_fields, read_csv, record_rows};
use repartitioner::dataset::Dataset;
use repartitioner::key_encoding::KeyValue;
use repartitioner::manifest::{
    Manifest, OutputFile, PartitionManifest, TechnicalColumns, METADATA_VERSION,
};
use repartitioner::partitioner::{
    assign_partitions, PartitionAssignmentSummary, RecordPartitionAssignment,
};
use repartitioner::planner::{build_plan, Plan};
use repartitioner::reader::{
    dataset_from_tables, select_input_files, InputDataset, InputFile, LocalInput,
};
use repartitioner::record_batch::Table;
use repartitioner::rolling::{part_file_path, PartitionOutput, WriteStep, TABLE_ROWS};
use repartitioner::statistics::compute_statistics;
use repartitioner::writer::{
    append_technical_columns, check_output_format, key_columns_fit, manifest_from_output_files,
    no_op_manifest, partition_files, partition_tables, reads_again, retained_partition_batches,
    split_streamed_batch, take_part,
};
use repartitioner::Error;

fn text_field(section: &Value, name: &str) -> Option<String> {
    section.get(name).and_then(Value::as_str).map(String::from)
}

fn count_field(section: &Value, name: &str) -> Option<u64> {
    section.get(name).and_then(Value::as_u64)
}

fn flag_field(section: &Value, name: &str) -> Option<bool> {
    section.get(name).and_then(Value::as_bool)
}

fn number_field(section: &Value, name: &str) -> Option<Binary64> {
    section.get(name).and_then(Value::as_f64).map(|number| Binary64::from_bits(number.to_bits()))
}

fn list_field(section: &Value, name: &str) -> Vec<String> {
    section
        .get(name)
        .and_then(Value::as_sequence)
        .map(|items| items.iter().filter_map(Value::as_str).map(String::from).collect())
        .unwrap_or_default()
}

fn format_field(section: &Value, name: &str) -> Option<DatasetFormat> {
    text_field(section, name).map(|format| match format.as_str() {
        "csv" => DatasetFormat::Csv,
        _ => DatasetFormat::Parquet,
    })
}

/// Reads a configuration that is written down in YAML.
fn config_from_yaml(text: &str) -> Result<Config, ConfigValidationError> {
    let document: Value = serde_yaml::from_str(text).expect("yaml should parse");
    let dataset = &document["dataset"];
    let partitioning = &document["partitioning"];
    let job = &document["job"];
    let resources = &document["resources"];
    let raw = RawConfig {
        dataset: RawDatasetConfig {
            input: text_field(dataset, "input").expect("input should be given"),
            output: text_field(dataset, "output"),
            format: format_field(dataset, "format"),
            input_format: format_field(dataset, "input_format"),
        },
        partitioning: RawPartitioningConfig {
            key_columns: list_field(partitioning, "key_columns"),
            min_partitions: count_field(partitioning, "min_partitions").map(|n| n as usize),
            target_partition_size_mb: count_field(partitioning, "target_partition_size_mb")
                .expect("target size should be given"),
            max_partitions: count_field(partitioning, "max_partitions")
                .expect("max partitions should be given") as usize,
            strategy: text_field(partitioning, "strategy").expect("strategy should be given"),
            normal_key_assignment: text_field(partitioning, "normal_key_assignment").map(|mode| {
                match mode.as_str() {
                    "hash" => NormalKeyAssignment::Hash,
                    _ => NormalKeyAssignment::LoadAware,
                }
            }),
            heavy_key_alpha: number_field(partitioning, "heavy_key_alpha")
                .expect("alpha should be given"),
            force_rewrite: flag_field(partitioning, "force_rewrite"),
            no_op_max_imbalance_ratio: number_field(partitioning, "no_op_max_imbalance_ratio"),
            seed: count_field(partitioning, "seed").expect("seed should be given"),
        },
        statistics: document.get("statistics").map(|section| RawStatisticsConfig {
            heavy_hitter_mode: text_field(section, "heavy_hitter_mode").map(|mode| {
                match mode.as_str() {
                    "approximate" => HeavyHitterMode::Approximate,
                    _ => HeavyHitterMode::Exact,
                }
            }),
            approximate_capacity: count_field(section, "approximate_capacity").map(|n| n as usize),
        }),
        storage: document.get("storage").map(|section| RawStorageConfig {
            target_file_size_mb: count_field(section, "target_file_size_mb"),
            min_file_size_mb: count_field(section, "min_file_size_mb"),
        }),
        output: document.get("output").map(|section| RawOutputConfig {
            path: text_field(section, "path"),
            format: format_field(section, "format"),
            include_technical_columns: flag_field(section, "include_technical_columns"),
            partition_column: text_field(section, "partition_column"),
            salt_column: text_field(section, "salt_column"),
            heavy_key_column: text_field(section, "heavy_key_column"),
        }),
        job: JobConfig {
            job_type: match text_field(job, "type").expect("job should be given").as_str() {
                "scan" => JobType::Scan,
                "group_by" => JobType::GroupBy,
                "join" => JobType::Join,
                "filter" => JobType::Filter,
                _ => JobType::Generic,
            },
            downstream_engine: match text_field(job, "downstream_engine")
                .expect("engine should be given")
                .as_str()
            {
                "spark" => DownstreamEngine::Spark,
                _ => DownstreamEngine::Generic,
            },
        },
        join: document.get("join").map(|section| RawJoinConfig {
            left_input: text_field(section, "left_input"),
            right_input: text_field(section, "right_input").expect("right side should be given"),
            join_keys: list_field(section, "join_keys"),
            right_side_mode: text_field(section, "right_side_mode").map(|mode| {
                match mode.as_str() {
                    "shuffle" => RightSideMode::Shuffle,
                    _ => RightSideMode::BroadcastIfSmall,
                }
            }),
            broadcast_threshold_mb: count_field(section, "broadcast_threshold_mb"),
        }),
        resources: RawResourceConfig {
            local_threads: count_field(resources, "local_threads")
                .expect("threads should be given") as usize,
            memory_limit_mb: count_field(resources, "memory_limit_mb")
                .expect("memory limit should be given"),
            fail_on_memory_limit: flag_field(resources, "fail_on_memory_limit"),
        },
    };
    Config::try_from(raw)
}

fn config_for_key_columns(format: &str, key_columns: &[&str], output: &str) -> Config {
    let key_columns = key_columns
        .iter()
        .map(|column| format!("\"{column}\""))
        .collect::<Vec<_>>()
        .join(", ");

    config_from_yaml(&format!(
        r#"
dataset:
  input: "input"
  output: "out"
  format: "{format}"

partitioning:
  key_columns: [{key_columns}]
  target_partition_size_mb: 128
  max_partitions: 4
  strategy: "adaptive_hash_salt"
  heavy_key_alpha: 2.0
  seed: 42
{output}
job:
  type: "group_by"
  downstream_engine: "spark"

resources:
  local_threads: 2
  memory_limit_mb: 1024
"#
    ))
    .expect("test config should be valid")
}

/// A number of 256 bits.
type Wide = <Decimal256Type as ArrowPrimitiveType>::Native;

/// A table of columns.
fn table(columns: Vec<(&str, bool, ArrayRef)>) -> Table {
    let fields: Vec<Field> = columns
        .iter()
        .map(|(name, nullable, array)| Field::new(*name, array.data_type().clone(), *nullable))
        .collect();
    let arrays = columns.into_iter().map(|(_, _, array)| array).collect();
    let batch = RecordBatch::try_new(Arc::new(Schema::new(fields)), arrays)
        .expect("columns should make a batch");
    Table { batch }
}

/// The size that a table has as a Parquet file.
fn parquet_size(table: &Table) -> u64 {
    let mut bytes = Vec::new();
    let mut writer = ArrowWriter::try_new(&mut bytes, table.batch.schema(), None)
        .expect("writer should open");
    writer.write(&table.batch).expect("batch should be written");
    writer.close().expect("writer should close");
    bytes.len() as u64
}

/// A dataset of one table; its columns are kept where `kept` says so.
fn dataset_of(config: &Config, table: &Table, kept: bool) -> InputDataset {
    let tables = vec![Table { batch: table.batch.clone() }];
    let rows = dataset_from_tables(&tables, &config.partitioning.key_columns)
        .expect("keys should be readable");
    InputDataset {
        path: "input.parquet".to_string(),
        format: DatasetFormat::Parquet,
        files: vec![InputFile {
            path: "input.parquet".to_string(),
            size_bytes: parquet_size(table),
        }],
        rows,
        batches: if kept { tables } else { Vec::new() },
    }
}

fn texts(values: &[&str]) -> ArrayRef {
    Arc::new(StringArray::from(values.to_vec()))
}

fn user_ids(values: &[&str]) -> Table {
    table(vec![("user_id", false, texts(values))])
}

fn int64_user_ids(values: &[i64]) -> Table {
    table(vec![(
        "user_id",
        false,
        Arc::new(Int64Array::from(values.to_vec())) as ArrayRef,
    )])
}

fn user_ids_with_payload(values: &[&str]) -> Table {
    let row_ids = (0..values.len() as i64).collect::<Vec<_>>();
    let regions = values
        .iter()
        .enumerate()
        .map(|(index, _)| if index % 2 == 0 { "north" } else { "south" })
        .collect::<Vec<_>>();
    table(vec![
        ("user_id", false, texts(values)),
        ("row_id", false, Arc::new(Int64Array::from(row_ids)) as ArrayRef),
        ("region", false, texts(&regions)),
    ])
}

fn heavy_and_others() -> Vec<&'static str> {
    std::iter::repeat_n("heavy", 24)
        .chain(["a", "b", "c", "d", "e", "f", "g", "h"])
        .collect()
}

#[test]
fn reads_key_rows_from_temporary_parquet_file() {
    let config = config_for_key_columns("parquet", &["user_id"], "");
    let table = user_ids(&["a", "a", "b", "heavy", "heavy", "heavy"]);
    let dataset = dataset_of(&config, &table, false);
    let stats = compute_statistics(&config, &dataset).expect("statistics should compute");

    assert_eq!(dataset.rows.row_count(), 6);
    assert_eq!(stats.metadata.input.distinct_keys, Some(3));
    assert_eq!(
        stats.metadata.input.key_frequencies.get("7:user_id#utf8:5:heavy"),
        Some(&3)
    );
}

#[test]
fn parquet_io_rejects_missing_input_path() {
    let error = select_input_files("missing.parquet", LocalInput::Missing)
        .expect_err("missing input should fail");

    assert!(matches!(error, Error::InputPathNotFound { path } if path == "missing.parquet"));
}

#[test]
fn reads_int64_key_rows_and_partitions_them() {
    let config = config_for_key_columns("parquet", &["user_id"], "");
    let dataset = dataset_of(&config, &int64_user_ids(&[42, 42, 7, 9]), false);
    let stats = compute_statistics(&config, &dataset).expect("statistics should compute");
    let plan = build_plan(&config, &stats).expect("plan should build");
    let assignments = assign_partitions(&plan, &dataset).expect("assignment should work");

    assert_eq!(dataset.rows.row_count(), 4);
    assert_eq!(
        stats.metadata.input.key_frequencies.get("7:user_id#int64:42"),
        Some(&2)
    );
    assert_eq!(assignments.partition_row_counts.iter().sum::<u64>(), 4);
}

#[test]
fn keeps_null_and_empty_string_as_distinct_keys() {
    let config = config_for_key_columns("parquet", &["user_id"], "");
    let values = StringArray::from(vec![None, Some(""), Some("heavy")]);
    let table = table(vec![("user_id", true, Arc::new(values) as ArrayRef)]);
    let dataset = dataset_of(&config, &table, false);
    let stats = compute_statistics(&config, &dataset).expect("statistics should compute");

    assert_eq!(
        stats.metadata.input.key_frequencies.get("7:user_id#null"),
        Some(&1)
    );
    assert_eq!(
        stats.metadata.input.key_frequencies.get("7:user_id#utf8:0:"),
        Some(&1)
    );
}

#[test]
fn encodes_composite_keys_with_delimiters_deterministically() {
    let config = config_for_key_columns("parquet", &["user_id", "region"], "");
    let table = table(vec![
        ("user_id", false, texts(&["a=b|c", "a=b|c", "x"])),
        ("region", false, texts(&["eu", "eu", "us"])),
    ]);
    let dataset = dataset_of(&config, &table, false);
    let first = compute_statistics(&config, &dataset).expect("statistics should compute");
    let second = compute_statistics(&config, &dataset).expect("statistics should compute");

    let encoded = "7:user_id#utf8:5:a=b|c|6:region#utf8:2:eu";
    assert_eq!(first.metadata.input.key_frequencies.get(encoded), Some(&2));
    assert_eq!(
        first.metadata.input.key_frequencies,
        second.metadata.input.key_frequencies
    );
}

#[test]
fn detects_heavy_hitter_for_numeric_key() {
    let config = config_for_key_columns("parquet", &["user_id"], "");
    let dataset = dataset_of(&config, &int64_user_ids(&[42, 42, 42, 42, 42, 42, 1, 2]), false);
    let stats = compute_statistics(&config, &dataset).expect("statistics should compute");
    let plan = build_plan(&config, &stats).expect("plan should build");

    assert!(plan
        .metadata
        .heavy_keys
        .iter()
        .any(|key| key.key == "7:user_id#int64:42"));
}

/// What is written, split out of a table that is read again.
fn streamed_output(config: &Config, table: &Table) -> (Plan, Vec<(usize, Table)>, Manifest) {
    let dataset = dataset_of(config, table, false);
    assert!(reads_again(&dataset));
    let mut stats = compute_statistics(config, &dataset).expect("statistics should compute");
    let plan = build_plan(config, &stats).expect("plan should build");
    let assignments = assign_partitions(&plan, &dataset).expect("assignment should work");
    stats.set_after_partition_sizes(assignments.partition_row_counts.clone());
    assert_eq!(
        stats.metadata.estimates.after_partition_sizes.len(),
        plan.metadata.output_partitions
    );
    assert_eq!(
        stats.metadata.estimates.after_partition_sizes.iter().sum::<u64>(),
        dataset.rows.row_count()
    );
    let parts = split_streamed_batch(
        plan.metadata.output_partitions,
        &assignments.records,
        0,
        table,
        &plan.metadata.technical_columns,
    )
    .expect("rows should be taken");
    let files = parts
        .iter()
        .map(|(id, part)| OutputFile {
            path: part_file_path(*id, 0),
            partition_id: *id,
            row_count: part.batch.num_rows() as u64,
            size_bytes: Some(parquet_size(part)),
        })
        .collect();
    let manifest = manifest_from_output_files(&assignments, Some("partitioned".to_string()), files);
    (plan, parts, manifest)
}

#[test]
fn writes_partitioned_parquet_dataset_and_reads_it_back() {
    let config = config_for_key_columns("parquet", &["user_id"], "");
    let values = heavy_and_others();
    let (plan, parts, manifest) = streamed_output(&config, &user_ids_with_payload(&values));

    assert!(!manifest.output_files.is_empty());
    assert_eq!(
        manifest.partitions.iter().map(|partition| partition.row_count).sum::<u64>(),
        32
    );
    assert_eq!(manifest.dataset_location.as_deref(), Some("partitioned"));

    let tables: Vec<Table> = parts
        .iter()
        .map(|(_, part)| Table { batch: part.batch.clone() })
        .collect();
    let read_back = dataset_from_tables(&tables, &config.partitioning.key_columns)
        .expect("output should be readable");
    assert_eq!(read_back.row_count(), values.len() as u64);

    let first = &parts[0].1.batch;
    assert_eq!(first.schema().field(0).name(), "user_id");
    assert!(first.schema().field_with_name("row_id").is_ok());
    assert!(first.schema().field_with_name("region").is_ok());

    let mut saw_heavy = false;
    let mut saw_normal = false;
    for (partition_id, part) in &parts {
        let batch = &part.batch;
        let user_ids = batch
            .column_by_name("user_id")
            .and_then(|column| column.as_any().downcast_ref::<StringArray>())
            .expect("user_id should be utf8");
        let partition_ids = batch
            .column_by_name("_rp_partition_id")
            .and_then(|column| column.as_any().downcast_ref::<UInt32Array>())
            .expect("partition id should be UInt32");
        let salts = batch
            .column_by_name("_rp_salt")
            .and_then(|column| column.as_any().downcast_ref::<UInt32Array>())
            .expect("salt should be UInt32");
        let is_heavy_key = batch
            .column_by_name("_rp_is_heavy_key")
            .and_then(|column| column.as_any().downcast_ref::<BooleanArray>())
            .expect("heavy key flag should be boolean");

        for row_index in 0..batch.num_rows() {
            assert_eq!(partition_ids.value(row_index) as usize, *partition_id);

            if user_ids.value(row_index) == "heavy" {
                saw_heavy = true;
                assert!(!salts.is_null(row_index));
                assert!(is_heavy_key.value(row_index));
            } else {
                saw_normal = true;
                assert!(salts.is_null(row_index));
                assert!(!is_heavy_key.value(row_index));
            }
        }
    }
    assert!(saw_heavy);
    assert!(saw_normal);

    assert_eq!(plan.metadata.min_partitions, 1);
    assert_eq!(plan.metadata.max_partitions, 4);
    assert!(plan.metadata.required_partitions_by_size >= 1);
    assert!(plan.metadata.output_partitions <= 4);
    assert!(plan.metadata.technical_columns.included);
    assert_eq!(plan.metadata.technical_columns.partition_column, "_rp_partition_id");
    assert_eq!(plan.metadata.technical_columns.salt_column, "_rp_salt");
    assert_eq!(plan.metadata.technical_columns.heavy_key_column, "_rp_is_heavy_key");
}

#[test]
fn omits_technical_columns_when_disabled() {
    let config = config_for_key_columns(
        "parquet",
        &["user_id"],
        "\noutput:\n  include_technical_columns: false\n",
    );
    let (_, parts, _) = streamed_output(&config, &user_ids_with_payload(&heavy_and_others()));
    let schema = parts[0].1.batch.schema();

    assert!(schema.field_with_name("user_id").is_ok());
    assert!(schema.field_with_name("row_id").is_ok());
    assert!(schema.field_with_name("region").is_ok());
    assert!(schema.field_with_name("_rp_partition_id").is_err());
    assert!(schema.field_with_name("_rp_salt").is_err());
    assert!(schema.field_with_name("_rp_is_heavy_key").is_err());
}

#[test]
fn writes_no_op_metadata_without_output_parquet_files() {
    let config = config_for_key_columns("parquet", &["user_id"], "");
    let dataset = dataset_of(&config, &user_ids(&["a", "a", "b", "b"]), false);
    let mut stats = compute_statistics(&config, &dataset).expect("statistics should compute");
    let plan = build_plan(&config, &stats).expect("plan should build");
    stats.set_after_partition_sizes(stats.metadata.estimates.before_partition_sizes.clone());

    assert!(!plan.metadata.rewrite_required);
    assert_eq!(plan.metadata.cost_estimate.estimated_rows_written, 0);

    let manifest = no_op_manifest(&stats.metadata, &dataset);

    assert!(manifest.input_reused);
    assert_eq!(manifest.dataset_location.as_deref(), Some("input.parquet"));
    assert!(manifest.output_files.is_empty());
    assert_eq!(
        manifest.partitions,
        vec![PartitionManifest { partition_id: 0, row_count: 4, file_count: 0, size_bytes: None }]
    );
}

fn csv_file(name: &str, text: &str) -> InputFile {
    InputFile { path: name.to_string(), size_bytes: text.len() as u64 }
}

#[test]
fn reads_csv_key_column_and_builds_plan() {
    let text = "user_id,region,payload\nheavy,eu,1\nheavy,us,2\na,eu,3\n";
    let config = config_for_key_columns("csv", &["user_id"], "");
    let dataset = read_csv(
        csv_file("input.csv", text),
        text.as_bytes(),
        &config.partitioning.key_columns,
    )
    .expect("csv should be readable");
    let stats = compute_statistics(&config, &dataset).expect("statistics should compute");
    let plan = build_plan(&config, &stats).expect("plan should build");

    assert_eq!(dataset.path, "input.csv");
    assert_eq!(dataset.format, DatasetFormat::Csv);
    assert_eq!(dataset.rows.row_count(), 3);
    assert_eq!(stats.metadata.input.distinct_keys, Some(2));
    assert_eq!(
        stats.metadata.input.key_frequencies.get("7:user_id#utf8:5:heavy"),
        Some(&2)
    );
    assert_eq!(plan.metadata.key_columns, vec!["user_id".to_string()]);
}

#[test]
fn csv_output_reports_explicit_not_implemented_error() {
    let text = "user_id\nheavy\nheavy\na\n";
    let config = config_for_key_columns("csv", &["user_id"], "");
    let dataset = read_csv(
        csv_file("input.csv", text),
        text.as_bytes(),
        &config.partitioning.key_columns,
    )
    .expect("csv should be readable");
    let mut stats = compute_statistics(&config, &dataset).expect("statistics should compute");
    let plan = build_plan(&config, &stats).expect("plan should build");
    let assignments = assign_partitions(&plan, &dataset).expect("assignment should work");
    stats.set_after_partition_sizes(assignments.partition_row_counts.clone());

    let error = check_output_format(config.output.format)
        .expect_err("csv output should not be implemented");

    assert!(matches!(
        error,
        Error::UnsupportedFormat(message)
            if message == "CSV output is not implemented; use parquet output"
    ));
    assert!(check_output_format(DatasetFormat::Parquet).is_ok());
}

#[test]
fn csv_without_key_column_is_refused() {
    let text = "region,payload\neu,1\n";
    let columns = vec!["region".to_string(), "user_id".to_string(), "other".to_string()];
    let error = read_csv(csv_file("input.csv", text), text.as_bytes(), &columns)
        .expect_err("a missing key column should fail");

    assert!(matches!(
        error,
        Error::UnsupportedFormat(message) if message == "CSV input is missing key column: user_id"
    ));
}

#[test]
fn csv_with_broken_record_is_refused() {
    let columns = vec!["a".to_string()];
    let uneven = "a,b\n1,2\n3\n";
    let error = read_csv(csv_file("input.csv", uneven), uneven.as_bytes(), &columns)
        .expect_err("a short record should fail");
    assert!(matches!(error, Error::Csv(_)));

    let error = read_csv(csv_file("input.csv", "a"), &[0xff, b',', b'a', b'\n'], &columns)
        .expect_err("a header that is no text should fail");
    assert!(matches!(error, Error::Csv(_)));
}

#[test]
fn csv_fields_are_found_by_header_and_unquoted() {
    let text = "a,b,a\n1,\"x,y\",3\n";
    let columns = vec!["b".to_string(), "a".to_string()];
    let dataset = read_csv(csv_file("input.csv", text), text.as_bytes(), &columns)
        .expect("csv should be readable");
    let row = &dataset.rows.rows[0];

    assert_eq!(row.key_values().get("b"), Some(&KeyValue::Utf8("x,y".to_string())));
    assert_eq!(row.key_values().get("a"), Some(&KeyValue::Utf8("1".to_string())));
    assert_eq!(dataset.batches.len(), 0);
    assert_eq!(dataset.files.len(), 1);
}

#[test]
fn short_records_read_as_null() {
    let header = vec!["a".to_string(), "b".to_string()];
    let columns = vec!["b".to_string()];
    let fields = key_fields(&header, &columns).expect("column should be found");
    assert_eq!(fields, vec![1]);
    let rows = record_rows(&header, &columns, &fields, &vec![vec!["1".to_string()]]);
    assert_eq!(rows[0].key_values().get("b"), Some(&KeyValue::Null));
}

#[test]
fn reads_every_key_type() {
    let seconds = TimestampSecondArray::from(vec![2]);
    let millis = TimestampMillisecondArray::from(vec![-3]);
    let micros = TimestampMicrosecondArray::from(vec![5]);
    let nanos = TimestampNanosecondArray::from(vec![-7_999]);
    let decimal = Decimal128Array::from(vec![-12_345])
        .with_precision_and_scale(10, 2)
        .expect("precision should fit");
    let wide = Decimal256Array::from(vec![Wide::from_i128(678)])
        .with_precision_and_scale(40, 3)
        .expect("precision should fit");
    let columns: Vec<(&str, ArrayRef, KeyValue)> = vec![
        ("text", texts(&["t"]), KeyValue::Utf8("t".to_string())),
        (
            "large_text",
            Arc::new(LargeStringArray::from(vec!["l"])),
            KeyValue::Utf8("l".to_string()),
        ),
        ("i8", Arc::new(Int8Array::from(vec![-8])), KeyValue::Int64(-8)),
        ("i16", Arc::new(Int16Array::from(vec![-16])), KeyValue::Int64(-16)),
        ("i32", Arc::new(Int32Array::from(vec![-32])), KeyValue::Int64(-32)),
        ("i64", Arc::new(Int64Array::from(vec![i64::MIN])), KeyValue::Int64(i64::MIN)),
        ("u8", Arc::new(UInt8Array::from(vec![8])), KeyValue::UInt64(8)),
        ("u16", Arc::new(UInt16Array::from(vec![16])), KeyValue::UInt64(16)),
        ("u32", Arc::new(UInt32Array::from(vec![32])), KeyValue::UInt64(32)),
        ("u64", Arc::new(UInt64Array::from(vec![u64::MAX])), KeyValue::UInt64(u64::MAX)),
        ("flag", Arc::new(BooleanArray::from(vec![true])), KeyValue::Boolean(true)),
        ("day", Arc::new(Date32Array::from(vec![19_000])), KeyValue::Date32(19_000)),
        ("seconds", Arc::new(seconds), KeyValue::TimestampMicros(2_000_000)),
        ("millis", Arc::new(millis), KeyValue::TimestampMicros(-3_000)),
        ("micros", Arc::new(micros), KeyValue::TimestampMicros(5)),
        ("nanos", Arc::new(nanos), KeyValue::TimestampMicros(-7)),
        (
            "decimal",
            Arc::new(decimal),
            KeyValue::Decimal("decimal128(10,2):-12345".to_string()),
        ),
        (
            "wide",
            Arc::new(wide),
            KeyValue::Decimal("decimal256(40,3):678".to_string()),
        ),
    ];
    let names: Vec<String> = columns.iter().map(|(name, _, _)| name.to_string()).collect();
    let tables = vec![table(
        columns.iter().map(|(name, array, _)| (*name, true, array.clone())).collect(),
    )];
    let dataset = dataset_from_tables(&tables, &names).expect("all types should be readable");

    for (name, _, expected) in &columns {
        assert_eq!(dataset.rows[0].key_values().get(name), Some(expected));
    }
}

#[test]
fn nulls_of_any_type_are_null_keys() {
    let tables = vec![table(vec![
        ("n", true, Arc::new(Int64Array::from(vec![None, Some(1)])) as ArrayRef),
        ("f", true, Arc::new(Float64Array::from(vec![None, Some(1.5)])) as ArrayRef),
    ])];
    let columns = vec!["n".to_string(), "f".to_string()];
    let error = dataset_from_tables(&tables, &columns).expect_err("floats cannot be keys");
    assert!(matches!(
        error,
        Error::UnsupportedColumnType { column, data_type }
            if column == "f" && data_type == "Float64"
    ));
    let dataset = dataset_from_tables(&tables, &vec!["n".to_string()]).expect("should be readable");
    assert_eq!(dataset.rows[0].key_values().get("n"), Some(&KeyValue::Null));
    assert_eq!(dataset.rows[1].key_values().get("n"), Some(&KeyValue::Int64(1)));
}

#[test]
fn missing_column_is_reported() {
    let tables = vec![user_ids(&["a"])];
    let error = dataset_from_tables(&tables, &vec!["region".to_string()])
        .expect_err("a missing column should fail");
    assert!(matches!(error, Error::Arrow(_)));
}

#[test]
fn timestamps_beyond_the_range_are_refused() {
    let far = TimestampSecondArray::from(vec![i64::MAX]);
    let tables = vec![table(vec![("at", false, Arc::new(far) as ArrayRef)])];
    let error = dataset_from_tables(&tables, &vec!["at".to_string()])
        .expect_err("such a timestamp has no microseconds");
    assert!(matches!(error, Error::TimestampOutOfRange { column } if column == "at"));
}

#[test]
fn chooses_files_by_path() {
    let file = |path: &str| InputFile { path: path.to_string(), size_bytes: 1 };
    let found = LocalInput::Directory(vec![file("d/b.parquet"), file("d/a.parquet")]);
    let files = select_input_files("d", found).expect("files should be chosen");
    assert_eq!(files, vec![file("d/a.parquet"), file("d/b.parquet")]);

    let alone = select_input_files("x", LocalInput::File(file("x"))).expect("file should be taken");
    assert_eq!(alone, vec![file("x")]);

    let error = select_input_files("d", LocalInput::Directory(Vec::new()))
        .expect_err("an empty directory should fail");
    assert!(matches!(error, Error::NoParquetFiles { path } if path == "d"));
}

fn record(row_index: usize, partition_id: usize, salt_index: Option<usize>) -> RecordPartitionAssignment {
    RecordPartitionAssignment { row_index, key: None, partition_id, salt_index }
}

fn technical(included: bool) -> TechnicalColumns {
    TechnicalColumns {
        included,
        partition_column: "p".to_string(),
        salt_column: "s".to_string(),
        heavy_key_column: "h".to_string(),
    }
}

fn numbers_of(table: &Table, column: &str) -> Vec<i64> {
    table
        .batch
        .column_by_name(column)
        .and_then(|array| array.as_any().downcast_ref::<Int64Array>().map(|a| a.values().to_vec()))
        .expect("column should hold numbers")
}

#[test]
fn kept_rows_are_taken_table_by_table() {
    let tables = vec![
        int64_user_ids(&[10, 11, 12]),
        int64_user_ids(&[13]),
        int64_user_ids(&[14, 15]),
    ];
    let records = vec![record(0, 7, None), record(2, 7, Some(1)), record(5, 7, None)];
    let parts = retained_partition_batches(&tables, &records, &technical(true))
        .expect("rows should be taken");

    assert_eq!(parts.len(), 2);
    assert_eq!(numbers_of(&parts[0], "user_id"), vec![10, 12]);
    assert_eq!(numbers_of(&parts[1], "user_id"), vec![15]);
    let salts = parts[0].batch.column_by_name("s").expect("salt column should be there");
    assert!(salts.is_null(0));
    assert!(!salts.is_null(1));

    let none = retained_partition_batches(&tables, &[], &technical(false))
        .expect("no rows should be taken");
    assert!(none.is_empty());
}

#[test]
fn rows_behind_the_last_table_are_missing() {
    let tables = vec![int64_user_ids(&[10, 11])];
    let records = vec![record(0, 0, None), record(2, 0, None)];
    let error = retained_partition_batches(&tables, &records, &technical(false))
        .expect_err("row 2 does not exist");
    assert!(matches!(error, Error::MissingRetainedRow { row_index: 2 }));
}

#[test]
fn streamed_rows_must_follow_the_table() {
    let table = int64_user_ids(&[10, 11]);
    let records = vec![record(0, 1, None), record(1, 0, None), record(2, 9, None)];
    let parts = split_streamed_batch(2, &records, 0, &table, &technical(false))
        .expect("rows should be taken");
    assert_eq!(parts.len(), 2);
    assert_eq!(parts[0].0, 0);
    assert_eq!(numbers_of(&parts[0].1, "user_id"), vec![11]);
    assert_eq!(parts[1].0, 1);
    assert_eq!(numbers_of(&parts[1].1, "user_id"), vec![10]);

    let left_out = split_streamed_batch(2, &records, 2, &int64_user_ids(&[12]), &technical(false))
        .expect("rows of other partitions are left out");
    assert!(left_out.is_empty());

    let error = split_streamed_batch(2, &records, 2, &table, &technical(false))
        .expect_err("there are not enough records");
    assert!(matches!(error, Error::MissingRetainedRow { row_index: 2 }));

    let strays = vec![record(0, 0, None), record(5, 0, None)];
    let error = split_streamed_batch(2, &strays, 0, &table, &technical(false))
        .expect_err("row 1 has no record");
    assert!(matches!(error, Error::MissingRetainedRow { row_index: 1 }));
}

#[test]
fn tables_without_columns_are_refused() {
    let options = RecordBatchOptions::new().with_row_count(Some(1));
    let batch = RecordBatch::try_new_with_options(
        Arc::new(Schema::new(Vec::<Field>::new())),
        Vec::new(),
        &options,
    )
    .expect("a batch may have no columns");
    let error = take_part(&Table { batch }, &[record(0, 0, None)], 0, &technical(true))
        .expect_err("there is nothing to take");
    assert!(matches!(error, Error::Arrow(_)));
}

#[test]
fn technical_columns_stand_alone_in_a_table_without_columns() {
    let options = RecordBatchOptions::new().with_row_count(Some(5));
    let batch = RecordBatch::try_new_with_options(
        Arc::new(Schema::new(Vec::<Field>::new())),
        Vec::new(),
        &options,
    )
    .expect("a batch may have no columns");
    let records = [record(0, 1, None), record(1, 0, Some(2))];
    let wider = append_technical_columns(Table { batch }, &records, &technical(true))
        .expect("no column has another length");
    assert_eq!(wider.batch.num_columns(), 3);
    assert_eq!(wider.batch.num_rows(), 2);
}

#[test]
fn rows_are_taken_out_of_parts_again() {
    let table = int64_user_ids(&[10, 11, 12, 13]);
    let records = [record(3, 0, None), record(1, 0, None), record(0, 0, None)];
    let part = take_part(&table, &records, 0, &technical(false)).expect("rows should be taken");
    let again = take_part(&part, &[record(2, 0, None), record(0, 0, None)], 0, &technical(false))
        .expect("rows should be taken again");
    assert_eq!(again, int64_user_ids(&[10, 13]));
}

#[test]
fn technical_columns_need_a_record_for_each_row() {
    let error = append_technical_columns(int64_user_ids(&[1, 2]), &[record(0, 0, None)], &technical(true))
        .expect_err("one record is missing");
    assert!(matches!(error, Error::Arrow(_)));
    let same = append_technical_columns(int64_user_ids(&[1, 2]), &[], &technical(false))
        .expect("no columns are added");
    assert_eq!(same, int64_user_ids(&[1, 2]));
}

fn floats(values: &[f64]) -> ArrayRef {
    Arc::new(Float64Array::from(values.to_vec()))
}

#[test]
fn values_that_cannot_be_keys_are_kept() {
    let source = table(vec![("x", false, floats(&[0.5, 1.5, 2.5]))]);
    let part = take_part(&source, &[record(2, 0, None), record(0, 0, None)], 0, &technical(false))
        .expect("rows should be taken");
    assert_eq!(part, table(vec![("x", false, floats(&[2.5, 0.5]))]));

    let records = vec![record(0, 1, None), record(1, 0, None), record(2, 1, None)];
    let parts = split_streamed_batch(2, &records, 0, &source, &technical(false))
        .expect("rows should be taken");
    assert_eq!(parts[1].1, table(vec![("x", false, floats(&[0.5, 2.5]))]));
    let wider = append_technical_columns(source, &records, &technical(true))
        .expect("each row has a record");
    let kept = wider.batch.column_by_name("x").expect("the column should be there");
    assert_eq!(kept.as_ref(), floats(&[0.5, 1.5, 2.5]).as_ref());
}

#[test]
fn keys_are_written_in_tables_of_bounded_length() {
    let config = config_for_key_columns("csv", &["user_id"], "");
    let values: Vec<String> = (0..2500).map(|n| format!("u{n}")).collect();
    let text = format!("user_id\n{}\n", values.join("\n"));
    let dataset = read_csv(
        csv_file("input.csv", &text),
        text.as_bytes(),
        &config.partitioning.key_columns,
    )
    .expect("csv should be readable");
    let stats = compute_statistics(&config, &dataset).expect("statistics should compute");
    let plan = build_plan(&config, &stats).expect("plan should build");
    let records: Vec<_> = (0..2500).map(|row| record(row, 3, None)).collect();
    let tables = partition_tables(&plan.metadata, &dataset, &records).expect("tables should be made");

    let rows: Vec<usize> = tables.iter().map(|table| table.batch.num_rows()).collect();
    assert_eq!(rows, vec![TABLE_ROWS, TABLE_ROWS, 2500 - 2 * TABLE_ROWS]);
    let mut written = Vec::new();
    for table in &tables {
        let keys = table
            .batch
            .column_by_name("user_id")
            .and_then(|column| column.as_any().downcast_ref::<StringArray>())
            .expect("keys should be text");
        written.extend((0..keys.len()).map(|row| keys.value(row).to_string()));
    }
    assert_eq!(written, values);

    let none = partition_tables(&plan.metadata, &dataset, &[]).expect("a table should be made");
    assert_eq!(none.len(), 1);
    assert_eq!(none[0].batch.num_rows(), 0);
}

#[test]
fn kept_rows_are_written_in_tables_of_bounded_length() {
    let config = config_for_key_columns("parquet", &["user_id"], "");
    let values: Vec<i64> = (0..1500).collect();
    let mut dataset = dataset_of(&config, &int64_user_ids(&values), true);
    dataset.batches.push(int64_user_ids(&[1500, 1501, 1502]));
    let stats = compute_statistics(&config, &dataset).expect("statistics should compute");
    let plan = build_plan(&config, &stats).expect("plan should build");
    let records: Vec<_> = (0..1503).map(|row| record(row, 0, None)).collect();
    let tables = partition_tables(&plan.metadata, &dataset, &records).expect("tables should be made");
    let rows: Vec<usize> = tables.iter().map(|table| table.batch.num_rows()).collect();
    assert_eq!(rows, vec![TABLE_ROWS, 1500 - TABLE_ROWS, 3]);
    let written: Vec<i64> = tables.iter().flat_map(|table| numbers_of(table, "user_id")).collect();
    assert_eq!(written, (0..1503).collect::<Vec<i64>>());

    let too_many: Vec<_> = (0..1504).map(|row| record(row, 0, None)).collect();
    let error = partition_tables(&plan.metadata, &dataset, &too_many)
        .expect_err("the last row does not exist");
    assert!(matches!(error, Error::MissingRetainedRow { row_index: 1503 }));

    let parts = split_streamed_batch(1, &records, 0, &dataset.batches[0], &technical(false))
        .expect("rows should be taken");
    let sizes: Vec<usize> = parts.iter().map(|part| part.1.batch.num_rows()).collect();
    assert_eq!(sizes, vec![TABLE_ROWS, 1500 - TABLE_ROWS]);
}

#[test]
fn keys_are_written_where_no_columns_were_kept() {
    let config = config_for_key_columns("csv", &["user_id"], "");
    let text = "user_id\nb\na\n";
    let dataset = read_csv(
        csv_file("input.csv", text),
        text.as_bytes(),
        &config.partitioning.key_columns,
    )
    .expect("csv should be readable");
    let stats = compute_statistics(&config, &dataset).expect("statistics should compute");
    let plan = build_plan(&config, &stats).expect("plan should build");
    let records = vec![record(1, 3, Some(2)), record(0, 3, None), record(9, 3, None)];
    assert!(key_columns_fit(&dataset.rows.rows, &plan.metadata.key_columns, &records));
    let tables = partition_tables(&plan.metadata, &dataset, &records).expect("table should be made");

    assert_eq!(tables.len(), 1);
    let batch = &tables[0].batch;
    let keys = batch
        .column_by_name("user_id")
        .and_then(|column| column.as_any().downcast_ref::<StringArray>())
        .expect("keys should be text");
    assert_eq!(keys.value(0), "a");
    assert_eq!(keys.value(1), "b");
    assert!(keys.is_null(2));
    let ids = batch
        .column_by_name("_rp_partition_id")
        .and_then(|column| column.as_any().downcast_ref::<UInt32Array>())
        .expect("partition ids should be there");
    assert_eq!(ids.values().to_vec(), vec![3, 3, 3]);
}

#[test]
fn plans_without_key_columns_have_no_key_table() {
    let config = config_for_key_columns("parquet", &["user_id"], "");
    let dataset = dataset_of(&config, &user_ids(&["a"]), false);
    let stats = compute_statistics(&config, &dataset).expect("statistics should compute");
    let mut plan = build_plan(&config, &stats).expect("plan should build");
    plan.metadata.key_columns = Vec::new();
    let error = partition_tables(&plan.metadata, &dataset, &[record(0, 0, None)])
        .expect_err("there are no columns");
    assert!(matches!(error, Error::Arrow(_)));
}

#[test]
fn files_are_named_by_partition() {
    assert_eq!(part_file_path(0, 0), "rp_partition=0/part-00000.parquet");
    assert_eq!(part_file_path(42, 0), "rp_partition=42/part-00042.parquet");
    assert_eq!(part_file_path(42, 3), "rp_partition=42/part-00045.parquet");
    assert_eq!(part_file_path(99_999, 0), "rp_partition=99999/part-99999.parquet");
    assert_eq!(part_file_path(123_456, 0), "rp_partition=123456/part-123456.parquet");
}

#[test]
fn full_files_are_followed_by_others() {
    let mut output = PartitionOutput::new(7);
    let target = 100;
    assert_eq!(output.next_step(0, target), WriteStep::Open);
    output.file_opened();
    assert_eq!(output.next_step(500, target), WriteStep::Write);
    output.wrote(3);
    assert_eq!(output.next_step(99, target), WriteStep::Write);
    output.wrote(4);
    assert_eq!(output.next_step(100, target), WriteStep::Close);
    output.file_closed(Some(120));
    assert_eq!(output.next_step(0, target), WriteStep::Open);
    assert_eq!(output.path(), "rp_partition=7/part-00008.parquet");
    output.file_opened();
    output.wrote(5);
    output.file_closed(None);
    assert_eq!(
        output.closed,
        vec![
            OutputFile {
                path: "rp_partition=7/part-00007.parquet".to_string(),
                partition_id: 7,
                row_count: 7,
                size_bytes: Some(120),
            },
            OutputFile {
                path: "rp_partition=7/part-00008.parquet".to_string(),
                partition_id: 7,
                row_count: 5,
                size_bytes: None,
            },
        ]
    );
}

#[test]
fn only_the_last_file_may_miss_the_target() {
    let target = 100;
    let table_bytes = [40, 70, 10, 250, 5, 95, 30];
    let mut output = PartitionOutput::new(2);
    let mut size = 0;
    let mut left = Vec::new();
    for (rows, bytes) in (1..).zip(table_bytes) {
        while output.next_step(size, target) != WriteStep::Write {
            if output.next_step(size, target) == WriteStep::Open {
                output.file_opened();
            } else {
                output.file_closed(Some(size));
                left.push(size);
            }
            size = 0;
        }
        output.wrote(rows);
        size += bytes;
    }
    output.file_closed(Some(size));
    assert_eq!(left, vec![110, 260, 100]);
    let rows: Vec<u64> = output.closed.iter().map(|file| file.row_count).collect();
    assert_eq!(rows, vec![3, 7, 11, 7]);
    assert_eq!(output.closed[3].size_bytes, Some(30));
    assert_eq!(output.closed[3].path, "rp_partition=2/part-00005.parquet");
}

#[test]
fn every_row_lies_in_one_file() {
    let config = config_for_key_columns("parquet", &["user_id"], "\noutput:\n  path: \"o\"\n");
    let values = heavy_and_others();
    let dataset = InputDataset::from_rows(Dataset::from_key_values(
        "user_id",
        values.iter().map(|value| value.to_string()).collect(),
    ));
    let stats = compute_statistics(&config, &dataset).expect("statistics should compute");
    let plan = build_plan(&config, &stats).expect("plan should build");
    let assignments = assign_partitions(&plan, &dataset).expect("assignment should work");
    let files = partition_files(plan.metadata.output_partitions, &assignments);

    let mut rows: Vec<usize> = files
        .iter()
        .flat_map(|file| file.records.iter().map(|record| record.row_index))
        .collect();
    rows.sort();
    assert_eq!(rows, (0..values.len()).collect::<Vec<_>>());
    for file in &files {
        assert_eq!(
            file.records.len() as u64,
            assignments.partition_row_counts[file.partition_id]
        );
    }
}

#[test]
fn manifest_adds_up_known_sizes() {
    let file = |partition_id: usize, size_bytes: Option<u64>| OutputFile {
        path: "f".to_string(),
        partition_id,
        row_count: 1,
        size_bytes,
    };
    let assignments = PartitionAssignmentSummary {
        partition_row_counts: vec![3, 0, 1],
        records: Vec::new(),
    };
    let files = vec![file(0, Some(10)), file(2, None), file(0, None), file(0, Some(5))];
    let manifest = manifest_from_output_files(&assignments, None, files);

    assert_eq!(manifest.version, METADATA_VERSION);
    assert!(!manifest.input_reused);
    assert_eq!(manifest.output_files.len(), 4);
    assert_eq!(
        manifest.partitions,
        vec![
            PartitionManifest { partition_id: 0, row_count: 3, file_count: 3, size_bytes: Some(15) },
            PartitionManifest { partition_id: 1, row_count: 0, file_count: 0, size_bytes: None },
            PartitionManifest { partition_id: 2, row_count: 1, file_count: 1, size_bytes: None },
        ]
    );
}
