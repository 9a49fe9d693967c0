//! What can be wrong with a configuration, an input or a request.

use vstd::prelude::*;
use arrow_schema::ArrowError;
use csv::Error as CsvError;
use crate::binary64::Binary64;

verus! {

/// What is wrong with a configuration.
#[derive(Debug, Clone, PartialEq, Eq)]
pub enum ConfigValidationError {
    MissingInputPath,
    MissingInputFormat,
    MissingOutputPath,
    MissingKeyColumns,
    InvalidTargetPartitionSize { value: u64 },
    InvalidMinPartitionCount { value: usize },
    InvalidMaxPartitionCount { value: usize },
    MinPartitionsGreaterThanMax { min: usize, max: usize },
    InvalidNoOpMaxImbalanceRatio { value: Binary64 },
    InvalidApproximateCapacity { value: usize },
    MissingJoinRightInput,
    MissingJoinKeys,
    InvalidTargetFileSize { value: u64 },
    InvalidMinFileSize { value: u64 },
    MinFileSizeGreaterThanTarget { min: u64, target: u64 },
    InvalidStrategyName { value: String },
}

/// `csv::Error`: why a text could not be read as records.
#[verifier::external_type_specification]
#[verifier::external_body]
pub struct ExCsvError(CsvError);

/// Why a request was refused.
#[derive(Debug)]
pub enum Error {
    Arrow(ArrowError),
    Csv(CsvError),
    InvalidConfig(ConfigValidationError),
    UnsupportedColumnType { column: String, data_type: String },
    TimestampOutOfRange { column: String },
    InputPathNotFound { path: String },
    NoParquetFiles { path: String },
    MissingRetainedRow { row_index: usize },
    UnsupportedFormat(String),
    UnsupportedStrategy(String),
    ResourceLimitExceeded { configured_memory_limit_mb: u64, estimated_dataset_size_mb: u64 },
}

} // verus!
