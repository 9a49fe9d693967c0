//! Metadata that goes with a dataset: the plan, the statistics and the manifest.

use vstd::prelude::*;
use crate::binary64::Binary64;
use crate::config::{DownstreamEngine, JobType, NormalKeyAssignment, PartitioningStrategy};
use crate::keymap::KeyMap;

verus! {

/// Version of the metadata format.
pub const METADATA_VERSION: &'static str = "0.2.0";

/// How a dataset is to be partitioned.
#[derive(Debug, Clone, PartialEq, Eq)]
pub struct PartitionPlan {
    pub version: String,
    pub created_at: String,
    pub strategy: PartitioningStrategy,
    pub action: PlanAction,
    pub rewrite_required: bool,
    pub key_columns: Vec<String>,
    pub job_type: JobType,
    pub downstream_engine: DownstreamEngine,
    pub target_partition_size_mb: u64,
    pub target_partition_rows: u64,
    pub min_partitions: usize,
    pub max_partitions: usize,
    pub output_partitions: usize,
    pub required_partitions_by_size: usize,
    pub feasibility: PartitionPlanFeasibility,
    pub technical_columns: TechnicalColumns,
    pub normal_key_assignment: NormalKeyAssignment,
    pub normal_keys: Vec<NormalKeyPlan>,
    pub heavy_keys: Vec<HeavyKeyPlan>,
    pub recommended_downstream_plan: RecommendedDownstreamPlan,
    pub join_plan: Option<JoinPlan>,
    pub cost_estimate: CostEstimate,
    pub skip_reason: Option<String>,
    pub hash_function: String,
    pub seed: u64,
}

/// How the two sides of a join are to meet.
#[derive(Debug, Clone, PartialEq, Eq)]
pub struct JoinPlan {
    pub left_heavy_keys: Vec<String>,
    pub right_heavy_keys: Vec<String>,
    pub shared_heavy_keys: Vec<String>,
    pub left_heavy_key_values: Vec<PlanKey>,
    pub right_heavy_key_values: Vec<PlanKey>,
    pub shared_heavy_key_values: Vec<PlanKey>,
    pub recommended_strategy: String,
    pub right_side_size_mb: Option<u64>,
    pub broadcast_threshold_mb: Option<u64>,
}

/// A key with the values that it encodes.
#[derive(Debug, PartialEq, Eq)]
pub struct PlanKey {
    pub encoded: String,
    pub parts: Vec<PlanKeyPart>,
}

/// One column of a key.
#[derive(Debug, PartialEq, Eq)]
pub struct PlanKeyPart {
    pub column: String,
    pub value_type: String,
    pub value: Option<String>,
}

/// Whether partitions of the target size are possible.
#[derive(Debug, Clone, PartialEq, Eq)]
pub struct PartitionPlanFeasibility {
    pub target_partition_size_satisfied: bool,
    pub reason: Option<String>,
}

/// Whether the dataset is rewritten.
#[derive(Debug, Clone, Copy, PartialEq, Eq, Structural)]
pub enum PlanAction {
    NoOp,
    Rewrite,
}

/// What a rewrite costs.
#[derive(Debug, Clone, PartialEq, Eq)]
pub struct CostEstimate {
    pub estimated_rows_read: u64,
    pub estimated_rows_written: u64,
    pub estimated_bytes_read: Option<u64>,
    pub estimated_bytes_written: Option<u64>,
    pub rewrite_required: bool,
    pub reason: String,
}

/// Columns that the rewrite adds.
#[derive(Debug, Clone, PartialEq, Eq)]
pub struct TechnicalColumns {
    pub included: bool,
    pub partition_column: String,
    pub salt_column: String,
    pub heavy_key_column: String,
}

/// What the job that follows should do.
#[derive(Debug, Clone, PartialEq, Eq)]
pub struct RecommendedDownstreamPlan {
    pub job_type: JobType,
    pub strategy: String,
    pub requires_operator_rewrite: bool,
    pub partition_column: Option<String>,
    pub salt_column: Option<String>,
    pub heavy_key_column: Option<String>,
    pub partial_group_keys: Vec<String>,
    pub final_group_keys: Vec<String>,
    pub join_keys: Vec<String>,
    pub notes: Vec<String>,
}

/// A key with one partition.
#[derive(Debug, Clone, PartialEq, Eq)]
pub struct NormalKeyPlan {
    pub key: String,
    pub estimated_frequency: u64,
    pub partition_id: usize,
}

/// A key whose rows are spread by salt.
#[derive(Debug, Clone, PartialEq, Eq)]
pub struct HeavyKeyPlan {
    pub key: String,
    pub structured_key: Option<PlanKey>,
    pub estimated_frequency: u64,
    pub detection_reasons: Vec<HeavyKeyReason>,
    pub salt_count: usize,
    pub salt_partitions: Vec<SaltPartitionPlan>,
}

/// Why a key is heavy.
#[derive(Debug, Clone, Copy, PartialEq, Eq, Structural)]
pub enum HeavyKeyReason {
    AboveMeanThreshold,
    ExceedsTargetPartitionRows,
}

/// The partition of one salt of a heavy key.
#[derive(Debug, Clone, Copy, PartialEq, Eq, Structural)]
pub struct SaltPartitionPlan {
    pub salt_index: usize,
    pub partition_id: usize,
}

/// What was found out about a dataset.
#[derive(Debug, Clone, PartialEq, Eq)]
pub struct StatsMetadata {
    pub version: String,
    pub input: InputStats,
    pub heavy_hitter_detection: HeavyHitterDetectionMetadata,
    pub storage: StorageMetadata,
    pub join: Option<JoinStatisticsMetadata>,
    pub skew: SkewStats,
    pub estimates: PartitionEstimates,
    pub resources: ResourceEstimate,
    pub timing: Option<TimingMetadata>,
}

/// What was found out about the two sides of a join.
#[derive(Debug, Clone, PartialEq, Eq)]
pub struct JoinStatisticsMetadata {
    pub join_keys: Vec<String>,
    pub left: JoinSideStatistics,
    pub right: Option<JoinSideStatistics>,
}

/// What was found out about one side of a join.
#[derive(Debug, Clone, PartialEq, Eq)]
pub struct JoinSideStatistics {
    pub total_rows: u64,
    pub total_size_bytes: Option<u64>,
    pub estimated_size_mb: Option<u64>,
    pub heavy_keys: Vec<String>,
    pub heavy_key_values: Vec<PlanKey>,
}

/// How key frequencies were counted and what they are worth.
#[derive(Debug, Clone, PartialEq, Eq)]
pub struct HeavyHitterDetectionMetadata {
    pub mode: String,
    pub capacity: usize,
    pub error_bound: String,
    pub key_frequencies_exact: bool,
    pub key_frequencies_truncated: bool,
    pub normal_keys_materialized: bool,
}

/// Seconds that the stages of a run took.
#[derive(Debug, Clone, Copy, PartialEq, Eq, Structural)]
pub struct TimingMetadata {
    pub read_seconds: Binary64,
    pub statistics_seconds: Binary64,
    pub planning_seconds: Binary64,
    pub assignment_seconds: Binary64,
    pub writing_seconds: Binary64,
    pub total_seconds: Binary64,
}

/// What the dataset needs of the machine.
#[derive(Debug, Clone, PartialEq, Eq)]
pub struct ResourceEstimate {
    pub configured_memory_limit_mb: u64,
    pub estimated_dataset_size_mb: Option<u64>,
    pub in_memory_processing_used: bool,
    pub memory_limit_exceeded: bool,
    pub warnings: Vec<String>,
}

/// What was found out about the input.
#[derive(Debug, Clone, PartialEq, Eq)]
pub struct InputStats {
    pub total_rows: u64,
    pub input_file_count: usize,
    pub input_files: Vec<InputFileStats>,
    pub min_file_size_bytes: Option<u64>,
    pub max_file_size_bytes: Option<u64>,
    pub mean_file_size_bytes: Option<Binary64>,
    pub small_file_count: usize,
    pub oversized_file_count: usize,
    pub estimated_row_width_bytes: Option<u64>,
    pub distinct_keys: Option<u64>,
    pub mean_key_frequency: Binary64,
    pub max_key_frequency: u64,
    pub key_frequencies: KeyMap<u64>,
    pub heavy_hitter_candidates: Vec<HeavyKeyPlan>,
    pub heavy_hitters: Vec<HeavyKeyPlan>,
}

/// Sizes that files are measured by.
#[derive(Debug, Clone, Copy, PartialEq, Eq, Structural)]
pub struct StorageMetadata {
    pub target_file_size_mb: u64,
    pub min_file_size_mb: u64,
    pub target_file_size_bytes: u64,
    pub min_file_size_bytes: u64,
}

/// An input file.
#[derive(Debug, Clone, PartialEq, Eq)]
pub struct InputFileStats {
    pub path: String,
    pub size_bytes: u64,
}

/// How uneven partition sizes are.
#[derive(Debug, Clone, Copy, PartialEq, Eq, Structural)]
pub struct SkewStats {
    pub max_partition_size: u64,
    pub mean_partition_size: Binary64,
    pub median_partition_size: Binary64,
    pub p95_partition_size: Binary64,
    pub partition_size_variance: Binary64,
    pub coefficient_of_variation: Binary64,
    pub max_mean_imbalance_ratio: Binary64,
}

/// Partition sizes before and after.
#[derive(Debug, Clone, PartialEq, Eq)]
pub struct PartitionEstimates {
    pub target_partitions: usize,
    pub before_partition_sizes: Vec<u64>,
    pub after_partition_sizes: Vec<u64>,
}

/// What lies in the output directory.
#[derive(Debug, Clone, PartialEq, Eq)]
pub struct Manifest {
    pub version: String,
    pub input_reused: bool,
    pub dataset_location: Option<String>,
    pub output_files: Vec<OutputFile>,
    pub partitions: Vec<PartitionManifest>,
}

/// A file of the output.
#[derive(Debug, Clone, PartialEq, Eq)]
pub struct OutputFile {
    pub path: String,
    pub partition_id: usize,
    pub row_count: u64,
    pub size_bytes: Option<u64>,
}

/// A partition of the output.
#[derive(Debug, Clone, Copy, PartialEq, Eq, Structural)]
pub struct PartitionManifest {
    pub partition_id: usize,
    pub row_count: u64,
    pub file_count: usize,
    pub size_bytes: Option<u64>,
}

/// Copies a sequence of strings.
pub fn copy_strings(strings: &Vec<String>) -> (copy: Vec<String>)
    ensures
        copy@ == strings@,
{
    let mut copy: Vec<String> = Vec::new();
    let mut i: usize = 0;
    while i < strings.len()
        invariant
            i <= strings@.len(),
            copy@ == strings@.take(i as int),
        decreases strings.len() - i,
    {
        copy.push(strings[i].clone());
        assert(strings@.take(i + 1) =~= strings@.take(i as int).push(strings@[i as int]));
        i += 1;
    }
    assert(strings@.take(i as int) =~= strings@);
    copy
}

/// A column of a key, as texts.
pub struct PlanKeyPartText {
    pub column: Seq<char>,
    pub value_type: Seq<char>,
    pub value: Option<Seq<char>>,
}

/// A key with its values, as texts.
pub struct PlanKeyText {
    pub encoded: Seq<char>,
    pub parts: Seq<PlanKeyPartText>,
}

impl View for PlanKeyPart {
    type V = PlanKeyPartText;

    open spec fn view(&self) -> PlanKeyPartText {
        PlanKeyPartText {
            column: self.column@,
            value_type: self.value_type@,
            value: match self.value {
                Some(text) => Some(text@),
                None => None,
            },
        }
    }
}

impl View for PlanKey {
    type V = PlanKeyText;

    open spec fn view(&self) -> PlanKeyText {
        PlanKeyText {
            encoded: self.encoded@,
            parts: Seq::new(self.parts@.len(), |i: int| self.parts@[i]@),
        }
    }
}

impl Clone for PlanKeyPart {
    fn clone(&self) -> (copy: Self)
        ensures
            copy@ == self@,
    {
        PlanKeyPart {
            column: self.column.clone(),
            value_type: self.value_type.clone(),
            value: match &self.value {
                Some(text) => Some(text.clone()),
                None => None,
            },
        }
    }
}

impl Clone for PlanKey {
    fn clone(&self) -> (copy: Self)
        ensures
            copy@ == self@,
    {
        let mut parts: Vec<PlanKeyPart> = Vec::new();
        let mut i: usize = 0;
        while i < self.parts.len()
            invariant
                i <= self.parts@.len(),
                parts@.len() == i,
                forall|j: int| 0 <= j < i ==> #[trigger] parts@[j]@ == self.parts@[j]@,
            decreases self.parts.len() - i,
        {
            parts.push(self.parts[i].clone());
            i += 1;
        }
        let copy = PlanKey { encoded: self.encoded.clone(), parts };
        assert(copy@.parts =~= self@.parts);
        copy
    }
}

/// A heavy key with its salts, as texts.
pub struct HeavyKeyPlanText {
    pub key: Seq<char>,
    pub structured_key: Option<PlanKeyText>,
    pub estimated_frequency: u64,
    pub detection_reasons: Seq<HeavyKeyReason>,
    pub salt_count: usize,
    pub salt_partitions: Seq<SaltPartitionPlan>,
}

impl View for HeavyKeyPlan {
    type V = HeavyKeyPlanText;

    open spec fn view(&self) -> HeavyKeyPlanText {
        HeavyKeyPlanText {
            key: self.key@,
            structured_key: match self.structured_key {
                Some(key) => Some(key@),
                None => None,
            },
            estimated_frequency: self.estimated_frequency,
            detection_reasons: self.detection_reasons@,
            salt_count: self.salt_count,
            salt_partitions: self.salt_partitions@,
        }
    }
}

/// The contents of a sequence of heavy keys.
pub open spec fn heavy_plan_texts(plans: Seq<HeavyKeyPlan>) -> Seq<HeavyKeyPlanText> {
    Seq::new(plans.len(), |i: int| plans[i]@)
}

/// A key with one partition, as text.
pub struct NormalKeyPlanText {
    pub key: Seq<char>,
    pub estimated_frequency: u64,
    pub partition_id: usize,
}

impl View for NormalKeyPlan {
    type V = NormalKeyPlanText;

    open spec fn view(&self) -> NormalKeyPlanText {
        NormalKeyPlanText {
            key: self.key@,
            estimated_frequency: self.estimated_frequency,
            partition_id: self.partition_id,
        }
    }
}

/// The contents of a sequence of keys with one partition.
pub open spec fn normal_plan_texts(plans: Seq<NormalKeyPlan>) -> Seq<NormalKeyPlanText> {
    Seq::new(plans.len(), |i: int| plans[i]@)
}

/// The contents of a sequence of keys.
pub open spec fn plan_key_texts(keys: Seq<PlanKey>) -> Seq<PlanKeyText> {
    Seq::new(keys.len(), |i: int| keys[i]@)
}

/// Copies a sequence of keys.
pub fn copy_plan_keys(keys: &Vec<PlanKey>) -> (copy: Vec<PlanKey>)
    ensures
        plan_key_texts(copy@) == plan_key_texts(keys@),
{
    let mut copy: Vec<PlanKey> = Vec::new();
    let mut i: usize = 0;
    while i < keys.len()
        invariant
            i <= keys@.len(),
            copy@.len() == i,
            forall|j: int| 0 <= j < i ==> #[trigger] copy@[j]@ == keys@[j]@,
        decreases keys.len() - i,
    {
        copy.push(keys[i].clone());
        i += 1;
    }
    assert(plan_key_texts(copy@) =~= plan_key_texts(keys@));
    copy
}

/// Copies a sequence of reasons.
pub fn copy_reasons(reasons: &Vec<HeavyKeyReason>) -> (copy: Vec<HeavyKeyReason>)
    ensures
        copy@ == reasons@,
{
    let mut copy: Vec<HeavyKeyReason> = Vec::new();
    let mut i: usize = 0;
    while i < reasons.len()
        invariant
            i <= reasons@.len(),
            copy@ == reasons@.take(i as int),
        decreases reasons.len() - i,
    {
        copy.push(reasons[i]);
        assert(reasons@.take(i + 1) =~= reasons@.take(i as int).push(reasons@[i as int]));
        i += 1;
    }
    assert(reasons@.take(i as int) =~= reasons@);
    copy
}

} // verus!
