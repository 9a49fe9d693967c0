//! How many partitions a dataset gets and how many rows each should hold.

use vstd::prelude::*;
use crate::arith::{ceil_div, ceil_div_spec, saturated, saturating_product};
use crate::config::Config;

verus! {

/// The width of rows is not known.
pub const REASON_ESTIMATED_ROW_WIDTH_UNAVAILABLE: &'static str = "estimated_row_width_unavailable";

/// Partitions of the target size would be too many.
pub const REASON_REQUIRED_PARTITIONS_EXCEED_MAX: &'static str = "required_partitions_exceed_max_partitions";

/// Number and size of the partitions.
#[derive(Debug, Clone, PartialEq, Eq)]
pub struct TargetPartitioning {
    pub output_partitions: usize,
    pub target_partition_rows: u64,
    pub required_partitions_by_size: usize,
    pub target_size_satisfied: bool,
    pub reason: Option<String>,
}

/// The larger of two numbers.
pub open spec fn max2(a: int, b: int) -> int {
    if a < b {
        b
    } else {
        a
    }
}

/// The smaller of two numbers.
pub open spec fn min2(a: int, b: int) -> int {
    if a < b {
        a
    } else {
        b
    }
}

/// Rows per partition when they are spread evenly, at least one.
pub open spec fn even_rows(total_rows: u64, partitions: usize) -> int {
    if total_rows == 0 || partitions == 0 {
        1
    } else {
        ceil_div_spec(total_rows as int, partitions as int)
    }
}

/// The target size in bytes.
pub open spec fn target_bytes(config: Config) -> u64 {
    saturated(config.partitioning.target_partition_size_mb@ * 1_048_576)
}

/// Partitions of the target size that the rows need, at least one.
pub open spec fn required_partitions(config: Config, total_rows: u64, width: u64) -> int {
    min2(
        max2(
            ceil_div_spec(saturated(total_rows * width) as int, target_bytes(config) as int),
            1,
        ),
        usize::MAX as int,
    )
}

/// The number of partitions: as many as the size asks for, within the limits;
/// the most that are allowed where the width of rows is not known.
pub open spec fn output_partition_count(config: Config, total_rows: u64, width: Option<u64>) -> int {
    let min = config.partitioning.min_partitions@;
    let max = config.partitioning.max_partitions@;
    match width {
        None => max as int,
        Some(w) => min2(max2(required_partitions(config, total_rows, w), min as int), max as int),
    }
}

/// The rows that a partition should hold.
pub open spec fn target_rows(config: Config, total_rows: u64, width: Option<u64>) -> int {
    let even = even_rows(total_rows, output_partition_count(config, total_rows, width) as usize);
    match width {
        None => even,
        Some(w) => min2(even, max2((target_bytes(config) / max2(w as int, 1) as u64) as int, 1)),
    }
}

/// The target is met within the limit on partitions.
pub open spec fn target_met(config: Config, total_rows: u64, width: Option<u64>) -> bool {
    width matches Some(w) && required_partitions(config, total_rows, w)
        <= config.partitioning.max_partitions@
}

/// `target` is the target for a dataset.
pub open spec fn is_target(
    config: Config,
    total_rows: u64,
    width: Option<u64>,
    target: TargetPartitioning,
) -> bool {
    &&& target.output_partitions == output_partition_count(config, total_rows, width)
    &&& target.target_partition_rows == target_rows(config, total_rows, width)
    &&& target.required_partitions_by_size == (match width {
        None => config.partitioning.max_partitions@ as int,
        Some(w) => required_partitions(config, total_rows, w),
    })
    &&& target.target_size_satisfied == target_met(config, total_rows, width)
    &&& match target.reason {
        None => target.target_size_satisfied,
        Some(reason) => !target.target_size_satisfied && reason@ == (match width {
            None => REASON_ESTIMATED_ROW_WIDTH_UNAVAILABLE@,
            Some(_) => REASON_REQUIRED_PARTITIONS_EXCEED_MAX@,
        }),
    }
}

/// Chooses the number of partitions and the rows of each.
pub fn compute_target_partitioning(
    config: &Config,
    total_rows: u64,
    estimated_row_width_bytes: Option<u64>,
) -> (target: TargetPartitioning)
    requires
        estimated_row_width_bytes is Some ==> config.partitioning.min_partitions@
            <= config.partitioning.max_partitions@,
    ensures
        is_target(*config, total_rows, estimated_row_width_bytes, target),
        target.output_partitions > 0,
        target.target_partition_rows > 0,
{
    let min_partitions: usize = config.partitioning.min_partitions.get();
    let max_partitions: usize = config.partitioning.max_partitions.get();
    match estimated_row_width_bytes {
        None => TargetPartitioning {
            output_partitions: max_partitions,
            target_partition_rows: rows_per_partition(total_rows, max_partitions),
            required_partitions_by_size: max_partitions,
            target_size_satisfied: false,
            reason: Some(REASON_ESTIMATED_ROW_WIDTH_UNAVAILABLE.to_owned()),
        },
        Some(row_width_bytes) => {
            let size_mb: u64 = config.partitioning.target_partition_size_mb.get();
            let target_size_bytes: u64 = saturating_product(size_mb, 1_048_576);
            let total_size_bytes: u64 = saturating_product(total_rows, row_width_bytes);
            let by_size: u64 = ceil_div(total_size_bytes, target_size_bytes);
            let required: usize = usize_from_u64(if by_size > 1 { by_size } else { 1 });
            let at_least: usize = if required < min_partitions { min_partitions } else { required };
            let output_partitions: usize = if at_least < max_partitions { at_least } else { max_partitions };
            let even: u64 = rows_per_partition(total_rows, output_partitions);
            let width: u64 = if row_width_bytes > 1 { row_width_bytes } else { 1 };
            let fitting: u64 = target_size_bytes / width;
            let by_target: u64 = if fitting > 1 { fitting } else { 1 };
            let satisfied = required <= max_partitions;
            TargetPartitioning {
                output_partitions,
                target_partition_rows: if even < by_target { even } else { by_target },
                required_partitions_by_size: required,
                target_size_satisfied: satisfied,
                reason: if satisfied {
                    None
                } else {
                    Some(REASON_REQUIRED_PARTITIONS_EXCEED_MAX.to_owned())
                },
            }
        },
    }
}

fn rows_per_partition(total_rows: u64, output_partitions: usize) -> (rows: u64)
    ensures
        rows == even_rows(total_rows, output_partitions),
        rows > 0,
{
    if total_rows == 0 || output_partitions == 0 {
        return 1;
    }
    ceil_div(total_rows, output_partitions as u64)
}

fn usize_from_u64(value: u64) -> (n: usize)
    ensures
        n == min2(value as int, usize::MAX as int),
{
    if value > usize::MAX as u64 {
        usize::MAX
    } else {
        value as usize
    }
}

/// The number of partitions keeps to the limits, each partition aims at a row at
/// least and at no more rows than there are, and where the width of rows is known a partition aims at no more than
/// the target size, unless a single row is wider.
pub proof fn target_within_limits(config: Config, total_rows: u64, width: Option<u64>)
    requires
        0 < config.partitioning.min_partitions@ <= config.partitioning.max_partitions@,
        config.partitioning.target_partition_size_mb@ > 0,
    ensures
        config.partitioning.min_partitions@ <= output_partition_count(config, total_rows, width)
            <= config.partitioning.max_partitions@,
        1 <= target_rows(config, total_rows, width) <= max2(total_rows as int, 1),
        width matches Some(w) ==> target_rows(config, total_rows, width) == 1 || target_rows(
            config,
            total_rows,
            width,
        ) * w <= target_bytes(config),
{
    let n = output_partition_count(config, total_rows, width);
    if total_rows > 0 {
        let t = total_rows as int;
        assert(1 <= (t + n - 1) / n <= t) by (nonlinear_arith)
            requires
                t >= 1,
                n >= 1,
        ;
    }
    if width is Some {
        let w = max2(width->0 as int, 1);
        let b = target_bytes(config) as int;
        let r = target_rows(config, total_rows, width);
        if r > 1 {
            assert(r * w <= b) by (nonlinear_arith)
                requires
                    r <= b / w,
                    w >= 1,
                    b >= 0,
            ;
            if width->0 == 0 {
                assert(r * 0 <= b) by (nonlinear_arith)
                    requires
                        b >= 0,
                ;
            }
        }
    }
}

/// The partitions hold the dataset. As many are required as hold it at the target size,
/// and no fewer would do. As many are planned, but for the limits: where the target is
/// met they hold the dataset, and fewer do so only below the lower limit; where it is
/// not, the upper limit is reached and is not enough. Sizes of bytes end at the largest
/// `u64`.
pub proof fn partitions_hold_the_dataset(
    config: Config,
    total_rows: u64,
    width: u64,
    target: TargetPartitioning,
)
    requires
        is_target(config, total_rows, Some(width), target),
        0 < config.partitioning.min_partitions@ <= config.partitioning.max_partitions@,
        config.partitioning.target_partition_size_mb@ > 0,
    ensures
        ({
            let min = config.partitioning.min_partitions@ as int;
            let max = config.partitioning.max_partitions@ as int;
            let megabytes = config.partitioning.target_partition_size_mb@ as int;
            let bytes = if megabytes * 1_048_576 > u64::MAX {
                u64::MAX as int
            } else {
                megabytes * 1_048_576
            };
            let dataset = if total_rows * width > u64::MAX {
                u64::MAX as int
            } else {
                total_rows * width
            };
            let required = target.required_partitions_by_size as int;
            let output = target.output_partitions as int;
            &&& required >= 1
            &&& required == 1 || (required - 1) * bytes < dataset
            &&& required < usize::MAX ==> required * bytes >= dataset
            &&& min <= output <= max
            &&& target.target_size_satisfied <==> required <= max
            &&& target.target_size_satisfied && required < usize::MAX ==> output * bytes >= dataset
            &&& target.target_size_satisfied ==> output == min || (output - 1) * bytes < dataset
            &&& !target.target_size_satisfied ==> output == max && max * bytes < dataset
        }),
{
    let bytes = target_bytes(config) as int;
    let dataset = saturated(total_rows * width) as int;
    let max = config.partitioning.max_partitions@ as int;
    let required = target.required_partitions_by_size as int;
    let output = target.output_partitions as int;
    let count = ceil_div_spec(dataset, bytes);
    assert(total_rows * width >= 0) by (nonlinear_arith);
    assert(count * bytes >= dataset && (count - 1) * bytes < dataset) by (nonlinear_arith)
        requires
            count == (dataset + bytes - 1) / bytes,
            bytes > 0,
            dataset >= 0,
    ;
    assert(required <= count || required == 1);
    if required > 1 {
        assert((required - 1) * bytes <= (count - 1) * bytes) by (nonlinear_arith)
            requires
                required <= count,
                bytes > 0,
        ;
    }
    if required < usize::MAX {
        assert(required * bytes >= count * bytes) by (nonlinear_arith)
            requires
                required >= count,
                bytes > 0,
        ;
    }
    if required <= output {
        assert(output * bytes >= required * bytes) by (nonlinear_arith)
            requires
                required <= output,
                bytes > 0,
        ;
    }
    if max < required {
        assert(max * bytes <= (required - 1) * bytes) by (nonlinear_arith)
            requires
                max <= required - 1,
                bytes > 0,
        ;
    }
}

/// A partition aims at no more than an even share of the rows and, where the width of
/// rows is known, at no more than the target size, unless a single row is more; and it
/// aims at as many rows as one of the two allows.
pub proof fn partitions_aim_at_their_share(
    config: Config,
    total_rows: u64,
    width: Option<u64>,
    target: TargetPartitioning,
)
    requires
        is_target(config, total_rows, width, target),
        0 < config.partitioning.min_partitions@ <= config.partitioning.max_partitions@,
        config.partitioning.target_partition_size_mb@ > 0,
    ensures
        ({
            let megabytes = config.partitioning.target_partition_size_mb@ as int;
            let bytes = if megabytes * 1_048_576 > u64::MAX {
                u64::MAX as int
            } else {
                megabytes * 1_048_576
            };
            let rows = target.target_partition_rows as int;
            let output = target.output_partitions as int;
            &&& rows >= 1
            &&& rows == 1 || (rows - 1) * output < total_rows
            &&& match width {
                None => rows * output >= total_rows,
                Some(w) => {
                    &&& rows == 1 || rows * w <= bytes
                    &&& rows * output >= total_rows || (rows + 1) * (if w == 0 {
                        1
                    } else {
                        w as int
                    }) > bytes
                },
            }
        }),
{
    let rows = target.target_partition_rows as int;
    let output = target.output_partitions as int;
    let bytes = target_bytes(config) as int;
    let total = total_rows as int;
    target_within_limits(config, total_rows, width);
    let even = even_rows(total_rows, output as usize);
    if total > 0 {
        assert(even * output >= total && (even - 1) * output < total && even >= 1)
            by (nonlinear_arith)
            requires
                even == (total + output - 1) / output,
                output > 0,
                total > 0,
        ;
    } else {
        assert(even * output >= 0) by (nonlinear_arith)
            requires
                even == 1,
                output > 0,
        ;
    }
    if rows > 1 {
        assert((rows - 1) * output <= (even - 1) * output) by (nonlinear_arith)
            requires
                rows <= even,
                output > 0,
        ;
    }
    if width is Some {
        let w = max2(width->0 as int, 1);
        let fit = bytes / w;
        assert((fit + 1) * w > bytes) by (nonlinear_arith)
            requires
                fit == bytes / w,
                w >= 1,
                bytes >= 0,
        ;
        if rows != even {
            assert(rows >= fit);
            assert((rows + 1) * w >= (fit + 1) * w) by (nonlinear_arith)
                requires
                    rows >= fit,
                    w >= 1,
            ;
        }
    }
}

/// Where the width of rows is not known, as many partitions are planned as are allowed,
/// and the target counts as missed, for that reason.
pub proof fn unknown_width_takes_the_upper_limit(
    config: Config,
    total_rows: u64,
    target: TargetPartitioning,
)
    requires
        is_target(config, total_rows, None, target),
    ensures
        target.output_partitions == config.partitioning.max_partitions@,
        target.required_partitions_by_size == config.partitioning.max_partitions@,
        !target.target_size_satisfied,
        target.reason matches Some(reason) && reason@ == "estimated_row_width_unavailable"@,
{
}

/// The reason says why the target is missed, and is given only then.
pub proof fn missed_targets_have_a_reason(
    config: Config,
    total_rows: u64,
    width: u64,
    target: TargetPartitioning,
)
    requires
        is_target(config, total_rows, Some(width), target),
    ensures
        target.target_size_satisfied <==> target.reason is None,
        target.reason matches Some(reason) ==> reason@
            == "required_partitions_exceed_max_partitions"@,
        target.reason is Some ==> target.required_partitions_by_size
            > config.partitioning.max_partitions@,
{
}

} // verus!
