//! Label-aligned series and frames over the columns of `fp_columnar`, and
//! group-by-sum in first-seen key order.

pub mod align;
pub mod arena;
pub mod buckets;
pub mod column;
pub mod frame;
pub mod groupby;
pub mod grouping;
pub mod label;
pub mod names;
pub mod paths;
pub mod policy;
pub mod scalar;
pub mod series;
pub mod text;

pub use crate::align::{align_union, validate_alignment_plan, AlignmentPlan, IndexError};
pub use crate::frame::DataFrame;
pub use crate::groupby::{
    estimate_groupby_intermediate_bytes, groupby_sum, groupby_sum_with_options,
    groupby_sum_with_trace, GroupByError, GroupByExecutionOptions, GroupByExecutionTrace,
    GroupByOptions, DEFAULT_ARENA_BUDGET_BYTES,
};
pub use crate::grouping::{GroupKey, Grouping};
pub use crate::label::{Index, IndexLabel};
pub use crate::policy::{DecisionAction, RuntimeMode, RuntimePolicy};
pub use crate::series::{concat_series, FrameError, Series};
