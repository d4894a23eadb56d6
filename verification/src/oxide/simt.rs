//! The `SimtDialect` implementation for cuda-oxide: call classification by
//! definition path. Path matching only — no upstream code is vendored.
use vstd::prelude::*;

use crate::dialect::{CallKind, MaskSource, SimtDialect};
use crate::text::{after_last, after_last_str, contains_seq, contains_str, ends_with, is_first_occurrence, split_once_str, starts_with, str_eq, lemma_first_occurrence_unique};
use crate::LaunchScope;

verus! {

/// The cuda-oxide dialect.
#[derive(Debug, Clone, Copy, Default)]
pub struct CudaOxide;

/// The rewritten thread-index intrinsics the `#[kernel]` macro emits (under `__internal`).
pub open spec fn is_witness_intrinsic(s: Seq<char>) -> bool {
    s == "index_1d"@
    || s == "index_2d"@
    || s == "index_2d_runtime"@
    || s == "warp_index"@
    || s == "index_1d_u32"@
    || s == "coord_2d_u32"@
    || s == "index_2d_row"@
    || s == "index_2d_col"@
}

fn witness_intrinsic(s: &str) -> (r: bool)
    ensures
        r == is_witness_intrinsic(s@),
{
    str_eq(s, "index_1d")
    || str_eq(s, "index_2d")
    || str_eq(s, "index_2d_runtime")
    || str_eq(s, "warp_index")
    || str_eq(s, "index_1d_u32")
    || str_eq(s, "coord_2d_u32")
    || str_eq(s, "index_2d_row")
    || str_eq(s, "index_2d_col")
}

/// The raw per-thread index built-ins.
pub open spec fn is_raw_thread_index(s: Seq<char>) -> bool {
    s == "threadIdx_x"@
    || s == "threadIdx_y"@
    || s == "threadIdx_z"@
    || s == "lane_id"@
}

fn raw_thread_index(s: &str) -> (r: bool)
    ensures
        r == is_raw_thread_index(s@),
{
    str_eq(s, "threadIdx_x")
    || str_eq(s, "threadIdx_y")
    || str_eq(s, "threadIdx_z")
    || str_eq(s, "lane_id")
}

/// Which block this is: uniform within a block, different in the next.
pub open spec fn is_block_index(s: Seq<char>) -> bool {
    s == "blockIdx_x"@ || s == "blockIdx_y"@ || s == "blockIdx_z"@
}

fn block_index(s: &str) -> (r: bool)
    ensures
        r == is_block_index(s@),
{
    str_eq(s, "blockIdx_x")
    || str_eq(s, "blockIdx_y")
    || str_eq(s, "blockIdx_z")
}

/// The launch geometry: the same on every thread of every block.
pub open spec fn is_launch_geometry(s: Seq<char>) -> bool {
    s == "blockDim_x"@
    || s == "blockDim_y"@
    || s == "blockDim_z"@
    || s == "gridDim_x"@
    || s == "gridDim_y"@
    || s == "gridDim_z"@
}

fn launch_geometry(s: &str) -> (r: bool)
    ensures
        r == is_launch_geometry(s@),
{
    str_eq(s, "blockDim_x")
    || str_eq(s, "blockDim_y")
    || str_eq(s, "blockDim_z")
    || str_eq(s, "gridDim_x")
    || str_eq(s, "gridDim_y")
    || str_eq(s, "gridDim_z")
}

/// Launch-wide special registers under `thread`.
pub open spec fn is_launch_wide_thread_register(s: Seq<char>) -> bool {
    s == "nsmid"@ || s == "gridid"@
}

fn launch_wide_thread_register(s: &str) -> (r: bool)
    ensures
        r == is_launch_wide_thread_register(s@),
{
    str_eq(s, "nsmid")
    || str_eq(s, "gridid")
}

/// The launch-environment registers under `grid`.
pub open spec fn is_env_register(s: Seq<char>) -> bool {
    s == "envreg1"@ || s == "envreg2"@
}

fn env_register(s: &str) -> (r: bool)
    ensures
        r == is_env_register(s@),
{
    str_eq(s, "envreg1")
    || str_eq(s, "envreg2")
}

/// The waiting half of the raw split cluster barrier.
pub open spec fn is_cluster_wait(s: Seq<char>) -> bool {
    s == "barrier_cluster_wait"@ || s == "barrier_cluster_wait_aligned"@
}

fn cluster_wait(s: &str) -> (r: bool)
    ensures
        r == is_cluster_wait(s@),
{
    str_eq(s, "barrier_cluster_wait")
    || str_eq(s, "barrier_cluster_wait_aligned")
}

/// Barriers every thread of their scope must reach, by name alone.
pub open spec fn is_scope_barrier(s: Seq<char>) -> bool {
    s == "sync_threads"@ || s == "cluster_sync"@
}

fn scope_barrier(s: &str) -> (r: bool)
    ensures
        r == is_scope_barrier(s@),
{
    str_eq(s, "sync_threads")
    || str_eq(s, "cluster_sync")
}

/// Cooperative-groups block helpers with a block barrier inside.
pub open spec fn is_block_helper(s: Seq<char>) -> bool {
    s == "block_reduce"@ || s == "block_scan"@
}

fn block_helper(s: &str) -> (r: bool)
    ensures
        r == is_block_helper(s@),
{
    str_eq(s, "block_reduce")
    || str_eq(s, "block_scan")
}

/// Cluster values that differ between the blocks of a cluster.
pub open spec fn is_cluster_block_fact(s: Seq<char>) -> bool {
    s == "block_rank"@
    || s == "cluster_ctaidX"@
    || s == "cluster_ctaidY"@
    || s == "cluster_ctaidZ"@
}

fn cluster_block_fact(s: &str) -> (r: bool)
    ensures
        r == is_cluster_block_fact(s@),
{
    str_eq(s, "block_rank")
    || str_eq(s, "cluster_ctaidX")
    || str_eq(s, "cluster_ctaidY")
    || str_eq(s, "cluster_ctaidZ")
}

/// The cluster's shape: launch geometry.
pub open spec fn is_cluster_shape(s: Seq<char>) -> bool {
    s == "cluster_size"@
    || s == "num_clusters"@
    || s == "cluster_nctaidX"@
    || s == "cluster_nctaidY"@
    || s == "cluster_nctaidZ"@
}

fn cluster_shape(s: &str) -> (r: bool)
    ensures
        r == is_cluster_shape(s@),
{
    str_eq(s, "cluster_size")
    || str_eq(s, "num_clusters")
    || str_eq(s, "cluster_nctaidX")
    || str_eq(s, "cluster_nctaidY")
    || str_eq(s, "cluster_nctaidZ")
}

/// Partial-warp reducers, whose mask is built from a run-time argument.
pub open spec fn is_partial_reducer(s: Seq<char>) -> bool {
    s == "reduce_sum_f32_partial"@
    || s == "reduce_sum_f64_partial"@
    || s == "reduce_max_f32_partial"@
    || s == "reduce_max_f64_partial"@
    || s == "reduce_min_f32_partial"@
    || s == "reduce_min_f64_partial"@
}

fn partial_reducer(s: &str) -> (r: bool)
    ensures
        r == is_partial_reducer(s@),
{
    str_eq(s, "reduce_sum_f32_partial")
    || str_eq(s, "reduce_sum_f64_partial")
    || str_eq(s, "reduce_max_f32_partial")
    || str_eq(s, "reduce_max_f64_partial")
    || str_eq(s, "reduce_min_f32_partial")
    || str_eq(s, "reduce_min_f64_partial")
}

/// The unmasked convenience wrappers, which supply a full mask themselves.
pub open spec fn is_unmasked_wrapper(s: Seq<char>) -> bool {
    s == "all"@
    || s == "any"@
    || s == "ballot"@
    || s == "popc"@
    || s == "shuffle"@
    || s == "shuffle_xor"@
    || s == "shuffle_down"@
    || s == "shuffle_up"@
    || s == "shuffle_f32"@
    || s == "shuffle_xor_f32"@
    || s == "shuffle_down_f32"@
    || s == "shuffle_up_f32"@
    || s == "shuffle_u64"@
    || s == "shuffle_xor_u64"@
    || s == "shuffle_down_u64"@
    || s == "shuffle_up_u64"@
    || s == "shuffle_f64"@
    || s == "shuffle_xor_f64"@
    || s == "shuffle_down_f64"@
    || s == "shuffle_up_f64"@
    || s == "reduce_sum_f32"@
    || s == "reduce_max_f32"@
    || s == "reduce_min_f32"@
    || s == "reduce_sum_f64"@
    || s == "reduce_max_f64"@
    || s == "reduce_min_f64"@
    || s == "warp_reduce_sum"@
}

fn unmasked_wrapper(s: &str) -> (r: bool)
    ensures
        r == is_unmasked_wrapper(s@),
{
    str_eq(s, "all")
    || str_eq(s, "any")
    || str_eq(s, "ballot")
    || str_eq(s, "popc")
    || str_eq(s, "shuffle")
    || str_eq(s, "shuffle_xor")
    || str_eq(s, "shuffle_down")
    || str_eq(s, "shuffle_up")
    || str_eq(s, "shuffle_f32")
    || str_eq(s, "shuffle_xor_f32")
    || str_eq(s, "shuffle_down_f32")
    || str_eq(s, "shuffle_up_f32")
    || str_eq(s, "shuffle_u64")
    || str_eq(s, "shuffle_xor_u64")
    || str_eq(s, "shuffle_down_u64")
    || str_eq(s, "shuffle_up_u64")
    || str_eq(s, "shuffle_f64")
    || str_eq(s, "shuffle_xor_f64")
    || str_eq(s, "shuffle_down_f64")
    || str_eq(s, "shuffle_up_f64")
    || str_eq(s, "reduce_sum_f32")
    || str_eq(s, "reduce_max_f32")
    || str_eq(s, "reduce_min_f32")
    || str_eq(s, "reduce_sum_f64")
    || str_eq(s, "reduce_max_f64")
    || str_eq(s, "reduce_min_f64")
    || str_eq(s, "warp_reduce_sum")
}

/// The masked `*_sync` surface, mask first, and the warp barrier `sync_mask`.
pub open spec fn is_masked_sync(s: Seq<char>) -> bool {
    s == "ballot_sync"@
    || s == "any_sync"@
    || s == "all_sync"@
    || s == "shuffle_sync"@
    || s == "shuffle_up_sync"@
    || s == "shuffle_down_sync"@
    || s == "shuffle_xor_sync"@
    || s == "shuffle_f32_sync"@
    || s == "shuffle_up_f32_sync"@
    || s == "shuffle_down_f32_sync"@
    || s == "shuffle_xor_f32_sync"@
    || s == "shuffle_u64_sync"@
    || s == "shuffle_up_u64_sync"@
    || s == "shuffle_down_u64_sync"@
    || s == "shuffle_xor_u64_sync"@
    || s == "shuffle_f64_sync"@
    || s == "shuffle_up_f64_sync"@
    || s == "shuffle_down_f64_sync"@
    || s == "shuffle_xor_f64_sync"@
    || s == "match_any_sync"@
    || s == "match_any_i64_sync"@
    || s == "match_all_sync"@
    || s == "match_all_i64_sync"@
    || s == "redux_sync_add"@
    || s == "redux_sync_and"@
    || s == "redux_sync_or"@
    || s == "redux_sync_xor"@
    || s == "redux_sync_min_u32"@
    || s == "redux_sync_min_i32"@
    || s == "redux_sync_max_u32"@
    || s == "redux_sync_max_i32"@
    || s == "redux_sync_min_f32"@
    || s == "redux_sync_max_f32"@
    || s == "redux_sync_min_abs_f32"@
    || s == "redux_sync_max_abs_f32"@
    || s == "redux_sync_min_nan_f32"@
    || s == "redux_sync_max_nan_f32"@
    || s == "redux_sync_min_abs_nan_f32"@
    || s == "redux_sync_max_abs_nan_f32"@
    || s == "elect_sync"@
    || s == "is_elected_sync"@
    || s == "sync_mask"@
}

fn masked_sync(s: &str) -> (r: bool)
    ensures
        r == is_masked_sync(s@),
{
    str_eq(s, "ballot_sync")
    || str_eq(s, "any_sync")
    || str_eq(s, "all_sync")
    || str_eq(s, "shuffle_sync")
    || str_eq(s, "shuffle_up_sync")
    || str_eq(s, "shuffle_down_sync")
    || str_eq(s, "shuffle_xor_sync")
    || str_eq(s, "shuffle_f32_sync")
    || str_eq(s, "shuffle_up_f32_sync")
    || str_eq(s, "shuffle_down_f32_sync")
    || str_eq(s, "shuffle_xor_f32_sync")
    || str_eq(s, "shuffle_u64_sync")
    || str_eq(s, "shuffle_up_u64_sync")
    || str_eq(s, "shuffle_down_u64_sync")
    || str_eq(s, "shuffle_xor_u64_sync")
    || str_eq(s, "shuffle_f64_sync")
    || str_eq(s, "shuffle_up_f64_sync")
    || str_eq(s, "shuffle_down_f64_sync")
    || str_eq(s, "shuffle_xor_f64_sync")
    || str_eq(s, "match_any_sync")
    || str_eq(s, "match_any_i64_sync")
    || str_eq(s, "match_all_sync")
    || str_eq(s, "match_all_i64_sync")
    || str_eq(s, "redux_sync_add")
    || str_eq(s, "redux_sync_and")
    || str_eq(s, "redux_sync_or")
    || str_eq(s, "redux_sync_xor")
    || str_eq(s, "redux_sync_min_u32")
    || str_eq(s, "redux_sync_min_i32")
    || str_eq(s, "redux_sync_max_u32")
    || str_eq(s, "redux_sync_max_i32")
    || str_eq(s, "redux_sync_min_f32")
    || str_eq(s, "redux_sync_max_f32")
    || str_eq(s, "redux_sync_min_abs_f32")
    || str_eq(s, "redux_sync_max_abs_f32")
    || str_eq(s, "redux_sync_min_nan_f32")
    || str_eq(s, "redux_sync_max_nan_f32")
    || str_eq(s, "redux_sync_min_abs_nan_f32")
    || str_eq(s, "redux_sync_max_abs_nan_f32")
    || str_eq(s, "elect_sync")
    || str_eq(s, "is_elected_sync")
    || str_eq(s, "sync_mask")
}

/// Per-lane and per-warp environment reads: divergent, never collectives.
pub open spec fn is_lane_env_read(s: Seq<char>) -> bool {
    s == "active_mask"@
    || s == "lanemask_lt"@
    || s == "lanemask_le"@
    || s == "lanemask_eq"@
    || s == "lanemask_ge"@
    || s == "lanemask_gt"@
    || s == "warp_id"@
    || s == "live_lanes_1d"@
}

fn lane_env_read(s: &str) -> (r: bool)
    ensures
        r == is_lane_env_read(s@),
{
    str_eq(s, "active_mask")
    || str_eq(s, "lanemask_lt")
    || str_eq(s, "lanemask_le")
    || str_eq(s, "lanemask_eq")
    || str_eq(s, "lanemask_ge")
    || str_eq(s, "lanemask_gt")
    || str_eq(s, "warp_id")
    || str_eq(s, "live_lanes_1d")
}

/// Dialect plumbing with uniform, effect-free results.
pub open spec fn is_plumbing_marker(s: Seq<char>) -> bool {
    s == "make_kernel_scope"@
    || s == "__launch_contract_config"@
    || s == "__launch_contract_block_config"@
    || s == "__launch_bounds_config"@
    || s == "__cluster_config"@
    || s == "__unchecked_indexing_config"@
    || s == "__unroll_config"@
}

fn plumbing_marker(s: &str) -> (r: bool)
    ensures
        r == is_plumbing_marker(s@),
{
    str_eq(s, "make_kernel_scope")
    || str_eq(s, "__launch_contract_config")
    || str_eq(s, "__launch_contract_block_config")
    || str_eq(s, "__launch_bounds_config")
    || str_eq(s, "__cluster_config")
    || str_eq(s, "__unchecked_indexing_config")
    || str_eq(s, "__unroll_config")
}

/// The names under `cluster` of a cluster-wide barrier.
pub open spec fn is_cluster_barrier_name(s: Seq<char>) -> bool {
    s == "cluster_sync"@ || s == "barrier_cluster_wait"@ || s == "barrier_cluster_wait_aligned"@
}

fn cluster_barrier_name(s: &str) -> (r: bool)
    ensures
        r == is_cluster_barrier_name(s@),
{
    str_eq(s, "cluster_sync")
    || str_eq(s, "barrier_cluster_wait")
    || str_eq(s, "barrier_cluster_wait_aligned")
}

/// The thread groups whose `sync` is a scope-wide barrier.
pub open spec fn is_scope_group(s: Seq<char>) -> bool {
    s == "ThreadBlock"@ || s == "Grid"@ || s == "Cluster"@
}

fn scope_group(s: &str) -> (r: bool)
    ensures
        r == is_scope_group(s@),
{
    str_eq(s, "ThreadBlock")
    || str_eq(s, "Grid")
    || str_eq(s, "Cluster")
}

/// The width of a primitive integer type named in a `core::num` impl path;
/// `usize` and `isize` have none, their width being target-defined.
pub open spec fn int_width(ty: Seq<char>) -> Option<u32> {
    if ty == "u8"@ || ty == "i8"@ {
        Some(8)
    } else if ty == "u16"@ || ty == "i16"@ {
        Some(16)
    } else if ty == "u32"@ || ty == "i32"@ {
        Some(32)
    } else if ty == "u64"@ || ty == "i64"@ {
        Some(64)
    } else if ty == "u128"@ || ty == "i128"@ {
        Some(128)
    } else {
        None
    }
}

/// The first place `sep` occurs in `s`.
pub open spec fn first_at(s: Seq<char>, sep: Seq<char>) -> int {
    choose|i: int| is_first_occurrence(s, sep, i)
}

/// Primitive-integer intrinsics the witness interpreter can evaluate: a
/// popcount at `core::num::<impl {int}>::count_ones`, and only there.
pub open spec fn spec_int_intrinsic(p: Seq<char>) -> Option<CallKind> {
    let pre = "core::num::<impl "@;
    if !pre.is_prefix_of(p) {
        None
    } else {
        let rest = p.skip(pre.len() as int);
        if !contains_seq(rest, ">::"@) {
            None
        } else {
            let i = first_at(rest, ">::"@);
            let ty = rest.take(i);
            let method = rest.skip(i + 3);
            if method == "count_ones"@ && int_width(ty) is Some {
                Some(CallKind::CountOnes { bits: int_width(ty)->Some_0 })
            } else {
                None
            }
        }
    }
}

fn int_width_of(ty: &str) -> (r: Option<u32>)
    ensures
        r == int_width(ty@),
{
    if str_eq(ty, "u8") || str_eq(ty, "i8") {
        Some(8)
    } else if str_eq(ty, "u16") || str_eq(ty, "i16") {
        Some(16)
    } else if str_eq(ty, "u32") || str_eq(ty, "i32") {
        Some(32)
    } else if str_eq(ty, "u64") || str_eq(ty, "i64") {
        Some(64)
    } else if str_eq(ty, "u128") || str_eq(ty, "i128") {
        Some(128)
    } else {
        None
    }
}

fn classify_int_intrinsic(def_path: &str) -> (r: Option<CallKind>)
    ensures
        r == spec_int_intrinsic(def_path@),
{
    proof {
        reveal_strlit(">::");
    }
    let rest = match crate::text::strip_prefix(def_path, "core::num::<impl ") {
        Some(rest) => rest,
        None => {
            return None;
        },
    };
    let (ty, method) = match split_once_str(rest, ">::") {
        Some(parts) => parts,
        None => {
            return None;
        },
    };
    proof {
        let i = choose|i: int|
            is_first_occurrence(rest@, ">::"@, i) && ty@ == rest@.take(i) && method@ == rest@.skip(
                i + 3,
            );
        lemma_first_occurrence_unique(rest@, ">::"@, i, first_at(rest@, ">::"@));
        assert(contains_seq(rest@, ">::"@));
    }
    if !str_eq(method, "count_ones") {
        return None;
    }
    match int_width_of(ty) {
        Some(bits) => Some(CallKind::CountOnes { bits }),
        None => None,
    }
}

/// How a cuda-device callee is classified, by its definition path.
pub open spec fn spec_classify_call(p: Seq<char>) -> CallKind {
    if spec_int_intrinsic(p) is Some {
        spec_int_intrinsic(p)->Some_0
    } else if !"cuda_device::"@.is_prefix_of(p) {
        CallKind::Other
    } else {
        let last = after_last(p, "::"@);
        if is_witness_intrinsic(last) && contains_seq(p, "::__internal::"@) {
            CallKind::ThreadIndexWitness
        } else if is_raw_thread_index(last) {
            CallKind::ThreadIndexWitness
        } else if is_block_index(last) {
            CallKind::BlockUniform
        } else if is_launch_geometry(last) {
            CallKind::GridUniform
        } else if last == "smid"@ && contains_seq(p, "::thread::"@) {
            CallKind::BlockUniform
        } else if is_launch_wide_thread_register(last) && contains_seq(p, "::thread::"@) {
            CallKind::GridUniform
        } else if last == "nwarpid"@ && contains_seq(p, "::warp::"@) {
            CallKind::GridUniform
        } else if is_env_register(last) && contains_seq(p, "::grid::"@) {
            CallKind::GridUniform
        } else if is_cluster_wait(last) && contains_seq(p, "::cluster::"@) {
            CallKind::Barrier
        } else if is_scope_barrier(last) {
            CallKind::Barrier
        } else if last == "sync"@ && contains_seq(p, "::grid::"@) {
            CallKind::Barrier
        } else if is_block_helper(last) && contains_seq(p, "::cooperative_groups::"@) {
            CallKind::Barrier
        } else if is_cluster_block_fact(last) && contains_seq(p, "::cluster::"@) {
            CallKind::BlockUniform
        } else if last == "cluster_idx"@ && contains_seq(p, "::cluster::"@) {
            CallKind::ClusterUniform
        } else if is_cluster_shape(last) && contains_seq(p, "::cluster::"@) {
            CallKind::GridUniform
        } else if is_partial_reducer(last) && contains_seq(p, "::warp::"@) {
            CallKind::WarpCollective { mask: MaskSource::Unknown }
        } else if is_unmasked_wrapper(last) && contains_seq(p, "::warp::"@) {
            CallKind::WarpCollective { mask: MaskSource::ImplicitFull }
        } else if is_masked_sync(last) {
            CallKind::WarpCollective { mask: MaskSource::FirstArgument }
        } else if is_lane_env_read(last) {
            CallKind::DivergentEnvRead
        } else if last == "warpid"@ && contains_seq(p, "::warp::"@) {
            CallKind::DivergentEnvRead
        } else if is_plumbing_marker(last) {
            CallKind::UniformMarker
        } else if last == "get"@ && contains_seq(p, "ThreadIndex"@) {
            CallKind::WitnessRead
        } else if contains_seq(p, "::atomic::"@) {
            CallKind::AtomicRmw
        } else {
            CallKind::Other
        }
    }
}

/// Classify a cuda-device callee (free function form; see [`CudaOxide`]).
pub fn classify_call(def_path: &str) -> (r: CallKind)
    ensures
        r == spec_classify_call(def_path@),
{
    if let Some(kind) = classify_int_intrinsic(def_path) {
        return kind;
    }
    if !starts_with(def_path, "cuda_device::") {
        return CallKind::Other;
    }
    let last = after_last_str(def_path, "::");
    let in_internal = contains_str(def_path, "::__internal::");
    if witness_intrinsic(last) && in_internal {
        CallKind::ThreadIndexWitness
    } else if raw_thread_index(last) {
        CallKind::ThreadIndexWitness
    } else if block_index(last) {
        CallKind::BlockUniform
    } else if launch_geometry(last) {
        CallKind::GridUniform
    } else if str_eq(last, "smid") && contains_str(def_path, "::thread::") {
        CallKind::BlockUniform
    } else if launch_wide_thread_register(last) && contains_str(def_path, "::thread::") {
        CallKind::GridUniform
    } else if str_eq(last, "nwarpid") && contains_str(def_path, "::warp::") {
        CallKind::GridUniform
    } else if env_register(last) && contains_str(def_path, "::grid::") {
        CallKind::GridUniform
    } else if cluster_wait(last) && contains_str(def_path, "::cluster::") {
        // The raw cluster barrier is a split barrier: only the waiting half
        // can hang, so only it is a barrier.
        CallKind::Barrier
    } else if scope_barrier(last) {
        CallKind::Barrier
    } else if str_eq(last, "sync") && contains_str(def_path, "::grid::") {
        CallKind::Barrier
    } else if block_helper(last) && contains_str(def_path, "::cooperative_groups::") {
        CallKind::Barrier
    } else if cluster_block_fact(last) && contains_str(def_path, "::cluster::") {
        CallKind::BlockUniform
    } else if str_eq(last, "cluster_idx") && contains_str(def_path, "::cluster::") {
        CallKind::ClusterUniform
    } else if cluster_shape(last) && contains_str(def_path, "::cluster::") {
        CallKind::GridUniform
    } else if partial_reducer(last) && contains_str(def_path, "::warp::") {
        CallKind::WarpCollective { mask: MaskSource::Unknown }
    } else if unmasked_wrapper(last) && contains_str(def_path, "::warp::") {
        CallKind::WarpCollective { mask: MaskSource::ImplicitFull }
    } else if masked_sync(last) {
        CallKind::WarpCollective { mask: MaskSource::FirstArgument }
    } else if lane_env_read(last) {
        CallKind::DivergentEnvRead
    } else if str_eq(last, "warpid") && contains_str(def_path, "::warp::") {
        CallKind::DivergentEnvRead
    } else if plumbing_marker(last) {
        CallKind::UniformMarker
    } else if str_eq(last, "get") && contains_str(def_path, "ThreadIndex") {
        CallKind::WitnessRead
    } else if contains_str(def_path, "::atomic::") {
        // Atomic read-modify-writes return the previous value, which
        // differs per thread by construction.
        CallKind::AtomicRmw
    } else {
        CallKind::Other
    }
}

/// How a callee whose meaning may depend on its receiver is classified:
/// `ThreadGroup::sync` on a `ThreadBlock`, `Grid` or `Cluster` of
/// cuda-device's cooperative groups is a barrier, on any other group it is
/// an ordinary call; everything else goes by path.
pub open spec fn spec_classify_method_call(p: Seq<char>, receiver: Option<Seq<char>>) -> CallKind {
    if "::cooperative_groups::ThreadGroup::sync"@.is_suffix_of(p) && receiver is Some
        && "cuda_device::cooperative_groups::"@.is_prefix_of(receiver->Some_0) {
        if is_scope_group(after_last(receiver->Some_0, "::"@)) {
            CallKind::Barrier
        } else {
            CallKind::Other
        }
    } else {
        spec_classify_call(p)
    }
}

/// The view of an optional receiver type path.
pub open spec fn receiver_view(receiver: Option<&str>) -> Option<Seq<char>> {
    match receiver {
        Some(r) => Some(r@),
        None => None,
    }
}

/// Classify a callee whose meaning depends on its receiver.
pub fn classify_method_call(def_path: &str, receiver: Option<&str>) -> (r: CallKind)
    ensures
        r == spec_classify_method_call(def_path@, receiver_view(receiver)),
{
    if ends_with(def_path, "::cooperative_groups::ThreadGroup::sync") {
        if let Some(receiver) = receiver {
            if starts_with(receiver, "cuda_device::cooperative_groups::") {
                let group = after_last_str(receiver, "::");
                return if scope_group(group) {
                    CallKind::Barrier
                } else {
                    CallKind::Other
                };
            }
        }
    }
    classify_call(def_path)
}

/// How far a barrier's participant set reaches: `ThreadGroup::sync` by its
/// receiver (a `Grid`, a `Cluster`, else a block); `grid::sync` the grid;
/// the cluster barriers under `cluster` the cluster; anything else a block.
pub open spec fn spec_barrier_scope(p: Seq<char>, receiver: Option<Seq<char>>) -> LaunchScope {
    if "::cooperative_groups::ThreadGroup::sync"@.is_suffix_of(p) && receiver is Some {
        let group = after_last(receiver->Some_0, "::"@);
        if group == "Grid"@ {
            LaunchScope::Grid
        } else if group == "Cluster"@ {
            LaunchScope::Cluster
        } else {
            LaunchScope::Block
        }
    } else {
        let last = after_last(p, "::"@);
        if last == "sync"@ && contains_seq(p, "::grid::"@) {
            LaunchScope::Grid
        } else if is_cluster_barrier_name(last) && contains_seq(p, "::cluster::"@) {
            LaunchScope::Cluster
        } else {
            LaunchScope::Block
        }
    }
}

/// How far a barrier's participant set reaches (free function form).
pub fn barrier_scope(def_path: &str, receiver: Option<&str>) -> (r: LaunchScope)
    ensures
        r == spec_barrier_scope(def_path@, receiver_view(receiver)),
{
    if ends_with(def_path, "::cooperative_groups::ThreadGroup::sync") {
        if let Some(receiver) = receiver {
            let group = after_last_str(receiver, "::");
            return if str_eq(group, "Grid") {
                LaunchScope::Grid
            } else if str_eq(group, "Cluster") {
                LaunchScope::Cluster
            } else {
                LaunchScope::Block
            };
        }
    }
    let last = after_last_str(def_path, "::");
    if str_eq(last, "sync") && contains_str(def_path, "::grid::") {
        LaunchScope::Grid
    } else if cluster_barrier_name(last) && contains_str(def_path, "::cluster::") {
        LaunchScope::Cluster
    } else {
        LaunchScope::Block
    }
}

impl SimtDialect for CudaOxide {
    fn classify_call(&self, def_path: &str) -> (r: CallKind)
        ensures
            r == spec_classify_call(def_path@),
    {
        classify_call(def_path)
    }

    fn classify_method_call(&self, def_path: &str, receiver: Option<&str>) -> (r: CallKind)
        ensures
            r == spec_classify_method_call(def_path@, receiver_view(receiver)),
    {
        classify_method_call(def_path, receiver)
    }

    fn barrier_scope(&self, def_path: &str, receiver: Option<&str>) -> (r: LaunchScope)
        ensures
            r == spec_barrier_scope(def_path@, receiver_view(receiver)),
    {
        barrier_scope(def_path, receiver)
    }
}

} // verus!
