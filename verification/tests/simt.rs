//! The cuda-oxide dialect's call classification, as the engine sees it.
use reconverge::dialect::{CallKind, MaskSource};
use reconverge::oxide::simt::{barrier_scope, classify_call, classify_method_call};
use reconverge::LaunchScope;

#[test]
fn classifies_index_witnesses() {
    assert_eq!(
        classify_call("cuda_device::thread::__internal::index_1d"),
        CallKind::ThreadIndexWitness
    );
    assert_eq!(
        classify_call("cuda_device::thread::threadIdx_x"),
        CallKind::ThreadIndexWitness
    );
    // The public unreachable!-stub is NOT the rewritten intrinsic; the
    // macro rewrites calls, so treating the stub as Other is safe and
    // avoids misclassifying same-named user helpers re-exported paths.
    assert_eq!(
        classify_call("cuda_device::thread::index_1d"),
        CallKind::Other
    );
}

#[test]
fn classifies_count_ones_with_its_operand_width() {
    for (path, bits) in [
        ("core::num::<impl u8>::count_ones", 8),
        ("core::num::<impl u32>::count_ones", 32),
        ("core::num::<impl i32>::count_ones", 32),
        ("core::num::<impl u64>::count_ones", 64),
        ("core::num::<impl u128>::count_ones", 128),
    ] {
        assert_eq!(classify_call(path), CallKind::CountOnes { bits }, "{path}");
    }
    assert_eq!(
        classify_call("cuda_device::warp::lanemask_lt"),
        CallKind::DivergentEnvRead
    );
}

/// `count_ones` is a method name, not a reserved word: only the
/// primitive-integer inherent impls are the intrinsic. Anything else
/// takes a receiver as its first argument, so evaluating it as a
/// popcount would count the bits of a pointer.
#[test]
fn count_ones_elsewhere_is_not_the_integer_intrinsic() {
    for path in [
        "bitvec::slice::BitSlice::<T, O>::count_ones",
        "roaring::RoaringBitmap::count_ones",
        "my_app::occupancy::Histogram::count_ones",
        "core::num::<impl usize>::count_ones",
        "core::num::<impl isize>::count_ones",
        "core::num::<impl u32>::count_zeros",
    ] {
        assert_eq!(classify_call(path), CallKind::Other, "{path}");
    }
}

/// A barrier's participant set, which is what decides whether a
/// block-uniform guard is enough (#133).
#[test]
fn barrier_scope_names_the_participant_set() {


    // Block-wide: the default, and what an unrecognized path gets.
    for path in [
        "cuda_device::thread::sync_threads",
        "cuda_device::cooperative_groups::block_reduce",
        "cuda_device::something::unheard_of",
    ] {
        assert_eq!(barrier_scope(path, None), LaunchScope::Block, "{path}");
    }

    // Cluster-wide: the safe wrapper and the raw waiting half. The
    // arrival half is not a barrier at all (#132), so it is never asked.
    for path in [
        "cuda_device::cluster::cluster_sync",
        "cuda_device::cluster::barrier_cluster_wait",
        "cuda_device::cluster::barrier_cluster_wait_aligned",
    ] {
        assert_eq!(barrier_scope(path, None), LaunchScope::Cluster, "{path}");
    }

    assert_eq!(
        barrier_scope("cuda_device::grid::sync", None),
        LaunchScope::Grid
    );

    // `ThreadGroup::sync` is one path for three scopes, told apart by
    // receiver exactly as its classification is.
    let sync = "cuda_device::cooperative_groups::ThreadGroup::sync";
    for (receiver, want) in [
        (
            "cuda_device::cooperative_groups::ThreadBlock",
            LaunchScope::Block,
        ),
        (
            "cuda_device::cooperative_groups::Cluster",
            LaunchScope::Cluster,
        ),
        ("cuda_device::cooperative_groups::Grid", LaunchScope::Grid),
    ] {
        assert_eq!(barrier_scope(sync, Some(receiver)), want, "{receiver}");
    }
    // Without a receiver the path cannot say, and the narrow answer
    // reports nothing extra.
    assert_eq!(barrier_scope(sync, None), LaunchScope::Block);
}

#[test]
fn classifies_uniform_sources_and_barrier() {
    assert_eq!(
        classify_call("cuda_device::thread::blockIdx_x"),
        CallKind::BlockUniform
    );
    // Launch geometry is the same on every block, so it decides a
    // barrier at any scope; `blockIdx` above is not.
    assert_eq!(
        classify_call("cuda_device::thread::blockDim_x"),
        CallKind::GridUniform
    );
    assert_eq!(
        classify_call("cuda_device::sync_threads"),
        CallKind::Barrier
    );
    assert_eq!(
        classify_call("cuda_device::thread::sync_threads"),
        CallKind::Barrier
    );
}

#[test]
fn classifies_warp_collectives_and_atomics() {
    assert_eq!(
        classify_call("cuda_device::warp::ballot_sync"),
        CallKind::WarpCollective {
            mask: MaskSource::FirstArgument
        }
    );
    assert_eq!(
        classify_call("cuda_device::atomic::atomic_add"),
        CallKind::AtomicRmw
    );
}

#[test]
fn classifies_the_full_masked_sync_surface() {
    // The names cuda-device actually exports at the pinned rev (its
    // `warp` module): `shuffle_*_sync` in every width, the match and
    // redux families, election, and the warp barrier. The historical
    // CUDA C spellings (`shfl_sync`, `activemask`) do not exist in the
    // Rust API and must NOT be matched — a name that matches nothing
    // is a silent recall hole.
    for name in [
        "shuffle_sync",
        "shuffle_up_sync",
        "shuffle_down_sync",
        "shuffle_xor_sync",
        "shuffle_f32_sync",
        "shuffle_up_f32_sync",
        "shuffle_down_f32_sync",
        "shuffle_xor_f32_sync",
        "shuffle_u64_sync",
        "shuffle_up_u64_sync",
        "shuffle_down_u64_sync",
        "shuffle_xor_u64_sync",
        "shuffle_f64_sync",
        "shuffle_up_f64_sync",
        "shuffle_down_f64_sync",
        "shuffle_xor_f64_sync",
        "match_any_sync",
        "match_any_i64_sync",
        "match_all_sync",
        "match_all_i64_sync",
        "redux_sync_add",
        "redux_sync_and",
        "redux_sync_or",
        "redux_sync_xor",
        "redux_sync_min_u32",
        "redux_sync_min_i32",
        "redux_sync_max_u32",
        "redux_sync_max_i32",
        "redux_sync_min_f32",
        "redux_sync_max_f32",
        "redux_sync_min_abs_f32",
        "redux_sync_max_abs_f32",
        "redux_sync_min_nan_f32",
        "redux_sync_max_nan_f32",
        "redux_sync_min_abs_nan_f32",
        "redux_sync_max_abs_nan_f32",
        "elect_sync",
        "is_elected_sync",
        "sync_mask",
    ] {
        assert_eq!(
            classify_call(&format!("cuda_device::warp::{name}")),
            CallKind::WarpCollective {
                mask: MaskSource::FirstArgument
            },
            "{name} must be a warp collective"
        );
    }
    for dead in ["shfl_sync", "shfl_down_sync", "activemask"] {
        assert_eq!(
            classify_call(&format!("cuda_device::warp::{dead}")),
            CallKind::Other,
            "{dead} does not exist in cuda-device"
        );
    }
}

#[test]
fn active_mask_is_divergent_but_never_a_collective() {
    assert_eq!(
        classify_call("cuda_device::warp::active_mask"),
        CallKind::DivergentEnvRead
    );
}

#[test]
fn classifies_every_all_threads_barrier() {
    // Block, cluster, and grid scope: all three deadlock when reached
    // divergently, and all three must be RC001's subject.
    assert_eq!(
        classify_call("cuda_device::cluster::cluster_sync"),
        CallKind::Barrier
    );
    assert_eq!(classify_call("cuda_device::grid::sync"), CallKind::Barrier);
    // `sync` is a barrier only in the grid module — the bare name is
    // too generic to match anywhere else.
    assert_eq!(classify_call("cuda_device::foo::sync"), CallKind::Other);
    // The mbarrier arrive/wait family is a phase-counted split barrier
    // where partial participation is the designed use: deliberately
    // outside RC001 (explain/RC001.md documents the boundary).
    assert_eq!(
        classify_call("cuda_device::barrier::Barrier::wait"),
        CallKind::Other
    );
}

#[test]
fn lane_environment_reads_are_divergent_sources() {
    // The lanemask registers differ on every lane; warp_id and
    // live_lanes_1d are warp-uniform, which the lattice must treat as
    // divergent (it does not distinguish warp- from block-uniformity).
    // None is a collective and none is replay-evaluable yet.
    for name in [
        "lanemask_lt",
        "lanemask_le",
        "lanemask_eq",
        "lanemask_ge",
        "lanemask_gt",
        "warp_id",
        "live_lanes_1d",
    ] {
        assert_eq!(
            classify_call(&format!("cuda_device::warp::{name}")),
            CallKind::DivergentEnvRead,
            "{name} must be a divergent environment read"
        );
    }
}

/// The unmasked wrappers are collectives whose mask is known from the
/// call. Each delegates to its `*_sync` counterpart with `u32::MAX`,
/// verified against cuda-device at the pinned rev, so the wrapper — not
/// a callee the analysis cannot see — is what supplies the mask.
///
/// This replaces a test asserting they were `Other`. Its reasoning was
/// that their first argument is not a mask, so classifying them would
/// corrupt mask reasoning, and they should stay out "until the dialect
/// can carry an implicit-mask convention". `implicit_full_mask` is that
/// convention.
#[test]
fn unmasked_wrappers_carry_an_implicit_full_mask() {
    for name in [
        "shuffle",
        "shuffle_down",
        "shuffle_down_f32",
        "ballot",
        "all",
        "any",
        "popc",
        "reduce_sum_f32",
        "warp_reduce_sum",
    ] {
        assert_eq!(
            classify_call(&format!("cuda_device::warp::{name}")),
            CallKind::WarpCollective {
                mask: MaskSource::ImplicitFull
            },
            "{name} is a collective with a full mask"
        );
    }
}

/// The wrapper names are only collectives under `::warp::`. `all` and
/// `any` are ordinary words, and a false positive here would invent a
/// collective where the program has none.
/// `ThreadGroup::sync` is one path for five barriers; the receiver
/// decides. Block, grid and cluster groups are RC001's subject; a tile
/// or the coalesced set is a partial-participation contract left as
/// `Other` (conformance/SURFACE_ALLOW), and no receiver is no decision.
#[test]
fn thread_group_sync_is_a_barrier_by_receiver() {
    let sync = "cuda_device::cooperative_groups::ThreadGroup::sync";
    for group in ["ThreadBlock", "Grid", "Cluster"] {
        let receiver = format!("cuda_device::cooperative_groups::{group}");
        assert_eq!(
            classify_method_call(sync, Some(&receiver)),
            CallKind::Barrier,
            "{group}::sync is a scope-wide barrier"
        );
    }
    for group in ["WarpTile<16>", "WarpTile<32>", "CoalescedThreads"] {
        let receiver = format!("cuda_device::cooperative_groups::{group}");
        assert_eq!(
            classify_method_call(sync, Some(&receiver)),
            CallKind::Other,
            "{group}::sync is tile-scoped and deliberately unmodelled"
        );
    }
    assert_eq!(classify_method_call(sync, None), CallKind::Other);
    // A foreign trait with the same method name is nobody's barrier.
    assert_eq!(
        classify_method_call(
            "my_crate::ThreadGroup::sync",
            Some("cuda_device::cooperative_groups::ThreadBlock")
        ),
        CallKind::Other
    );
    // The receiver never changes a free function's classification.
    assert_eq!(
        classify_method_call(
            "cuda_device::thread::sync_threads",
            Some("cuda_device::cooperative_groups::WarpTile<32>")
        ),
        CallKind::Barrier
    );
}

/// The generated special-register readers and the raw cluster barrier:
/// scanned by scripts/check-surface.sh through the modules' `include!`s.
#[test]
fn generated_registers_and_the_raw_cluster_barrier_are_classified() {
    // Which SM this block landed on is a block fact, and it differs
    // between blocks.
    assert_eq!(
        classify_call("cuda_device::thread::smid"),
        CallKind::BlockUniform,
        "smid is the same on every thread of the block, and differs on the next block"
    );
    // The rest are launch-wide: how many SMs the device has, the grid's
    // id, the warp-slot count, and the launch environment.
    for (module, name) in [
        ("thread", "nsmid"),
        ("thread", "gridid"),
        ("warp", "nwarpid"),
        ("grid", "envreg1"),
        ("grid", "envreg2"),
    ] {
        assert_eq!(
            classify_call(&format!("cuda_device::{module}::{name}")),
            CallKind::GridUniform,
            "{name} reads the same on every thread of the launch"
        );
    }
    assert_eq!(
        classify_call("cuda_device::warp::warpid"),
        CallKind::DivergentEnvRead,
        "the hardware warp slot differs per warp"
    );
    // The raw cluster barrier is split: only the waiting half blocks.
    for name in ["barrier_cluster_wait", "barrier_cluster_wait_aligned"] {
        assert_eq!(
            classify_call(&format!("cuda_device::cluster::{name}")),
            CallKind::Barrier,
            "{name} blocks until the cluster has arrived"
        );
    }
    // The arrival half signals and returns. 0.6.0 called it a barrier and
    // reported a legal split arrival -- one warp through the aligned
    // form, its sibling through the plain one -- as two confirmed
    // deadlocks (#132). Allowlisted with the mbarrier family, and
    // explain/RC001.md says what that costs.
    for name in [
        "barrier_cluster_arrive",
        "barrier_cluster_arrive_aligned",
        "barrier_cluster_arrive_relaxed",
        "barrier_cluster_arrive_relaxed_aligned",
    ] {
        assert_eq!(
            classify_call(&format!("cuda_device::cluster::{name}")),
            CallKind::Other,
            "{name} is a non-blocking arrival, not a barrier"
        );
    }
    // The counted CTA barrier names its participants, so partial
    // participation is its design: allowlisted, not a barrier here.
    assert_eq!(
        classify_call("cuda_device::barrier::barrier_cta_sync"),
        CallKind::Other
    );
    // Foreign lookalikes are nobody's register.
    assert_eq!(classify_call("my_crate::thread::smid"), CallKind::Other);
}

/// The block helpers carry a `sync_threads` inside; the cluster reads
/// are block-uniform; the cluster marker is a marker.
#[test]
fn cooperative_block_helpers_and_cluster_reads_are_classified() {
    for name in ["block_reduce", "block_scan"] {
        assert_eq!(
            classify_call(&format!("cuda_device::cooperative_groups::{name}")),
            CallKind::Barrier,
            "{name} is a block-wide barrier one helper deeper"
        );
        assert_eq!(
            classify_call(&format!("my_crate::{name}")),
            CallKind::Other,
            "{name} outside cuda_device is nobody's barrier"
        );
    }
    for name in [
        "warp_reduce",
        "warp_scan",
        "coalesced_threads",
        "this_thread_block",
    ] {
        assert_eq!(
            classify_call(&format!("cuda_device::cooperative_groups::{name}")),
            CallKind::Other,
            "{name} is allowlisted, not classified"
        );
    }
    // Split by how far each is actually constant (#133). The block's
    // rank and its cluster coordinates are block facts that differ
    // across the cluster -- exactly the values that decide a
    // `cluster_sync` for some blocks and not others.
    for name in [
        "block_rank",
        "cluster_ctaidX",
        "cluster_ctaidY",
        "cluster_ctaidZ",
    ] {
        assert_eq!(
            classify_call(&format!("cuda_device::cluster::{name}")),
            CallKind::BlockUniform,
            "{name} is a block fact that differs across the cluster"
        );
    }
    assert_eq!(
        classify_call("cuda_device::cluster::cluster_idx"),
        CallKind::ClusterUniform,
        "cluster_idx is the same on every block of the cluster"
    );
    for name in [
        "cluster_size",
        "num_clusters",
        "cluster_nctaidX",
        "cluster_nctaidY",
        "cluster_nctaidZ",
    ] {
        assert_eq!(
            classify_call(&format!("cuda_device::cluster::{name}")),
            CallKind::GridUniform,
            "{name} is launch geometry, the same everywhere"
        );
    }
    assert_eq!(
        classify_call("cuda_device::cluster::__cluster_config"),
        CallKind::UniformMarker
    );
}

#[test]
fn wrapper_names_outside_warp_are_not_collectives() {
    for path in [
        "cuda_device::cooperative::all",
        "my_app::iter::any",
        "core::slice::<impl [T]>::all",
    ] {
        assert_eq!(classify_call(path), CallKind::Other, "{path}");
    }
}

#[test]
fn foreign_lookalikes_are_other() {
    assert_eq!(classify_call("my_crate::sync_threads"), CallKind::Other);
    assert_eq!(
        classify_call("my_crate::thread::threadIdx_x"),
        CallKind::Other
    );
    assert_eq!(
        classify_call("cuda_device::__internal::make_kernel_scope"),
        CallKind::UniformMarker
    );
}

/// The partial-warp reducers are collectives, but their mask is built
/// from a runtime `live_lanes` argument — neither full nor the first
/// argument. Calling them full would claim every lane participates in
/// a reduction deliberately scoped to fewer, so the mask is unknown
/// and RC002 reports it as such instead of guessing.
#[test]
fn partial_reducers_are_collectives_with_an_unknown_mask() {
    for name in [
        "reduce_sum_f32_partial",
        "reduce_sum_f64_partial",
        "reduce_max_f32_partial",
        "reduce_min_f64_partial",
    ] {
        let kind = classify_call(&format!("cuda_device::warp::{name}"));
        assert_eq!(
            kind,
            CallKind::WarpCollective {
                mask: MaskSource::Unknown
            },
            "{name}"
        );
        assert!(kind.mask_is_unknown(), "{name} must not claim a mask");
        assert_eq!(kind.implicit_mask(), None, "{name}");
    }
}
