//! The cuda-oxide dialect surface: kernel names, the compute-capability
//! table, and the device API's path recognizers.
use reconverge::oxide::cc::{
    known_compute_capabilities, parse_compute_capability, shared_memory_limits, shared_memory_table,
    STATIC_SHARED_LIMIT_BYTES,
};
use reconverge::oxide::paths::{index_fn, is_barrier, is_shared_array, launch_domain, IndexFn, LaunchDomain};
use reconverge::oxide::{kernel_base_name, DIALECT_NAME, LEGACY_KERNEL_SYMBOL_PREFIX};
use reconverge::Uniformity;

#[test]
fn dialect_links_against_the_engine() {
    assert_eq!(DIALECT_NAME, "cuda-oxide");
    assert_eq!(Uniformity::Uniform.join(Uniformity::Divergent), Uniformity::Divergent);
}

#[test]
fn recognizes_current_kernel_names() {
    assert_eq!(
        kernel_base_name("sample::kernels::cuda_oxide_codegen_v1_cuda_oxide_kernel_246e25db_scale"),
        Some("scale")
    );
    assert_eq!(kernel_base_name("cuda_oxide_codegen_v1_cuda_oxide_kernel_246e25db_scale"), Some("scale"));
}

#[test]
fn recognizes_legacy_kernel_names() {
    assert_eq!(kernel_base_name("krate::cuda_oxide_kernel_246e25db_add"), Some("add"));
}

#[test]
fn current_prefix_is_not_misread_as_legacy() {
    // The current prefix embeds the legacy one; the base name must come
    // from stripping the full current prefix.
    let name = "cuda_oxide_codegen_v1_cuda_oxide_kernel_246e25db_foo";
    assert_eq!(kernel_base_name(name), Some("foo"));
    assert!(name.contains(LEGACY_KERNEL_SYMBOL_PREFIX));
}

#[test]
fn rejects_non_kernel_names() {
    assert_eq!(kernel_base_name("sample::ordinary_function"), None);
    // The prefix must start the final path segment.
    assert_eq!(kernel_base_name("sample::x_cuda_oxide_kernel_246e25db_y"), None);
    // A bare prefix with no base name is not a kernel.
    assert_eq!(kernel_base_name("cuda_oxide_codegen_v1_cuda_oxide_kernel_246e25db_"), None);
}

#[test]
fn table_is_ascending_and_complete_enough() {
    let table = shared_memory_table();
    let ccs: Vec<(u8, u8)> = table.iter().map(|l| l.cc).collect();
    let mut sorted = ccs.clone();
    sorted.sort_unstable();
    assert_eq!(ccs, sorted, "table must stay ascending");
    for l in &table {
        assert!(l.max_per_block >= STATIC_SHARED_LIMIT_BYTES);
    }
}

#[test]
fn lookup_and_parse() {
    assert_eq!(shared_memory_limits((8, 6)).unwrap().max_per_block, 99 * 1024);
    assert_eq!(shared_memory_limits((3, 5)), None);
    assert_eq!(parse_compute_capability("8.6"), Ok((8, 6)));
    assert_eq!(parse_compute_capability("12.0"), Ok((12, 0)));
    // A leading `+` is numeric and in range: `u8::from_str` accepts it.
    assert_eq!(parse_compute_capability("+8.6"), Ok((8, 6)));
    assert!(parse_compute_capability("86").is_err());
    assert!(parse_compute_capability("8.x").is_err());
}

#[test]
fn out_of_range_is_reported_against_the_table_not_as_non_numeric() {
    for s in ["999.999", "256.0", "-1.0"] {
        let msg = parse_compute_capability(s).unwrap_err();
        assert!(msg.contains("not in the compute-capability table"), "`{s}` got: {msg}");
        assert!(!msg.contains("non-numeric"), "`{s}` got: {msg}");
    }
    for s in ["8.x", "8.", "x.6"] {
        let msg = parse_compute_capability(s).unwrap_err();
        assert!(msg.contains("non-numeric"), "`{s}` got: {msg}");
    }
}

#[test]
fn parse_messages_are_exact() {
    assert_eq!(
        parse_compute_capability("86").unwrap_err(),
        "`86` is not a compute capability; expected e.g. `8.6`"
    );
    assert_eq!(
        parse_compute_capability("8.x").unwrap_err(),
        "`8.x` has a non-numeric minor part; expected e.g. `8.6`"
    );
    assert_eq!(
        parse_compute_capability("x.6").unwrap_err(),
        "`x.6` has a non-numeric major part; expected e.g. `8.6`"
    );
    assert_eq!(
        parse_compute_capability("256.0").unwrap_err(),
        format!(
            "`256.0` is not in the compute-capability table; known: {}",
            known_compute_capabilities().join(", ")
        )
    );
    assert_eq!(
        known_compute_capabilities(),
        ["7.0", "7.2", "7.5", "8.0", "8.6", "8.7", "8.9", "9.0", "10.0", "12.0"]
    );
}

#[test]
fn recognizes_index_fns_at_their_internal_paths() {
    assert_eq!(index_fn("cuda_device::thread::__internal::index_1d"), Some(IndexFn::Index1d));
    assert_eq!(index_fn("cuda_device::__internal::index_1d"), Some(IndexFn::Index1d));
    assert_eq!(index_fn("cuda_device::thread::__internal::index_2d"), Some(IndexFn::Index2d));
    assert_eq!(
        index_fn("cuda_device::thread::__internal::index_2d_runtime"),
        Some(IndexFn::Index2dRuntime)
    );
    assert_eq!(index_fn("cuda_device::thread::__internal::warp_index"), Some(IndexFn::WarpIndex));
}

#[test]
fn rejects_lookalike_index_paths() {
    assert_eq!(index_fn("cuda_device::thread::index_1d"), None);
    assert_eq!(index_fn("my_crate::__internal::index_1d"), None);
    assert_eq!(index_fn("cuda_device::thread::__internal::index_1d_u32"), None);
}

#[test]
fn index_fns_name_themselves_and_their_proven_shapes() {
    assert_eq!(IndexFn::Index2dRuntime.user_name(), "index_2d_runtime");
    assert_eq!(IndexFn::Index1d.max_proven_dimensions(), Some(1));
    assert_eq!(IndexFn::Index2d.max_proven_dimensions(), Some(2));
    assert_eq!(IndexFn::WarpIndex.max_proven_dimensions(), None);
}

#[test]
fn recognizes_launch_domains() {
    assert_eq!(
        launch_domain("cuda_device::thread::__internal::UnknownDomain"),
        Some(LaunchDomain::Unknown)
    );
    assert_eq!(launch_domain("cuda_device::thread::__internal::Domain2"), Some(LaunchDomain::D2));
    assert_eq!(launch_domain("cuda_device::thread::Domain2"), None);
    assert_eq!(LaunchDomain::D2.dimensions(), Some(2));
    assert_eq!(LaunchDomain::Unknown.dimensions(), None);
    assert_eq!(LaunchDomain::D3.contract_syntax(), "domain = 3");
    assert_eq!(LaunchDomain::Unknown.contract_syntax(), "(none)");
}

#[test]
fn recognizes_shared_memory_types() {
    assert!(is_shared_array("cuda_device::shared::SharedArray"));
    assert!(is_shared_array("cuda_device::SharedArray"));
    assert!(is_barrier("cuda_device::barrier::Barrier"));
    assert!(is_barrier("cuda_device::Barrier"));
    assert!(!is_shared_array("my_crate::shared::SharedArray"));
    assert!(!is_barrier("my_crate::Barrier"));
    assert!(!is_barrier("cuda_device::BarrierToken"));
}
