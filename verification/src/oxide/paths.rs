//! Path recognizers for the cuda-oxide device API.
//!
//! Everything here works on definition paths as returned by Stable MIR,
//! matched by segment and suffix; no upstream code is vendored.
use vstd::prelude::*;

use crate::text::{after_last, after_last_str, ends_with, starts_with, str_eq};

verus! {

/// Thread-index witness functions the `#[kernel]` macro rewrites calls to.
#[derive(Debug, Clone, Copy, PartialEq, Eq, Hash, PartialOrd, Ord)]
pub enum IndexFn {
    /// `__internal::index_1d` — X-only formula; thread-unique only for an
    /// effectively 1D launch.
    Index1d,
    /// `__internal::index_2d::<ROW_STRIDE>` — const-stride row-major
    /// formula; thread-unique for launches of at most two axes.
    Index2d,
    /// `__internal::index_2d_runtime` — raw `(row, col)` coordinates,
    /// resolved per-slice at the access site; shape-independent.
    Index2dRuntime,
    /// `__internal::warp_index` — flat warp slot; minted for lane 0 only.
    WarpIndex,
}

/// The name users write for an index function.
pub open spec fn spec_user_name(f: IndexFn) -> Seq<char> {
    match f {
        IndexFn::Index1d => "index_1d"@,
        IndexFn::Index2d => "index_2d"@,
        IndexFn::Index2dRuntime => "index_2d_runtime"@,
        IndexFn::WarpIndex => "warp_index"@,
    }
}

impl IndexFn {
    /// Human-facing name as users write it (`thread::…()`).
    pub fn user_name(self) -> (r: &'static str)
        ensures
            r@ == spec_user_name(self),
    {
        match self {
            IndexFn::Index1d => "index_1d",
            IndexFn::Index2d => "index_2d",
            IndexFn::Index2dRuntime => "index_2d_runtime",
            IndexFn::WarpIndex => "warp_index",
        }
    }

    /// The largest launch-domain dimensionality under which this formula
    /// still mints thread-unique witnesses, or `None` when the formula is
    /// shape-independent.
    pub fn max_proven_dimensions(self) -> (r: Option<u8>)
        ensures
            r == match self {
                IndexFn::Index1d => Some(1u8),
                IndexFn::Index2d => Some(2u8),
                IndexFn::Index2dRuntime | IndexFn::WarpIndex => None::<u8>,
            },
    {
        match self {
            IndexFn::Index1d => Some(1),
            IndexFn::Index2d => Some(2),
            IndexFn::Index2dRuntime | IndexFn::WarpIndex => None,
        }
    }
}

/// The index function a definition path names: one under cuda-device whose
/// path ends in `::__internal::` and the function's name.
pub open spec fn spec_index_fn(p: Seq<char>) -> Option<IndexFn> {
    if !"cuda_device::"@.is_prefix_of(p) {
        None
    } else {
        let last = after_last(p, "::"@);
        if last == "index_1d"@ && "::__internal::index_1d"@.is_suffix_of(p) {
            Some(IndexFn::Index1d)
        } else if last == "index_2d"@ && "::__internal::index_2d"@.is_suffix_of(p) {
            Some(IndexFn::Index2d)
        } else if last == "index_2d_runtime"@ && "::__internal::index_2d_runtime"@.is_suffix_of(p) {
            Some(IndexFn::Index2dRuntime)
        } else if last == "warp_index"@ && "::__internal::warp_index"@.is_suffix_of(p) {
            Some(IndexFn::WarpIndex)
        } else {
            None
        }
    }
}

/// Recognize a call target as one of the index witness functions.
pub fn index_fn(def_path: &str) -> (r: Option<IndexFn>)
    ensures
        r == spec_index_fn(def_path@),
{
    if !starts_with(def_path, "cuda_device::") {
        return None;
    }
    let last = after_last_str(def_path, "::");
    if str_eq(last, "index_1d") && ends_with(def_path, "::__internal::index_1d") {
        Some(IndexFn::Index1d)
    } else if str_eq(last, "index_2d") && ends_with(def_path, "::__internal::index_2d") {
        Some(IndexFn::Index2d)
    } else if str_eq(last, "index_2d_runtime") && ends_with(def_path, "::__internal::index_2d_runtime") {
        Some(IndexFn::Index2dRuntime)
    } else if str_eq(last, "warp_index") && ends_with(def_path, "::__internal::warp_index") {
        Some(IndexFn::WarpIndex)
    } else {
        None
    }
}

/// Launch domains a kernel can declare via `#[launch_contract(domain = N)]`.
///
/// `Unknown` is what the macro chooses when no contract is declared.
#[derive(Debug, Clone, Copy, PartialEq, Eq, Hash, PartialOrd, Ord)]
pub enum LaunchDomain {
    Unknown,
    D1,
    D2,
    D3,
}

/// How a domain is written in a `#[launch_contract]`.
pub open spec fn spec_contract_syntax(d: LaunchDomain) -> Seq<char> {
    match d {
        LaunchDomain::Unknown => "(none)"@,
        LaunchDomain::D1 => "domain = 1"@,
        LaunchDomain::D2 => "domain = 2"@,
        LaunchDomain::D3 => "domain = 3"@,
    }
}

impl LaunchDomain {
    /// Number of launch axes the contract proves, if any.
    pub fn dimensions(self) -> (r: Option<u8>)
        ensures
            r == match self {
                LaunchDomain::Unknown => None::<u8>,
                LaunchDomain::D1 => Some(1u8),
                LaunchDomain::D2 => Some(2u8),
                LaunchDomain::D3 => Some(3u8),
            },
    {
        match self {
            LaunchDomain::Unknown => None,
            LaunchDomain::D1 => Some(1),
            LaunchDomain::D2 => Some(2),
            LaunchDomain::D3 => Some(3),
        }
    }

    /// How the domain is written in a `#[launch_contract]`.
    pub fn contract_syntax(self) -> (r: &'static str)
        ensures
            r@ == spec_contract_syntax(self),
    {
        match self {
            LaunchDomain::Unknown => "(none)",
            LaunchDomain::D1 => "domain = 1",
            LaunchDomain::D2 => "domain = 2",
            LaunchDomain::D3 => "domain = 3",
        }
    }
}

/// The launch domain a marker type path names.
pub open spec fn spec_launch_domain(p: Seq<char>) -> Option<LaunchDomain> {
    if !"cuda_device::"@.is_prefix_of(p) {
        None
    } else {
        let last = after_last(p, "::"@);
        if last == "UnknownDomain"@ && "::__internal::UnknownDomain"@.is_suffix_of(p) {
            Some(LaunchDomain::Unknown)
        } else if last == "Domain1"@ && "::__internal::Domain1"@.is_suffix_of(p) {
            Some(LaunchDomain::D1)
        } else if last == "Domain2"@ && "::__internal::Domain2"@.is_suffix_of(p) {
            Some(LaunchDomain::D2)
        } else if last == "Domain3"@ && "::__internal::Domain3"@.is_suffix_of(p) {
            Some(LaunchDomain::D3)
        } else {
            None
        }
    }
}

/// Recognize a launch-domain marker type from its definition path.
pub fn launch_domain(type_path: &str) -> (r: Option<LaunchDomain>)
    ensures
        r == spec_launch_domain(type_path@),
{
    if !starts_with(type_path, "cuda_device::") {
        return None;
    }
    let last = after_last_str(type_path, "::");
    if str_eq(last, "UnknownDomain") && ends_with(type_path, "::__internal::UnknownDomain") {
        Some(LaunchDomain::Unknown)
    } else if str_eq(last, "Domain1") && ends_with(type_path, "::__internal::Domain1") {
        Some(LaunchDomain::D1)
    } else if str_eq(last, "Domain2") && ends_with(type_path, "::__internal::Domain2") {
        Some(LaunchDomain::D2)
    } else if str_eq(last, "Domain3") && ends_with(type_path, "::__internal::Domain3") {
        Some(LaunchDomain::D3)
    } else {
        None
    }
}

/// Whether an ADT path is `cuda_device`'s block-scoped shared-memory array.
pub fn is_shared_array(type_path: &str) -> (r: bool)
    ensures
        r == ("cuda_device::"@.is_prefix_of(type_path@) && "::SharedArray"@.is_suffix_of(type_path@)),
{
    starts_with(type_path, "cuda_device::") && ends_with(type_path, "::SharedArray")
}

/// Whether an ADT path is `cuda_device`'s shared-memory mbarrier.
pub fn is_barrier(type_path: &str) -> (r: bool)
    ensures
        r == ("cuda_device::"@.is_prefix_of(type_path@) && "::Barrier"@.is_suffix_of(type_path@)),
{
    starts_with(type_path, "cuda_device::") && ends_with(type_path, "::Barrier")
}

} // verus!
