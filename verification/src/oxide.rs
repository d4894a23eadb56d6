//! The cuda-oxide dialect surface: item paths and intrinsic semantics.
//!
//! Recognizes upstream APIs by path matching — no upstream code is
//! vendored. [`paths`] recognizes items (kernels, index intrinsics, shared
//! memory, launch contracts), [`cc`] holds the compute-capability capacity
//! table, and [`simt`] is the [`crate::dialect::SimtDialect`]
//! implementation that classifies every call the engine sees.
use vstd::prelude::*;

use crate::text::{after_last, after_last_str, strip_prefix};

pub mod cc;
pub mod paths;
pub mod simt;

verus! {

/// Name of the dialect as reported in diagnostics and artifacts.
pub const DIALECT_NAME: &'static str = "cuda-oxide";

/// Item-name prefix the `#[kernel]` macro gives the generated kernel
/// function (current naming contract).
pub const KERNEL_SYMBOL_PREFIX: &'static str = "cuda_oxide_codegen_v1_cuda_oxide_kernel_246e25db_";

/// Kernel item-name prefix used by earlier cuda-oxide versions.
pub const LEGACY_KERNEL_SYMBOL_PREFIX: &'static str = "cuda_oxide_kernel_246e25db_";

/// The user-facing name of a kernel item: the final path segment without
/// the current prefix, else without the legacy one; nothing when neither
/// starts the segment or nothing follows it.
pub open spec fn spec_kernel_base_name(p: Seq<char>) -> Option<Seq<char>> {
    let last = after_last(p, "::"@);
    let cur = "cuda_oxide_codegen_v1_cuda_oxide_kernel_246e25db_"@;
    let legacy = "cuda_oxide_kernel_246e25db_"@;
    let base = if cur.is_prefix_of(last) {
        Some(last.skip(cur.len() as int))
    } else if legacy.is_prefix_of(last) {
        Some(last.skip(legacy.len() as int))
    } else {
        None
    };
    match base {
        Some(b) => if b.len() > 0 {
            Some(b)
        } else {
            None
        },
        None => None,
    }
}

/// Recognize a cuda-oxide kernel item and return the user-facing kernel
/// name. Accepts fully qualified item paths and bare item names; the
/// current prefix is tried before the legacy one.
pub fn kernel_base_name(item_path: &str) -> (r: Option<&str>)
    ensures
        match r {
            Some(b) => spec_kernel_base_name(item_path@) == Some(b@),
            None => spec_kernel_base_name(item_path@) is None,
        },
{
    let last = after_last_str(item_path, "::");
    let base = match strip_prefix(last, KERNEL_SYMBOL_PREFIX) {
        Some(b) => b,
        None => match strip_prefix(last, LEGACY_KERNEL_SYMBOL_PREFIX) {
            Some(b) => b,
            None => {
                return None;
            },
        },
    };
    if base.unicode_len() == 0 {
        None
    } else {
        Some(base)
    }
}

} // verus!
