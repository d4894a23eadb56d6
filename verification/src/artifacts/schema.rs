//! Schema identifiers, as embedded in every emitted artifact.
use vstd::prelude::*;

verus! {

/// Findings artifact (diagnostics with provenance and confidence).
pub const FINDINGS: &'static str = "findings.v1";

/// Uniformity-map artifact (per-function labels, provenance edges, CFG).
pub const UNIMAP: &'static str = "unimap.v1";

/// Witness artifact (32-lane event timeline replaying a finding).
pub const WITNESS: &'static str = "witness.v1";

/// Baseline document (reviewed suppressions, maintained by `triage`).
pub const BASELINE: &'static str = "baseline.v1";

} // verus!
