//! `unimap.v1` — the uniformity-map artifact: per function, values with
//! uniformity labels and divergence sources, provenance edges, and CFG
//! blocks with divergent-control bits.
use vstd::prelude::*;

use super::findings::{SourceSpan, ToolInfo, TOOL_VERSION};
use super::schema;
use super::Artifact;
use crate::text::owned;

verus! {

/// Top-level uniformity-map artifact for one analyzed crate.
#[derive(Debug, Clone, PartialEq, Eq)]
pub struct UnimapArtifact {
    /// Always [`schema::UNIMAP`].
    pub schema: String,
    /// Which tool wrote this document, and its version.
    pub tool: ToolInfo,
    /// Name of the analyzed crate.
    pub krate: String,
    /// Every analyzed function — kernels and local helpers alike.
    pub functions: Vec<Function>,
}

impl UnimapArtifact {
    /// A uniformity map for `krate` under the current tool identity.
    pub fn new(krate: String, functions: Vec<Function>) -> (r: UnimapArtifact)
        ensures
            r.schema@ == schema::UNIMAP@,
            r.tool.name@ == "reconverge"@,
            r.tool.version@ == TOOL_VERSION@,
            r.krate@ == krate@,
            r.functions@ == functions@,
    {
        UnimapArtifact { schema: owned(schema::UNIMAP), tool: ToolInfo::current(), krate, functions }
    }
}

impl Artifact for UnimapArtifact {
    open spec fn schema_tag() -> Seq<char> {
        schema::UNIMAP@
    }

    open spec fn declared_tag(&self) -> Seq<char> {
        self.schema@
    }

    fn expected_schema() -> (r: &'static str)
        ensures
            r@ == schema::UNIMAP@,
    {
        schema::UNIMAP
    }

    fn declared_schema(&self) -> (r: &str)
        ensures
            r@ == self.schema@,
    {
        self.schema.as_str()
    }
}

/// Uniformity facts for one analyzed function.
#[derive(Debug, Clone, PartialEq, Eq)]
pub struct Function {
    /// User-facing name (kernel base name for kernels).
    pub name: String,
    /// Fully qualified item path.
    pub item: String,
    /// Where the function is defined.
    pub span: SourceSpan,
    /// How much of the body was analyzed.
    pub coverage: Option<Coverage>,
    /// Every labeled value in the function.
    pub values: Vec<Value>,
    /// Def→use edges: `to` is derived from `from`.
    pub provenance: Vec<ProvenanceEdge>,
    /// Every basic block, with its divergent-control bit.
    pub blocks: Vec<Block>,
}

/// How much of a function's body the analysis could read.
#[derive(Debug, Clone, Copy, PartialEq, Eq)]
pub struct Coverage {
    /// Statements the model represents.
    pub analyzed_statements: usize,
    /// Statements it could not — inline asm, unmodeled intrinsics.
    pub opaque_statements: usize,
}

/// A labeled value.
#[derive(Debug, Clone, PartialEq, Eq)]
pub struct Value {
    /// Stable value id within the function, e.g. `"v3"`.
    pub id: String,
    /// Source-level name, when one exists.
    pub name: Option<String>,
    /// Uniform or divergent across the lanes of a warp.
    pub uniformity: Uniformity,
    /// Why the value carries its label.
    pub source: Option<ValueSource>,
    /// Where the value is defined.
    pub span: SourceSpan,
}

/// The two-point lattice the analysis computes over.
#[derive(Debug, Clone, Copy, PartialEq, Eq, Hash, Structural)]
pub enum Uniformity {
    /// Every active lane holds the same value.
    Uniform,
    /// Lanes may hold different values.
    Divergent,
}

/// Divergence sources and uniform origins.
#[derive(Debug, Clone, Copy, PartialEq, Eq, Hash, Structural)]
pub enum ValueSource {
    /// A thread-index witness or a lane id.
    ThreadIndex,
    /// A kernel parameter: the same for every thread.
    KernelParam,
    /// Derived from `blockIdx`, `blockDim` or `gridDim`.
    BlockIndex,
    /// A literal.
    Constant,
    /// A load through a thread-dependent address.
    DivergentLoad,
    /// The previous value an atomic read-modify-write returns.
    AtomicReturn,
    /// A merge of values arriving from paths under divergent control.
    DivergentPhi,
    /// Computed from inputs that already carry a label.
    Derived,
}

/// One def→use edge of the provenance graph.
#[derive(Debug, Clone, PartialEq, Eq)]
pub struct ProvenanceEdge {
    /// The value derived from — a [`Value::id`].
    pub from: String,
    /// The value derived — a [`Value::id`].
    pub to: String,
    /// What the derivation is, in prose, when the analysis recorded one.
    pub what: Option<String>,
}

/// A CFG block with its divergent-control bit.
#[derive(Debug, Clone, PartialEq, Eq)]
pub struct Block {
    /// Basic-block id, e.g. `"bb0"`.
    pub id: String,
    /// True when the block executes under thread-divergent control.
    pub divergent_control: bool,
    /// Where the block's terminator is, when known.
    pub span: Option<SourceSpan>,
    /// The [`Value::id`]s written in this block.
    pub values: Vec<String>,
}

} // verus!
