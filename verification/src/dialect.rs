//! The dialect boundary: what a call means to the uniformity engine,
//! expressed as one classification over definition paths.
use vstd::prelude::*;

use crate::{LaunchScope, Uniformity};

verus! {

/// Where a warp collective's participation mask comes from.
#[derive(Debug, Clone, Copy, PartialEq, Eq, Structural)]
pub enum MaskSource {
    /// The mask is the call's first argument (the masked `*_sync` surface).
    FirstArgument,
    /// The call is an unmasked wrapper that supplies a full mask itself.
    ImplicitFull,
    /// The mask is built at run time from something other than the first
    /// argument; nothing can be said about it statically.
    Unknown,
}

/// What a call means to the uniformity engine.
#[derive(Debug, Clone, Copy, PartialEq, Eq, Structural)]
pub enum CallKind {
    /// Mints a per-thread index witness: divergent by definition.
    ThreadIndexWitness,
    /// Atomic read-modify-write returning the old value: divergent.
    AtomicRmw,
    /// The same on every thread of a block, different between blocks.
    BlockUniform,
    /// The same on every block of a cluster.
    ClusterUniform,
    /// The same everywhere in the launch (launch geometry).
    GridUniform,
    /// Dialect plumbing with uniform, side-effect-free results.
    UniformMarker,
    /// An execution barrier: every thread of its scope must arrive.
    Barrier,
    /// A warp collective, with where its mask comes from.
    WarpCollective { mask: MaskSource },
    /// Reads the per-lane execution environment: divergent, never a
    /// collective.
    DivergentEnvRead,
    /// Reads a thread-index witness back out.
    WitnessRead,
    /// Bit population count on a primitive integer of `bits` bits.
    CountOnes { bits: u32 },
    /// Anything else: the result joins the arguments' uniformities.
    Other,
}

/// The uniformity contributed by the call itself, before joining argument
/// uniformities; `None` means "just join the arguments".
pub open spec fn spec_result_base(k: CallKind) -> Option<Uniformity> {
    match k {
        CallKind::ThreadIndexWitness | CallKind::AtomicRmw | CallKind::WarpCollective { .. }
        | CallKind::DivergentEnvRead => Some(Uniformity::Divergent),
        CallKind::BlockUniform | CallKind::ClusterUniform | CallKind::GridUniform
        | CallKind::UniformMarker => Some(Uniformity::Uniform),
        CallKind::Barrier | CallKind::WitnessRead | CallKind::CountOnes { .. }
        | CallKind::Other => None,
    }
}

/// The full 32-lane participation mask.
pub const FULL_MASK: u64 = 0xffff_ffff;

/// The mask an unmasked wrapper supplies itself.
pub open spec fn spec_implicit_mask(k: CallKind) -> Option<u64> {
    match k {
        CallKind::WarpCollective { mask: MaskSource::ImplicitFull } => Some(FULL_MASK),
        _ => None,
    }
}

/// Whether the kind is a collective whose mask cannot be known statically.
pub open spec fn spec_mask_is_unknown(k: CallKind) -> bool {
    k == CallKind::WarpCollective { mask: MaskSource::Unknown }
}

/// Whether the kind is a warp collective of any mask source.
pub open spec fn is_collective(k: CallKind) -> bool {
    k is WarpCollective
}

impl CallKind {
    /// The uniformity contributed by the call itself, before joining
    /// argument uniformities. `None` means "just join the arguments".
    pub fn result_base(self) -> (r: Option<Uniformity>)
        ensures
            r == spec_result_base(self),
    {
        match self {
            CallKind::ThreadIndexWitness | CallKind::AtomicRmw | CallKind::WarpCollective { .. }
            | CallKind::DivergentEnvRead => Some(Uniformity::Divergent),
            CallKind::BlockUniform | CallKind::ClusterUniform | CallKind::GridUniform
            | CallKind::UniformMarker => Some(Uniformity::Uniform),
            CallKind::Barrier | CallKind::WitnessRead | CallKind::CountOnes { .. }
            | CallKind::Other => None,
        }
    }

    /// The participation mask a wrapper supplies itself, if it is one.
    pub fn implicit_mask(self) -> (r: Option<u64>)
        ensures
            r == spec_implicit_mask(self),
    {
        match self {
            CallKind::WarpCollective { mask: MaskSource::ImplicitFull } => Some(FULL_MASK),
            _ => None,
        }
    }

    /// Whether this is a collective whose mask is a run-time value.
    pub fn mask_is_unknown(self) -> (r: bool)
        ensures
            r == spec_mask_is_unknown(self),
    {
        match self {
            CallKind::WarpCollective { mask: MaskSource::Unknown } => true,
            _ => false,
        }
    }
}

/// A concrete SIMT dialect: classifies call targets by definition path.
pub trait SimtDialect {
    /// Classify a callee by its fully qualified definition path.
    fn classify_call(&self, def_path: &str) -> CallKind;

    /// Classify a callee whose meaning may depend on its receiver type.
    fn classify_method_call(&self, def_path: &str, receiver: Option<&str>) -> CallKind;

    /// How far a barrier's participant set reaches.
    fn barrier_scope(&self, def_path: &str, receiver: Option<&str>) -> LaunchScope;
}

} // verus!
