//! Divergence analysis for SIMT kernels: a uniformity dataflow over a small
//! function model, the CFG algorithms it rests on, the cuda-oxide dialect
//! surface, the versioned artifact records, and the command-line rules
//! that decide what a user sees and when a run fails.
use vstd::prelude::*;

pub mod analysis;
pub mod artifacts;
pub mod cli;
pub mod conformance;
pub mod dialect;
pub mod emit;
pub mod graph;
pub mod inline;
pub mod model;
pub mod oxide;
pub mod text;

verus! {

/// The uniformity lattice: `Uniform` below `Divergent`, per value.
///
/// A value is uniform when every active lane of a warp holds the same value
/// at the same program point, and divergent otherwise.
#[derive(Debug, Clone, Copy, PartialEq, Eq, Structural)]
pub enum Uniformity {
    /// Every active lane observes the same value.
    Uniform,
    /// Lanes may observe different values.
    Divergent,
}

/// The join of two uniformities: divergence is absorbing.
pub open spec fn spec_join(a: Uniformity, b: Uniformity) -> Uniformity {
    if a == Uniformity::Uniform && b == Uniformity::Uniform {
        Uniformity::Uniform
    } else {
        Uniformity::Divergent
    }
}

impl Uniformity {
    /// Lattice join: divergence is absorbing.
    pub fn join(self, other: Self) -> (r: Self)
        ensures
            r == spec_join(self, other),
    {
        match (self, other) {
            (Uniformity::Uniform, Uniformity::Uniform) => Uniformity::Uniform,
            _ => Uniformity::Divergent,
        }
    }
}

/// How wide a scope a value is constant over, or a barrier's participant
/// set reaches, ordered narrow to wide.
#[derive(Debug, Clone, Copy, PartialEq, Eq, Structural)]
pub enum LaunchScope {
    /// Constant within one block; may differ between blocks.
    Block,
    /// Constant within one cluster; may differ between clusters.
    Cluster,
    /// Constant across the whole launch.
    Grid,
}

/// The position of a scope in the narrow-to-wide order.
pub open spec fn scope_rank(s: LaunchScope) -> int {
    match s {
        LaunchScope::Block => 0,
        LaunchScope::Cluster => 1,
        LaunchScope::Grid => 2,
    }
}

/// The narrower of two scopes.
pub open spec fn spec_meet(a: LaunchScope, b: LaunchScope) -> LaunchScope {
    if scope_rank(a) <= scope_rank(b) { a } else { b }
}

impl LaunchScope {
    fn rank(self) -> (r: u8)
        ensures
            r as int == scope_rank(self),
    {
        match self {
            LaunchScope::Block => 0,
            LaunchScope::Cluster => 1,
            LaunchScope::Grid => 2,
        }
    }

    /// Lattice meet: the narrower of two scopes, since a value derived from
    /// both is constant only where both are.
    pub fn meet(self, other: Self) -> (r: Self)
        ensures
            r == spec_meet(self, other),
    {
        if self.rank() <= other.rank() { self } else { other }
    }

    /// Whether a guard constant over `self` decides a barrier whose
    /// participants span `barrier`.
    pub fn admits(self, barrier: Self) -> (r: bool)
        ensures
            r == (scope_rank(self) >= scope_rank(barrier)),
    {
        self.rank() >= barrier.rank()
    }

    /// The word used in a diagnostic: "block", "cluster", "grid".
    pub fn as_str(self) -> (r: &'static str)
        ensures
            r@ == scope_word(self),
    {
        proof {
            reveal_strlit("block");
            reveal_strlit("cluster");
            reveal_strlit("grid");
        }
        match self {
            LaunchScope::Block => "block",
            LaunchScope::Cluster => "cluster",
            LaunchScope::Grid => "grid",
        }
    }
}

/// The diagnostic word for a scope.
pub open spec fn scope_word(s: LaunchScope) -> Seq<char> {
    match s {
        LaunchScope::Block => seq!['b', 'l', 'o', 'c', 'k'],
        LaunchScope::Cluster => seq!['c', 'l', 'u', 's', 't', 'e', 'r'],
        LaunchScope::Grid => seq!['g', 'r', 'i', 'd'],
    }
}

/// The join is a semilattice operation with `Uniform` as identity and
/// `Divergent` absorbing: commutative, associative, idempotent.
pub proof fn join_is_a_semilattice(a: Uniformity, b: Uniformity, c: Uniformity)
    ensures
        spec_join(a, b) == spec_join(b, a),
        spec_join(spec_join(a, b), c) == spec_join(a, spec_join(b, c)),
        spec_join(a, a) == a,
        spec_join(Uniformity::Uniform, a) == a,
        spec_join(Uniformity::Divergent, a) == Uniformity::Divergent,
{
}

/// Meet picks the narrower scope: commutative, associative, idempotent,
/// and a guard admits a barrier exactly when their meet is the barrier's
/// scope.
pub proof fn meet_is_a_semilattice(a: LaunchScope, b: LaunchScope, c: LaunchScope)
    ensures
        spec_meet(a, b) == spec_meet(b, a),
        spec_meet(spec_meet(a, b), c) == spec_meet(a, spec_meet(b, c)),
        spec_meet(a, a) == a,
        spec_meet(LaunchScope::Grid, a) == a,
        (scope_rank(a) >= scope_rank(b)) == (spec_meet(a, b) == b),
{
}

} // verus!
