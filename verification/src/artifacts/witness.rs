//! `witness.v1` — the witness artifact: a concrete replay of one finding
//! under one launch configuration, lane states delta-encoded per step.
use vstd::prelude::*;

use super::findings::{SourceSpan, ToolInfo};
use super::schema;
use super::Artifact;
use crate::text::{chars_of, strip_prefix};

verus! {

/// Top-level witness artifact: one replay of one finding.
#[derive(Debug, Clone, PartialEq, Eq)]
pub struct WitnessArtifact {
    /// Always [`schema::WITNESS`].
    pub schema: String,
    pub tool: ToolInfo,
    pub krate: String,
    /// User-facing kernel name.
    pub kernel: String,
    /// The finding this witness replays.
    pub finding: Option<FindingRef>,
    /// Concrete thread configuration the search found.
    pub launch: Launch,
    /// Lanes in the replay: 32 for one warp, or the declared block when the
    /// contract names several whole warps.
    pub lanes: u8,
    pub initial_lane_states: Vec<LaneState>,
    pub steps: Vec<Step>,
    pub verdict: Verdict,
}

/// The finding a witness replays.
#[derive(Debug, Clone, PartialEq, Eq)]
pub struct FindingRef {
    pub code: String,
    pub span: Option<SourceSpan>,
}

/// The launch the replay ran under.
#[derive(Debug, Clone, PartialEq, Eq)]
pub struct Launch {
    pub grid: [u32; 3],
    pub block: [u32; 3],
    /// Index of the replayed warp within its block.
    pub warp: Option<u32>,
}

/// What a lane is doing.
#[derive(Debug, Clone, Copy, PartialEq, Eq, Hash, Structural)]
pub enum LaneState {
    Active,
    Waiting,
    Exited,
}

/// One event in the timeline.
#[derive(Debug, Clone, PartialEq, Eq)]
pub struct Step {
    pub index: usize,
    /// What happens at this step, in prose.
    pub statement: String,
    pub span: Option<SourceSpan>,
    /// Delta encoding: only lanes whose state changed at this step.
    pub lane_changes: Vec<LaneChange>,
    /// Present when this step is a barrier interaction.
    pub barrier: Option<BarrierEvent>,
    /// Present when this step is a warp collective.
    pub warp_op: Option<WarpOpEvent>,
}

/// A lane's new state.
#[derive(Debug, Clone, Copy, PartialEq, Eq)]
pub struct LaneChange {
    pub lane: u8,
    pub state: LaneState,
}

/// A barrier interaction: how many arrived of how many expected.
#[derive(Debug, Clone, Copy, PartialEq, Eq)]
pub struct BarrierEvent {
    pub arrived: u32,
    pub expected: u32,
}

/// A warp collective, with the mask it names and the lanes active.
#[derive(Debug, Clone, PartialEq, Eq)]
pub struct WarpOpEvent {
    /// e.g. `shuffle_sync`, `ballot_sync`.
    pub op: String,
    /// Participation mask named by the call, `0x` + 8 hex digits.
    pub mask: String,
    /// Lanes actually active at the call site, `0x` + 8 hex digits.
    pub active: String,
}

/// How the replay ended.
#[derive(Debug, Clone, PartialEq, Eq)]
pub struct Verdict {
    pub kind: VerdictKind,
    /// Calibrated wording; hardware behavior is "usually", never "always".
    pub message: String,
    /// Step index where the verdict was reached.
    pub step: Option<usize>,
}

/// The kinds of verdict.
#[derive(Debug, Clone, Copy, PartialEq, Eq, Hash)]
pub enum VerdictKind {
    Hang,
    UndefinedBehavior,
    Completed,
    NoWitness,
}

impl Artifact for WitnessArtifact {
    open spec fn schema_tag() -> Seq<char> {
        schema::WITNESS@
    }

    open spec fn declared_tag(&self) -> Seq<char> {
        self.schema@
    }

    fn expected_schema() -> (r: &'static str)
        ensures
            r@ == schema::WITNESS@,
    {
        schema::WITNESS
    }

    fn declared_schema(&self) -> (r: &str)
        ensures
            r@ == self.schema@,
    {
        self.schema.as_str()
    }
}

/// Lane states after applying `changes` in order; a change naming a lane
/// outside the states is ignored.
pub open spec fn apply_changes(states: Seq<LaneState>, changes: Seq<LaneChange>) -> Seq<LaneState>
    decreases changes.len(),
{
    if changes.len() == 0 {
        states
    } else {
        let s = apply_changes(states, changes.drop_last());
        let c = changes.last();
        if (c.lane as int) < s.len() {
            s.update(c.lane as int, c.state)
        } else {
            s
        }
    }
}

/// Lane states after the leading steps whose index is at most `bound`.
pub open spec fn replay(states: Seq<LaneState>, steps: Seq<Step>, bound: usize) -> Seq<LaneState>
    decreases steps.len(),
{
    if steps.len() == 0 || steps[0].index > bound {
        states
    } else {
        replay(apply_changes(states, steps[0].lane_changes@), steps.drop_first(), bound)
    }
}

/// The lane states a witness shows at `step` (the initial ones for `None`).
pub open spec fn spec_lane_states_at(w: WitnessArtifact, step: Option<usize>) -> Seq<LaneState> {
    match step {
        Some(b) => replay(w.initial_lane_states@, w.steps@, b),
        None => w.initial_lane_states@,
    }
}

/// The value of an ASCII hexadecimal digit.
pub open spec fn hex_value(c: char) -> int {
    if '0' <= c && c <= '9' {
        c as int - '0' as int
    } else if 'a' <= c && c <= 'f' {
        c as int - 'a' as int + 10
    } else if 'A' <= c && c <= 'F' {
        c as int - 'A' as int + 10
    } else {
        -1
    }
}

/// The number a string of hexadecimal digits spells.
pub open spec fn hex_digits_value(s: Seq<char>) -> nat
    decreases s.len(),
{
    if s.len() == 0 {
        0
    } else {
        hex_digits_value(s.drop_last()) * 16 + hex_value(s.last()) as nat
    }
}

/// Every character is a hexadecimal digit.
pub open spec fn all_hex(s: Seq<char>) -> bool {
    forall|i: int| 0 <= i < s.len() ==> hex_value(#[trigger] s[i]) >= 0
}

/// What `u32::from_str_radix(t, 16)` accepts: an optional `+` and one or
/// more hexadecimal digits spelling a number below 2^32.
pub open spec fn spec_parse_hex_u32(t: Seq<char>) -> Option<u32> {
    let d = if t.len() > 0 && t[0] == '+' {
        t.skip(1)
    } else {
        t
    };
    if d.len() > 0 && all_hex(d) && hex_digits_value(d) <= u32::MAX {
        Some(hex_digits_value(d) as u32)
    } else {
        None
    }
}

/// A lane mask as the artifact spells it: `0x` and hexadecimal digits (the
/// prefix optional).
pub open spec fn spec_parse_lane_mask(text: Seq<char>) -> Option<u32> {
    if "0x"@.is_prefix_of(text) {
        spec_parse_hex_u32(text.skip(2))
    } else {
        spec_parse_hex_u32(text)
    }
}

proof fn lemma_hex_grows(s: Seq<char>, i: int)
    requires
        0 <= i <= s.len(),
        all_hex(s),
    ensures
        hex_digits_value(s.take(i)) <= hex_digits_value(s),
    decreases s.len() - i,
{
    if i < s.len() {
        lemma_hex_grows(s, i + 1);
        assert(s.take(i + 1).drop_last() =~= s.take(i));
    } else {
        assert(s.take(i) =~= s);
    }
}

fn hex_digit(c: char) -> (r: Option<u64>)
    ensures
        match r {
            Some(v) => hex_value(c) >= 0 && v == hex_value(c),
            None => hex_value(c) < 0,
        },
{
    if '0' <= c && c <= '9' {
        Some((c as u64) - ('0' as u64))
    } else if 'a' <= c && c <= 'f' {
        Some((c as u64) - ('a' as u64) + 10)
    } else if 'A' <= c && c <= 'F' {
        Some((c as u64) - ('A' as u64) + 10)
    } else {
        None
    }
}

fn parse_hex_u32(t: &str) -> (r: Option<u32>)
    ensures
        r == spec_parse_hex_u32(t@),
{
    let cs = chars_of(t);
    let start: usize = if cs.len() > 0 && cs[0] == '+' {
        1
    } else {
        0
    };
    let ghost d = if t@.len() > 0 && t@[0] == '+' {
        t@.skip(1)
    } else {
        t@
    };
    assert(d =~= cs@.skip(start as int));
    if start >= cs.len() {
        return None;
    }
    let mut value: u64 = 0;
    let mut i: usize = start;
    while i < cs.len()
        invariant
            cs@ == t@,
            d =~= cs@.skip(start as int),
            d == (if t@.len() > 0 && t@[0] == '+' {
                t@.skip(1)
            } else {
                t@
            }),
            start <= i <= cs.len(),
            all_hex(cs@.subrange(start as int, i as int)),
            value == hex_digits_value(cs@.subrange(start as int, i as int)),
            value <= u32::MAX,
        decreases cs.len() - i,
    {
        let c = cs[i];
        let digit = match hex_digit(c) {
            Some(v) => v,
            None => {
                proof {
                    assert(d[i - start] == c);
                    assert(hex_value(d[i - start]) < 0);
                }
                return None;
            },
        };
        let ghost pre = cs@.subrange(start as int, i as int);
        let ghost next = cs@.subrange(start as int, i + 1);
        assert(next.drop_last() =~= pre);
        assert(next.last() == c);
        value = value * 16 + digit;
        assert(value == hex_digits_value(next));
        assert(all_hex(next)) by {
            assert forall|k: int| 0 <= k < next.len() implies hex_value(#[trigger] next[k]) >= 0 by {
                if k < next.len() - 1 {
                    assert(next[k] == pre[k]);
                }
            }
        }
        if value > 0xffff_ffff {
            proof {
                assert(next =~= d.take(i + 1 - start));
                if all_hex(d) {
                    lemma_hex_grows(d, i + 1 - start);
                }
            }
            return None;
        }
        i = i + 1;
    }
    assert(cs@.subrange(start as int, cs.len() as int) =~= d);
    Some(value as u32)
}

/// A `0x` + 8 hex digit lane mask, as the artifact spells it.
pub fn parse_lane_mask(text: &str) -> (r: Option<u32>)
    ensures
        r == spec_parse_lane_mask(text@),
{
    proof {
        reveal_strlit("0x");
    }
    match strip_prefix(text, "0x") {
        Some(rest) => parse_hex_u32(rest),
        None => parse_hex_u32(text),
    }
}

/// Lane `lane` is named by `mask`.
pub open spec fn lane_named(mask: u32, lane: int) -> bool {
    mask & (1u32 << (lane as u32)) != 0
}

/// At step `k` a collective's active mask and the lanes present disagree
/// on some lane of the first warp.
pub open spec fn step_disagrees(w: WitnessArtifact, k: int) -> bool {
    let step = w.steps@[k];
    &&& step.warp_op is Some
    &&& spec_parse_lane_mask(step.warp_op->Some_0.active@) is Some
    &&& exists|lane: int|
        0 <= lane < 32 && lane < spec_lane_states_at(w, Some(step.index)).len() && #[trigger] lane_named(
            spec_parse_lane_mask(step.warp_op->Some_0.active@)->Some_0,
            lane,
        ) != (spec_lane_states_at(w, Some(step.index))[lane] == LaneState::Active)
}

impl WitnessArtifact {
    /// Replay the delta-encoded timeline up to and including `step`,
    /// returning the lane states at that point. `step = None` returns the
    /// initial states.
    pub fn lane_states_at(&self, step: Option<usize>) -> (r: Vec<LaneState>)
        ensures
            r@ == spec_lane_states_at(*self, step),
    {
        let mut states: Vec<LaneState> = Vec::new();
        let mut k: usize = 0;
        while k < self.initial_lane_states.len()
            invariant
                k <= self.initial_lane_states.len(),
                states@ == self.initial_lane_states@.take(k as int),
            decreases self.initial_lane_states.len() - k,
        {
            states.push(self.initial_lane_states[k]);
            k = k + 1;
        }
        assert(self.initial_lane_states@.take(k as int) =~= self.initial_lane_states@);
        let bound = match step {
            Some(b) => b,
            None => {
                return states;
            },
        };
        let mut i: usize = 0;
        assert(self.steps@.skip(0) =~= self.steps@);
        while i < self.steps.len() && self.steps[i].index <= bound
            invariant
                i <= self.steps.len(),
                replay(states@, self.steps@.skip(i as int), bound) == replay(
                    self.initial_lane_states@,
                    self.steps@,
                    bound,
                ),
            decreases self.steps.len() - i,
        {
            let changes = &self.steps[i].lane_changes;
            let ghost start = states@;
            let mut c: usize = 0;
            while c < changes.len()
                invariant
                    c <= changes.len(),
                    states@ == apply_changes(start, changes@.take(c as int)),
                decreases changes.len() - c,
            {
                let ch = changes[c];
                assert(changes@.take(c + 1).drop_last() =~= changes@.take(c as int));
                if (ch.lane as usize) < states.len() {
                    states.set(ch.lane as usize, ch.state);
                }
                c = c + 1;
            }
            assert(changes@.take(changes.len() as int) =~= changes@);
            assert(self.steps@.skip(i as int)[0] == self.steps@[i as int]);
            assert(self.steps@.skip(i as int).drop_first() =~= self.steps@.skip(i + 1));
            i = i + 1;
        }
        proof {
            if i < self.steps.len() {
                assert(self.steps@.skip(i as int)[0] == self.steps@[i as int]);
            }
        }
        states
    }

    /// The first step carrying a warp collective whose active mask
    /// disagrees with the lanes present at that step, by its index: at any
    /// step carrying a `warp_op`, the lanes still present are meant to be
    /// exactly the set bits of `warp_op.active`. A mask that does not parse
    /// is passed over.
    pub fn first_collective_disagreeing_with_its_mask(&self) -> (r: Option<usize>)
        ensures
            match r {
                Some(ix) => exists|k: int|
                    0 <= k < self.steps.len() && step_disagrees(*self, k) && self.steps@[k].index == ix && forall|
                        j: int,
                    | 0 <= j < k ==> !step_disagrees(*self, j),
                None => forall|k: int| 0 <= k < self.steps.len() ==> !step_disagrees(*self, k),
            },
    {
        let mut k: usize = 0;
        while k < self.steps.len()
            invariant
                k <= self.steps.len(),
                forall|j: int| 0 <= j < k ==> !step_disagrees(*self, j),
            decreases self.steps.len() - k,
        {
            let step = &self.steps[k];
            if let Some(op) = &step.warp_op {
                if let Some(active) = parse_lane_mask(op.active.as_str()) {
                    let states = self.lane_states_at(Some(step.index));
                    let mut lane: usize = 0;
                    while lane < states.len() && lane < 32
                        invariant
                            k < self.steps.len(),
                            self.steps@[k as int].warp_op is Some,
                            spec_parse_lane_mask(self.steps@[k as int].warp_op->Some_0.active@) == Some(active),
                            states@ == spec_lane_states_at(*self, Some(self.steps@[k as int].index)),
                            step.index == self.steps@[k as int].index,
                            forall|j: int| 0 <= j < k ==> !step_disagrees(*self, j),
                            lane <= 32,
                            lane <= states.len(),
                            forall|l: int|
                                0 <= l < lane ==> #[trigger] lane_named(active, l) == (states@[l] == LaneState::Active),
                        decreases states.len() - lane,
                    {
                        let named = active & (1u32 << (lane as u32)) != 0;
                        let present = states[lane] == LaneState::Active;
                        if named != present {
                            proof {
                                let st = self.steps@[k as int];
                                let m = spec_parse_lane_mask(st.warp_op->Some_0.active@)->Some_0;
                                let sts = spec_lane_states_at(*self, Some(st.index));
                                assert(m == active);
                                assert(sts == states@);
                                assert(lane_named(m, lane as int) != (sts[lane as int] == LaneState::Active));
                                assert(step_disagrees(*self, k as int));
                            }
                            return Some(step.index);
                        }
                        lane = lane + 1;
                    }
                    proof {
                        assert(!step_disagrees(*self, k as int));
                    }
                }
            }
            k = k + 1;
        }
        None
    }
}

} // verus!
