//! `findings.v1` — the diagnostics artifact: one document per analyzed
//! target.
use vstd::prelude::*;

use super::schema;
use super::Artifact;
use crate::text::{lemma_seq_lt_asymmetric, lemma_seq_lt_transitive, owned, seq_lt, str_eq, str_lt};

verus! {

/// The version this build stamps on what it writes.
pub const TOOL_VERSION: &'static str = "0.1.0";

/// Identity of the tool that produced an artifact.
#[derive(Debug, Clone, PartialEq, Eq)]
pub struct ToolInfo {
    pub name: String,
    pub version: String,
}

impl ToolInfo {
    /// This tool: `reconverge` at this build's version.
    pub fn current() -> (r: ToolInfo)
        ensures
            r.name@ == "reconverge"@,
            r.version@ == TOOL_VERSION@,
    {
        ToolInfo { name: owned("reconverge"), version: owned(TOOL_VERSION) }
    }
}

/// How much of an analyzed target the engine could actually read.
#[derive(Debug, Clone, Copy, PartialEq, Eq)]
pub struct RunCoverage {
    /// Statements the uniformity engine modeled.
    pub analyzed_statements: usize,
    /// Statements it could not (`asm!`, unmodeled intrinsics).
    pub opaque_statements: usize,
    /// Analyzed functions carrying at least one opaque statement.
    pub opaque_functions: usize,
}

impl RunCoverage {
    /// Whether anything at all was left unread.
    pub fn is_degraded(&self) -> (r: bool)
        ensures
            r == (self.opaque_statements > 0),
    {
        self.opaque_statements > 0
    }
}

/// Confidence tiers: `deny` — syntactically proven, always shown;
/// `confirmed` — static finding plus a witness replay, always shown;
/// `warning` — conservative static result with no witness, hidden unless
/// `--strict`.
#[derive(Debug, Clone, Copy, PartialEq, Eq, Hash, Structural)]
pub enum Confidence {
    Deny,
    Confirmed,
    Warning,
}

impl Confidence {
    /// Whether findings of this tier are shown without `--strict`.
    pub fn shown_by_default(self) -> (r: bool)
        ensures
            r == (self == Confidence::Deny || self == Confidence::Confirmed),
    {
        match self {
            Confidence::Deny | Confidence::Confirmed => true,
            Confidence::Warning => false,
        }
    }

    /// Whether findings of this tier make `cargo reconverge check` exit 1.
    pub fn gates_exit_code(self) -> (r: bool)
        ensures
            r == (self == Confidence::Deny || self == Confidence::Confirmed),
    {
        match self {
            Confidence::Deny | Confidence::Confirmed => true,
            Confidence::Warning => false,
        }
    }
}

/// A source region, 1-based lines and columns, end-inclusive.
#[derive(Debug, Clone, PartialEq, Eq)]
pub struct SourceSpan {
    pub file: String,
    pub line_start: usize,
    pub column_start: usize,
    pub line_end: usize,
    pub column_end: usize,
}

/// One hop of a provenance chain (def→use back to a divergence source).
#[derive(Debug, Clone, PartialEq, Eq)]
pub struct ProvenanceStep {
    /// What this hop is, e.g. "condition derives from `index_1d()`".
    pub what: String,
    pub span: SourceSpan,
}

/// A single diagnostic.
#[derive(Debug, Clone, PartialEq, Eq)]
pub struct Finding {
    /// Diagnostic code from the registry, e.g. `"RC003"`.
    pub code: String,
    pub confidence: Confidence,
    /// One-line, human-readable statement of the problem.
    pub message: String,
    /// User-facing name of the kernel the finding is about, when known.
    pub kernel: Option<String>,
    pub span: SourceSpan,
    /// Hardware consequences and other context, one note per line.
    pub notes: Vec<String>,
    /// Suggested fix.
    pub help: Option<String>,
    /// Explain code (`--explain` key); usually equal to `code`.
    pub explain: String,
    /// Def→use chain back to the divergence source.
    pub provenance: Vec<ProvenanceStep>,
}

/// Top-level findings artifact for one analyzed target.
#[derive(Debug, Clone, PartialEq, Eq)]
pub struct FindingsArtifact {
    /// Always [`schema::FINDINGS`].
    pub schema: String,
    pub tool: ToolInfo,
    /// Name of the analyzed crate.
    pub krate: String,
    /// The compiled target's crate types, as cargo spells them; absent in a
    /// document written before the field existed.
    pub target: Option<String>,
    /// What the analyzer could and could not read across this whole target.
    pub coverage: Option<RunCoverage>,
    pub findings: Vec<Finding>,
}

/// The view of an optional string.
pub open spec fn opt_view(o: Option<String>) -> Option<Seq<char>> {
    match o {
        Some(s) => Some(s@),
        None => None,
    }
}

impl FindingsArtifact {
    /// A findings document for `krate`, stamped with this schema and tool,
    /// naming no target and carrying no coverage.
    pub fn new(krate: String, findings: Vec<Finding>) -> (r: FindingsArtifact)
        ensures
            r.schema@ == schema::FINDINGS@,
            r.tool.name@ == "reconverge"@,
            r.tool.version@ == TOOL_VERSION@,
            r.krate@ == krate@,
            r.target is None,
            r.coverage is None,
            r.findings@ == findings@,
    {
        FindingsArtifact {
            schema: owned(schema::FINDINGS),
            tool: ToolInfo::current(),
            krate,
            target: None,
            coverage: None,
            findings,
        }
    }

    /// The same document, naming the compiled target it came from.
    pub fn for_target(self, crate_types: String) -> (r: FindingsArtifact)
        ensures
            r == (FindingsArtifact { target: Some(crate_types), ..self }),
    {
        FindingsArtifact { target: Some(crate_types), ..self }
    }

    /// The same document, carrying the analysis's own coverage.
    pub fn with_coverage(self, coverage: RunCoverage) -> (r: FindingsArtifact)
        ensures
            r == (FindingsArtifact { coverage: Some(coverage), ..self }),
    {
        FindingsArtifact { coverage: Some(coverage), ..self }
    }

    /// Sort key that is total across the documents of one run: the crate,
    /// then the target (empty when absent).
    pub fn sort_key(&self) -> (r: (&str, &str))
        ensures
            r.0@ == self.krate@,
            r.1@ == match self.target {
                Some(t) => t@,
                None => Seq::<char>::empty(),
            },
    {
        let t: &str = match &self.target {
            Some(t) => t.as_str(),
            None => "",
        };
        proof {
            reveal_strlit("");
        }
        (self.krate.as_str(), t)
    }
}

/// The sort key of a document: its crate, then its target (empty when
/// absent).
pub open spec fn doc_key(a: FindingsArtifact) -> (Seq<char>, Seq<char>) {
    (
        a.krate@,
        match a.target {
            Some(t) => t@,
            None => Seq::<char>::empty(),
        },
    )
}

/// `a` sorts before `b`: by crate, then by target.
pub open spec fn doc_key_lt(a: (Seq<char>, Seq<char>), b: (Seq<char>, Seq<char>)) -> bool {
    seq_lt(a.0, b.0) || (a.0 == b.0 && seq_lt(a.1, b.1))
}

/// No document sorts before one ahead of it.
pub open spec fn docs_in_order(s: Seq<FindingsArtifact>) -> bool {
    forall|i: int, j: int| 0 <= i < j < s.len() ==> !doc_key_lt(doc_key(#[trigger] s[j]), doc_key(#[trigger] s[i]))
}

proof fn lemma_doc_key_order(a: (Seq<char>, Seq<char>), b: (Seq<char>, Seq<char>), c: (Seq<char>, Seq<char>))
    ensures
        doc_key_lt(a, b) ==> !doc_key_lt(b, a),
        doc_key_lt(a, b) && doc_key_lt(b, c) ==> doc_key_lt(a, c),
{
    if seq_lt(a.0, b.0) {
        lemma_seq_lt_asymmetric(a.0, b.0);
    }
    if seq_lt(a.1, b.1) {
        lemma_seq_lt_asymmetric(a.1, b.1);
    }
    if seq_lt(a.0, b.0) && seq_lt(b.0, c.0) {
        lemma_seq_lt_transitive(a.0, b.0, c.0);
    }
    if seq_lt(a.1, b.1) && seq_lt(b.1, c.1) {
        lemma_seq_lt_transitive(a.1, b.1, c.1);
    }
}

proof fn lemma_insert_doc(s: Seq<FindingsArtifact>, p: int, e: FindingsArtifact)
    requires
        docs_in_order(s),
        0 <= p <= s.len(),
        forall|j: int| 0 <= j < p ==> !doc_key_lt(doc_key(e), doc_key(#[trigger] s[j])),
        p < s.len() ==> doc_key_lt(doc_key(e), doc_key(s[p])),
    ensures
        docs_in_order(s.insert(p, e)),
{
    let t = s.insert(p, e);
    assert forall|i: int, j: int| 0 <= i < j < t.len() implies !doc_key_lt(
        doc_key(#[trigger] t[j]),
        doc_key(#[trigger] t[i]),
    ) by {
        if i < p && j == p {
        } else if i == p && j > p {
            assert(t[j] == s[j - 1]);
            lemma_doc_key_order(doc_key(s[j - 1]), doc_key(e), doc_key(s[p]));
            if j - 1 > p {
                assert(!doc_key_lt(doc_key(s[j - 1]), doc_key(s[p])));
            }
        } else if i < p && j > p {
            assert(t[i] == s[i] && t[j] == s[j - 1]);
        } else if i < p && j < p {
            assert(t[i] == s[i] && t[j] == s[j]);
        } else {
            assert(t[i] == s[i - 1] && t[j] == s[j - 1]);
        }
    }
}

fn doc_before(a: &FindingsArtifact, b: &FindingsArtifact) -> (r: bool)
    ensures
        r == doc_key_lt(doc_key(*a), doc_key(*b)),
{
    let (ak, at) = a.sort_key();
    let (bk, bt) = b.sort_key();
    str_lt(ak, bk) || (str_eq(ak, bk) && str_lt(at, bt))
}

/// The documents of one run in their report order: by crate, then by
/// target, so the order never depends on how the directory was listed.
pub fn order_documents(v: Vec<FindingsArtifact>) -> (r: Vec<FindingsArtifact>)
    ensures
        docs_in_order(r@),
        r@.to_multiset() == v@.to_multiset(),
{
    let ghost input = v@;
    let mut rest = v;
    let mut sorted: Vec<FindingsArtifact> = Vec::new();
    proof {
        vstd::seq_lib::to_multiset_len(sorted@);
        vstd::multiset::lemma_multiset_empty_len(sorted@.to_multiset());
        assert(sorted@.to_multiset().add(rest@.to_multiset()) =~= input.to_multiset());
    }
    while rest.len() > 0
        invariant
            docs_in_order(sorted@),
            sorted@.to_multiset().add(rest@.to_multiset()) == input.to_multiset(),
        decreases rest.len(),
    {
        let ghost before_rest = rest@;
        let ghost before_sorted = sorted@;
        let e = rest.remove(0);
        proof {
            assert(before_rest =~= seq![e] + rest@);
            vstd::seq_lib::to_multiset_remove(before_rest, 0);
            assert(before_rest.remove(0) =~= rest@);
        }
        let mut p: usize = 0;
        while p < sorted.len() && !doc_before(&e, &sorted[p])
            invariant
                p <= sorted.len(),
                forall|j: int| 0 <= j < p ==> !doc_key_lt(doc_key(e), doc_key(#[trigger] sorted@[j])),
            decreases sorted.len() - p,
        {
            p = p + 1;
        }
        proof {
            lemma_insert_doc(before_sorted, p as int, e);
            vstd::seq_lib::to_multiset_insert(before_sorted, p as int, e);
        }
        sorted.insert(p, e);
        proof {
            broadcast use vstd::multiset::group_multiset_axioms;

            assert(sorted@ =~= before_sorted.insert(p as int, e));
            assert(before_rest[0] == e);
            vstd::seq_lib::to_multiset_contains(before_rest, e);
            assert(sorted@.to_multiset().add(rest@.to_multiset()) =~= input.to_multiset());
        }
    }
    proof {
        vstd::seq_lib::to_multiset_len(rest@);
        vstd::multiset::lemma_multiset_empty_len(rest@.to_multiset());
        assert(sorted@.to_multiset() =~= input.to_multiset());
    }
    sorted
}

impl Artifact for FindingsArtifact {
    open spec fn schema_tag() -> Seq<char> {
        schema::FINDINGS@
    }

    open spec fn declared_tag(&self) -> Seq<char> {
        self.schema@
    }

    fn expected_schema() -> (r: &'static str)
        ensures
            r@ == schema::FINDINGS@,
    {
        schema::FINDINGS
    }

    fn declared_schema(&self) -> (r: &str)
        ensures
            r@ == self.schema@,
    {
        self.schema.as_str()
    }
}

} // verus!
