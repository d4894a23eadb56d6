//! The SARIF 2.1.0 report, as records: which rules it declares and what
//! each result says. Every finding is included regardless of `--strict`
//! (SARIF consumers filter by level themselves), and baseline-accepted
//! findings are reported as suppressed with their justification rather
//! than dropped. Turning the records into JSON is the binary's part.
use vstd::prelude::*;

use super::review::{carried, flat_findings, gating, item_of, lemma_item_suppression, lone_finding_gates, suppression_for, Item, Review};
use crate::artifacts::baseline::{entries_view, first_covering, finding_key, none_covering, Entry};
use crate::artifacts::findings::{Confidence, Finding, SourceSpan, TOOL_VERSION};
use crate::text::{
    lemma_seq_lt_asymmetric, lemma_seq_lt_irreflexive, lemma_seq_lt_total, lemma_seq_lt_transitive, owned,
    push_str, seq_lt, str_eq, str_lt,
};

verus! {

/// One-line rule descriptions from the diagnostic registry.
pub open spec fn spec_rule_description(code: Seq<char>) -> Seq<char> {
    if code == "RC001"@ {
        "sync_threads() under thread-divergent control flow"@
    } else if code == "RC002"@ {
        "warp collective at a non-convergent point or mask\u{2013}lane mismatch"@
    } else if code == "RC003"@ {
        "&mut [T] as a #[kernel] parameter"@
    } else if code == "RC004"@ {
        "static shared memory exceeds the target's limit"@
    } else if code == "RC005"@ {
        "launch-contract inconsistency"@
    } else {
        "reconverge finding"@
    }
}

/// The description of the rule `code`.
pub fn rule_description(code: &str) -> (r: &'static str)
    ensures
        r@ == spec_rule_description(code@),
{
    if str_eq(code, "RC001") {
        "sync_threads() under thread-divergent control flow"
    } else if str_eq(code, "RC002") {
        "warp collective at a non-convergent point or mask\u{2013}lane mismatch"
    } else if str_eq(code, "RC003") {
        "&mut [T] as a #[kernel] parameter"
    } else if str_eq(code, "RC004") {
        "static shared memory exceeds the target's limit"
    } else if str_eq(code, "RC005") {
        "launch-contract inconsistency"
    } else {
        "reconverge finding"
    }
}

/// The SARIF level of a tier: deny and confirmed are errors.
pub open spec fn spec_level(confidence: Confidence) -> Seq<char> {
    if confidence == Confidence::Warning {
        "warning"@
    } else {
        "error"@
    }
}

/// The SARIF level of a result.
pub fn level(confidence: Confidence) -> (r: &'static str)
    ensures
        r@ == spec_level(confidence),
{
    match confidence {
        Confidence::Deny | Confidence::Confirmed => "error",
        Confidence::Warning => "warning",
    }
}

/// A SARIF result is an error exactly when its finding, alone and
/// unsuppressed, fails the run, and a warning otherwise.
pub proof fn sarif_error_iff_gating(krate: Seq<char>, f: Finding)
    ensures
        spec_level(f.confidence) == "error"@ <==> gating(seq![(krate, f)], Seq::empty()),
        spec_level(f.confidence) != "error"@ ==> spec_level(f.confidence) == "warning"@,
{
    reveal_strlit("error");
    reveal_strlit("warning");
    assert("error"@[0] != "warning"@[0]);
    lone_finding_gates(krate, f);
}

/// A rule's default severity, a property of the code: every shipped rule
/// can gate, and a rule that can gate defaults to the gating level.
pub open spec fn spec_rule_default_level(code: Seq<char>) -> Seq<char> {
    if code == "RC001"@ || code == "RC002"@ || code == "RC003"@ || code == "RC004"@ || code == "RC005"@ {
        "error"@
    } else {
        "warning"@
    }
}

/// The default level of the rule `code`.
pub fn rule_default_level(code: &str) -> (r: &'static str)
    ensures
        r@ == spec_rule_default_level(code@),
{
    if str_eq(code, "RC001") || str_eq(code, "RC002") || str_eq(code, "RC003") || str_eq(code, "RC004") || str_eq(
        code,
        "RC005",
    ) {
        "error"
    } else {
        "warning"
    }
}

/// Where the explain page of `explain` is published, for this version.
pub open spec fn spec_help_uri(explain: Seq<char>) -> Seq<char> {
    "https://github.com/vyncint/reconverge/blob/v"@ + TOOL_VERSION@ + "/crates/cargo-reconverge/explain/"@ + explain
        + ".md"@
}

/// The explain page's address.
pub fn help_uri(explain: &str) -> (r: String)
    ensures
        r@ == spec_help_uri(explain@),
{
    let mut s = owned("https://github.com/vyncint/reconverge/blob/v");
    push_str(&mut s, TOOL_VERSION);
    push_str(&mut s, "/crates/cargo-reconverge/explain/");
    push_str(&mut s, explain);
    push_str(&mut s, ".md");
    s
}

/// A rule the report declares.
#[derive(Debug, Clone, PartialEq, Eq)]
pub struct SarifRule {
    pub id: String,
    pub description: &'static str,
    pub default_level: &'static str,
    pub help_uri: String,
}

/// One step of a result's provenance walk.
#[derive(Debug, Clone, PartialEq, Eq)]
pub struct SarifStep {
    pub id: usize,
    pub span: SourceSpan,
    pub message: String,
}

/// One result of the report.
#[derive(Debug, Clone, PartialEq, Eq)]
pub struct SarifResult {
    pub rule_id: String,
    pub level: &'static str,
    /// The message, then each note and the help, as paragraphs.
    pub text: String,
    pub span: SourceSpan,
    /// The provenance walk in order; empty when there is none.
    pub related: Vec<SarifStep>,
    /// The baseline's justification, for an accepted finding.
    pub suppression: Option<String>,
}

/// The whole report: rules by id, results in review order.
#[derive(Debug, Clone, PartialEq, Eq)]
pub struct SarifReport {
    pub rules: Vec<SarifRule>,
    pub results: Vec<SarifResult>,
}

/// The paragraphs after a message: each note, in order.
pub open spec fn notes_text(notes: Seq<String>) -> Seq<char>
    decreases notes.len(),
{
    if notes.len() == 0 {
        Seq::empty()
    } else {
        notes_text(notes.drop_last()) + "\n\nnote: "@ + notes.last()@
    }
}

/// A result's message text.
pub open spec fn result_text(f: Finding) -> Seq<char> {
    f.message@ + notes_text(f.notes@) + match f.help {
        Some(h) => "\n\nhelp: "@ + h@,
        None => Seq::empty(),
    }
}

/// `r` is the result for finding `f` with the suppression `s`.
pub open spec fn result_of(r: SarifResult, f: Finding, s: Option<Entry>) -> bool {
    &&& r.rule_id@ == f.code@
    &&& r.level@ == spec_level(f.confidence)
    &&& r.text@ == result_text(f)
    &&& r.span == f.span
    &&& r.related.len() == f.provenance.len()
    &&& forall|i: int|
        0 <= i < r.related.len() ==> (#[trigger] r.related@[i]).id == i && r.related@[i].span == f.provenance@[i].span
            && r.related@[i].message@ == f.provenance@[i].what@
    &&& match s {
        Some(e) => r.suppression matches Some(j) && j@ == e.reason@,
        None => r.suppression is None,
    }
}

/// The rule declared for `code`, described by the first finding of that
/// code.
pub open spec fn rule_of(r: SarifRule, f: Finding) -> bool {
    &&& r.id@ == f.code@
    &&& r.description@ == spec_rule_description(f.code@)
    &&& r.default_level@ == spec_rule_default_level(f.code@)
    &&& r.help_uri@ == spec_help_uri(f.explain@)
}

/// `k` is the first finding with its code.
pub open spec fn first_of_code(items: Seq<(Seq<char>, Finding)>, k: int) -> bool {
    0 <= k < items.len() && forall|j: int| 0 <= j < k ==> (#[trigger] items[j]).1.code@ != items[k].1.code@
}

/// `rule` comes from the first finding of its code in `items`.
pub open spec fn rule_from(rule: SarifRule, items: Seq<(Seq<char>, Finding)>) -> bool {
    exists|k: int| first_of_code(items, k) && rule_of(rule, #[trigger] items[k].1)
}

/// Some rule is declared for `code`.
pub open spec fn declared(rules: Seq<SarifRule>, code: Seq<char>) -> bool {
    exists|i: int| 0 <= i < rules.len() && (#[trigger] rules[i]).id@ == code
}

/// The rules of a report over `items`: one per code that occurs, strictly
/// ascending by id, each taken from the first finding of its code.
pub open spec fn rules_of(rules: Seq<SarifRule>, items: Seq<(Seq<char>, Finding)>) -> bool {
    &&& forall|i: int, j: int| 0 <= i < j < rules.len() ==> seq_lt(#[trigger] rules[i].id@, #[trigger] rules[j].id@)
    &&& forall|i: int| 0 <= i < rules.len() ==> rule_from(#[trigger] rules[i], items)
    &&& forall|k: int| 0 <= k < items.len() ==> declared(rules, (#[trigger] items[k]).1.code@)
}

fn copy_span(s: &SourceSpan) -> (r: SourceSpan)
    ensures
        r == *s,
{
    SourceSpan {
        file: s.file.clone(),
        line_start: s.line_start,
        column_start: s.column_start,
        line_end: s.line_end,
        column_end: s.column_end,
    }
}

fn result_for(item: &Item) -> (r: SarifResult)
    ensures
        result_of(r, *item.finding, carried(*item)),
{
    let finding = item.finding;
    let mut text = finding.message.clone();
    let mut n: usize = 0;
    while n < finding.notes.len()
        invariant
            n <= finding.notes.len(),
            text@ == finding.message@ + notes_text(finding.notes@.take(n as int)),
        decreases finding.notes.len() - n,
    {
        assert(finding.notes@.take(n + 1).drop_last() =~= finding.notes@.take(n as int));
        push_str(&mut text, "\n\nnote: ");
        push_str(&mut text, finding.notes[n].as_str());
        assert(text@ =~= finding.message@ + notes_text(finding.notes@.take(n + 1)));
        n = n + 1;
    }
    assert(finding.notes@.take(finding.notes.len() as int) =~= finding.notes@);
    if let Some(help) = &finding.help {
        push_str(&mut text, "\n\nhelp: ");
        push_str(&mut text, help.as_str());
    }
    assert(text@ =~= result_text(*finding));
    let mut related: Vec<SarifStep> = Vec::new();
    let mut i: usize = 0;
    while i < finding.provenance.len()
        invariant
            i <= finding.provenance.len(),
            related.len() == i,
            forall|k: int|
                0 <= k < i ==> (#[trigger] related@[k]).id == k && related@[k].span == finding.provenance@[k].span
                    && related@[k].message@ == finding.provenance@[k].what@,
        decreases finding.provenance.len() - i,
    {
        let step = &finding.provenance[i];
        related.push(SarifStep { id: i, span: copy_span(&step.span), message: step.what.clone() });
        i = i + 1;
    }
    let suppression = match item.suppression {
        Some(e) => Some(e.reason.clone()),
        None => None,
    };
    SarifResult {
        rule_id: finding.code.clone(),
        level: level(finding.confidence),
        text,
        span: copy_span(&finding.span),
        related,
        suppression,
    }
}

proof fn lemma_first_of_code_grows(pre: Seq<(Seq<char>, Finding)>, x: (Seq<char>, Finding), q: int)
    requires
        first_of_code(pre, q),
    ensures
        first_of_code(pre.push(x), q),
{
    let post = pre.push(x);
    assert forall|j: int| 0 <= j < q implies (#[trigger] post[j]).1.code@ != post[q].1.code@ by {
        assert(post[j] == pre[j]);
    }
}

proof fn lemma_rule_from_grows(rule: SarifRule, pre: Seq<(Seq<char>, Finding)>, x: (Seq<char>, Finding))
    requires
        rule_from(rule, pre),
    ensures
        rule_from(rule, pre.push(x)),
{
    let q = choose|q: int| first_of_code(pre, q) && rule_of(rule, #[trigger] pre[q].1);
    lemma_first_of_code_grows(pre, x, q);
    assert(pre.push(x)[q] == pre[q]);
}

proof fn lemma_rules_keep(rules: Seq<SarifRule>, pre: Seq<(Seq<char>, Finding)>, x: (Seq<char>, Finding), p: int)
    requires
        rules_of(rules, pre),
        0 <= p < rules.len(),
        rules[p].id@ == x.1.code@,
    ensures
        rules_of(rules, pre.push(x)),
{
    let post = pre.push(x);
    assert forall|i: int| 0 <= i < rules.len() implies rule_from(#[trigger] rules[i], post) by {
        lemma_rule_from_grows(rules[i], pre, x);
    }
    assert forall|q: int| 0 <= q < post.len() implies declared(rules, (#[trigger] post[q]).1.code@) by {
        if q == pre.len() {
            assert(rules[p].id@ == post[q].1.code@);
        } else {
            assert(post[q] == pre[q]);
        }
    }
}

proof fn lemma_code_is_new(rules: Seq<SarifRule>, pre: Seq<(Seq<char>, Finding)>, x: (Seq<char>, Finding), p: int)
    requires
        rules_of(rules, pre),
        0 <= p <= rules.len(),
        forall|j: int| 0 <= j < p ==> seq_lt(#[trigger] rules[j].id@, x.1.code@),
        p < rules.len() ==> seq_lt(x.1.code@, rules[p].id@),
    ensures
        forall|j: int| 0 <= j < rules.len() ==> (#[trigger] rules[j]).id@ != x.1.code@,
        first_of_code(pre.push(x), pre.len() as int),
{
    let code = x.1.code@;
    assert forall|j: int| 0 <= j < rules.len() implies (#[trigger] rules[j]).id@ != code by {
        lemma_seq_lt_irreflexive(code);
        if j > p {
            lemma_seq_lt_transitive(code, rules[p].id@, rules[j].id@);
        }
    }
    let post = pre.push(x);
    assert forall|j: int| 0 <= j < pre.len() implies (#[trigger] post[j]).1.code@ != post[pre.len() as int].1.code@ by {
        assert(post[j] == pre[j]);
        if pre[j].1.code@ == code {
            assert(declared(rules, pre[j].1.code@));
            let i = choose|i: int| 0 <= i < rules.len() && (#[trigger] rules[i]).id@ == pre[j].1.code@;
            assert(rules[i].id@ != code);
        }
    }
}

#[verifier::rlimit(30)]
proof fn lemma_rules_insert(
    rules: Seq<SarifRule>,
    pre: Seq<(Seq<char>, Finding)>,
    x: (Seq<char>, Finding),
    p: int,
    rule: SarifRule,
)
    requires
        rules_of(rules, pre),
        0 <= p <= rules.len(),
        forall|j: int| 0 <= j < p ==> seq_lt(#[trigger] rules[j].id@, x.1.code@),
        p < rules.len() ==> seq_lt(x.1.code@, rules[p].id@),
        rule_of(rule, x.1),
    ensures
        rules_of(rules.insert(p, rule), pre.push(x)),
{
    lemma_code_is_new(rules, pre, x, p);
    let post = pre.push(x);
    let k = pre.len() as int;
    let after = rules.insert(p, rule);
    assert forall|i: int, j: int| 0 <= i < j < after.len() implies seq_lt(
        #[trigger] after[i].id@,
        #[trigger] after[j].id@,
    ) by {
        if j == p {
            assert(after[i] == rules[i]);
        } else if i == p {
            assert(after[j] == rules[j - 1]);
            if j - 1 > p {
                lemma_seq_lt_transitive(x.1.code@, rules[p].id@, rules[j - 1].id@);
            }
        } else if i < p && j > p {
            assert(after[i] == rules[i]);
            assert(after[j] == rules[j - 1]);
        } else if j < p {
            assert(after[i] == rules[i]);
            assert(after[j] == rules[j]);
        } else {
            assert(after[i] == rules[i - 1]);
            assert(after[j] == rules[j - 1]);
        }
    }
    assert forall|i: int| 0 <= i < after.len() implies rule_from(#[trigger] after[i], post) by {
        if i == p {
            assert(post[k] == x);
            assert(after[i] == rule);
            assert(first_of_code(post, k) && rule_of(rule, post[k].1));
        } else {
            let bi = if i < p {
                i
            } else {
                i - 1
            };
            assert(after[i] == rules[bi]);
            assert(rule_from(rules[bi], pre));
            lemma_rule_from_grows(rules[bi], pre, x);
        }
    }
    assert forall|q: int| 0 <= q < post.len() implies declared(after, (#[trigger] post[q]).1.code@) by {
        if q == k {
            assert(after[p] == rule);
        } else {
            assert(post[q] == pre[q]);
            assert(declared(rules, pre[q].1.code@));
            let i = choose|i: int| 0 <= i < rules.len() && (#[trigger] rules[i]).id@ == pre[q].1.code@;
            if i < p {
                assert(after[i] == rules[i]);
            } else {
                assert(after[i + 1] == rules[i]);
            }
        }
    }
}

/// Declare the rule of `finding`'s code unless one is declared already.
fn declare_rule(rules: &mut Vec<SarifRule>, finding: &Finding, Ghost(pre): Ghost<Seq<(Seq<char>, Finding)>>, Ghost(
    krate,
): Ghost<Seq<char>>)
    requires
        rules_of(old(rules)@, pre),
    ensures
        rules_of(final(rules)@, pre.push((krate, *finding))),
{
    let mut p: usize = 0;
    while p < rules.len() && str_lt(rules[p].id.as_str(), finding.code.as_str())
        invariant
            p <= rules.len(),
            forall|j: int| 0 <= j < p ==> seq_lt(#[trigger] rules@[j].id@, finding.code@),
        decreases rules.len() - p,
    {
        p = p + 1;
    }
    if p < rules.len() && str_eq(rules[p].id.as_str(), finding.code.as_str()) {
        proof {
            lemma_rules_keep(rules@, pre, (krate, *finding), p as int);
        }
        return;
    }
    proof {
        if p < rules.len() {
            lemma_seq_lt_total(rules@[p as int].id@, finding.code@);
        }
    }
    let rule = SarifRule {
        id: finding.code.clone(),
        description: rule_description(finding.code.as_str()),
        default_level: rule_default_level(finding.code.as_str()),
        help_uri: help_uri(finding.explain.as_str()),
    };
    let ghost before = rules@;
    proof {
        lemma_rules_insert(before, pre, (krate, *finding), p as int, rule);
    }
    rules.insert(p, rule);
    assert(rules@ =~= before.insert(p as int, rule));
}

/// The SARIF report of a review.
pub fn report(review: &Review) -> (r: SarifReport)
    ensures
        rules_of(r.rules@, flat_findings(review.artifacts@)),
        r.results.len() == flat_findings(review.artifacts@).len(),
        forall|k: int|
            0 <= k < r.results.len() ==> result_of(
                #[trigger] r.results@[k],
                flat_findings(review.artifacts@)[k].1,
                suppression_for(
                    review.baseline.entries@,
                    flat_findings(review.artifacts@)[k].0,
                    flat_findings(review.artifacts@)[k].1,
                ),
            ),
{
    let items = review.items();
    let ghost flat = flat_findings(review.artifacts@);
    let ghost entries = review.baseline.entries@;
    let mut rules: Vec<SarifRule> = Vec::new();
    let mut results: Vec<SarifResult> = Vec::new();
    let mut k: usize = 0;
    assert(flat.take(0) =~= Seq::<(Seq<char>, Finding)>::empty());
    while k < items.len()
        invariant
            k <= items.len(),
            items.len() == flat.len(),
            flat == flat_findings(review.artifacts@),
            entries == review.baseline.entries@,
            forall|i: int| 0 <= i < items.len() ==> item_of(#[trigger] items@[i], flat[i].0, flat[i].1, entries),
            rules_of(rules@, flat.take(k as int)),
            results.len() == k,
            forall|j: int|
                0 <= j < k ==> result_of(#[trigger] results@[j], flat[j].1, suppression_for(entries, flat[j].0, flat[j].1)),
        decreases items.len() - k,
    {
        let item = &items[k];
        proof {
            lemma_item_suppression(items@[k as int], flat[k as int].0, flat[k as int].1, entries);
            assert(flat.take(k + 1) =~= flat.take(k as int).push((flat[k as int].0, *item.finding)));
        }
        let r = result_for(item);
        results.push(r);
        declare_rule(&mut rules, item.finding, Ghost(flat.take(k as int)), Ghost(flat[k as int].0));
        k = k + 1;
    }
    assert(flat.take(items.len() as int) =~= flat);
    SarifReport { rules, results }
}

} // verus!
