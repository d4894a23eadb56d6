//! The review layer: what the engine found, paired with what a human has
//! already reviewed and accepted. Everything that decides what a user sees
//! and whether a run fails lives here, so the text renderer, the SARIF
//! writer and the exit code cannot drift apart on it.
use vstd::prelude::*;

use crate::artifacts::baseline::{
    covers_key, entries_view, entry_view, finding_key, first_covering, none_covering, BaselineArtifact, Entry,
    EntryView,
};
use crate::artifacts::findings::{Confidence, Finding, FindingsArtifact};
use crate::artifacts::plural;
use crate::text::{blank, decimal, is_blank, owned, push_decimal, push_str};

verus! {

/// Default baseline file name, looked up at the workspace root.
pub const DEFAULT_BASELINE: &'static str = "reconverge-baseline.json";

/// Findings plus the reviewed baseline that applies to them.
#[derive(Debug)]
pub struct Review {
    pub artifacts: Vec<FindingsArtifact>,
    pub baseline: BaselineArtifact,
    /// Where the baseline lives (whether or not the file exists yet).
    pub baseline_path: String,
}

/// One finding in review context.
pub struct Item<'a> {
    pub finding: &'a Finding,
    /// The baseline entry accepting this finding, when there is one.
    pub suppression: Option<&'a Entry>,
}

/// Tallies of what a review shows and hides.
#[derive(Debug, Clone, Copy, PartialEq, Eq, Structural)]
pub struct Counts {
    pub deny: usize,
    pub confirmed: usize,
    pub warning: usize,
    /// Findings of any tier accepted by the baseline (not counted above).
    pub suppressed: usize,
}

impl Default for Counts {
    fn default() -> (r: Counts)
        ensures
            r == (Counts { deny: 0, confirmed: 0, warning: 0, suppressed: 0 }),
    {
        Counts { deny: 0, confirmed: 0, warning: 0, suppressed: 0 }
    }
}

/// Whether a finding is displayed at the given strictness: a suppressed
/// one only when suppressions are reviewed, any other by its tier unless
/// `--strict` shows everything.
pub open spec fn is_shown(suppressed: bool, confidence: Confidence, strict: bool, show_suppressed: bool) -> bool {
    if suppressed {
        show_suppressed
    } else {
        strict || confidence == Confidence::Deny || confidence == Confidence::Confirmed
    }
}

/// Without `--strict`, an unsuppressed finding is displayed exactly when
/// its tier gates the exit code: nothing hidden fails the run.
pub proof fn default_display_matches_gating(confidence: Confidence, show_suppressed: bool)
    ensures
        is_shown(false, confidence, false, show_suppressed) <==> (confidence == Confidence::Deny || confidence
            == Confidence::Confirmed),
{
}

impl<'a> Item<'a> {
    /// Whether this finding is displayed at the given strictness.
    pub fn shown(&self, strict: bool, show_suppressed: bool) -> (r: bool)
        ensures
            r == is_shown(self.suppression is Some, self.finding.confidence, strict, show_suppressed),
    {
        if self.suppression.is_some() {
            return show_suppressed;
        }
        strict || self.finding.confidence.shown_by_default()
    }
}

/// Every finding of the review with its crate, in artifact order.
pub open spec fn flat_findings(arts: Seq<FindingsArtifact>) -> Seq<(Seq<char>, Finding)>
    decreases arts.len(),
{
    if arts.len() == 0 {
        Seq::empty()
    } else {
        flat_findings(arts.drop_last()) + arts.last().findings@.map_values(
            |f: Finding| (arts.last().krate@, f),
        )
    }
}

/// The baseline accepts this finding of crate `krate`.
pub open spec fn is_suppressed(entries: Seq<EntryView>, krate: Seq<char>, f: Finding) -> bool {
    !none_covering(entries, finding_key(krate, f))
}

/// `it` is the finding `f` of crate `krate` with the suppression the
/// baseline `entries` gives it: the first entry covering it, if any.
pub open spec fn item_of(it: Item, krate: Seq<char>, f: Finding, entries: Seq<Entry>) -> bool {
    &&& *it.finding == f
    &&& match it.suppression {
        Some(e) => exists|i: int| first_covering(entries_view(entries), finding_key(krate, f), i) && entries[i] == *e,
        None => none_covering(entries_view(entries), finding_key(krate, f)),
    }
}

/// The entry that accepts finding `f` of crate `krate`: the first covering
/// it, if any.
pub open spec fn suppression_for(entries: Seq<Entry>, krate: Seq<char>, f: Finding) -> Option<Entry> {
    if exists|i: int| first_covering(entries_view(entries), finding_key(krate, f), i) {
        Some(entries[choose|i: int| first_covering(entries_view(entries), finding_key(krate, f), i)])
    } else {
        None
    }
}

/// The entry an item carries, by value.
pub open spec fn carried(it: Item) -> Option<Entry> {
    match it.suppression {
        Some(e) => Some(*e),
        None => None,
    }
}

/// An item carries exactly the entry that accepts its finding.
pub proof fn lemma_item_suppression(it: Item, krate: Seq<char>, f: Finding, entries: Seq<Entry>)
    requires
        item_of(it, krate, f, entries),
    ensures
        carried(it) == suppression_for(entries, krate, f),
{
    let key = finding_key(krate, f);
    let v = entries_view(entries);
    if it.suppression is Some {
        let i = choose|i: int| first_covering(v, key, i) && entries[i] == *it.suppression->Some_0;
        let c = choose|i: int| first_covering(v, key, i);
        assert(c == i) by {
            if c < i {
                assert(covers_key(v[c], key));
            } else if c > i {
                assert(covers_key(v[i], key));
            }
        }
    } else {
        if exists|i: int| first_covering(v, key, i) {
            let i = choose|i: int| first_covering(v, key, i);
            assert(covers_key(v[i], key));
        }
    }
}

/// The counts of `items`: unsuppressed findings by tier, and suppressed
/// ones of any tier.
pub open spec fn tally(items: Seq<(Seq<char>, Finding)>, entries: Seq<EntryView>) -> (nat, nat, nat, nat)
    decreases items.len(),
{
    if items.len() == 0 {
        (0, 0, 0, 0)
    } else {
        let t = tally(items.drop_last(), entries);
        let krate = items.last().0;
        let f = items.last().1;
        if is_suppressed(entries, krate, f) {
            (t.0, t.1, t.2, t.3 + 1)
        } else if f.confidence == Confidence::Deny {
            (t.0 + 1, t.1, t.2, t.3)
        } else if f.confidence == Confidence::Confirmed {
            (t.0, t.1 + 1, t.2, t.3)
        } else {
            (t.0, t.1, t.2 + 1, t.3)
        }
    }
}

/// Some unsuppressed finding gates the exit code.
pub open spec fn gating(items: Seq<(Seq<char>, Finding)>, entries: Seq<EntryView>) -> bool {
    exists|k: int|
        0 <= k < items.len() && !is_suppressed(entries, #[trigger] items[k].0, items[k].1) && (items[k].1.confidence
            == Confidence::Deny || items[k].1.confidence == Confidence::Confirmed)
}

/// A suppressed finding is displayed exactly when `--show-suppressed` is
/// given, whatever its tier and however strict the display.
pub proof fn suppressed_shown_only_on_request(confidence: Confidence, strict: bool, show_suppressed: bool)
    ensures
        is_shown(true, confidence, strict, show_suppressed) == show_suppressed,
{
}

/// A finding alone in a run with no baseline fails the run exactly when
/// its tier is deny or confirmed.
pub proof fn lone_finding_gates(krate: Seq<char>, f: Finding)
    ensures
        gating(seq![(krate, f)], Seq::empty()) <==> (f.confidence == Confidence::Deny || f.confidence
            == Confidence::Confirmed),
{
    let items = seq![(krate, f)];
    let none: Seq<EntryView> = Seq::empty();
    assert(!is_suppressed(none, items[0].0, items[0].1));
}

/// `--strict` hides nothing that is not suppressed: under it every
/// unsuppressed finding is displayed whatever its tier, so whatever the
/// default display shows stays shown, and a finding that fails the run is
/// displayed with or without it.
pub proof fn strict_shows_every_unsuppressed_finding(krate: Seq<char>, f: Finding, strict: bool, show_suppressed: bool)
    ensures
        is_shown(false, f.confidence, true, show_suppressed),
        is_shown(false, f.confidence, false, show_suppressed) ==> is_shown(false, f.confidence, true, show_suppressed),
        gating(seq![(krate, f)], Seq::empty()) ==> is_shown(false, f.confidence, strict, show_suppressed),
{
    lone_finding_gates(krate, f);
}

/// Every finding is counted once: the four counts add up to the number of
/// findings.
pub proof fn tally_counts_every_finding(items: Seq<(Seq<char>, Finding)>, entries: Seq<EntryView>)
    ensures
        ({
            let t = tally(items, entries);
            t.0 + t.1 + t.2 + t.3 == items.len()
        }),
    decreases items.len(),
{
    if items.len() > 0 {
        tally_counts_every_finding(items.drop_last(), entries);
    }
}

/// The exit code gates exactly when the summary counts a deny or a confirmed
/// finding.
pub proof fn gating_iff_counted(items: Seq<(Seq<char>, Finding)>, entries: Seq<EntryView>)
    ensures
        gating(items, entries) <==> tally(items, entries).0 + tally(items, entries).1 > 0,
    decreases items.len(),
{
    if items.len() > 0 {
        let p = items.drop_last();
        gating_iff_counted(p, entries);
        let n = items.len() - 1;
        if gating(p, entries) {
            let k = choose|k: int|
                0 <= k < p.len() && !is_suppressed(entries, #[trigger] p[k].0, p[k].1) && (p[k].1.confidence
                    == Confidence::Deny || p[k].1.confidence == Confidence::Confirmed);
            assert(items[k] == p[k]);
        }
        if gating(items, entries) {
            let k = choose|k: int|
                0 <= k < items.len() && !is_suppressed(entries, #[trigger] items[k].0, items[k].1) && (
                items[k].1.confidence == Confidence::Deny || items[k].1.confidence == Confidence::Confirmed);
            if k < n {
                assert(p[k] == items[k]);
            }
        }
        let f = items[n];
        if !is_suppressed(entries, f.0, f.1) && (f.1.confidence == Confidence::Deny || f.1.confidence
            == Confidence::Confirmed) {
            assert(gating(items, entries));
        }
    }
}

/// The entry covers one of the findings.
pub open spec fn matches_any(e: EntryView, items: Seq<(Seq<char>, Finding)>) -> bool {
    exists|k: int| 0 <= k < items.len() && covers_key(e, finding_key(#[trigger] items[k].0, items[k].1))
}

/// The entries that cover none of the findings, in order.
pub open spec fn stale_of(entries: Seq<Entry>, items: Seq<(Seq<char>, Finding)>) -> Seq<Entry>
    decreases entries.len(),
{
    if entries.len() == 0 {
        Seq::empty()
    } else if matches_any(entry_view(entries.last()), items) {
        stale_of(entries.drop_last(), items)
    } else {
        stale_of(entries.drop_last(), items).push(entries.last())
    }
}

/// The one-line summary printed after the findings.
pub open spec fn summary_text(c: Counts, strict: bool) -> Seq<char> {
    let total = c.deny + c.confirmed + c.warning;
    "reconverge: "@ + decimal(c.deny as nat) + " deny, "@ + decimal(c.confirmed as nat) + " confirmed, "@ + decimal(
        c.warning as nat,
    ) + " warning "@ + (if total == 1 {
        "finding"@
    } else {
        "findings"@
    }) + (if c.warning > 0 && !strict {
        " ("@ + decimal(c.warning as nat) + " hidden; rerun with --strict to see "@ + (if c.warning == 1 {
            "it"@
        } else {
            "them"@
        }) + ")"@
    } else {
        Seq::empty()
    }) + (if c.suppressed > 0 {
        "; "@ + decimal(c.suppressed as nat) + " suppressed by the baseline (--show-suppressed to review)"@
    } else {
        Seq::empty()
    })
}

proof fn lemma_flat_step(arts: Seq<FindingsArtifact>, a: int)
    requires
        0 <= a < arts.len(),
    ensures
        flat_findings(arts.take(a + 1)) == flat_findings(arts.take(a)) + arts[a].findings@.map_values(
            |f: Finding| (arts[a].krate@, f),
        ),
{
    assert(arts.take(a + 1).drop_last() =~= arts.take(a));
    assert(arts.take(a + 1).last() == arts[a]);
}

proof fn lemma_suppression_decides(it: Item, krate: Seq<char>, f: Finding, entries: Seq<Entry>)
    requires
        item_of(it, krate, f, entries),
    ensures
        (it.suppression is Some) == is_suppressed(entries_view(entries), krate, f),
{
    if it.suppression is Some {
        let i = choose|i: int| first_covering(entries_view(entries), finding_key(krate, f), i);
        assert(covers_key(entries_view(entries)[i], finding_key(krate, f)));
    }
}

/// How a baseline file turned out when the binary tried to read it.
#[derive(Debug)]
pub enum BaselineSource {
    /// Read and parsed.
    Parsed(BaselineArtifact),
    /// Not there, with the I/O error's message.
    Missing(String),
    /// There but unreadable, with the I/O error's message.
    Unreadable(String),
    /// Read but not a baseline document, with the parser's message.
    Malformed(String),
}

/// The message for a baseline entry without a reason.
pub open spec fn no_reason_message(path: Seq<char>, label: Seq<char>) -> Seq<char> {
    path + ": entry `"@ + label + "` has no reason; every suppression must say why"@
}

/// The message for an explicitly requested baseline that is not there.
pub open spec fn missing_explicit_message(path: Seq<char>, error: Seq<char>) -> Seq<char> {
    "cannot read "@ + path + ": "@ + error
        + "\n       a path given to --baseline must exist; only the default is treated as empty when absent, so a mistyped one cannot pass for a clean run"@
}

/// The label of an entry, as diagnostics print it.
pub open spec fn label_text(e: Entry) -> Seq<char> {
    match e.kernel {
        Some(k) => e.krate@ + seq![' '] + e.code@ + " in `"@ + k@ + seq!['`'],
        None => e.krate@ + seq![' '] + e.code@,
    }
}

impl Review {
    /// The review of `artifacts` under the baseline at `path`. A missing
    /// default baseline is an empty one; a missing explicitly requested
    /// one is an error, since treating a mistyped `--baseline` as empty
    /// would look exactly like a run that suppressed everything asked of
    /// it. Every entry must say why it suppresses.
    pub fn load(artifacts: Vec<FindingsArtifact>, path: String, explicit: bool, source: BaselineSource) -> (r: Result<
        Review,
        String,
    >)
        ensures
            r matches Ok(rv) ==> rv.artifacts@ == artifacts@ && rv.baseline_path@ == path@,
            match source {
                BaselineSource::Parsed(b) => match r {
                    Ok(rv) => (forall|i: int| 0 <= i < b.entries.len() ==> !is_blank(#[trigger] b.entries@[i].reason@))
                        && rv.baseline.schema == b.schema && rv.baseline.tool == b.tool
                        && crate::artifacts::baseline::normalized_from(
                        entries_view(b.entries@),
                        entries_view(rv.baseline.entries@),
                    ),
                    Err(m) => exists|i: int|
                        0 <= i < b.entries.len() && is_blank(#[trigger] b.entries@[i].reason@) && (forall|j: int|
                            0 <= j < i ==> !is_blank(#[trigger] b.entries@[j].reason@)) && m@ == no_reason_message(
                            path@,
                            label_text(b.entries@[i]),
                        ),
                },
                BaselineSource::Missing(e) => if explicit {
                    r matches Err(m) && m@ == missing_explicit_message(path@, e@)
                } else {
                    r matches Ok(rv) && rv.baseline.entries.len() == 0 && rv.baseline.schema@
                        == crate::artifacts::schema::BASELINE@
                },
                BaselineSource::Unreadable(e) => r matches Err(m) && m@ == "cannot read "@ + path@ + ": "@ + e@,
                BaselineSource::Malformed(e) => r matches Err(m) && m@ == path@ + " is not a baseline.v1 document: "@
                    + e@,
            },
    {
        let baseline = match source {
            BaselineSource::Parsed(b) => {
                let mut parsed = b;
                let mut i: usize = 0;
                while i < parsed.entries.len()
                    invariant
                        i <= parsed.entries.len(),
                        parsed == b,
                        source == BaselineSource::Parsed(b),
                        forall|j: int| 0 <= j < i ==> !is_blank(#[trigger] parsed.entries@[j].reason@),
                    decreases parsed.entries.len() - i,
                {
                    if blank(parsed.entries[i].reason.as_str()) {
                        let label = parsed.entries[i].label();
                        assert(label@ == label_text(b.entries@[i as int]));
                        let mut m = path.clone();
                        push_str(&mut m, ": entry `");
                        push_str(&mut m, label.as_str());
                        push_str(&mut m, "` has no reason; every suppression must say why");
                        assert(m@ =~= no_reason_message(path@, label_text(b.entries@[i as int])));
                        assert(is_blank(b.entries@[i as int].reason@));
                        assert(exists|k: int|
                            0 <= k < b.entries.len() && is_blank(#[trigger] b.entries@[k].reason@) && (forall|j: int|
                                0 <= j < k ==> !is_blank(#[trigger] b.entries@[j].reason@)) && m@ == no_reason_message(
                                path@,
                                label_text(b.entries@[k]),
                            ));
                        return Err(m);
                    }
                    i = i + 1;
                }
                parsed.normalize();
                parsed
            },
            BaselineSource::Missing(e) => {
                if explicit {
                    let mut m = owned("cannot read ");
                    push_str(&mut m, path.as_str());
                    push_str(&mut m, ": ");
                    push_str(&mut m, e.as_str());
                    push_str(
                        &mut m,
                        "\n       a path given to --baseline must exist; only the default is treated as empty when absent, so a mistyped one cannot pass for a clean run",
                    );
                    return Err(m);
                }
                BaselineArtifact::empty()
            },
            BaselineSource::Unreadable(e) => {
                let mut m = owned("cannot read ");
                push_str(&mut m, path.as_str());
                push_str(&mut m, ": ");
                push_str(&mut m, e.as_str());
                return Err(m);
            },
            BaselineSource::Malformed(e) => {
                let mut m = path.clone();
                push_str(&mut m, " is not a baseline.v1 document: ");
                push_str(&mut m, e.as_str());
                return Err(m);
            },
        };
        Ok(Review { artifacts, baseline, baseline_path: path })
    }

    /// Every finding, in artifact order, with its suppression status.
    pub fn items(&self) -> (r: Vec<Item<'_>>)
        ensures
            r.len() == flat_findings(self.artifacts@).len(),
            forall|k: int|
                0 <= k < r.len() ==> item_of(
                    #[trigger] r@[k],
                    flat_findings(self.artifacts@)[k].0,
                    flat_findings(self.artifacts@)[k].1,
                    self.baseline.entries@,
                ),
    {
        let ghost arts = self.artifacts@;
        let mut out: Vec<Item<'_>> = Vec::new();
        let mut a: usize = 0;
        assert(arts.take(0) =~= Seq::<FindingsArtifact>::empty());
        while a < self.artifacts.len()
            invariant
                a <= self.artifacts.len(),
                arts == self.artifacts@,
                out.len() == flat_findings(arts.take(a as int)).len(),
                forall|k: int|
                    0 <= k < out.len() ==> item_of(
                        #[trigger] out@[k],
                        flat_findings(arts.take(a as int))[k].0,
                        flat_findings(arts.take(a as int))[k].1,
                        self.baseline.entries@,
                    ),
            decreases self.artifacts.len() - a,
        {
            let art = &self.artifacts[a];
            let ghost base = flat_findings(arts.take(a as int));
            let ghost tail = art.findings@.map_values(|f: Finding| (art.krate@, f));
            let mut j: usize = 0;
            while j < art.findings.len()
                invariant
                    j <= art.findings.len(),
                    base == flat_findings(arts.take(a as int)),
                    tail == art.findings@.map_values(|f: Finding| (art.krate@, f)),
                    out.len() == base.len() + j,
                    forall|k: int|
                        0 <= k < out.len() ==> item_of(
                            #[trigger] out@[k],
                            (base + tail)[k].0,
                            (base + tail)[k].1,
                            self.baseline.entries@,
                        ),
                decreases art.findings.len() - j,
            {
                let finding = &art.findings[j];
                let suppression = self.baseline.suppression_of(art.krate.as_str(), finding);
                let ghost before = out@;
                out.push(Item { finding, suppression });
                assert((base + tail)[base.len() + j] == (art.krate@, art.findings@[j as int]));
                assert forall|k: int| 0 <= k < out.len() implies item_of(
                    #[trigger] out@[k],
                    (base + tail)[k].0,
                    (base + tail)[k].1,
                    self.baseline.entries@,
                ) by {
                    if k < before.len() {
                        assert(out@[k] == before[k]);
                    }
                }
                j = j + 1;
            }
            proof {
                lemma_flat_step(arts, a as int);
            }
            a = a + 1;
        }
        assert(arts.take(arts.len() as int) =~= arts);
        out
    }

    /// The tallies of this review.
    pub fn counts(&self) -> (r: Counts)
        ensures
            (r.deny as nat, r.confirmed as nat, r.warning as nat, r.suppressed as nat) == tally(
                flat_findings(self.artifacts@),
                entries_view(self.baseline.entries@),
            ),
    {
        let items = self.items();
        let ghost flat = flat_findings(self.artifacts@);
        let ghost ev = entries_view(self.baseline.entries@);
        let mut counts = Counts::default();
        let mut k: usize = 0;
        while k < items.len()
            invariant
                k <= items.len(),
                items.len() == flat.len(),
                flat == flat_findings(self.artifacts@),
                ev == entries_view(self.baseline.entries@),
                forall|i: int| 0 <= i < items.len() ==> item_of(#[trigger] items@[i], flat[i].0, flat[i].1, self.baseline.entries@),
                (counts.deny as nat, counts.confirmed as nat, counts.warning as nat, counts.suppressed as nat) == tally(
                    flat.take(k as int),
                    ev,
                ),
                counts.deny + counts.confirmed + counts.warning + counts.suppressed == k,
            decreases items.len() - k,
        {
            proof {
                lemma_suppression_decides(items@[k as int], flat[k as int].0, flat[k as int].1, self.baseline.entries@);
                assert(flat.take(k + 1).drop_last() =~= flat.take(k as int));
                assert(flat.take(k + 1).last() == flat[k as int]);
            }
            if items[k].suppression.is_some() {
                counts.suppressed = counts.suppressed + 1;
            } else {
                match items[k].finding.confidence {
                    Confidence::Deny => counts.deny = counts.deny + 1,
                    Confidence::Confirmed => counts.confirmed = counts.confirmed + 1,
                    Confidence::Warning => counts.warning = counts.warning + 1,
                }
            }
            k = k + 1;
        }
        assert(flat.take(items.len() as int) =~= flat);
        counts
    }

    /// 1 when an unsuppressed deny or confirmed finding remains, else 0.
    pub fn exit_code(&self) -> (r: u8)
        ensures
            r == (if gating(flat_findings(self.artifacts@), entries_view(self.baseline.entries@)) {
                1u8
            } else {
                0u8
            }),
    {
        let items = self.items();
        let ghost flat = flat_findings(self.artifacts@);
        let ghost ev = entries_view(self.baseline.entries@);
        let mut k: usize = 0;
        while k < items.len()
            invariant
                k <= items.len(),
                items.len() == flat.len(),
                flat == flat_findings(self.artifacts@),
                ev == entries_view(self.baseline.entries@),
                forall|i: int| 0 <= i < items.len() ==> item_of(#[trigger] items@[i], flat[i].0, flat[i].1, self.baseline.entries@),
                forall|i: int|
                    0 <= i < k ==> !(!is_suppressed(ev, #[trigger] flat[i].0, flat[i].1) && (flat[i].1.confidence
                        == Confidence::Deny || flat[i].1.confidence == Confidence::Confirmed)),
            decreases items.len() - k,
        {
            proof {
                lemma_suppression_decides(items@[k as int], flat[k as int].0, flat[k as int].1, self.baseline.entries@);
            }
            if items[k].suppression.is_none() && items[k].finding.confidence.gates_exit_code() {
                assert(!is_suppressed(ev, flat[k as int].0, flat[k as int].1));
                return 1;
            }
            k = k + 1;
        }
        0
    }

    fn covers_any_finding(&self, entry: &Entry) -> (r: bool)
        ensures
            r == matches_any(entry_view(*entry), flat_findings(self.artifacts@)),
    {
        let ghost arts = self.artifacts@;
        let ghost e = entry_view(*entry);
        let mut a: usize = 0;
        assert(arts.take(0) =~= Seq::<FindingsArtifact>::empty());
        while a < self.artifacts.len()
            invariant
                a <= self.artifacts.len(),
                arts == self.artifacts@,
                e == entry_view(*entry),
                !matches_any(e, flat_findings(arts.take(a as int))),
            decreases self.artifacts.len() - a,
        {
            let art = &self.artifacts[a];
            let ghost base = flat_findings(arts.take(a as int));
            let ghost tail = art.findings@.map_values(|f: Finding| (art.krate@, f));
            proof {
                lemma_flat_step(arts, a as int);
            }
            let mut j: usize = 0;
            while j < art.findings.len()
                invariant
                    j <= art.findings.len(),
                    base == flat_findings(arts.take(a as int)),
                    tail == art.findings@.map_values(|f: Finding| (art.krate@, f)),
                    flat_findings(arts.take(a + 1)) == base + tail,
                    a < arts.len(),
                    arts == self.artifacts@,
                    e == entry_view(*entry),
                    !matches_any(e, base),
                    forall|k: int| 0 <= k < j ==> !covers_key(e, finding_key(#[trigger] tail[k].0, tail[k].1)),
                decreases art.findings.len() - j,
            {
                let finding = &art.findings[j];
                let kernel: Option<&str> = match &finding.kernel {
                    Some(k) => Some(k.as_str()),
                    None => None,
                };
                assert(tail[j as int] == (art.krate@, art.findings@[j as int]));
                assert(match kernel {
                    Some(k) => Some(k@),
                    None => None,
                } == crate::artifacts::findings::opt_view(finding.kernel));
                if entry.covers(art.krate.as_str(), finding.code.as_str(), kernel) {
                    assert((base + tail)[base.len() + j] == tail[j as int]);
                    assert(covers_key(e, finding_key(art.krate@, art.findings@[j as int])));
                    let ghost k = base.len() + j;
                    assert(covers_key(e, finding_key(flat_findings(arts.take(a + 1))[k].0, flat_findings(arts.take(a + 1))[k].1)));
                    assert(matches_any(e, flat_findings(arts.take(a + 1))));
                    assert(matches_any(e, flat_findings(arts))) by {
                        lemma_flat_prefix(arts, a + 1);
                        let k = base.len() + j;
                        assert(flat_findings(arts)[k] == flat_findings(arts.take(a + 1))[k]);
                    }
                    assert(arts.take(arts.len() as int) =~= arts);
                    return true;
                }
                j = j + 1;
            }
            assert forall|k: int| 0 <= k < (base + tail).len() implies !covers_key(
                e,
                finding_key(#[trigger] (base + tail)[k].0, (base + tail)[k].1),
            ) by {
                if k >= base.len() {
                    assert((base + tail)[k] == tail[k - base.len()]);
                } else {
                    assert((base + tail)[k] == base[k]);
                }
            }
            a = a + 1;
        }
        assert(arts.take(arts.len() as int) =~= arts);
        false
    }

    /// Baseline entries that no longer match any finding: reported, never
    /// fatal.
    pub fn stale_entries(&self) -> (r: Vec<&Entry>)
        ensures
            r.len() == stale_of(self.baseline.entries@, flat_findings(self.artifacts@)).len(),
            forall|i: int|
                0 <= i < r.len() ==> *#[trigger] r@[i] == stale_of(
                    self.baseline.entries@,
                    flat_findings(self.artifacts@),
                )[i],
    {
        let ghost entries = self.baseline.entries@;
        let ghost flat = flat_findings(self.artifacts@);
        let mut out: Vec<&Entry> = Vec::new();
        let mut i: usize = 0;
        while i < self.baseline.entries.len()
            invariant
                i <= self.baseline.entries.len(),
                entries == self.baseline.entries@,
                flat == flat_findings(self.artifacts@),
                out.len() == stale_of(entries.take(i as int), flat).len(),
                forall|k: int| 0 <= k < out.len() ==> *#[trigger] out@[k] == stale_of(entries.take(i as int), flat)[k],
            decreases self.baseline.entries.len() - i,
        {
            assert(entries.take(i + 1).drop_last() =~= entries.take(i as int));
            assert(entries.take(i + 1).last() == entries[i as int]);
            let entry = &self.baseline.entries[i];
            if !self.covers_any_finding(entry) {
                out.push(entry);
            }
            i = i + 1;
        }
        assert(entries.take(entries.len() as int) =~= entries);
        out
    }
}

proof fn lemma_flat_prefix(arts: Seq<FindingsArtifact>, a: int)
    requires
        0 <= a <= arts.len(),
    ensures
        flat_findings(arts.take(a)).len() <= flat_findings(arts).len(),
        forall|k: int|
            0 <= k < flat_findings(arts.take(a)).len() ==> #[trigger] flat_findings(arts)[k] == flat_findings(
                arts.take(a),
            )[k],
    decreases arts.len() - a,
{
    if a < arts.len() {
        lemma_flat_prefix(arts, a + 1);
        lemma_flat_step(arts, a);
    } else {
        assert(arts.take(a) =~= arts);
    }
}

impl Counts {
    /// The one-line summary printed after the findings: what gates, what
    /// is hidden without `--strict`, and what the baseline accepted (never
    /// invisible, only unobtrusive).
    pub fn summary_line(&self, strict: bool) -> (r: String)
        requires
            self.deny + self.confirmed + self.warning <= usize::MAX,
        ensures
            r@ == summary_text(*self, strict),
    {
        let total = self.deny + self.confirmed + self.warning;
        let mut line = owned("reconverge: ");
        push_decimal(&mut line, self.deny);
        push_str(&mut line, " deny, ");
        push_decimal(&mut line, self.confirmed);
        push_str(&mut line, " confirmed, ");
        push_decimal(&mut line, self.warning);
        push_str(&mut line, " warning ");
        push_str(&mut line, plural(total, "finding", "findings"));
        let ghost head = line@;
        if self.warning > 0 && !strict {
            push_str(&mut line, " (");
            push_decimal(&mut line, self.warning);
            push_str(&mut line, " hidden; rerun with --strict to see ");
            push_str(&mut line, plural(self.warning, "it", "them"));
            push_str(&mut line, ")");
        }
        let ghost mid = line@;
        if self.suppressed > 0 {
            push_str(&mut line, "; ");
            push_decimal(&mut line, self.suppressed);
            push_str(&mut line, " suppressed by the baseline (--show-suppressed to review)");
        }
        assert(line@ =~= summary_text(*self, strict));
        line
    }
}

} // verus!
