//! `baseline.v1` — reviewed suppressions.
//!
//! The baseline is the one artifact a human owns: a checked-in list of
//! findings that were reviewed and deliberately accepted, each with a
//! written reason. Entries match on `(crate, kernel, code)` and
//! deliberately not on line numbers: a span moves the moment anyone edits
//! the file above it.
use vstd::prelude::*;

use super::findings::{opt_view, Finding, ToolInfo, TOOL_VERSION};
use super::schema;
use super::Artifact;
use crate::text::{
    lemma_seq_lt_asymmetric, lemma_seq_lt_irreflexive, lemma_seq_lt_total, lemma_seq_lt_transitive, owned,
    push_char, push_str, seq_lt, str_eq, str_lt,
};

verus! {

/// One reviewed suppression.
#[derive(Debug, Clone, PartialEq, Eq, PartialOrd, Ord)]
pub struct Entry {
    /// Analyzed crate the finding belongs to.
    pub krate: String,
    /// Kernel the finding is about; absent for crate-level findings.
    pub kernel: Option<String>,
    /// Diagnostic code, e.g. `"RC005"`.
    pub code: String,
    /// Why this finding is accepted.
    pub reason: String,
}

/// An entry as plain character sequences: crate, kernel, code, reason.
pub type EntryView = (Seq<char>, Option<Seq<char>>, Seq<char>, Seq<char>);

/// The view of an entry.
pub open spec fn entry_view(e: Entry) -> EntryView {
    (e.krate@, opt_view(e.kernel), e.code@, e.reason@)
}

/// The views of a list of entries.
pub open spec fn entries_view(v: Seq<Entry>) -> Seq<EntryView> {
    v.map_values(|e: Entry| entry_view(e))
}

/// `a` sorts before `b`, a missing value first.
pub open spec fn opt_lt(a: Option<Seq<char>>, b: Option<Seq<char>>) -> bool {
    match (a, b) {
        (None, Some(_)) => true,
        (Some(x), Some(y)) => seq_lt(x, y),
        _ => false,
    }
}

/// The order entries are kept in: by crate, kernel, code, then reason.
pub open spec fn entry_lt(a: EntryView, b: EntryView) -> bool {
    ||| seq_lt(a.0, b.0)
    ||| (a.0 == b.0 && opt_lt(a.1, b.1))
    ||| (a.0 == b.0 && a.1 == b.1 && seq_lt(a.2, b.2))
    ||| (a.0 == b.0 && a.1 == b.1 && a.2 == b.2 && seq_lt(a.3, b.3))
}

/// Two entries name the same findings: everything but the reason agrees.
pub open spec fn same_findings(a: EntryView, b: EntryView) -> bool {
    a.0 == b.0 && a.1 == b.1 && a.2 == b.2
}

/// Ascending in the entry order.
pub open spec fn sorted_entries(s: Seq<EntryView>) -> bool {
    forall|i: int, j: int| 0 <= i < j < s.len() ==> !entry_lt(#[trigger] s[j], #[trigger] s[i])
}

/// Every entry but those naming the same findings as the one before them.
pub open spec fn dedup_same(s: Seq<EntryView>) -> Seq<EntryView>
    decreases s.len(),
{
    if s.len() <= 1 {
        s
    } else if same_findings(s[s.len() - 2], s.last()) {
        dedup_same(s.drop_last())
    } else {
        dedup_same(s.drop_last()).push(s.last())
    }
}

/// `out` is `input` sorted, then with repeats of the same findings dropped
/// (the first, smallest reason, kept).
pub open spec fn normalized_from(input: Seq<EntryView>, out: Seq<EntryView>) -> bool {
    exists|s: Seq<EntryView>|
        #[trigger] sorted_entries(s) && s.to_multiset() == input.to_multiset() && out == dedup_same(s)
}





/// The entry order is a strict total order.
proof fn lemma_entry_order(a: EntryView, b: EntryView, c: EntryView)
    ensures
        !entry_lt(a, a),
        entry_lt(a, b) ==> !entry_lt(b, a),
        entry_lt(a, b) && entry_lt(b, c) ==> entry_lt(a, c),
        entry_lt(a, b) || entry_lt(b, a) || a == b,
{
    lemma_seq_lt_irreflexive(a.0);
    lemma_seq_lt_irreflexive(a.2);
    lemma_seq_lt_irreflexive(a.3);
    if a.1 is Some {
        lemma_seq_lt_irreflexive(a.1->Some_0);
    }
    lemma_seq_lt_total(a.0, b.0);
    lemma_seq_lt_total(a.2, b.2);
    lemma_seq_lt_total(a.3, b.3);
    if a.1 is Some && b.1 is Some {
        lemma_seq_lt_total(a.1->Some_0, b.1->Some_0);
    }
    if seq_lt(a.0, b.0) {
        lemma_seq_lt_asymmetric(a.0, b.0);
    }
    if seq_lt(a.2, b.2) {
        lemma_seq_lt_asymmetric(a.2, b.2);
    }
    if seq_lt(a.3, b.3) {
        lemma_seq_lt_asymmetric(a.3, b.3);
    }
    if a.1 is Some && b.1 is Some && seq_lt(a.1->Some_0, b.1->Some_0) {
        lemma_seq_lt_asymmetric(a.1->Some_0, b.1->Some_0);
    }
    if entry_lt(a, b) && entry_lt(b, c) {
        if seq_lt(a.0, b.0) && seq_lt(b.0, c.0) {
            lemma_seq_lt_transitive(a.0, b.0, c.0);
        }
        if a.1 is Some && b.1 is Some && c.1 is Some && seq_lt(a.1->Some_0, b.1->Some_0) && seq_lt(
            b.1->Some_0,
            c.1->Some_0,
        ) {
            lemma_seq_lt_transitive(a.1->Some_0, b.1->Some_0, c.1->Some_0);
        }
        if seq_lt(a.2, b.2) && seq_lt(b.2, c.2) {
            lemma_seq_lt_transitive(a.2, b.2, c.2);
        }
        if seq_lt(a.3, b.3) && seq_lt(b.3, c.3) {
            lemma_seq_lt_transitive(a.3, b.3, c.3);
        }
    }
}


fn opt_str_lt(a: &Option<String>, b: &Option<String>) -> (r: bool)
    ensures
        r == opt_lt(opt_view(*a), opt_view(*b)),
{
    match (a, b) {
        (None, Some(_)) => true,
        (Some(x), Some(y)) => str_lt(x.as_str(), y.as_str()),
        _ => false,
    }
}

fn opt_str_eq(a: &Option<String>, b: &Option<String>) -> (r: bool)
    ensures
        r == (opt_view(*a) == opt_view(*b)),
{
    match (a, b) {
        (None, None) => true,
        (Some(x), Some(y)) => str_eq(x.as_str(), y.as_str()),
        _ => false,
    }
}

fn entry_before(a: &Entry, b: &Entry) -> (r: bool)
    ensures
        r == entry_lt(entry_view(*a), entry_view(*b)),
{
    if str_lt(a.krate.as_str(), b.krate.as_str()) {
        return true;
    }
    if !str_eq(a.krate.as_str(), b.krate.as_str()) {
        return false;
    }
    if opt_str_lt(&a.kernel, &b.kernel) {
        return true;
    }
    if !opt_str_eq(&a.kernel, &b.kernel) {
        return false;
    }
    if str_lt(a.code.as_str(), b.code.as_str()) {
        return true;
    }
    if !str_eq(a.code.as_str(), b.code.as_str()) {
        return false;
    }
    str_lt(a.reason.as_str(), b.reason.as_str())
}

fn copy_opt_string(o: &Option<String>) -> (r: Option<String>)
    ensures
        opt_view(r) == opt_view(*o),
{
    match o {
        Some(s) => Some(s.clone()),
        None => None,
    }
}

impl Entry {
    /// Whether this entry covers a finding of `code` in `kernel`.
    pub fn covers(&self, krate: &str, code: &str, kernel: Option<&str>) -> (r: bool)
        ensures
            r == (self.krate@ == krate@ && self.code@ == code@ && opt_view(self.kernel) == match kernel {
                Some(k) => Some(k@),
                None => None,
            }),
    {
        let same_kernel = match (&self.kernel, kernel) {
            (Some(a), Some(b)) => str_eq(a.as_str(), b),
            (None, None) => true,
            _ => false,
        };
        str_eq(self.krate.as_str(), krate) && str_eq(self.code.as_str(), code) && same_kernel
    }

    /// Whether two entries name the same set of findings (everything but
    /// the reason).
    pub fn matches_same_findings(&self, other: &Entry) -> (r: bool)
        ensures
            r == same_findings(entry_view(*self), entry_view(*other)),
    {
        str_eq(self.krate.as_str(), other.krate.as_str()) && opt_str_eq(&self.kernel, &other.kernel)
            && str_eq(self.code.as_str(), other.code.as_str())
    }

    /// Display form used by the CLI and the triage view:
    /// ``crate CODE in `kernel` `` or `crate CODE`.
    pub fn label(&self) -> (r: String)
        ensures
            r@ == match self.kernel {
                Some(k) => self.krate@ + seq![' '] + self.code@ + " in `"@ + k@ + seq!['`'],
                None => self.krate@ + seq![' '] + self.code@,
            },
    {
        let mut s = owned(self.krate.as_str());
        push_char(&mut s, ' ');
        push_str(&mut s, self.code.as_str());
        if let Some(k) = &self.kernel {
            push_str(&mut s, " in `");
            push_str(&mut s, k.as_str());
            push_char(&mut s, '`');
        }
        s
    }
}

/// Top-level baseline document.
#[derive(Debug, Clone, PartialEq, Eq)]
pub struct BaselineArtifact {
    /// Always [`schema::BASELINE`].
    pub schema: String,
    pub tool: ToolInfo,
    pub entries: Vec<Entry>,
}


/// The key a finding is suppressed under in crate `krate`.
pub open spec fn finding_key(krate: Seq<char>, f: Finding) -> (Seq<char>, Option<Seq<char>>, Seq<char>) {
    (krate, opt_view(f.kernel), f.code@)
}

/// An entry covers a key: same crate, kernel and code.
pub open spec fn covers_key(e: EntryView, key: (Seq<char>, Option<Seq<char>>, Seq<char>)) -> bool {
    e.0 == key.0 && e.1 == key.1 && e.2 == key.2
}

/// The view of an optional string slice.
pub open spec fn str_opt_view(o: Option<&str>) -> Option<Seq<char>> {
    match o {
        Some(s) => Some(s@),
        None => None,
    }
}

/// The first entry covering `key`.
pub open spec fn first_covering(v: Seq<EntryView>, key: (Seq<char>, Option<Seq<char>>, Seq<char>), i: int) -> bool {
    0 <= i < v.len() && covers_key(v[i], key) && forall|j: int| 0 <= j < i ==> !covers_key(#[trigger] v[j], key)
}

/// No entry covers `key`.
pub open spec fn none_covering(v: Seq<EntryView>, key: (Seq<char>, Option<Seq<char>>, Seq<char>)) -> bool {
    forall|j: int| 0 <= j < v.len() ==> !covers_key(#[trigger] v[j], key)
}

fn copy_entry(e: &Entry) -> (r: Entry)
    ensures
        entry_view(r) == entry_view(*e),
{
    Entry {
        krate: e.krate.clone(),
        kernel: copy_opt_string(&e.kernel),
        code: e.code.clone(),
        reason: e.reason.clone(),
    }
}

proof fn lemma_empty_multiset(s: Seq<EntryView>)
    requires
        s.len() == 0,
    ensures
        s.to_multiset() =~= vstd::multiset::Multiset::<EntryView>::empty(),
        s.to_multiset().len() == 0,
{
    vstd::seq_lib::to_multiset_len(s);
    vstd::multiset::lemma_multiset_empty_len(s.to_multiset());
}

proof fn lemma_insert_sorted(s: Seq<EntryView>, p: int, e: EntryView)
    requires
        sorted_entries(s),
        0 <= p <= s.len(),
        forall|j: int| 0 <= j < p ==> !entry_lt(e, #[trigger] s[j]),
        p < s.len() ==> entry_lt(e, s[p]),
    ensures
        sorted_entries(s.insert(p, e)),
{
    let t = s.insert(p, e);
    assert forall|i: int, j: int| 0 <= i < j < t.len() implies !entry_lt(#[trigger] t[j], #[trigger] t[i]) by {
        lemma_entry_order(t[i], t[j], e);
        if i < p && j == p {
            lemma_entry_order(t[i], e, e);
            lemma_entry_order(e, t[i], t[i]);
        } else if i == p && j > p {
            assert(t[j] == s[j - 1]);
            if j - 1 > p {
                assert(!entry_lt(s[j - 1], s[p]));
                lemma_entry_order(s[j - 1], e, s[p]);
                lemma_entry_order(e, s[p], s[p]);
            } else {
                lemma_entry_order(e, s[p], s[p]);
            }
        } else if i < p && j > p {
            assert(t[i] == s[i] && t[j] == s[j - 1]);
        } else if i < p && j < p {
            assert(t[i] == s[i] && t[j] == s[j]);
        } else {
            assert(t[i] == s[i - 1] && t[j] == s[j - 1]);
        }
    }
}

proof fn lemma_dedup_step(s: Seq<EntryView>, i: int)
    requires
        0 <= i < s.len(),
    ensures
        dedup_same(s.take(i + 1)) == if i > 0 && same_findings(s[i - 1], s[i]) {
            dedup_same(s.take(i))
        } else {
            dedup_same(s.take(i)).push(s[i])
        },
{
    let t = s.take(i + 1);
    assert(t.drop_last() =~= s.take(i));
    if i == 0 {
        assert(t =~= seq![s[0]]);
        assert(s.take(0) =~= Seq::<EntryView>::empty());
        assert(dedup_same(s.take(0)).push(s[0]) =~= seq![s[0]]);
    } else {
        assert(t[t.len() - 2] == s[i - 1]);
    }
}

/// Sort `v` in the entry order and drop repeats of the same findings.
fn normalized(v: Vec<Entry>) -> (r: Vec<Entry>)
    ensures
        normalized_from(entries_view(v@), entries_view(r@)),
{
    let ghost input = entries_view(v@);
    let mut rest = v;
    let mut sorted: Vec<Entry> = Vec::new();
    proof {
        lemma_empty_multiset(entries_view(sorted@));
        assert(entries_view(sorted@).to_multiset().add(entries_view(rest@).to_multiset()) =~= input.to_multiset());
    }
    while rest.len() > 0
        invariant
            sorted_entries(entries_view(sorted@)),
            entries_view(sorted@).to_multiset().add(entries_view(rest@).to_multiset()) == input.to_multiset(),
        decreases rest.len(),
    {
        let ghost before_rest = rest@;
        let ghost before_sorted = sorted@;
        let e = rest.pop().unwrap();
        proof {
            assert(before_rest =~= rest@.push(e));
            assert(entries_view(before_rest) =~= entries_view(rest@).push(entry_view(e)));
            vstd::seq_lib::to_multiset_build(entries_view(rest@), entry_view(e));
        }
        let mut p: usize = 0;
        while p < sorted.len() && !entry_before(&e, &sorted[p])
            invariant
                p <= sorted.len(),
                forall|j: int| 0 <= j < p ==> !entry_lt(entry_view(e), #[trigger] entries_view(sorted@)[j]),
            decreases sorted.len() - p,
        {
            p = p + 1;
        }
        let ghost ev = entry_view(e);
        sorted.insert(p, e);
        proof {
            assert(entries_view(sorted@) =~= entries_view(before_sorted).insert(p as int, ev));
            lemma_insert_sorted(entries_view(before_sorted), p as int, ev);
            vstd::seq_lib::to_multiset_insert(entries_view(before_sorted), p as int, ev);
            assert(entries_view(sorted@).to_multiset().add(entries_view(rest@).to_multiset()) =~= input.to_multiset());
        }
    }
    proof {
        lemma_empty_multiset(entries_view(rest@));
        assert(entries_view(sorted@).to_multiset() =~= input.to_multiset());
    }
    let ghost s = entries_view(sorted@);
    let mut out: Vec<Entry> = Vec::new();
    let mut i: usize = 0;
    while i < sorted.len()
        invariant
            s == entries_view(sorted@),
            i <= sorted.len(),
            entries_view(out@) == dedup_same(s.take(i as int)),
        decreases sorted.len() - i,
    {
        proof {
            lemma_dedup_step(s, i as int);
        }
        if i == 0 || !sorted[i - 1].matches_same_findings(&sorted[i]) {
            let ghost before = out@;
            out.push(copy_entry(&sorted[i]));
            assert(entries_view(out@) =~= entries_view(before).push(s[i as int]));
        }
        i = i + 1;
    }
    assert(s.take(sorted.len() as int) =~= s);
    assert(sorted_entries(s));
    out
}

impl BaselineArtifact {
    /// A baseline of `entries`, stamped with this schema and tool, sorted
    /// and with repeats of the same findings dropped.
    pub fn new(entries: Vec<Entry>) -> (r: BaselineArtifact)
        ensures
            r.schema@ == schema::BASELINE@,
            r.tool.name@ == "reconverge"@,
            r.tool.version@ == TOOL_VERSION@,
            normalized_from(entries_view(entries@), entries_view(r.entries@)),
    {
        BaselineArtifact { schema: owned(schema::BASELINE), tool: ToolInfo::current(), entries: normalized(entries) }
    }

    /// An empty baseline (what `triage` starts from when none exists).
    pub fn empty() -> (r: BaselineArtifact)
        ensures
            r.schema@ == schema::BASELINE@,
            r.tool.name@ == "reconverge"@,
            r.tool.version@ == TOOL_VERSION@,
            r.entries.len() == 0,
    {
        let r = BaselineArtifact::new(Vec::new());
        proof {
            let s = choose|s: Seq<EntryView>|
                #[trigger] sorted_entries(s) && s.to_multiset() == entries_view(Seq::<Entry>::empty()).to_multiset()
                    && entries_view(r.entries@) == dedup_same(s);
            lemma_empty_multiset(entries_view(Seq::<Entry>::empty()));
            vstd::seq_lib::to_multiset_len(s);
            assert(s.len() == 0);
            assert(entries_view(r.entries@).len() == 0);
        }
        r
    }

    /// Sort and deduplicate entries so the file diffs cleanly in review.
    pub fn normalize(&mut self)
        ensures
            final(self).schema == old(self).schema,
            final(self).tool == old(self).tool,
            normalized_from(entries_view(old(self).entries@), entries_view(final(self).entries@)),
    {
        let mut entries: Vec<Entry> = Vec::new();
        std::mem::swap(&mut entries, &mut self.entries);
        self.entries = normalized(entries);
    }

    /// The entry suppressing `finding` in crate `krate`, if any: the first
    /// one covering its crate, kernel and code.
    pub fn suppression_of(&self, krate: &str, finding: &Finding) -> (r: Option<&Entry>)
        ensures
            match r {
                Some(e) => exists|i: int|
                    first_covering(entries_view(self.entries@), finding_key(krate@, *finding), i) && self.entries@[i]
                        == *e,
                None => none_covering(entries_view(self.entries@), finding_key(krate@, *finding)),
            },
    {
        let kernel: Option<&str> = match &finding.kernel {
            Some(k) => Some(k.as_str()),
            None => None,
        };
        let mut i: usize = 0;
        while i < self.entries.len()
            invariant
                i <= self.entries.len(),
                str_opt_view(kernel) == opt_view(finding.kernel),
                forall|j: int|
                    0 <= j < i ==> !covers_key(#[trigger] entries_view(self.entries@)[j], finding_key(krate@, *finding)),
            decreases self.entries.len() - i,
        {
            if self.entries[i].covers(krate, finding.code.as_str(), kernel) {
                return Some(&self.entries[i]);
            }
            i = i + 1;
        }
        None
    }
    /// Add or replace the suppression covering this finding, returning
    /// true when the baseline changed. The first entry covering the
    /// finding gets `reason` (no change when it already has it); with none,
    /// a new entry is added and the baseline normalized.
    pub fn suppress(&mut self, krate: &str, finding: &Finding, reason: &str) -> (changed: bool)
        ensures
            final(self).schema == old(self).schema,
            final(self).tool == old(self).tool,
            suppress_result(
                entries_view(old(self).entries@),
                finding_key(krate@, *finding),
                reason@,
                entries_view(final(self).entries@),
                changed,
            ),
    {
        let kernel: Option<&str> = match &finding.kernel {
            Some(k) => Some(k.as_str()),
            None => None,
        };
        let ghost key = finding_key(krate@, *finding);
        let mut i: usize = 0;
        while i < self.entries.len() && !self.entries[i].covers(krate, finding.code.as_str(), kernel)
            invariant
                i <= self.entries.len(),
                str_opt_view(kernel) == opt_view(finding.kernel),
                key == finding_key(krate@, *finding),
                forall|j: int| 0 <= j < i ==> !covers_key(#[trigger] entries_view(self.entries@)[j], key),
            decreases self.entries.len() - i,
        {
            i = i + 1;
        }
        if i < self.entries.len() {
            proof {
                assert(first_covering(entries_view(self.entries@), key, i as int));
                assert forall|k: int| first_covering(entries_view(self.entries@), key, k) implies k == i by {
                    if k < i {
                    } else if k > i {
                    }
                }
            }
            if str_eq(self.entries[i].reason.as_str(), reason) {
                return false;
            }
            let updated = Entry {
                krate: self.entries[i].krate.clone(),
                kernel: copy_opt_string(&self.entries[i].kernel),
                code: self.entries[i].code.clone(),
                reason: owned(reason),
            };
            let ghost before = self.entries@;
            self.entries.set(i, updated);
            assert(entries_view(self.entries@) =~= entries_view(before).update(
                i as int,
                with_reason(entries_view(before)[i as int], reason@),
            ));
            return true;
        }
        let entry = Entry {
            krate: owned(krate),
            kernel: copy_opt_string(&finding.kernel),
            code: finding.code.clone(),
            reason: owned(reason),
        };
        let ghost before = self.entries@;
        self.entries.push(entry);
        assert(entries_view(self.entries@) =~= entries_view(before).push(new_entry(key, reason@)));
        self.normalize();
        true
    }

    /// Drop the suppressions covering this finding, returning true when the
    /// baseline changed.
    pub fn unsuppress(&mut self, krate: &str, finding: &Finding) -> (changed: bool)
        ensures
            final(self).schema == old(self).schema,
            final(self).tool == old(self).tool,
            entries_view(final(self).entries@) == without_key(
                entries_view(old(self).entries@),
                finding_key(krate@, *finding),
            ),
            changed == (final(self).entries.len() != old(self).entries.len()),
    {
        let kernel: Option<&str> = match &finding.kernel {
            Some(k) => Some(k.as_str()),
            None => None,
        };
        let ghost key = finding_key(krate@, *finding);
        let ghost v = entries_view(self.entries@);
        let before = self.entries.len();
        let mut kept: Vec<Entry> = Vec::new();
        let mut i: usize = 0;
        while i < self.entries.len()
            invariant
                i <= self.entries.len(),
                v == entries_view(self.entries@),
                str_opt_view(kernel) == opt_view(finding.kernel),
                key == finding_key(krate@, *finding),
                entries_view(kept@) == without_key(v.take(i as int), key),
            decreases self.entries.len() - i,
        {
            let ghost prev = kept@;
            assert(v.take(i + 1).drop_last() =~= v.take(i as int));
            if !self.entries[i].covers(krate, finding.code.as_str(), kernel) {
                kept.push(copy_entry(&self.entries[i]));
                assert(entries_view(kept@) =~= entries_view(prev).push(v[i as int]));
            }
            i = i + 1;
        }
        assert(v.take(self.entries.len() as int) =~= v);
        self.entries = kept;
        self.entries.len() != before
    }
}

/// What suppressing `key` for `reason` makes of the entries `old`: the
/// first entry covering it takes the reason (no change when it already has
/// it); with none, a new entry is added and the whole normalized.
pub open spec fn suppress_result(
    old: Seq<EntryView>,
    key: (Seq<char>, Option<Seq<char>>, Seq<char>),
    reason: Seq<char>,
    new: Seq<EntryView>,
    changed: bool,
) -> bool {
    &&& forall|i: int|
        first_covering(old, key, i) ==> if old[i].3 == reason {
            !changed && new == old
        } else {
            changed && new == old.update(i, with_reason(old[i], reason))
        }
    &&& none_covering(old, key) ==> changed && normalized_from(old.push(new_entry(key, reason)), new)
}

proof fn lemma_dedup_elements(s: Seq<EntryView>)
    ensures
        forall|x: EntryView| dedup_same(s).contains(x) ==> s.contains(x),
        forall|j: int|
            0 <= j < s.len() && (j == 0 || !same_findings(s[j - 1], s[j])) ==> dedup_same(s).contains(#[trigger] s[j]),
    decreases s.len(),
{
    if s.len() > 1 {
        let p = s.drop_last();
        lemma_dedup_elements(p);
        let dp = dedup_same(p);
        assert forall|x: EntryView| dedup_same(s).contains(x) implies s.contains(x) by {
            if dp.contains(x) {
                assert(p.contains(x));
                let k = choose|k: int| 0 <= k < p.len() && p[k] == x;
                assert(s[k] == p[k]);
            } else {
                let d = dedup_same(s);
                let m = choose|m: int| 0 <= m < d.len() && d[m] == x;
                if same_findings(s[s.len() - 2], s.last()) {
                    assert(d == dp);
                    assert(dp[m] == x);
                } else {
                    assert(d == dp.push(s.last()));
                    if m < dp.len() {
                        assert(dp[m] == x);
                    }
                    assert(x == s.last());
                }
                assert(s[s.len() - 1] == x);
            }
        }
        assert forall|j: int|
            0 <= j < s.len() && (j == 0 || !same_findings(s[j - 1], s[j])) implies dedup_same(s).contains(
            #[trigger] s[j],
        ) by {
            if j < s.len() - 1 {
                assert(p[j] == s[j]);
                assert(j > 0 ==> p[j - 1] == s[j - 1]);
                assert(dedup_same(p).contains(p[j]));
                let k = choose|k: int| 0 <= k < dedup_same(p).len() && dedup_same(p)[k] == p[j];
                if !same_findings(s[s.len() - 2], s.last()) {
                    assert(dedup_same(s)[k] == p[j]);
                }
            } else {
                let d = dedup_same(s);
                assert(d[d.len() - 1] == s[j]);
            }
        }
    }
}

proof fn first_covering_index(v: Seq<EntryView>, key: (Seq<char>, Option<Seq<char>>, Seq<char>), i: int) -> (f: int)
    requires
        0 <= i < v.len(),
        covers_key(v[i], key),
    ensures
        first_covering(v, key, f),
        f <= i,
    decreases i,
{
    if exists|k: int| 0 <= k < i && covers_key(#[trigger] v[k], key) {
        let k = choose|k: int| 0 <= k < i && covers_key(#[trigger] v[k], key);
        first_covering_index(v, key, k)
    } else {
        i
    }
}

proof fn first_index_of(s: Seq<EntryView>, e: EntryView, j: int) -> (f: int)
    requires
        0 <= j < s.len(),
        s[j] == e,
    ensures
        0 <= f <= j,
        s[f] == e,
        forall|k: int| 0 <= k < f ==> s[k] != e,
    decreases j,
{
    if exists|k: int| 0 <= k < j && s[k] == e {
        let k = choose|k: int| 0 <= k < j && s[k] == e;
        first_index_of(s, e, k)
    } else {
        j
    }
}

/// After a suppression, the baseline holds an entry for the finding with
/// the reason just given, and it is the first one covering the finding:
/// a lookup reads back what the write wrote.
pub proof fn suppression_reads_back(
    old: Seq<EntryView>,
    key: (Seq<char>, Option<Seq<char>>, Seq<char>),
    reason: Seq<char>,
    new: Seq<EntryView>,
    changed: bool,
)
    requires
        suppress_result(old, key, reason, new, changed),
    ensures
        exists|i: int| first_covering(new, key, i) && new[i].3 == reason,
{
    if none_covering(old, key) {
        let input = old.push(new_entry(key, reason));
        let s = choose|s: Seq<EntryView>|
            #[trigger] sorted_entries(s) && s.to_multiset() == input.to_multiset() && new == dedup_same(s);
        let e = new_entry(key, reason);
        assert(input[input.len() - 1] == e);
        assert(input.contains(e));
        vstd::seq_lib::to_multiset_contains(input, e);
        vstd::seq_lib::to_multiset_contains(s, e);
        let j0 = choose|j: int| 0 <= j < s.len() && s[j] == e;
        let j = first_index_of(s, e, j0);
        // Every element of `s` covering the key is `e`: the old entries
        // cover nothing.
        assert forall|k: int| 0 <= k < s.len() && covers_key(#[trigger] s[k], key) implies s[k] == e by {
            assert(s.contains(s[k]));
            vstd::seq_lib::to_multiset_contains(s, s[k]);
            vstd::seq_lib::to_multiset_contains(input, s[k]);
            let m = choose|m: int| 0 <= m < input.len() && input[m] == s[k];
            if m < old.len() {
                assert(input[m] == old[m]);
            }
        }
        if j > 0 && same_findings(s[j - 1], s[j]) {
            assert(covers_key(s[j - 1], key));
        }
        lemma_dedup_elements(s);
        assert(new.contains(e));
        let i0 = choose|i: int| 0 <= i < new.len() && new[i] == e;
        let f = first_covering_index(new, key, i0);
        assert(new.contains(new[f]));
        assert(s.contains(new[f]));
        let m = choose|m: int| 0 <= m < s.len() && s[m] == new[f];
        assert(s[m] == e);
    } else {
        let i = choose|i: int| 0 <= i < old.len() && !!covers_key(#[trigger] old[i], key);
        let f = first_covering_index(old, key, i);
        if old[f].3 == reason {
            assert(first_covering(new, key, f));
        } else {
            assert(new[f] == with_reason(old[f], reason));
            assert(first_covering(new, key, f));
        }
    }
}

/// No two entries name the same findings, as a normalized baseline keeps
/// them.
pub open spec fn one_per_key(v: Seq<EntryView>) -> bool {
    forall|i: int, j: int| 0 <= i < j < v.len() ==> !same_findings(#[trigger] v[i], #[trigger] v[j])
}

/// Exactly one entry of `v` covers `key`, and it carries `reason`.
pub open spec fn one_covering(v: Seq<EntryView>, key: (Seq<char>, Option<Seq<char>>, Seq<char>), reason: Seq<char>) -> bool {
    exists|i: int|
        0 <= i < v.len() && covers_key(v[i], key) && v[i].3 == reason && forall|j: int|
            0 <= j < v.len() && #[trigger] covers_key(v[j], key) ==> j == i
}

#[verifier::spinoff_prover]
proof fn lemma_covering_is_new(
    old: Seq<EntryView>,
    key: (Seq<char>, Option<Seq<char>>, Seq<char>),
    e: EntryView,
    s: Seq<EntryView>,
)
    requires
        s.to_multiset() == old.push(e).to_multiset(),
        none_covering(old, key),
    ensures
        forall|k: int| 0 <= k < s.len() && covers_key(#[trigger] s[k], key) ==> s[k] == e,
{
    let input = old.push(e);
    assert forall|k: int| 0 <= k < s.len() && covers_key(#[trigger] s[k], key) implies s[k] == e by {
        assert(s.contains(s[k]));
        vstd::seq_lib::to_multiset_contains(s, s[k]);
        vstd::seq_lib::to_multiset_contains(input, s[k]);
        let m = choose|m: int| 0 <= m < input.len() && input[m] == s[k];
        if m < old.len() {
            assert(input[m] == old[m]);
        }
    }
}

#[verifier::spinoff_prover]
proof fn lemma_one_entry_added(
    key: (Seq<char>, Option<Seq<char>>, Seq<char>),
    e: EntryView,
    s: Seq<EntryView>,
    new: Seq<EntryView>,
    i: int,
)
    requires
        sorted_entries(s),
        new == dedup_same(s),
        forall|k: int| 0 <= k < s.len() && covers_key(#[trigger] s[k], key) ==> s[k] == e,
        first_covering(new, key, i),
    ensures
        forall|j: int| 0 <= j < new.len() && #[trigger] covers_key(new[j], key) ==> j == i,
{
    lemma_dedup_elements(s);
    lemma_dedup_sorted(s);
    lemma_dedup_shape(s);
    assert forall|j: int| 0 <= j < new.len() && #[trigger] covers_key(new[j], key) implies new[j] == e by {
        assert(dedup_same(s).contains(new[j]));
        assert(s.contains(new[j]));
        let m = choose|m: int| 0 <= m < s.len() && s[m] == new[j];
        assert(covers_key(s[m], key));
    }
    assert forall|j: int| 0 <= j < new.len() && #[trigger] covers_key(new[j], key) implies j == i by {
        if j != i {
            assert(new[i] == e && new[j] == e);
            let k = i + 1;
            if k < j {
                assert(!entry_lt(new[k], new[i]));
                assert(!entry_lt(new[j], new[k]));
                lemma_entry_order(new[k], e, e);
            }
            assert(new[k] == e);
            assert(!same_findings(new[k - 1], new[k]));
        }
    }
}

proof fn lemma_one_entry_kept(
    old: Seq<EntryView>,
    key: (Seq<char>, Option<Seq<char>>, Seq<char>),
    reason: Seq<char>,
    new: Seq<EntryView>,
    changed: bool,
)
    requires
        suppress_result(old, key, reason, new, changed),
        !none_covering(old, key),
        one_per_key(old),
    ensures
        one_covering(new, key, reason),
{
    let i0 = choose|i: int| 0 <= i < old.len() && !!covers_key(#[trigger] old[i], key);
    let f = first_covering_index(old, key, i0);
    assert forall|j: int| 0 <= j < new.len() && #[trigger] covers_key(new[j], key) implies j == f by {
        assert(covers_key(old[j], key));
        if j != f {
            if j < f {
                assert(!covers_key(old[j], key));
            } else {
                assert(!same_findings(old[f], old[j]));
            }
        }
    }
    assert(covers_key(new[f], key) && new[f].3 == reason);
}

proof fn lemma_twice_counts_two(s: Seq<EntryView>, a: int, b: int)
    requires
        0 <= a < b < s.len(),
        s[a] == s[b],
    ensures
        s.to_multiset().count(s[a]) >= 2,
    decreases s.len(),
{
    broadcast use vstd::multiset::group_multiset_axioms;

    let p = s.drop_last();
    assert(p.push(s.last()) =~= s);
    vstd::seq_lib::to_multiset_build(p, s.last());
    if b == s.len() - 1 {
        assert(p[a] == s[a]);
        assert(p.contains(s[a]));
        vstd::seq_lib::to_multiset_contains(p, s[a]);
    } else {
        assert(p[a] == s[a] && p[b] == s[b]);
        lemma_twice_counts_two(p, a, b);
    }
}

proof fn lemma_distinct_counts_one(s: Seq<EntryView>, v: EntryView)
    requires
        forall|i: int, j: int| 0 <= i < j < s.len() ==> #[trigger] s[i] != #[trigger] s[j],
    ensures
        s.to_multiset().count(v) <= 1,
    decreases s.len(),
{
    broadcast use vstd::multiset::group_multiset_axioms;

    if s.len() > 0 {
        let p = s.drop_last();
        assert(p.push(s.last()) =~= s);
        vstd::seq_lib::to_multiset_build(p, s.last());
        assert forall|i: int, j: int| 0 <= i < j < p.len() implies #[trigger] p[i] != #[trigger] p[j] by {
            assert(p[i] == s[i] && p[j] == s[j]);
        }
        lemma_distinct_counts_one(p, v);
        if s.last() == v {
            vstd::seq_lib::to_multiset_contains(p, v);
            if p.contains(v) {
                let i = choose|i: int| 0 <= i < p.len() && p[i] == v;
                assert(s[i] == s[s.len() - 1]);
            }
        }
    } else {
        vstd::seq_lib::to_multiset_contains(s, v);
    }
}

/// When no entry covered the finding, the new entry sorts in among the old
/// ones and none is dropped.
#[verifier::spinoff_prover]
proof fn lemma_added_keeps_all(
    old: Seq<EntryView>,
    key: (Seq<char>, Option<Seq<char>>, Seq<char>),
    e: EntryView,
    s: Seq<EntryView>,
)
    requires
        s.to_multiset() == old.push(e).to_multiset(),
        none_covering(old, key),
        covers_key(e, key),
        one_per_key(old),
        forall|k: int| 0 <= k < s.len() && covers_key(#[trigger] s[k], key) ==> s[k] == e,
    ensures
        dedup_same(s) == s,
{
    broadcast use vstd::multiset::group_multiset_axioms;

    let input = old.push(e);
    assert forall|i: int, j: int| 0 <= i < j < input.len() implies #[trigger] input[i] != #[trigger] input[j] by {
        if j == old.len() {
            assert(!covers_key(old[i], key));
        } else {
            assert(!same_findings(old[i], old[j]));
        }
    }
    assert forall|i: int| 0 < i < s.len() implies !same_findings(s[i - 1], #[trigger] s[i]) by {
        if same_findings(s[i - 1], s[i]) {
            assert(s.contains(s[i - 1]) && s.contains(s[i]));
            vstd::seq_lib::to_multiset_contains(s, s[i - 1]);
            vstd::seq_lib::to_multiset_contains(input, s[i - 1]);
            vstd::seq_lib::to_multiset_contains(s, s[i]);
            vstd::seq_lib::to_multiset_contains(input, s[i]);
            let m1 = choose|m: int| 0 <= m < input.len() && input[m] == s[i - 1];
            let m2 = choose|m: int| 0 <= m < input.len() && input[m] == s[i];
            if m1 == m2 {
                lemma_twice_counts_two(s, i - 1, i);
                lemma_distinct_counts_one(input, s[i]);
            } else if m1 < m2 {
                assert(input[m1] != input[m2]);
                if m2 == old.len() {
                    assert(covers_key(s[i - 1], key));
                } else {
                    assert(!same_findings(old[m1], old[m2]));
                }
            } else {
                if m1 == old.len() {
                    assert(covers_key(s[i], key));
                } else {
                    assert(!same_findings(old[m2], old[m1]));
                }
            }
        }
    }
    lemma_dedup_fixed(s);
}

/// Suppressing a finding in a baseline that names no findings twice keeps
/// every entry that does not cover it: in place when one did, and all of
/// them, with the new entry, when none did; either way the entries that do
/// not cover it are the same, counted with their repeats.
pub proof fn suppression_keeps_other_entries(
    old: Seq<EntryView>,
    key: (Seq<char>, Option<Seq<char>>, Seq<char>),
    reason: Seq<char>,
    new: Seq<EntryView>,
    changed: bool,
)
    requires
        suppress_result(old, key, reason, new, changed),
        one_per_key(old),
    ensures
        !none_covering(old, key) ==> new.len() == old.len() && forall|i: int|
            0 <= i < old.len() && !covers_key(#[trigger] old[i], key) ==> new[i] == old[i],
        none_covering(old, key) ==> new.to_multiset() == old.to_multiset().insert(new_entry(key, reason)),
        forall|x: EntryView| !covers_key(x, key) ==> #[trigger] new.to_multiset().count(x) == old.to_multiset().count(x),
{
    broadcast use vstd::multiset::group_multiset_axioms;

    if none_covering(old, key) {
        let e = new_entry(key, reason);
        let s = choose|s: Seq<EntryView>|
            #[trigger] sorted_entries(s) && s.to_multiset() == old.push(e).to_multiset() && new == dedup_same(s);
        lemma_covering_is_new(old, key, e, s);
        lemma_added_keeps_all(old, key, e, s);
        vstd::seq_lib::to_multiset_build(old, e);
    } else {
        let i0 = choose|i: int| 0 <= i < old.len() && !!covers_key(#[trigger] old[i], key);
        let f = first_covering_index(old, key, i0);
        assert(first_covering(old, key, f));
        if old[f].3 != reason {
            vstd::seq_lib::to_multiset_update(old, f, with_reason(old[f], reason));
        }
    }
}

/// After suppressing a finding in a baseline that names no findings
/// twice, exactly one entry covers the finding, and it carries the reason
/// just given.
pub proof fn suppression_leaves_one_entry(
    old: Seq<EntryView>,
    key: (Seq<char>, Option<Seq<char>>, Seq<char>),
    reason: Seq<char>,
    new: Seq<EntryView>,
    changed: bool,
)
    requires
        suppress_result(old, key, reason, new, changed),
        one_per_key(old),
    ensures
        one_covering(new, key, reason),
{
    if none_covering(old, key) {
        let e = new_entry(key, reason);
        let s = choose|s: Seq<EntryView>|
            #[trigger] sorted_entries(s) && s.to_multiset() == old.push(e).to_multiset() && new == dedup_same(s);
        suppression_reads_back(old, key, reason, new, changed);
        let i = choose|i: int| first_covering(new, key, i) && new[i].3 == reason;
        lemma_covering_is_new(old, key, e, s);
        lemma_one_entry_added(key, e, s, new, i);
    } else {
        lemma_one_entry_kept(old, key, reason, new, changed);
    }
}

/// Suppressing a finding a second time with the same reason changes
/// nothing and says so.
pub proof fn suppress_is_idempotent(
    a: Seq<EntryView>,
    key: (Seq<char>, Option<Seq<char>>, Seq<char>),
    reason: Seq<char>,
    b: Seq<EntryView>,
    first_changed: bool,
    c: Seq<EntryView>,
    second_changed: bool,
)
    requires
        suppress_result(a, key, reason, b, first_changed),
        suppress_result(b, key, reason, c, second_changed),
    ensures
        !second_changed,
        c == b,
{
    suppression_reads_back(a, key, reason, b, first_changed);
    let i = choose|i: int| first_covering(b, key, i) && b[i].3 == reason;
}

/// Two sorted sequences with the same elements are the same sequence: the
/// entry order leaves no ties between distinct entries.
proof fn lemma_sorted_unique(s1: Seq<EntryView>, s2: Seq<EntryView>)
    requires
        sorted_entries(s1),
        sorted_entries(s2),
        s1.to_multiset() == s2.to_multiset(),
    ensures
        s1 == s2,
    decreases s1.len(),
{
    broadcast use vstd::multiset::group_multiset_axioms;

    vstd::seq_lib::to_multiset_len(s1);
    vstd::seq_lib::to_multiset_len(s2);
    if s1.len() == 0 {
        assert(s1 =~= s2);
    } else {
        let n = s1.len() - 1;
        let l1 = s1[n];
        let l2 = s2[n];
        assert(s1.contains(l1));
        assert(s2.contains(l2));
        vstd::seq_lib::to_multiset_contains(s1, l1);
        vstd::seq_lib::to_multiset_contains(s2, l1);
        vstd::seq_lib::to_multiset_contains(s1, l2);
        vstd::seq_lib::to_multiset_contains(s2, l2);
        let k2 = choose|k: int| 0 <= k < s2.len() && s2[k] == l1;
        let k1 = choose|k: int| 0 <= k < s1.len() && s1[k] == l2;
        if k2 < n {
            assert(!entry_lt(s2[n], s2[k2]));
        }
        if k1 < n {
            assert(!entry_lt(s1[n], s1[k1]));
        }
        lemma_entry_order(l1, l2, l2);
        assert(l1 == l2);
        let p1 = s1.drop_last();
        let p2 = s2.drop_last();
        assert(s1 =~= p1.push(l1));
        assert(s2 =~= p2.push(l1));
        vstd::seq_lib::to_multiset_build(p1, l1);
        vstd::seq_lib::to_multiset_build(p2, l1);
        assert(p1.to_multiset() =~= p2.to_multiset()) by {
            assert forall|x: EntryView| p1.to_multiset().count(x) == p2.to_multiset().count(x) by {
                assert(p1.to_multiset().insert(l1).count(x) == p2.to_multiset().insert(l1).count(x));
            }
        }
        assert(sorted_entries(p1)) by {
            assert forall|i: int, j: int| 0 <= i < j < p1.len() implies !entry_lt(#[trigger] p1[j], #[trigger] p1[i]) by {
                assert(p1[i] == s1[i] && p1[j] == s1[j]);
            }
        }
        assert(sorted_entries(p2)) by {
            assert forall|i: int, j: int| 0 <= i < j < p2.len() implies !entry_lt(#[trigger] p2[j], #[trigger] p2[i]) by {
                assert(p2[i] == s2[i] && p2[j] == s2[j]);
            }
        }
        lemma_sorted_unique(p1, p2);
    }
}

/// Normalizing depends on the entries alone, not on the order they came
/// in: the same decisions always give the same document.
pub proof fn normalized_depends_on_entries_alone(
    a: Seq<EntryView>,
    b: Seq<EntryView>,
    out_a: Seq<EntryView>,
    out_b: Seq<EntryView>,
)
    requires
        a.to_multiset() == b.to_multiset(),
        normalized_from(a, out_a),
        normalized_from(b, out_b),
    ensures
        out_a == out_b,
{
    let sa = choose|s: Seq<EntryView>|
        #[trigger] sorted_entries(s) && s.to_multiset() == a.to_multiset() && out_a == dedup_same(s);
    let sb = choose|s: Seq<EntryView>|
        #[trigger] sorted_entries(s) && s.to_multiset() == b.to_multiset() && out_b == dedup_same(s);
    lemma_sorted_unique(sa, sb);
}

/// No entry names the same findings as the one before it.
pub open spec fn no_adjacent_same(s: Seq<EntryView>) -> bool {
    forall|i: int| 0 < i < s.len() ==> !same_findings(s[i - 1], #[trigger] s[i])
}

proof fn lemma_dedup_shape(s: Seq<EntryView>)
    ensures
        no_adjacent_same(dedup_same(s)),
        s.len() > 0 ==> dedup_same(s).len() > 0 && same_findings(dedup_same(s).last(), s.last()),
    decreases s.len(),
{
    if s.len() > 1 {
        let p = s.drop_last();
        lemma_dedup_shape(p);
        let d = dedup_same(p);
        let l = s.last();
        assert(p.last() == s[s.len() - 2]);
        if !same_findings(s[s.len() - 2], l) {
            let r = d.push(l);
            assert(dedup_same(s) == r);
            assert forall|i: int| 0 < i < r.len() implies !same_findings(r[i - 1], #[trigger] r[i]) by {
                if i < d.len() {
                    assert(r[i - 1] == d[i - 1] && r[i] == d[i]);
                } else {
                    assert(r[i - 1] == d.last());
                }
            }
        }
    }
}

proof fn lemma_push_sorted(d: Seq<EntryView>, l: EntryView)
    requires
        sorted_entries(d),
        forall|i: int| 0 <= i < d.len() ==> !entry_lt(l, #[trigger] d[i]),
    ensures
        sorted_entries(d.push(l)),
{
    let r = d.push(l);
    assert forall|i: int, j: int| 0 <= i < j < r.len() implies !entry_lt(#[trigger] r[j], #[trigger] r[i]) by {
        assert(r[i] == d[i]);
        if j < d.len() {
            assert(r[j] == d[j]);
        }
    }
}

proof fn lemma_sorted_prefix(s: Seq<EntryView>)
    requires
        sorted_entries(s),
        s.len() > 0,
    ensures
        sorted_entries(s.drop_last()),
        forall|k: int| 0 <= k < s.len() - 1 ==> !entry_lt(s.last(), #[trigger] s[k]),
{
    let p = s.drop_last();
    assert forall|i: int, j: int| 0 <= i < j < p.len() implies !entry_lt(#[trigger] p[j], #[trigger] p[i]) by {
        assert(p[i] == s[i] && p[j] == s[j]);
    }
}

proof fn lemma_dedup_below(p: Seq<EntryView>, l: EntryView)
    requires
        forall|k: int| 0 <= k < p.len() ==> !entry_lt(l, #[trigger] p[k]),
    ensures
        forall|i: int| 0 <= i < dedup_same(p).len() ==> !entry_lt(l, #[trigger] dedup_same(p)[i]),
{
    let d = dedup_same(p);
    lemma_dedup_elements(p);
    assert forall|i: int| 0 <= i < d.len() implies !entry_lt(l, #[trigger] d[i]) by {
        assert(d.contains(d[i]));
        assert(p.contains(d[i]));
        let k = choose|k: int| 0 <= k < p.len() && p[k] == d[i];
        assert(!entry_lt(l, p[k]));
    }
}

proof fn lemma_dedup_sorted(s: Seq<EntryView>)
    requires
        sorted_entries(s),
    ensures
        sorted_entries(dedup_same(s)),
    decreases s.len(),
{
    if s.len() > 1 {
        let p = s.drop_last();
        lemma_sorted_prefix(s);
        lemma_dedup_sorted(p);
        let d = dedup_same(p);
        let l = s.last();
        if !same_findings(s[s.len() - 2], l) {
            assert forall|k: int| 0 <= k < p.len() implies !entry_lt(l, #[trigger] p[k]) by {
                assert(p[k] == s[k]);
            }
            lemma_dedup_below(p, l);
            lemma_push_sorted(d, l);
        }
    }
}

proof fn lemma_dedup_fixed(t: Seq<EntryView>)
    requires
        no_adjacent_same(t),
    ensures
        dedup_same(t) == t,
    decreases t.len(),
{
    if t.len() > 1 {
        let p = t.drop_last();
        assert(no_adjacent_same(p)) by {
            assert forall|i: int| 0 < i < p.len() implies !same_findings(p[i - 1], #[trigger] p[i]) by {
                assert(p[i - 1] == t[i - 1] && p[i] == t[i]);
            }
        }
        lemma_dedup_fixed(p);
        assert(!same_findings(t[t.len() - 2], t[t.len() - 1]));
        assert(p.push(t.last()) =~= t);
    }
}

/// Normalizing an already normalized list changes nothing.
pub proof fn normalize_is_idempotent(input: Seq<EntryView>, once: Seq<EntryView>, twice: Seq<EntryView>)
    requires
        normalized_from(input, once),
        normalized_from(once, twice),
    ensures
        twice == once,
{
    let sa = choose|s: Seq<EntryView>|
        #[trigger] sorted_entries(s) && s.to_multiset() == input.to_multiset() && once == dedup_same(s);
    let sb = choose|s: Seq<EntryView>|
        #[trigger] sorted_entries(s) && s.to_multiset() == once.to_multiset() && twice == dedup_same(s);
    lemma_dedup_shape(sa);
    lemma_dedup_sorted(sa);
    lemma_sorted_unique(sb, once);
    lemma_dedup_fixed(once);
}

proof fn lemma_without_key_covers_nothing(v: Seq<EntryView>, key: (Seq<char>, Option<Seq<char>>, Seq<char>))
    ensures
        none_covering(without_key(v, key), key),
    decreases v.len(),
{
    if v.len() > 0 {
        lemma_without_key_covers_nothing(v.drop_last(), key);
    }
}

/// After an unsuppression nothing in the baseline covers the finding: a
/// lookup finds no suppression.
pub proof fn unsuppress_clears(v: Seq<EntryView>, key: (Seq<char>, Option<Seq<char>>, Seq<char>))
    ensures
        none_covering(without_key(v, key), key),
{
    lemma_without_key_covers_nothing(v, key);
}

/// `e` with its reason replaced.
pub open spec fn with_reason(e: EntryView, reason: Seq<char>) -> EntryView {
    (e.0, e.1, e.2, reason)
}

/// The entry a suppression of `key` for `reason` adds.
pub open spec fn new_entry(key: (Seq<char>, Option<Seq<char>>, Seq<char>), reason: Seq<char>) -> EntryView {
    (key.0, key.1, key.2, reason)
}

/// The entries that do not cover `key`, in order.
pub open spec fn without_key(v: Seq<EntryView>, key: (Seq<char>, Option<Seq<char>>, Seq<char>)) -> Seq<EntryView>
    decreases v.len(),
{
    if v.len() == 0 {
        v
    } else if covers_key(v.last(), key) {
        without_key(v.drop_last(), key)
    } else {
        without_key(v.drop_last(), key).push(v.last())
    }
}

impl Artifact for BaselineArtifact {
    open spec fn schema_tag() -> Seq<char> {
        schema::BASELINE@
    }

    open spec fn declared_tag(&self) -> Seq<char> {
        self.schema@
    }

    fn expected_schema() -> (r: &'static str)
        ensures
            r@ == schema::BASELINE@,
    {
        schema::BASELINE
    }

    fn declared_schema(&self) -> (r: &str)
        ensures
            r@ == self.schema@,
    {
        self.schema.as_str()
    }
}

} // verus!
