//! Laying out a mutation corpus: what the mutants are called, what their
//! manifests and label rows say, what the site accounting reports, and
//! where the lines of a source file start.
//! Finding the mutation sites needs a Rust parser and stays with the
//! toolkit's binary; so does writing the files.
use vstd::prelude::*;
use vstd::string::StringSliceAdditionalSpecFns;

use super::{class_at, class_code, class_index, class_slug, workspace_manifest, workspace_manifest_text, Class};
use crate::text::{
    decimal, lines_of, owned, push_decimal, push_str, replace_all, replace_str, strip_prefix, strip_suffix,
    str_views, text_lines, trim_str, trimmed,
};

verus! {

/// One generated mutant: a full mutated copy of the source file, and what
/// its label row says about it.
#[derive(Debug, Clone, PartialEq, Eq)]
pub struct Mutant {
    pub class: Class,
    pub kernel: String,
    pub line: usize,
    pub detail: String,
    pub source: String,
}

/// Sites seen and not mutated, by reason: no silent caps.
#[derive(Debug, Clone, Copy, PartialEq, Eq, Structural)]
pub struct SkipCounts {
    pub sites_outside_kernels: usize,
    pub unclassified_collectives: usize,
    pub tail_expression_collectives: usize,
    pub extra_disjoint_params: usize,
}

impl Default for SkipCounts {
    fn default() -> (r: SkipCounts)
        ensures
            r == (SkipCounts {
                sites_outside_kernels: 0,
                unclassified_collectives: 0,
                tail_expression_collectives: 0,
                extra_disjoint_params: 0,
            }),
    {
        SkipCounts {
            sites_outside_kernels: 0,
            unclassified_collectives: 0,
            tail_expression_collectives: 0,
            extra_disjoint_params: 0,
        }
    }
}

impl SkipCounts {
    /// Add another file's skipped sites to these.
    pub fn absorb(&mut self, other: &SkipCounts)
        requires
            old(self).sites_outside_kernels + other.sites_outside_kernels <= usize::MAX,
            old(self).unclassified_collectives + other.unclassified_collectives <= usize::MAX,
            old(self).tail_expression_collectives + other.tail_expression_collectives <= usize::MAX,
            old(self).extra_disjoint_params + other.extra_disjoint_params <= usize::MAX,
        ensures
            final(self).sites_outside_kernels == old(self).sites_outside_kernels + other.sites_outside_kernels,
            final(self).unclassified_collectives == old(self).unclassified_collectives + other.unclassified_collectives,
            final(self).tail_expression_collectives == old(self).tail_expression_collectives
                + other.tail_expression_collectives,
            final(self).extra_disjoint_params == old(self).extra_disjoint_params + other.extra_disjoint_params,
    {
        self.sites_outside_kernels = self.sites_outside_kernels + other.sites_outside_kernels;
        self.unclassified_collectives = self.unclassified_collectives + other.unclassified_collectives;
        self.tail_expression_collectives = self.tail_expression_collectives + other.tail_expression_collectives;
        self.extra_disjoint_params = self.extra_disjoint_params + other.extra_disjoint_params;
    }
}

/// Every mutant of one source file, and the sites skipped in it.
#[derive(Debug, Clone, PartialEq, Eq)]
pub struct FileMutants {
    pub mutants: Vec<Mutant>,
    pub skips: SkipCounts,
}

/// The member named by a line of the corpus workspace manifest, if the
/// line (trimmed) reads `"crates/<member>",`.
pub open spec fn member_of_line(line: Seq<char>) -> Option<Seq<char>> {
    let t = trimmed(line);
    if "\"crates/"@.is_prefix_of(t) && "\","@.is_suffix_of(t.skip(8)) {
        Some(t.skip(8).take(t.skip(8).len() - 2))
    } else {
        None
    }
}

/// The members named by `lines`, in order.
pub open spec fn members_of_lines(lines: Seq<Seq<char>>) -> Seq<Seq<char>>
    decreases lines.len(),
{
    if lines.len() == 0 {
        Seq::empty()
    } else {
        members_of_lines(lines.drop_last()) + match member_of_line(lines.last()) {
            Some(m) => seq![m],
            None => Seq::empty(),
        }
    }
}

fn line_member(line: &str) -> (r: Option<String>)
    ensures
        match r {
            Some(m) => member_of_line(line@) == Some(m@),
            None => member_of_line(line@) is None,
        },
{
    let t = trim_str(line);
    proof {
        reveal_strlit("\"crates/");
        reveal_strlit("\",");
    }
    match strip_prefix(t, "\"crates/") {
        Some(rest) => match strip_suffix(rest, "\",") {
            Some(m) => Some(owned(m)),
            None => None,
        },
        None => None,
    }
}

/// The members a corpus workspace manifest lists; a manifest listing none
/// is refused.
pub fn corpus_members(manifest: &str) -> (r: Result<Vec<String>, String>)
    ensures
        match r {
            Ok(v) => str_views(v@) == members_of_lines(text_lines(manifest@)) && v.len() > 0,
            Err(m) => members_of_lines(text_lines(manifest@)).len() == 0 && m@
                == "corpus manifest lists no members"@,
        },
{
    let lines = lines_of(manifest);
    let ghost all = str_views(lines@);
    let mut out: Vec<String> = Vec::new();
    let mut i: usize = 0;
    assert(all.take(0) =~= Seq::<Seq<char>>::empty());
    while i < lines.len()
        invariant
            all == str_views(lines@),
            all == text_lines(manifest@),
            i <= lines.len(),
            str_views(out@) == members_of_lines(all.take(i as int)),
        decreases lines.len() - i,
    {
        proof {
            assert(all.take(i + 1).drop_last() =~= all.take(i as int));
            assert(all.take(i + 1).last() == lines@[i as int]@);
        }
        let ghost before = out@;
        match line_member(lines[i].as_str()) {
            Some(m) => {
                out.push(m);
                assert(str_views(out@) =~= str_views(before) + seq![out@.last()@]);
            },
            None => {
                assert(members_of_lines(all.take(i + 1)) =~= members_of_lines(all.take(i as int)));
            },
        }
        i = i + 1;
    }
    assert(all.take(i as int) =~= all);
    if out.len() == 0 {
        return Err(owned("corpus manifest lists no members"));
    }
    Ok(out)
}

/// `n` with at least two digits, zero-padded: `{n:02}`.
pub open spec fn pad2(n: nat) -> Seq<char> {
    if n < 10 {
        "0"@ + decimal(n)
    } else {
        decimal(n)
    }
}

fn push_pad2(s: &mut String, n: usize)
    ensures
        final(s)@ == old(s)@ + pad2(n as nat),
{
    if n < 10 {
        push_str(s, "0");
    }
    push_decimal(s, n);
}

/// How many of `ms` are of class `c`.
pub open spec fn count_class(ms: Seq<Mutant>, c: Class) -> nat
    decreases ms.len(),
{
    if ms.len() == 0 {
        0
    } else {
        count_class(ms.drop_last(), c) + if ms.last().class == c {
            1nat
        } else {
            0nat
        }
    }
}

/// How many mutants of the same class come before mutant `j`.
pub open spec fn rank(ms: Seq<Mutant>, j: int) -> nat {
    count_class(ms.take(j), ms[j].class)
}

/// The name of mutant `j` of `member`: `m_<class>_<member>_<nn>`.
pub open spec fn mutant_name(ms: Seq<Mutant>, member: Seq<char>, j: int) -> Seq<char> {
    "m_"@ + class_slug(ms[j].class) + "_"@ + member + "_"@ + pad2(rank(ms, j))
}

/// The label row of a mutant called `name`, made from `member`.
pub open spec fn label_row(name: Seq<char>, m: Mutant, member: Seq<char>) -> Seq<char> {
    name + "\t"@ + class_slug(m.class) + "\t"@ + class_code(m.class) + "\tconformance_"@ + member + "\t"@ + m.kernel@
        + "\t"@ + decimal(m.line as nat) + "\t"@ + m.detail@ + "\n"@
}

/// The label row of mutant `j` of `member`.
pub open spec fn label_line(ms: Seq<Mutant>, member: Seq<char>, j: int) -> Seq<char> {
    label_row(mutant_name(ms, member, j), ms[j], member)
}

/// The label rows of a member's first `n` mutants.
pub open spec fn label_lines(ms: Seq<Mutant>, member: Seq<char>, n: int) -> Seq<char>
    decreases n,
{
    if n <= 0 {
        Seq::empty()
    } else {
        label_lines(ms, member, n - 1) + label_line(ms, member, n - 1)
    }
}

/// A member's manifest with its package renamed to `name`.
pub open spec fn renamed(manifest: Seq<char>, member: Seq<char>, name: Seq<char>) -> Seq<char> {
    replace_all(manifest, "name = \"conformance_"@ + member + "\""@, "name = \""@ + name + "\""@)
}

/// A member's manifest, renamed for mutant `j`.
pub open spec fn renamed_manifest(manifest: Seq<char>, ms: Seq<Mutant>, member: Seq<char>, j: int) -> Seq<char> {
    renamed(manifest, member, mutant_name(ms, member, j))
}

fn rename(manifest: &str, member: &str, name: &str) -> (r: String)
    ensures
        r@ == renamed(manifest@, member@, name@),
{
    proof {
        reveal_strlit("\"");
    }
    let mut from = owned("name = \"conformance_");
    push_str(&mut from, member);
    push_str(&mut from, "\"");
    let mut to = owned("name = \"");
    push_str(&mut to, name);
    push_str(&mut to, "\"");
    replace_str(manifest, from.as_str(), to.as_str())
}

fn name_for(class: Class, member: &str, n: usize) -> (r: String)
    ensures
        r@ == "m_"@ + class_slug(class) + "_"@ + member@ + "_"@ + pad2(n as nat),
{
    let mut name = owned("m_");
    push_str(&mut name, class.slug());
    push_str(&mut name, "_");
    push_str(&mut name, member);
    push_str(&mut name, "_");
    push_pad2(&mut name, n);
    name
}

fn push_label_row(labels: &mut String, name: &str, mutant: &Mutant, member: &str)
    ensures
        final(labels)@ == old(labels)@ + label_row(name@, *mutant, member@),
{
    let ghost start = labels@;
    push_str(labels, name);
    push_str(labels, "\t");
    push_str(labels, mutant.class.slug());
    push_str(labels, "\t");
    push_str(labels, mutant.class.expected_code());
    push_str(labels, "\tconformance_");
    push_str(labels, member);
    push_str(labels, "\t");
    push_str(labels, mutant.kernel.as_str());
    push_str(labels, "\t");
    push_decimal(labels, mutant.line);
    push_str(labels, "\t");
    push_str(labels, mutant.detail.as_str());
    push_str(labels, "\n");
    assert(labels@ =~= start + label_row(name@, *mutant, member@));
}

/// The header row of `labels.tsv`.
pub const LABELS_HEAD: &'static str = "# mutant\tclass\texpected\tsource_crate\tkernel\tline\tdetail\n";

/// A member of the corpus: its name, its manifest, and its mutants.
#[derive(Debug, Clone, PartialEq, Eq)]
pub struct CorpusMember {
    pub name: String,
    pub manifest: String,
    pub generated: FileMutants,
}

/// One mutant crate to write: its name, its `lib.rs`, its manifest.
#[derive(Debug, Clone, PartialEq, Eq)]
pub struct MutantCrate {
    pub name: String,
    pub lib_rs: String,
    pub manifest: String,
}

/// Everything a corpus run writes: the mutant crates, the workspace
/// manifest listing them, `labels.tsv` and `mutation-report.tsv`.
#[derive(Debug, Clone, PartialEq, Eq)]
pub struct CorpusPlan {
    pub crates: Vec<MutantCrate>,
    pub workspace: String,
    pub labels: String,
    pub report: String,
}

/// A mutant crate as plain values.
pub open spec fn crate_view(c: MutantCrate) -> (Seq<char>, Seq<char>, Seq<char>) {
    (c.name@, c.lib_rs@, c.manifest@)
}

/// The crates of one member's mutants, in order.
pub open spec fn member_crates(m: CorpusMember) -> Seq<(Seq<char>, Seq<char>, Seq<char>)> {
    let ms = m.generated.mutants@;
    Seq::new(
        ms.len(),
        |j: int| (mutant_name(ms, m.name@, j), ms[j].source@, renamed_manifest(m.manifest@, ms, m.name@, j)),
    )
}

/// The crates of every member's mutants, member by member.
pub open spec fn corpus_crates(members: Seq<CorpusMember>) -> Seq<(Seq<char>, Seq<char>, Seq<char>)>
    decreases members.len(),
{
    if members.len() == 0 {
        Seq::empty()
    } else {
        corpus_crates(members.drop_last()) + member_crates(members.last())
    }
}

/// `labels.tsv`: the header, then every mutant's row.
pub open spec fn corpus_labels(members: Seq<CorpusMember>) -> Seq<char>
    decreases members.len(),
{
    if members.len() == 0 {
        LABELS_HEAD@
    } else {
        let m = members.last();
        corpus_labels(members.drop_last()) + label_lines(m.generated.mutants@, m.name@, m.generated.mutants@.len() as int)
    }
}

/// How many mutants of class `c` the members have.
pub open spec fn class_total(members: Seq<CorpusMember>, c: Class) -> nat
    decreases members.len(),
{
    if members.len() == 0 {
        0
    } else {
        class_total(members.drop_last(), c) + count_class(members.last().generated.mutants@, c)
    }
}

/// How many mutants the members have.
pub open spec fn mutants_total(members: Seq<CorpusMember>) -> nat
    decreases members.len(),
{
    if members.len() == 0 {
        0
    } else {
        mutants_total(members.drop_last()) + members.last().generated.mutants@.len()
    }
}

/// The skipped sites of every member, by reason.
pub open spec fn skips_total(members: Seq<CorpusMember>) -> (nat, nat, nat, nat)
    decreases members.len(),
{
    if members.len() == 0 {
        (0, 0, 0, 0)
    } else {
        let t = skips_total(members.drop_last());
        let s = members.last().generated.skips;
        (
            t.0 + s.sites_outside_kernels as nat,
            t.1 + s.unclassified_collectives as nat,
            t.2 + s.tail_expression_collectives as nat,
            t.3 + s.extra_disjoint_params as nat,
        )
    }
}

/// A report line.
pub open spec fn count_line(what: Seq<char>, n: nat) -> Seq<char> {
    what + "\t"@ + decimal(n) + "\n"@
}

/// `mutation-report.tsv`: mutants emitted per class, sites skipped per
/// reason.
pub open spec fn corpus_report(members: Seq<CorpusMember>) -> Seq<char> {
    let s = skips_total(members);
    "# what\tcount\n"@ + count_line("emitted_"@ + class_slug(class_at(0)), class_total(members, class_at(0)))
        + count_line("emitted_"@ + class_slug(class_at(1)), class_total(members, class_at(1))) + count_line(
        "emitted_"@ + class_slug(class_at(2)),
        class_total(members, class_at(2)),
    ) + count_line("emitted_"@ + class_slug(class_at(3)), class_total(members, class_at(3))) + count_line(
        "emitted_"@ + class_slug(class_at(4)),
        class_total(members, class_at(4)),
    ) + count_line("skipped_sites_outside_kernels"@, s.0) + count_line("skipped_unclassified_collectives"@, s.1)
        + count_line("skipped_tail_expression_collectives"@, s.2) + count_line("skipped_extra_disjoint_params"@, s.3)
}

proof fn lemma_count_class_step(ms: Seq<Mutant>, j: int, c: Class)
    requires
        0 <= j < ms.len(),
    ensures
        count_class(ms.take(j + 1), c) == count_class(ms.take(j), c) + if ms[j].class == c {
            1nat
        } else {
            0nat
        },
        count_class(ms.take(j), c) <= j,
    decreases j,
{
    assert(ms.take(j + 1).drop_last() =~= ms.take(j));
    if j > 0 {
        lemma_count_class_step(ms, j - 1, c);
    }
}

/// Append one member's mutant crates, names and label rows, and count its
/// mutants by class.
fn plan_member(
    m: &CorpusMember,
    crates: &mut Vec<MutantCrate>,
    names: &mut Vec<String>,
    labels: &mut String,
    per_class: &mut Vec<usize>,
)
    requires
        old(per_class).len() == 5,
        forall|c: int| 0 <= c < 5 ==> old(per_class)@[c] + m.generated.mutants@.len() <= usize::MAX,
    ensures
        final(crates)@.map_values(|x: MutantCrate| crate_view(x)) == old(crates)@.map_values(|x: MutantCrate| crate_view(x))
            + member_crates(*m),
        str_views(final(names)@) == str_views(old(names)@) + member_crates(*m).map_values(
            |x: (Seq<char>, Seq<char>, Seq<char>)| x.0,
        ),
        final(labels)@ == old(labels)@ + label_lines(m.generated.mutants@, m.name@, m.generated.mutants@.len() as int),
        final(per_class).len() == 5,
        forall|c: int|
            0 <= c < 5 ==> #[trigger] final(per_class)@[c] == old(per_class)@[c] + count_class(
                m.generated.mutants@,
                class_at(c),
            ),
{
    let ms = &m.generated.mutants;
    let ghost mv = ms@;
    let ghost member = m.name@;
    let ghost crates0 = crates@.map_values(|x: MutantCrate| crate_view(x));
    let ghost names0 = str_views(names@);
    let ghost labels0 = labels@;
    let ghost per0 = per_class@;
    let mut counters: Vec<usize> = vec![0, 0, 0, 0, 0];
    let mut j: usize = 0;
    assert(mv.take(0) =~= Seq::<Mutant>::empty());
    while j < ms.len()
        invariant
            mv == ms@,
            mv == m.generated.mutants@,
            member == m.name@,
            j <= ms.len(),
            counters.len() == 5,
            per_class.len() == 5,
            forall|c: int| 0 <= c < 5 ==> per0[c] + mv.len() <= usize::MAX,
            forall|c: int| 0 <= c < 5 ==> #[trigger] counters@[c] == count_class(mv.take(j as int), class_at(c)),
            forall|c: int| 0 <= c < 5 ==> #[trigger] per_class@[c] == per0[c] + count_class(mv.take(j as int), class_at(c)),
            crates@.map_values(|x: MutantCrate| crate_view(x)) == crates0 + member_crates(*m).take(j as int),
            str_views(names@) == names0 + member_crates(*m).take(j as int).map_values(
                |x: (Seq<char>, Seq<char>, Seq<char>)| x.0,
            ),
            labels@ == labels0 + label_lines(mv, member, j as int),
        decreases ms.len() - j,
    {
        let mutant = &ms[j];
        let k = class_index(mutant.class);
        let n = counters[k];
        proof {
            lemma_count_class_step(mv, j as int, class_at(0));
            lemma_count_class_step(mv, j as int, class_at(1));
            lemma_count_class_step(mv, j as int, class_at(2));
            lemma_count_class_step(mv, j as int, class_at(3));
            lemma_count_class_step(mv, j as int, class_at(4));
            assert(n as nat == rank(mv, j as int));
        }
        let name = name_for(mutant.class, m.name.as_str(), n);
        assert(name@ == mutant_name(mv, member, j as int));
        counters.set(k, n + 1);
        let pc = per_class[k];
        per_class.set(k, pc + 1);
        let manifest = rename(m.manifest.as_str(), m.name.as_str(), name.as_str());
        push_label_row(labels, name.as_str(), mutant, m.name.as_str());
        let ghost cview = (name@, mutant.source@, manifest@);
        assert(cview == member_crates(*m)[j as int]);
        let ghost cb = crates@;
        let ghost nb = names@;
        names.push(name.clone());
        crates.push(MutantCrate { name, lib_rs: mutant.source.clone(), manifest });
        proof {
            assert(member_crates(*m).take(j + 1) =~= member_crates(*m).take(j as int).push(cview));
            assert(crates@.map_values(|x: MutantCrate| crate_view(x)) =~= cb.map_values(|x: MutantCrate| crate_view(x)).push(
                cview,
            ));
            assert(str_views(names@) =~= str_views(nb).push(cview.0));
            assert(member_crates(*m).take(j + 1).map_values(|x: (Seq<char>, Seq<char>, Seq<char>)| x.0) =~= member_crates(
                *m,
            ).take(j as int).map_values(|x: (Seq<char>, Seq<char>, Seq<char>)| x.0).push(cview.0));
            assert forall|c: int| 0 <= c < 5 implies #[trigger] counters@[c] == count_class(mv.take(j + 1), class_at(c))
                && per_class@[c] == per0[c] + count_class(mv.take(j + 1), class_at(c)) by {
                if c != k {
                    assert(class_at(c) != mutant.class);
                }
            }
        }
        j = j + 1;
    }
    proof {
        assert(mv.take(j as int) =~= mv);
        assert(member_crates(*m).take(j as int) =~= member_crates(*m));
    }
}

proof fn lemma_count_class_le(ms: Seq<Mutant>, c: Class)
    ensures
        count_class(ms, c) <= ms.len(),
    decreases ms.len(),
{
    if ms.len() > 0 {
        lemma_count_class_le(ms.drop_last(), c);
    }
}

proof fn lemma_members_prefix(members: Seq<CorpusMember>, k: int)
    requires
        0 <= k < members.len(),
    ensures
        ({
            let pre = members.take(k);
            let now = members.take(k + 1);
            let m = members[k];
            &&& now.drop_last() == pre
            &&& now.last() == m
            &&& mutants_total(now) == mutants_total(pre) + m.generated.mutants@.len()
            &&& skips_total(now) == (
                skips_total(pre).0 + m.generated.skips.sites_outside_kernels as nat,
                skips_total(pre).1 + m.generated.skips.unclassified_collectives as nat,
                skips_total(pre).2 + m.generated.skips.tail_expression_collectives as nat,
                skips_total(pre).3 + m.generated.skips.extra_disjoint_params as nat,
            )
        }),
{
    assert(members.take(k + 1).drop_last() =~= members.take(k));
}

proof fn lemma_totals_prefix(members: Seq<CorpusMember>, k: int)
    requires
        0 <= k <= members.len(),
    ensures
        mutants_total(members.take(k)) <= mutants_total(members),
        skips_total(members.take(k)).0 <= skips_total(members).0,
        skips_total(members.take(k)).1 <= skips_total(members).1,
        skips_total(members.take(k)).2 <= skips_total(members).2,
        skips_total(members.take(k)).3 <= skips_total(members).3,
    decreases members.len() - k,
{
    if k < members.len() {
        lemma_members_prefix(members, k);
        lemma_totals_prefix(members, k + 1);
    } else {
        assert(members.take(k) =~= members);
    }
}

proof fn lemma_class_total_le(members: Seq<CorpusMember>, c: Class)
    ensures
        class_total(members, c) <= mutants_total(members),
    decreases members.len(),
{
    if members.len() > 0 {
        lemma_class_total_le(members.drop_last(), c);
        lemma_count_class_le(members.last().generated.mutants@, c);
    }
}

fn push_count(s: &mut String, what: &str, n: usize)
    ensures
        final(s)@ == old(s)@ + count_line(what@, n as nat),
{
    let ghost start = s@;
    push_str(s, what);
    push_str(s, "\t");
    push_decimal(s, n);
    push_str(s, "\n");
    assert(s@ =~= start + count_line(what@, n as nat));
}

fn push_emitted(s: &mut String, c: Class, n: usize)
    ensures
        final(s)@ == old(s)@ + count_line("emitted_"@ + class_slug(c), n as nat),
{
    let mut what = owned("emitted_");
    push_str(&mut what, c.slug());
    push_count(s, what.as_str(), n);
}

proof fn lemma_totals_mono(ms: Seq<CorpusMember>, i: int)
    requires
        0 <= i <= ms.len(),
    ensures
        mutants_total(ms.take(i)) <= mutants_total(ms),
        skips_total(ms.take(i)).0 <= skips_total(ms).0,
        skips_total(ms.take(i)).1 <= skips_total(ms).1,
        skips_total(ms.take(i)).2 <= skips_total(ms).2,
        skips_total(ms.take(i)).3 <= skips_total(ms).3,
    decreases ms.len() - i,
{
    if i < ms.len() {
        lemma_totals_mono(ms, i + 1);
        assert(ms.take(i + 1).drop_last() =~= ms.take(i));
    } else {
        assert(ms.take(i) =~= ms);
    }
}

/// Whether a corpus's mutants and skipped sites can be counted in
/// `usize`, as [`plan_corpus`] needs.
pub fn corpus_fits(members: &Vec<CorpusMember>) -> (r: bool)
    ensures
        r == (mutants_total(members@) <= usize::MAX && skips_total(members@).0 <= usize::MAX
            && skips_total(members@).1 <= usize::MAX && skips_total(members@).2 <= usize::MAX
            && skips_total(members@).3 <= usize::MAX),
{
    let mut m: usize = 0;
    let mut a: usize = 0;
    let mut b: usize = 0;
    let mut c: usize = 0;
    let mut d: usize = 0;
    let mut i: usize = 0;
    assert(members@.take(0) =~= Seq::<CorpusMember>::empty());
    while i < members.len()
        invariant
            i <= members.len(),
            m == mutants_total(members@.take(i as int)),
            a == skips_total(members@.take(i as int)).0,
            b == skips_total(members@.take(i as int)).1,
            c == skips_total(members@.take(i as int)).2,
            d == skips_total(members@.take(i as int)).3,
        decreases members.len() - i,
    {
        proof {
            assert(members@.take(i + 1).drop_last() =~= members@.take(i as int));
            lemma_totals_mono(members@, i + 1);
        }
        let g = &members[i].generated;
        m = match m.checked_add(g.mutants.len()) {
            Some(x) => x,
            None => return false,
        };
        a = match a.checked_add(g.skips.sites_outside_kernels) {
            Some(x) => x,
            None => return false,
        };
        b = match b.checked_add(g.skips.unclassified_collectives) {
            Some(x) => x,
            None => return false,
        };
        c = match c.checked_add(g.skips.tail_expression_collectives) {
            Some(x) => x,
            None => return false,
        };
        d = match d.checked_add(g.skips.extra_disjoint_params) {
            Some(x) => x,
            None => return false,
        };
        i = i + 1;
    }
    assert(members@.take(i as int) =~= members@);
    true
}

/// Lay out a mutation corpus: name every member's mutants, rename their
/// manifests, and write the workspace manifest, `labels.tsv` and
/// `mutation-report.tsv`.
pub fn plan_corpus(members: &Vec<CorpusMember>) -> (r: CorpusPlan)
    requires
        mutants_total(members@) <= usize::MAX,
        skips_total(members@).0 <= usize::MAX,
        skips_total(members@).1 <= usize::MAX,
        skips_total(members@).2 <= usize::MAX,
        skips_total(members@).3 <= usize::MAX,
    ensures
        r.crates@.map_values(|x: MutantCrate| crate_view(x)) == corpus_crates(members@),
        r.workspace@ == workspace_manifest_text(
            corpus_crates(members@).map_values(|x: (Seq<char>, Seq<char>, Seq<char>)| x.0),
        ),
        r.labels@ == corpus_labels(members@),
        r.report@ == corpus_report(members@),
{
    let mut crates: Vec<MutantCrate> = Vec::new();
    let mut names: Vec<String> = Vec::new();
    let mut labels = owned(LABELS_HEAD);
    let mut per_class: Vec<usize> = vec![0, 0, 0, 0, 0];
    let mut skips = SkipCounts::default();
    let mut k: usize = 0;
    proof {
        assert(members@.take(0) =~= Seq::<CorpusMember>::empty());
        assert(crates@.map_values(|x: MutantCrate| crate_view(x)) =~= Seq::<(Seq<char>, Seq<char>, Seq<char>)>::empty());
        assert(str_views(names@) =~= Seq::<Seq<char>>::empty());
    }
    while k < members.len()
        invariant
            k <= members.len(),
            mutants_total(members@) <= usize::MAX,
            skips_total(members@).0 <= usize::MAX,
            skips_total(members@).1 <= usize::MAX,
            skips_total(members@).2 <= usize::MAX,
            skips_total(members@).3 <= usize::MAX,
            per_class.len() == 5,
            crates@.map_values(|x: MutantCrate| crate_view(x)) == corpus_crates(members@.take(k as int)),
            str_views(names@) == corpus_crates(members@.take(k as int)).map_values(
                |x: (Seq<char>, Seq<char>, Seq<char>)| x.0,
            ),
            labels@ == corpus_labels(members@.take(k as int)),
            forall|c: int| 0 <= c < 5 ==> #[trigger] per_class@[c] == class_total(members@.take(k as int), class_at(c)),
            (skips.sites_outside_kernels as nat, skips.unclassified_collectives as nat, skips.tail_expression_collectives
                as nat, skips.extra_disjoint_params as nat) == skips_total(members@.take(k as int)),
        decreases members.len() - k,
    {
        let m = &members[k];
        let ghost pre = members@.take(k as int);
        let ghost now = members@.take(k + 1);
        proof {
            lemma_members_prefix(members@, k as int);
            lemma_totals_prefix(members@, k + 1);
            assert forall|c: int| 0 <= c < 5 implies per_class@[c] + m.generated.mutants@.len() <= usize::MAX by {
                lemma_class_total_le(pre, class_at(c));
            }
        }
        skips.absorb(&m.generated.skips);
        let ghost c0 = crates@.map_values(|x: MutantCrate| crate_view(x));
        let ghost n0 = str_views(names@);
        plan_member(m, &mut crates, &mut names, &mut labels, &mut per_class);
        proof {
            assert(corpus_crates(now) == c0 + member_crates(*m));
            assert(corpus_crates(now).map_values(|x: (Seq<char>, Seq<char>, Seq<char>)| x.0) =~= n0 + member_crates(
                *m,
            ).map_values(|x: (Seq<char>, Seq<char>, Seq<char>)| x.0));
            assert forall|c: int| 0 <= c < 5 implies #[trigger] per_class@[c] == class_total(now, class_at(c)) by {
            }
        }
        k = k + 1;
    }
    proof {
        assert(members@.take(k as int) =~= members@);
    }
    let workspace = workspace_manifest(names.as_slice());
    let mut report = owned("# what\tcount\n");
    push_emitted(&mut report, Class::WrapBarrier, per_class[0]);
    push_emitted(&mut report, Class::DeleteBarrier, per_class[1]);
    push_emitted(&mut report, Class::WrapCollective, per_class[2]);
    push_emitted(&mut report, Class::ShrinkMask, per_class[3]);
    push_emitted(&mut report, Class::SwapMutSlice, per_class[4]);
    push_count(&mut report, "skipped_sites_outside_kernels", skips.sites_outside_kernels);
    push_count(&mut report, "skipped_unclassified_collectives", skips.unclassified_collectives);
    push_count(&mut report, "skipped_tail_expression_collectives", skips.tail_expression_collectives);
    push_count(&mut report, "skipped_extra_disjoint_params", skips.extra_disjoint_params);
    assert(report@ =~= corpus_report(members@));
    CorpusPlan { crates, workspace, labels, report }
}

/// The header row of a single file's `labels.tsv`.
pub const FILE_LABELS_HEAD: &'static str = "# file\tclass\texpected\tkernel\tline\tdetail\n";

/// One mutated copy of a single source file to write: its file name and
/// its text.
#[derive(Debug, Clone, PartialEq, Eq)]
pub struct MutantFile {
    pub name: String,
    pub source: String,
}

/// What single-file mode writes: the mutated copies and `labels.tsv`.
#[derive(Debug, Clone, PartialEq, Eq)]
pub struct FilePlan {
    pub files: Vec<MutantFile>,
    pub labels: String,
}

/// The file name of mutant `j`: `<class>_<nn>.rs`.
pub open spec fn file_name(ms: Seq<Mutant>, j: int) -> Seq<char> {
    class_slug(ms[j].class) + "_"@ + pad2(rank(ms, j)) + ".rs"@
}

/// The single-file label row of a mutant written to `name`.
pub open spec fn file_row_text(name: Seq<char>, m: Mutant) -> Seq<char> {
    name + "\t"@ + class_slug(m.class) + "\t"@ + class_code(m.class) + "\t"@ + m.kernel@ + "\t"@ + decimal(
        m.line as nat,
    ) + "\t"@ + m.detail@ + "\n"@
}

/// The label row of mutant `j` in single-file mode.
pub open spec fn file_row(ms: Seq<Mutant>, j: int) -> Seq<char> {
    file_row_text(file_name(ms, j), ms[j])
}

fn file_name_for(class: Class, n: usize) -> (r: String)
    ensures
        r@ == class_slug(class) + "_"@ + pad2(n as nat) + ".rs"@,
{
    let mut name = owned(class.slug());
    push_str(&mut name, "_");
    push_pad2(&mut name, n);
    push_str(&mut name, ".rs");
    name
}

fn push_file_row(labels: &mut String, name: &str, mutant: &Mutant)
    ensures
        final(labels)@ == old(labels)@ + file_row_text(name@, *mutant),
{
    let ghost start = labels@;
    push_str(labels, name);
    push_str(labels, "\t");
    push_str(labels, mutant.class.slug());
    push_str(labels, "\t");
    push_str(labels, mutant.class.expected_code());
    push_str(labels, "\t");
    push_str(labels, mutant.kernel.as_str());
    push_str(labels, "\t");
    push_decimal(labels, mutant.line);
    push_str(labels, "\t");
    push_str(labels, mutant.detail.as_str());
    push_str(labels, "\n");
    assert(labels@ =~= start + file_row_text(name@, *mutant));
}

/// The label rows of the first `n` mutants in single-file mode.
pub open spec fn file_rows(ms: Seq<Mutant>, n: int) -> Seq<char>
    decreases n,
{
    if n <= 0 {
        Seq::empty()
    } else {
        file_rows(ms, n - 1) + file_row(ms, n - 1)
    }
}

/// Lay out the mutants of one source file: a `<class>_<nn>.rs` copy each,
/// and `labels.tsv`.
pub fn plan_file(generated: &FileMutants) -> (r: FilePlan)
    ensures
        r.files.len() == generated.mutants.len(),
        forall|j: int|
            0 <= j < r.files.len() ==> (#[trigger] r.files@[j]).name@ == file_name(generated.mutants@, j)
                && r.files@[j].source@ == generated.mutants@[j].source@,
        r.labels@ == FILE_LABELS_HEAD@ + file_rows(generated.mutants@, generated.mutants@.len() as int),
{
    let ms = &generated.mutants;
    let ghost mv = ms@;
    let mut files: Vec<MutantFile> = Vec::new();
    let mut labels = owned(FILE_LABELS_HEAD);
    let mut counters: Vec<usize> = vec![0, 0, 0, 0, 0];
    let mut j: usize = 0;
    assert(mv.take(0) =~= Seq::<Mutant>::empty());
    while j < ms.len()
        invariant
            mv == ms@,
            mv == generated.mutants@,
            j <= ms.len(),
            counters.len() == 5,
            forall|c: int| 0 <= c < 5 ==> #[trigger] counters@[c] == count_class(mv.take(j as int), class_at(c)),
            files.len() == j,
            forall|i: int|
                0 <= i < j ==> (#[trigger] files@[i]).name@ == file_name(mv, i) && files@[i].source@ == mv[i].source@,
            labels@ == FILE_LABELS_HEAD@ + file_rows(mv, j as int),
        decreases ms.len() - j,
    {
        let mutant = &ms[j];
        let k = class_index(mutant.class);
        let n = counters[k];
        proof {
            lemma_count_class_step(mv, j as int, class_at(0));
            lemma_count_class_step(mv, j as int, class_at(1));
            lemma_count_class_step(mv, j as int, class_at(2));
            lemma_count_class_step(mv, j as int, class_at(3));
            lemma_count_class_step(mv, j as int, class_at(4));
            assert(n as nat == rank(mv, j as int));
            assert(*mutant == mv[j as int]);
        }
        let name = file_name_for(mutant.class, n);
        assert(name@ == file_name(mv, j as int));
        counters.set(k, n + 1);
        push_file_row(&mut labels, name.as_str(), mutant);
        files.push(MutantFile { name, source: mutant.source.clone() });
        proof {
            assert forall|c: int| 0 <= c < 5 implies #[trigger] counters@[c] == count_class(mv.take(j + 1), class_at(c)) by {
                if c != k {
                    assert(class_at(c) != mutant.class);
                }
            }
        }
        j = j + 1;
    }
    FilePlan { files, labels }
}

/// The byte offsets where lines start: 0, and one past every `\n`.
pub open spec fn line_starts(bytes: Seq<u8>) -> Seq<usize>
    decreases bytes.len(),
{
    if bytes.len() == 0 {
        seq![0usize]
    } else if bytes.last() == 10u8 {
        line_starts(bytes.drop_last()).push(bytes.len() as usize)
    } else {
        line_starts(bytes.drop_last())
    }
}

/// Byte offsets of line starts, for slicing source text by line and
/// column.
#[derive(Debug, Clone, PartialEq, Eq)]
pub struct LineOffsets(pub Vec<usize>);

impl LineOffsets {
    /// The line starts of `source`.
    pub fn new(source: &str) -> (r: LineOffsets)
        ensures
            r.0@ == line_starts(source.spec_bytes()),
    {
        let bytes = source.as_bytes();
        let mut offsets: Vec<usize> = vec![0];
        let mut i: usize = 0;
        assert(bytes@.take(0) =~= Seq::<u8>::empty());
        while i < bytes.len()
            invariant
                bytes@ == source.spec_bytes(),
                i <= bytes.len(),
                offsets@ == line_starts(bytes@.take(i as int)),
            decreases bytes.len() - i,
        {
            assert(bytes@.take(i + 1).drop_last() =~= bytes@.take(i as int));
            if bytes[i] == 10u8 {
                offsets.push(i + 1);
            }
            i = i + 1;
        }
        assert(bytes@.take(i as int) =~= bytes@);
        LineOffsets(offsets)
    }
}

} // verus!
