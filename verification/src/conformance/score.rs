//! Scoring a mutation-corpus run: join the labels against the tool's
//! findings, publish recall per class, and fail on any false positive.
//!
//! Precision is judged at default confidence (deny/confirmed): every gating
//! finding on a mutant must be attributable either to that mutant's
//! injected bug or to the findings of its unmutated source example. An
//! injected bug counts as detected only when the mutant shows more
//! findings of the expected code on the labeled kernel than the example
//! itself, so pre-existing findings are never claimed as catches.
use vstd::prelude::*;

use super::{class_at, class_code, class_index, class_slug, percent, percent_text, Class};
use crate::text::{
    blank, decimal, is_blank, push_decimal, trim_leading, trim_leading_str, lemma_pair_order, lemma_seq_lt_total, lines_of, owned, pair_lt, push_str, seq_lt, split_chars, split_on,
    starts_with, str_eq, str_lt, str_views, text_lines,
};

verus! {

/// A finding of a run as the score reads it: a field the document lacks
/// (or holds as something other than a string) is `None`.
#[derive(Debug, Clone, PartialEq, Eq)]
pub struct RunFinding {
    pub code: Option<String>,
    pub kernel: Option<String>,
    pub confidence: Option<String>,
}

/// One document of a run: the crate it names, if it names one, and its
/// findings.
#[derive(Debug, Clone, PartialEq, Eq)]
pub struct RunDoc {
    pub krate: Option<String>,
    pub findings: Vec<RunFinding>,
}

/// Findings of one code on one kernel: how many gate, how many in all.
#[derive(Debug, Clone, Copy, PartialEq, Eq, Structural)]
pub struct KeyCounts {
    pub gating: usize,
    pub total: usize,
}

/// The counts of one (code, kernel).
#[derive(Debug, Clone, PartialEq, Eq)]
pub struct KeyTally {
    pub code: String,
    pub kernel: String,
    pub counts: KeyCounts,
}

/// A crate's findings by (code, kernel), ascending.
#[derive(Debug, Clone, PartialEq, Eq)]
pub struct CrateTally {
    pub krate: String,
    pub keys: Vec<KeyTally>,
}

/// A (code, kernel) key.
pub type Key = (Seq<char>, Seq<char>);

/// The key a finding is counted under: `?` for a missing code, `-` for a
/// missing kernel.
pub open spec fn key_of(f: RunFinding) -> Key {
    (
        match f.code {
            Some(c) => c@,
            None => "?"@,
        },
        match f.kernel {
            Some(k) => k@,
            None => "-"@,
        },
    )
}

/// A finding gates at default confidence.
pub open spec fn gates(f: RunFinding) -> bool {
    match f.confidence {
        Some(c) => c@ == "deny"@ || c@ == "confirmed"@,
        None => false,
    }
}

/// Every finding of the run with the crate it was reported for, in order;
/// a document naming no crate contributes none.
pub open spec fn run_pairs(docs: Seq<RunDoc>) -> Seq<(Seq<char>, RunFinding)>
    decreases docs.len(),
{
    if docs.len() == 0 {
        Seq::empty()
    } else {
        run_pairs(docs.drop_last()) + match docs.last().krate {
            Some(k) => docs.last().findings@.map_values(|f: RunFinding| (k@, f)),
            None => Seq::empty(),
        }
    }
}

/// The document names crate `c`.
pub open spec fn doc_names(d: RunDoc, c: Seq<char>) -> bool {
    match d.krate {
        Some(k) => k@ == c,
        None => false,
    }
}

/// The crates the documents name.
pub open spec fn named_crates(docs: Seq<RunDoc>) -> Set<Seq<char>> {
    Set::new(|c: Seq<char>| exists|i: int| 0 <= i < docs.len() && doc_names(#[trigger] docs[i], c))
}

/// How many findings of crate `c` fall under key `k`: (gating, total).
pub open spec fn pair_count(p: Seq<(Seq<char>, RunFinding)>, c: Seq<char>, k: Key) -> (nat, nat)
    decreases p.len(),
{
    if p.len() == 0 {
        (0, 0)
    } else {
        let t = pair_count(p.drop_last(), c, k);
        if p.last().0 == c && key_of(p.last().1) == k {
            (
                t.0 + if gates(p.last().1) {
                    1nat
                } else {
                    0nat
                },
                t.1 + 1,
            )
        } else {
            t
        }
    }
}

/// The key of a tally entry.
pub open spec fn tally_key(t: KeyTally) -> Key {
    (t.code@, t.kernel@)
}

/// `v` tallies the findings `p` of the crates `named`: one entry per
/// named crate, ascending; in each, one entry per key with findings,
/// ascending, with its counts.
pub open spec fn tallies(v: Seq<CrateTally>, p: Seq<(Seq<char>, RunFinding)>, named: Set<Seq<char>>) -> bool {
    &&& forall|i: int, j: int| 0 <= i < j < v.len() ==> seq_lt(#[trigger] v[i].krate@, #[trigger] v[j].krate@)
    &&& forall|i: int| 0 <= i < v.len() ==> named.contains(#[trigger] v[i].krate@)
    &&& forall|c: Seq<char>| named.contains(c) ==> exists|i: int| 0 <= i < v.len() && #[trigger] v[i].krate@ == c
    &&& forall|c: Seq<char>, k: Key| #[trigger] pair_count(p, c, k).1 > 0 ==> named.contains(c)
    &&& forall|i: int| 0 <= i < v.len() ==> #[trigger] keys_tally(v[i].keys@, p, v[i].krate@)
}

/// `keys` tallies the findings of crate `c` among `p`.
pub open spec fn keys_tally(keys: Seq<KeyTally>, p: Seq<(Seq<char>, RunFinding)>, c: Seq<char>) -> bool {
    &&& forall|i: int, j: int|
        0 <= i < j < keys.len() ==> pair_lt(tally_key(#[trigger] keys[i]), tally_key(#[trigger] keys[j]))
    &&& forall|j: int|
        0 <= j < keys.len() ==> ((#[trigger] keys[j]).counts.gating as nat, keys[j].counts.total as nat)
            == pair_count(p, c, tally_key(keys[j])) && keys[j].counts.total > 0
    &&& forall|k: Key|
        #[trigger] pair_count(p, c, k).1 > 0 ==> exists|j: int| 0 <= j < keys.len() && tally_key(#[trigger] keys[j]) == k
}

/// How many findings the documents hold in all.
pub open spec fn findings_total(docs: Seq<RunDoc>) -> nat
    decreases docs.len(),
{
    if docs.len() == 0 {
        0
    } else {
        findings_total(docs.drop_last()) + docs.last().findings@.len()
    }
}

proof fn lemma_pair_count_bounds(p: Seq<(Seq<char>, RunFinding)>, c: Seq<char>, k: Key)
    ensures
        pair_count(p, c, k).0 <= pair_count(p, c, k).1 <= p.len(),
    decreases p.len(),
{
    if p.len() > 0 {
        lemma_pair_count_bounds(p.drop_last(), c, k);
    }
}

proof fn lemma_pair_count_push(p: Seq<(Seq<char>, RunFinding)>, x: (Seq<char>, RunFinding), c: Seq<char>, k: Key)
    ensures
        pair_count(p.push(x), c, k) == if x.0 == c && key_of(x.1) == k {
            (
                pair_count(p, c, k).0 + if gates(x.1) {
                    1nat
                } else {
                    0nat
                },
                pair_count(p, c, k).1 + 1,
            )
        } else {
            pair_count(p, c, k)
        },
{
    assert(p.push(x).drop_last() =~= p);
}

/// A crate's entries still tally it after a finding of another crate.
proof fn lemma_keys_tally_other(keys: Seq<KeyTally>, p: Seq<(Seq<char>, RunFinding)>, c: Seq<char>, x: (Seq<char>, RunFinding))
    requires
        keys_tally(keys, p, c),
        x.0 != c,
    ensures
        keys_tally(keys, p.push(x), c),
{
    assert forall|k: Key| #[trigger] pair_count(p.push(x), c, k) == pair_count(p, c, k) by {
        lemma_pair_count_push(p, x, c, k);
    }
}

fn key_before(t: &KeyTally, code: &str, kernel: &str) -> (r: bool)
    ensures
        r == pair_lt(tally_key(*t), (code@, kernel@)),
{
    str_lt(t.code.as_str(), code) || (str_eq(t.code.as_str(), code) && str_lt(t.kernel.as_str(), kernel))
}

/// Count one finding of crate `c` into that crate's entries.
fn count_key(
    keys: &mut Vec<KeyTally>,
    f: &RunFinding,
    Ghost(p): Ghost<Seq<(Seq<char>, RunFinding)>>,
    Ghost(c): Ghost<Seq<char>>,
)
    requires
        keys_tally(old(keys)@, p, c),
        p.len() + 1 < usize::MAX,
    ensures
        keys_tally(final(keys)@, p.push((c, *f)), c),
{
    let ghost x = (c, *f);
    let ghost q2 = p.push(x);
    let code: String = match &f.code {
        Some(s) => s.clone(),
        None => owned("?"),
    };
    let kernel: String = match &f.kernel {
        Some(s) => s.clone(),
        None => owned("-"),
    };
    let g: bool = match &f.confidence {
        Some(s) => str_eq(s.as_str(), "deny") || str_eq(s.as_str(), "confirmed"),
        None => false,
    };
    let ghost key: Key = (code@, kernel@);
    assert(key == key_of(*f));
    assert(g == gates(*f));
    let ghost old_keys = keys@;
    let mut q: usize = 0;
    while q < keys.len() && key_before(&keys[q], code.as_str(), kernel.as_str())
        invariant
            keys@ == old_keys,
            key == (code@, kernel@),
            q <= keys.len(),
            forall|j: int| 0 <= j < q ==> pair_lt(tally_key(#[trigger] keys@[j]), key),
        decreases keys.len() - q,
    {
        q = q + 1;
    }
    proof {
        assert forall|k: Key| #[trigger] pair_count(q2, c, k) == (if k == key {
            (
                pair_count(p, c, k).0 + if g {
                    1nat
                } else {
                    0nat
                },
                pair_count(p, c, k).1 + 1,
            )
        } else {
            pair_count(p, c, k)
        }) by {
            lemma_pair_count_push(p, x, c, k);
        }
        lemma_pair_count_bounds(p, c, key);
    }
    if q < keys.len() && str_eq(keys[q].code.as_str(), code.as_str()) && str_eq(keys[q].kernel.as_str(), kernel.as_str()) {
        let e = keys.remove(q);
        proof {
            assert(e == old_keys[q as int]);
            assert(tally_key(e) == key);
        }
        let counts = KeyCounts {
            gating: e.counts.gating + if g {
                1
            } else {
                0
            },
            total: e.counts.total + 1,
        };
        let ne = KeyTally { code: e.code, kernel: e.kernel, counts };
        keys.insert(q, ne);
        proof {
            let nk = keys@;
            assert(nk =~= old_keys.update(q as int, ne));
            assert forall|j: int| 0 <= j < nk.len() && j != q implies tally_key(#[trigger] nk[j]) != key by {
                lemma_pair_order(tally_key(old_keys[j]), key, key);
                if j < q {
                    assert(pair_lt(tally_key(old_keys[j]), tally_key(old_keys[q as int])));
                } else {
                    assert(pair_lt(tally_key(old_keys[q as int]), tally_key(old_keys[j])));
                }
            }
            assert forall|k: Key| #[trigger] pair_count(q2, c, k).1 > 0 implies exists|j: int|
                0 <= j < nk.len() && tally_key(#[trigger] nk[j]) == k by {
                if k == key {
                    assert(tally_key(nk[q as int]) == k);
                } else {
                    assert(pair_count(p, c, k).1 > 0);
                    let j = choose|j: int| 0 <= j < old_keys.len() && tally_key(#[trigger] old_keys[j]) == k;
                    assert(tally_key(nk[j]) == k);
                }
            }
        }
    } else {
        proof {
            assert forall|j: int| 0 <= j < old_keys.len() implies tally_key(#[trigger] old_keys[j]) != key by {
                if j < q {
                    lemma_pair_order(tally_key(old_keys[j]), key, key);
                } else {
                    let kq = tally_key(old_keys[q as int]);
                    lemma_pair_order(kq, key, tally_key(old_keys[j]));
                    lemma_pair_order(key, kq, tally_key(old_keys[j]));
                    if j > q {
                        assert(pair_lt(kq, tally_key(old_keys[j])));
                    }
                }
            }
            assert(pair_count(p, c, key).1 == 0);
        }
        let ne = KeyTally {
            code,
            kernel,
            counts: KeyCounts {
                gating: if g {
                    1
                } else {
                    0
                },
                total: 1,
            },
        };
        keys.insert(q, ne);
        proof {
            let nk = keys@;
            assert(nk =~= old_keys.insert(q as int, ne));
            assert forall|i: int, j: int| 0 <= i < j < nk.len() implies pair_lt(
                tally_key(#[trigger] nk[i]),
                tally_key(#[trigger] nk[j]),
            ) by {
                if i < q && j == q {
                } else if i == q && j > q {
                    let kq = tally_key(old_keys[q as int]);
                    lemma_pair_order(kq, key, tally_key(old_keys[j - 1]));
                    lemma_pair_order(key, kq, tally_key(old_keys[j - 1]));
                    if j - 1 > q {
                        assert(pair_lt(kq, tally_key(old_keys[j - 1])));
                    }
                } else if i < q && j > q {
                    assert(nk[i] == old_keys[i] && nk[j] == old_keys[j - 1]);
                } else if j < q {
                    assert(nk[i] == old_keys[i] && nk[j] == old_keys[j]);
                } else {
                    assert(nk[i] == old_keys[i - 1] && nk[j] == old_keys[j - 1]);
                }
            }
            assert forall|j: int| 0 <= j < nk.len() implies ((#[trigger] nk[j]).counts.gating as nat, nk[j].counts.total as nat)
                == pair_count(q2, c, tally_key(nk[j])) && nk[j].counts.total > 0 by {
                if j < q {
                    assert(nk[j] == old_keys[j]);
                } else if j > q {
                    assert(nk[j] == old_keys[j - 1]);
                }
            }
            assert forall|k: Key| #[trigger] pair_count(q2, c, k).1 > 0 implies exists|j: int|
                0 <= j < nk.len() && tally_key(#[trigger] nk[j]) == k by {
                if k == key {
                    assert(tally_key(nk[q as int]) == k);
                } else {
                    assert(pair_count(p, c, k).1 > 0);
                    let j = choose|j: int| 0 <= j < old_keys.len() && tally_key(#[trigger] old_keys[j]) == k;
                    if j < q {
                        assert(tally_key(nk[j]) == k);
                    } else {
                        assert(tally_key(nk[j + 1]) == k);
                    }
                }
            }
        }
    }
}

fn crate_slot(
    v: &mut Vec<CrateTally>,
    k: &String,
    Ghost(p): Ghost<Seq<(Seq<char>, RunFinding)>>,
    Ghost(named): Ghost<Set<Seq<char>>>,
) -> (idx: usize)
    requires
        tallies(old(v)@, p, named),
    ensures
        tallies(final(v)@, p, named.insert(k@)),
        idx < final(v).len(),
        final(v)@[idx as int].krate@ == k@,
{
    let ghost old_v = v@;
    let mut q: usize = 0;
    while q < v.len() && str_lt(v[q].krate.as_str(), k.as_str())
        invariant
            v@ == old_v,
            q <= v.len(),
            forall|j: int| 0 <= j < q ==> seq_lt(#[trigger] v@[j].krate@, k@),
        decreases v.len() - q,
    {
        q = q + 1;
    }
    if q < v.len() && str_eq(v[q].krate.as_str(), k.as_str()) {
        assert(named.insert(k@) =~= named);
        return q;
    }
    proof {
        assert forall|j: int| 0 <= j < old_v.len() implies #[trigger] old_v[j].krate@ != k@ by {
            crate::text::lemma_seq_lt_irreflexive(k@);
            if j > q {
                let kq = old_v[q as int].krate@;
                lemma_seq_lt_total(kq, k@);
                assert(seq_lt(kq, old_v[j].krate@));
                if seq_lt(k@, kq) {
                    crate::text::lemma_seq_lt_transitive(k@, kq, old_v[j].krate@);
                }
            }
        }
        assert(!named.contains(k@));
        assert forall|kk: Key| #[trigger] pair_count(p, k@, kk).1 == 0 by {
        }
    }
    let e = CrateTally { krate: k.clone(), keys: Vec::new() };
    v.insert(q, e);
    proof {
        let nv = v@;
        assert(nv =~= old_v.insert(q as int, e));
        assert(keys_tally(e.keys@, p, k@));
        assert forall|i: int, j: int| 0 <= i < j < nv.len() implies seq_lt(#[trigger] nv[i].krate@, #[trigger] nv[j].krate@) by {
            if i == q && j > q {
                let kq = old_v[q as int].krate@;
                lemma_seq_lt_total(kq, k@);
                if j - 1 > q {
                    assert(seq_lt(kq, old_v[j - 1].krate@));
                    crate::text::lemma_seq_lt_transitive(k@, kq, old_v[j - 1].krate@);
                }
            } else if i < q && j > q {
                assert(nv[i] == old_v[i] && nv[j] == old_v[j - 1]);
            } else if j < q {
                assert(nv[i] == old_v[i] && nv[j] == old_v[j]);
            } else if i > q {
                assert(nv[i] == old_v[i - 1] && nv[j] == old_v[j - 1]);
            }
        }
        let n2 = named.insert(k@);
        assert forall|c: Seq<char>| n2.contains(c) implies exists|i: int| 0 <= i < nv.len() && #[trigger] nv[i].krate@ == c by {
            if c == k@ {
                assert(nv[q as int].krate@ == c);
            } else {
                let i = choose|i: int| 0 <= i < old_v.len() && #[trigger] old_v[i].krate@ == c;
                if i < q {
                    assert(nv[i] == old_v[i]);
                } else {
                    assert(nv[i + 1] == old_v[i]);
                }
            }
        }
        assert forall|i: int| 0 <= i < nv.len() implies #[trigger] keys_tally(nv[i].keys@, p, nv[i].krate@) by {
            if i < q {
                assert(nv[i] == old_v[i]);
            } else if i > q {
                assert(nv[i] == old_v[i - 1]);
            }
        }
        assert forall|i: int| 0 <= i < nv.len() implies n2.contains(#[trigger] nv[i].krate@) by {
            if i < q {
                assert(nv[i] == old_v[i]);
            } else if i > q {
                assert(nv[i] == old_v[i - 1]);
            }
        }
    }
    q
}

fn add_to_crate(
    v: &mut Vec<CrateTally>,
    idx: usize,
    f: &RunFinding,
    Ghost(p): Ghost<Seq<(Seq<char>, RunFinding)>>,
    Ghost(named): Ghost<Set<Seq<char>>>,
)
    requires
        tallies(old(v)@, p, named),
        idx < old(v).len(),
        p.len() + 1 < usize::MAX,
    ensures
        tallies(final(v)@, p.push((old(v)@[idx as int].krate@, *f)), named),
        final(v).len() == old(v).len(),
        final(v)@[idx as int].krate@ == old(v)@[idx as int].krate@,
{
    let ghost old_v = v@;
    let mut ct = v.remove(idx);
    let ghost c = ct.krate@;
    assert(ct == old_v[idx as int]);
    assert(keys_tally(ct.keys@, p, c));
    count_key(&mut ct.keys, f, Ghost(p), Ghost(c));
    let ghost x = (c, *f);
    v.insert(idx, ct);
    proof {
        let nv = v@;
        let p2 = p.push(x);
        assert(nv =~= old_v.update(idx as int, ct));
        assert forall|i: int| 0 <= i < nv.len() implies #[trigger] keys_tally(nv[i].keys@, p2, nv[i].krate@) by {
            if i != idx {
                assert(nv[i] == old_v[i]);
                assert(keys_tally(old_v[i].keys@, p, old_v[i].krate@));
                if i < idx {
                    assert(seq_lt(old_v[i].krate@, old_v[idx as int].krate@));
                    crate::text::lemma_seq_lt_asymmetric(old_v[i].krate@, old_v[idx as int].krate@);
                } else {
                    assert(seq_lt(old_v[idx as int].krate@, old_v[i].krate@));
                    crate::text::lemma_seq_lt_asymmetric(old_v[idx as int].krate@, old_v[i].krate@);
                }
                lemma_keys_tally_other(old_v[i].keys@, p, old_v[i].krate@, x);
            }
        }
        assert forall|cc: Seq<char>, k: Key| #[trigger] pair_count(p2, cc, k).1 > 0 implies named.contains(cc) by {
            lemma_pair_count_push(p, x, cc, k);
            if cc == c {
                assert(named.contains(old_v[idx as int].krate@));
            }
        }
        assert forall|i: int| 0 <= i < nv.len() implies named.contains(#[trigger] nv[i].krate@) by {
            assert(nv[i].krate@ == old_v[i].krate@);
        }
        assert forall|cc: Seq<char>| named.contains(cc) implies exists|i: int| 0 <= i < nv.len() && #[trigger] nv[i].krate@ == cc by {
            let i = choose|i: int| 0 <= i < old_v.len() && #[trigger] old_v[i].krate@ == cc;
            assert(nv[i].krate@ == old_v[i].krate@);
        }
        assert forall|i: int, j: int| 0 <= i < j < nv.len() implies seq_lt(#[trigger] nv[i].krate@, #[trigger] nv[j].krate@) by {
            assert(nv[i].krate@ == old_v[i].krate@ && nv[j].krate@ == old_v[j].krate@);
        }
    }
}

proof fn lemma_run_prefix(docs: Seq<RunDoc>, i: int)
    requires
        0 <= i < docs.len(),
    ensures
        run_pairs(docs.take(i + 1)) == run_pairs(docs.take(i)) + match docs[i].krate {
            Some(k) => docs[i].findings@.map_values(|f: RunFinding| (k@, f)),
            None => Seq::empty(),
        },
        findings_total(docs.take(i + 1)) == findings_total(docs.take(i)) + docs[i].findings@.len(),
        named_crates(docs.take(i + 1)) == match docs[i].krate {
            Some(k) => named_crates(docs.take(i)).insert(k@),
            None => named_crates(docs.take(i)),
        },
{
    let a = docs.take(i + 1);
    assert(a.drop_last() =~= docs.take(i));
    assert(a.last() == docs[i]);
    let n1 = named_crates(a);
    let n0 = named_crates(docs.take(i));
    let n2 = match docs[i].krate {
        Some(k) => n0.insert(k@),
        None => n0,
    };
    assert forall|c: Seq<char>| n1.contains(c) == n2.contains(c) by {
        if n1.contains(c) {
            let j = choose|j: int| 0 <= j < a.len() && doc_names(#[trigger] a[j], c);
            if j < i {
                assert(docs.take(i)[j] == a[j]);
            }
        }
        if n0.contains(c) {
            let j = choose|j: int| 0 <= j < i && doc_names(#[trigger] docs.take(i)[j], c);
            assert(a[j] == docs.take(i)[j]);
        }
        if doc_names(docs[i], c) {
            assert(doc_names(a[i], c));
        }
    }
    assert(n1 =~= n2);
}

proof fn lemma_total_prefix(docs: Seq<RunDoc>, i: int)
    requires
        0 <= i <= docs.len(),
    ensures
        findings_total(docs.take(i)) <= findings_total(docs),
    decreases docs.len() - i,
{
    if i < docs.len() {
        lemma_run_prefix(docs, i);
        lemma_total_prefix(docs, i + 1);
    } else {
        assert(docs.take(i) =~= docs);
    }
}

proof fn lemma_pairs_len(docs: Seq<RunDoc>)
    ensures
        run_pairs(docs).len() <= findings_total(docs),
    decreases docs.len(),
{
    if docs.len() > 0 {
        lemma_pairs_len(docs.drop_last());
    }
}

/// Tally a run's documents by crate and by (code, kernel); a document
/// naming no crate is refused.
pub fn tally(docs: &Vec<RunDoc>) -> (r: Result<Vec<CrateTally>, String>)
    requires
        findings_total(docs@) + 1 < usize::MAX,
    ensures
        match r {
            Ok(v) => (forall|i: int| 0 <= i < docs.len() ==> (#[trigger] docs@[i]).krate is Some) && tallies(
                v@,
                run_pairs(docs@),
                named_crates(docs@),
            ) && (forall|i: int, j: int|
                0 <= i < v.len() && 0 <= j < v@[i].keys.len() ==> #[trigger] v@[i].keys@[j].counts.gating
                    < usize::MAX),
            Err(m) => (exists|i: int| 0 <= i < docs.len() && (#[trigger] docs@[i]).krate is None) && m@
                == "findings document lacks `crate`"@,
        },
{
    let mut v: Vec<CrateTally> = Vec::new();
    let mut i: usize = 0;
    proof {
        assert(docs@.take(0) =~= Seq::<RunDoc>::empty());
        assert(named_crates(docs@.take(0)) =~= Set::<Seq<char>>::empty());
    }
    while i < docs.len()
        invariant
            i <= docs.len(),
            findings_total(docs@) + 1 < usize::MAX,
            forall|j: int| 0 <= j < i ==> (#[trigger] docs@[j]).krate is Some,
            tallies(v@, run_pairs(docs@.take(i as int)), named_crates(docs@.take(i as int))),
        decreases docs.len() - i,
    {
        let d = &docs[i];
        let k = match &d.krate {
            Some(k) => k,
            None => {
                return Err(owned("findings document lacks `crate`"));
            },
        };
        proof {
            lemma_run_prefix(docs@, i as int);
            lemma_total_prefix(docs@, i + 1);
            lemma_pairs_len(docs@.take(i as int));
        }
        let ghost p0 = run_pairs(docs@.take(i as int));
        let ghost named = named_crates(docs@.take(i + 1));
        let idx = crate_slot(&mut v, k, Ghost(p0), Ghost(named_crates(docs@.take(i as int))));
        let mut j: usize = 0;
        while j < d.findings.len()
            invariant
                d == &docs@[i as int],
                d.krate == Some(*k),
                0 <= i < docs.len(),
                j <= d.findings.len(),
                idx < v.len(),
                v@[idx as int].krate@ == k@,
                p0.len() + d.findings.len() <= findings_total(docs@),
                findings_total(docs@) + 1 < usize::MAX,
                tallies(v@, p0 + d.findings@.take(j as int).map_values(|f: RunFinding| (k@, f)), named),
            decreases d.findings.len() - j,
        {
            let ghost before = p0 + d.findings@.take(j as int).map_values(|f: RunFinding| (k@, f));
            add_to_crate(&mut v, idx, &d.findings[j], Ghost(before), Ghost(named));
            proof {
                assert(before.push((k@, d.findings@[j as int])) =~= p0 + d.findings@.take(j + 1).map_values(
                    |f: RunFinding| (k@, f),
                ));
            }
            j = j + 1;
        }
        proof {
            assert(d.findings@.take(j as int) =~= d.findings@);
        }
        i = i + 1;
    }
    proof {
        assert(docs@.take(i as int) =~= docs@);
        lemma_pairs_len(docs@);
        assert forall|a: int, b: int| 0 <= a < v.len() && 0 <= b < v@[a].keys.len() implies #[trigger] v@[a].keys@[b].counts.gating
            < usize::MAX by {
            assert(keys_tally(v@[a].keys@, run_pairs(docs@), v@[a].krate@));
            lemma_pair_count_bounds(run_pairs(docs@), v@[a].krate@, tally_key(v@[a].keys@[b]));
        }
    }
    Ok(v)
}

/// The entry of crate `c`: the first naming it.
pub open spec fn crate_entry(v: Seq<CrateTally>, c: Seq<char>) -> Option<CrateTally>
    decreases v.len(),
{
    if v.len() == 0 {
        None
    } else if v[0].krate@ == c {
        Some(v[0])
    } else {
        crate_entry(v.drop_first(), c)
    }
}

/// The counts under key `k`: the first entry's, or none.
pub open spec fn counts_in(keys: Seq<KeyTally>, k: Key) -> (nat, nat)
    decreases keys.len(),
{
    if keys.len() == 0 {
        (0, 0)
    } else if tally_key(keys[0]) == k {
        (keys[0].counts.gating as nat, keys[0].counts.total as nat)
    } else {
        counts_in(keys.drop_first(), k)
    }
}

/// The counts of crate `c` under key `k` in a tally.
pub open spec fn counts_of(v: Seq<CrateTally>, c: Seq<char>, k: Key) -> (nat, nat) {
    match crate_entry(v, c) {
        Some(ct) => counts_in(ct.keys@, k),
        None => (0, 0),
    }
}

/// Where crate `c`'s entry is.
fn find_crate(v: &Vec<CrateTally>, c: &str) -> (r: Option<usize>)
    ensures
        match r {
            Some(i) => i < v.len() && crate_entry(v@, c@) == Some(v@[i as int]),
            None => crate_entry(v@, c@) is None,
        },
{
    let mut i: usize = 0;
    assert(v@.skip(0) =~= v@);
    while i < v.len()
        invariant
            i <= v.len(),
            crate_entry(v@, c@) == crate_entry(v@.skip(i as int), c@),
        decreases v.len() - i,
    {
        assert(v@.skip(i as int)[0] == v@[i as int]);
        if str_eq(v[i].krate.as_str(), c) {
            return Some(i);
        }
        assert(v@.skip(i as int).drop_first() =~= v@.skip(i + 1));
        i = i + 1;
    }
    None
}

/// The counts under (code, kernel), or none; they are one entry's counts.
fn lookup(keys: &Vec<KeyTally>, code: &str, kernel: &str) -> (r: KeyCounts)
    ensures
        (r.gating as nat, r.total as nat) == counts_in(keys@, (code@, kernel@)),
        r == (KeyCounts { gating: 0, total: 0 }) || exists|j: int| 0 <= j < keys.len() && keys@[j].counts == r,
{
    let mut i: usize = 0;
    assert(keys@.skip(0) =~= keys@);
    while i < keys.len()
        invariant
            i <= keys.len(),
            counts_in(keys@, (code@, kernel@)) == counts_in(keys@.skip(i as int), (code@, kernel@)),
        decreases keys.len() - i,
    {
        assert(keys@.skip(i as int)[0] == keys@[i as int]);
        if str_eq(keys[i].code.as_str(), code) && str_eq(keys[i].kernel.as_str(), kernel) {
            return keys[i].counts;
        }
        assert(keys@.skip(i as int).drop_first() =~= keys@.skip(i + 1));
        i = i + 1;
    }
    KeyCounts { gating: 0, total: 0 }
}

/// One row of `labels.tsv`: a mutant crate, the bug class injected into
/// it, the diagnostic expected (`-` for none), the example it came from
/// and the kernel it was injected into.
#[derive(Debug, Clone, PartialEq, Eq)]
pub struct Label {
    pub mutant: String,
    pub class: Class,
    pub expected: String,
    pub source_crate: String,
    pub kernel: String,
}

/// A label as plain values.
pub type LabelView = (Seq<char>, Class, Seq<char>, Seq<char>, Seq<char>);

/// The view of a label.
pub open spec fn label_view(l: Label) -> LabelView {
    (l.mutant@, l.class, l.expected@, l.source_crate@, l.kernel@)
}

/// The class whose short name is `slug`.
pub open spec fn class_of_slug(slug: Seq<char>) -> Option<Class> {
    if slug == "wrapbar"@ {
        Some(Class::WrapBarrier)
    } else if slug == "delbar"@ {
        Some(Class::DeleteBarrier)
    } else if slug == "wrapcol"@ {
        Some(Class::WrapCollective)
    } else if slug == "shrinkmask"@ {
        Some(Class::ShrinkMask)
    } else if slug == "mutslice"@ {
        Some(Class::SwapMutSlice)
    } else {
        None
    }
}

/// A row read as a label: at least seven tab-separated fields, the second
/// a class name.
pub open spec fn row_label(row: Seq<char>) -> Result<LabelView, Seq<char>> {
    let fields = split_on(row, '\t');
    if fields.len() < 7 {
        Err("malformed label row: "@ + row)
    } else {
        match class_of_slug(fields[1]) {
            Some(c) => Ok((fields[0], c, fields[2], fields[3], fields[4])),
            None => Err("unknown mutation class `"@ + fields[1] + "`"@),
        }
    }
}

/// The rows of `labels.tsv` that hold a label: not a comment, not blank.
pub open spec fn is_label_row(line: Seq<char>) -> bool {
    !("#"@.is_prefix_of(line)) && !is_blank(line)
}

/// The labels of the rows, in order; the first bad row's error.
pub open spec fn rows_labels(rows: Seq<Seq<char>>) -> Result<Seq<LabelView>, Seq<char>>
    decreases rows.len(),
{
    if rows.len() == 0 {
        Ok(Seq::empty())
    } else {
        match rows_labels(rows.drop_last()) {
            Err(e) => Err(e),
            Ok(ls) => match row_label(rows.last()) {
                Err(e) => Err(e),
                Ok(l) => Ok(ls.push(l)),
            },
        }
    }
}

/// What `labels.tsv` holding `text` reads as.
pub open spec fn labels_of(text: Seq<char>) -> Result<Seq<LabelView>, Seq<char>> {
    rows_labels(text_lines(text).filter(|l: Seq<char>| is_label_row(l)))
}

proof fn lemma_rows_error_sticks(rows: Seq<Seq<char>>, i: int)
    requires
        0 <= i <= rows.len(),
        rows_labels(rows.take(i)) is Err,
    ensures
        rows_labels(rows) == rows_labels(rows.take(i)),
    decreases rows.len() - i,
{
    if i < rows.len() {
        assert(rows.take(i + 1).drop_last() =~= rows.take(i));
        lemma_rows_error_sticks(rows, i + 1);
    } else {
        assert(rows.take(i) =~= rows);
    }
}

fn class_named(slug: &str) -> (r: Option<Class>)
    ensures
        r == class_of_slug(slug@),
{
    if str_eq(slug, "wrapbar") {
        Some(Class::WrapBarrier)
    } else if str_eq(slug, "delbar") {
        Some(Class::DeleteBarrier)
    } else if str_eq(slug, "wrapcol") {
        Some(Class::WrapCollective)
    } else if str_eq(slug, "shrinkmask") {
        Some(Class::ShrinkMask)
    } else if str_eq(slug, "mutslice") {
        Some(Class::SwapMutSlice)
    } else {
        None
    }
}

fn parse_row(row: &str) -> (r: Result<Label, String>)
    ensures
        match r {
            Ok(l) => row_label(row@) == Ok::<LabelView, Seq<char>>(label_view(l)),
            Err(e) => row_label(row@) == Err::<LabelView, Seq<char>>(e@),
        },
{
    let fields = split_chars(row, '\t');
    if fields.len() < 7 {
        let mut m = owned("malformed label row: ");
        push_str(&mut m, row);
        return Err(m);
    }
    assert(str_views(fields@)[1] == fields@[1]@);
    match class_named(fields[1].as_str()) {
        Some(class) => {
            assert(str_views(fields@)[0] == fields@[0]@);
            assert(str_views(fields@)[2] == fields@[2]@);
            assert(str_views(fields@)[3] == fields@[3]@);
            assert(str_views(fields@)[4] == fields@[4]@);
            Ok(
                Label {
                    mutant: fields[0].clone(),
                    class,
                    expected: fields[2].clone(),
                    source_crate: fields[3].clone(),
                    kernel: fields[4].clone(),
                },
            )
        },
        None => {
            let mut m = owned("unknown mutation class `");
            push_str(&mut m, fields[1].as_str());
            push_str(&mut m, "`");
            Err(m)
        },
    }
}

/// Read `labels.tsv`: every row that is neither a comment nor blank is a
/// label; the first bad row is the error.
pub fn parse_labels(text: &str) -> (r: Result<Vec<Label>, String>)
    ensures
        match r {
            Ok(v) => labels_of(text@) == Ok::<Seq<LabelView>, Seq<char>>(v@.map_values(|l: Label| label_view(l))),
            Err(e) => labels_of(text@) == Err::<Seq<LabelView>, Seq<char>>(e@),
        },
{
    let lines = lines_of(text);
    let ghost all = str_views(lines@);
    let ghost pred = |l: Seq<char>| is_label_row(l);
    let mut out: Vec<Label> = Vec::new();
    let mut i: usize = 0;
    assert(all.take(0).filter(pred) =~= Seq::<Seq<char>>::empty());
    assert(out@.map_values(|l: Label| label_view(l)) =~= Seq::<LabelView>::empty());
    assert(rows_labels(all.take(0).filter(pred)) == Ok::<Seq<LabelView>, Seq<char>>(Seq::<LabelView>::empty()));
    while i < lines.len()
        invariant
            all == str_views(lines@),
            all == text_lines(text@),
            pred == (|l: Seq<char>| is_label_row(l)),
            i <= lines.len(),
            rows_labels(all.take(i as int).filter(pred)) == Ok::<Seq<LabelView>, Seq<char>>(
                out@.map_values(|l: Label| label_view(l)),
            ),
        decreases lines.len() - i,
    {
        let line = lines[i].as_str();
        proof {
            assert(all[i as int] == line@);
            assert(all.take(i + 1) =~= all.take(i as int).push(line@));
            all.take(i as int).lemma_filter_push(line@, pred);
        }
        if !starts_with(line, "#") && !blank(line) {
            let ghost rows = all.take(i + 1).filter(pred);
            assert(rows.drop_last() =~= all.take(i as int).filter(pred));
            match parse_row(line) {
                Ok(l) => {
                    let ghost before = out@;
                    out.push(l);
                    assert(out@.map_values(|l: Label| label_view(l)) =~= before.map_values(|l: Label| label_view(l)).push(
                        label_view(l),
                    ));
                },
                Err(e) => {
                    proof {
                        assert(rows_labels(rows) is Err);
                        let whole = all.filter(pred);
                        assert(all =~= all.take(i + 1) + all.skip(i + 1));
                        Seq::filter_distributes_over_add(all.take(i + 1), all.skip(i + 1), pred);
                        assert(whole.take(rows.len() as int) =~= rows);
                        lemma_rows_error_sticks(whole, rows.len() as int);
                    }
                    return Err(e);
                },
            }
        }
        i = i + 1;
    }
    proof {
        assert(all.take(i as int) =~= all);
    }
    Ok(out)
}

/// The report's title.
pub const REPORT_INTRO: &'static str = "# Mutation-corpus results\n\n";

/// Where the report's numbers come from.
pub const REPORT_ORIGIN: &'static str = "Generated by `scripts/run-mutation-corpus.sh` from the pinned upstream\n\
         examples (`conformance/PIN`) — mechanically injected bug classes, one\n\
         labeled single-site mutant per crate. CI regenerates this file on every\n\
         run and diffs it against the committed copy, so any precision or recall\n\
         movement is a deliberate, reviewed change. Do not edit the numbers by\n\
         hand; rerun the script and review the diff.\n\n";

/// The head of the summary table.
pub const SUMMARY_HEAD: &'static str = "## Summary\n\n| class | injected bug | expected | mutants | compiling | detected (default) | detected (`--strict`) |\n|-------|--------------|----------|--------:|----------:|-------------------:|----------------------:|\n";

/// The verdict line when every gating finding is attributed, before the count.
pub const PRECISION_OK_HEAD: &'static str = "**Precision at default confidence: 1.000** — ";

/// The verdict line when every gating finding is attributed, after the count.
pub const PRECISION_OK_TAIL: &'static str = " gating finding(s)\nacross all compiling mutants, every one attributed to its injected bug\nor to the reviewed conformance baseline of its source example.\n";

/// The verdict when some gating finding is not attributed.
pub const PRECISION_FAILED: &'static str = "**Precision at default confidence: FAILED**\n\n";

/// How to read the table.
pub const READING: &'static str = "\n## Reading the numbers\n\n\
         - **wrapbar** — detection at default confidence requires the witness\n\
           interpreter to replay a concrete hang; sites whose path to the barrier\n\
           crosses branches on values the interpreter honestly cannot know stay at\n\
           `warning` (visible with `--strict`). Both numbers are the product. A\n\
           wrap that lands on a barrier upstream *already* keeps under divergent\n\
           control cannot exceed the unmutated baseline and counts as undetected —\n\
           attribution never double-claims a pre-existing finding (at this pin,\n\
           every `--strict` miss is one of those found-in-the-wild sites).\n\
         - **delbar** — a deleted barrier is a data race, which static divergence\n\
           analysis cannot see by design (races are outside the decidable slice;\n\
           the witness replays only *found* divergence bugs). Expected recall 0;\n\
           the row is published anyway, and doubles as a precision invariant:\n\
           removing a barrier must not conjure findings.\n\
         - **wrapcol** — same mechanics as wrapbar, over the collectives the\n\
           dialect classifies: the masked `*_sync` surface of cuda-device's warp\n\
           module (`shuffle_*_sync` in every width, `ballot/any/all_sync`,\n\
           `match_*_sync`, `redux_sync_*`, `elect_sync`) plus `sync_mask`. Sites\n\
           hidden behind the unmasked convenience wrappers (`warp::shuffle`,\n\
           `warp::ballot`, the `reduce_*` helpers) are outside the v1 surface\n\
           and counted under site accounting below.\n\
           Promotion additionally needs a mask the analysis can evaluate; upstream\n\
           writes masks as named consts, which `rustc_public` cannot evaluate at\n\
           the pin, and an unevaluable mask is never witness-promoted — it could\n\
           be the correct guarded partial-warp idiom.\n\
         - **shrinkmask** — a shrunk full mask at a *convergent* call site names\n\
           no lane that is absent, so the witness has nothing to confirm: the\n\
           replay *does* compare the mask against the lanes it finds present\n\
           (that comparison is what promotes a divergent full-mask call and what\n\
           keeps the correct guarded partial-warp idiom out of the \
           gate), and a\n\
           mismatch under some *other* launch shape than the replayed one is not\n\
           witnessed. Expected recall 0; the class stays in the corpus so the\n\
           boundary is public and any improvement shows up here.\n\
         - **mutslice** — RC003 is a syntactic `deny`; expected recall 100% of\n\
           compiling mutants. Swaps whose kernel body needs `DisjointSlice`-only\n\
           API do not compile and are pruned (counted below).\n";

/// The head of the site accounting section.
pub const SITES_HEAD: &'static str = "\n## Site accounting\n\nEvery site seen and every site skipped, with the reason — no silent\ncaps (from `mutation-report.tsv`):\n\n```\n";

/// The header line of `mutation-report.tsv`, left out of the report.
pub const SITES_HEADER_LINE: &'static str = "# what\tcount\n";

/// 1 for true, 0 for false.
pub open spec fn ind(b: bool) -> nat {
    if b {
        1
    } else {
        0
    }
}

/// The mutant of `l` was analyzed: the run has its crate.
pub open spec fn analyzed(l: Label, results: Seq<CrateTally>) -> bool {
    crate_entry(results, l.mutant@) is Some
}

/// The key of the injected bug.
pub open spec fn expected_key(l: Label) -> Key {
    (l.expected@, l.kernel@)
}

/// The injected bug is detected at default confidence: more gating
/// findings of the expected code on the kernel than in the source example.
pub open spec fn detected_default(l: Label, results: Seq<CrateTally>, baseline: Seq<CrateTally>) -> bool {
    analyzed(l, results) && l.expected@ != "-"@ && counts_of(results, l.mutant@, expected_key(l)).0 > counts_of(
        baseline,
        l.source_crate@,
        expected_key(l),
    ).0
}

/// The injected bug is detected with `--strict`: more findings of any tier.
pub open spec fn detected_strict(l: Label, results: Seq<CrateTally>, baseline: Seq<CrateTally>) -> bool {
    analyzed(l, results) && l.expected@ != "-"@ && counts_of(results, l.mutant@, expected_key(l)).1 > counts_of(
        baseline,
        l.source_crate@,
        expected_key(l),
    ).1
}

/// A class's row: mutants, compiling mutants, detections at default
/// confidence and with `--strict`.
pub open spec fn class_row(labels: Seq<Label>, results: Seq<CrateTally>, baseline: Seq<CrateTally>, c: Class) -> (
    nat,
    nat,
    nat,
    nat,
)
    decreases labels.len(),
{
    if labels.len() == 0 {
        (0, 0, 0, 0)
    } else {
        let t = class_row(labels.drop_last(), results, baseline, c);
        let l = labels.last();
        if l.class == c {
            (
                t.0 + 1,
                t.1 + ind(analyzed(l, results)),
                t.2 + ind(detected_default(l, results, baseline)),
                t.3 + ind(detected_strict(l, results, baseline)),
            )
        } else {
            t
        }
    }
}

/// How many gating findings of key `k` a label's mutant may show: those
/// of its source example, plus one when `k` is the injected bug.
pub open spec fn allowed(l: Label, baseline: Seq<CrateTally>, k: Key) -> nat {
    counts_of(baseline, l.source_crate@, k).0 + ind(expected_key(l) == k)
}

/// The line naming a false positive.
pub open spec fn fp_text(l: Label, kt: KeyTally, a: nat) -> Seq<char> {
    l.mutant@ + ": "@ + kt.code@ + " on kernel `"@ + kt.kernel@ + "` — "@ + decimal(kt.counts.gating as nat)
        + " gating finding(s), "@ + decimal(a) + " attributable"@
}

/// The false positives among a mutant's keys, in key order.
pub open spec fn keys_fps(l: Label, keys: Seq<KeyTally>, baseline: Seq<CrateTally>) -> Seq<Seq<char>>
    decreases keys.len(),
{
    if keys.len() == 0 {
        Seq::empty()
    } else {
        let t = keys_fps(l, keys.drop_last(), baseline);
        let kt = keys.last();
        let a = allowed(l, baseline, tally_key(kt));
        if kt.counts.gating > a {
            t.push(fp_text(l, kt, a))
        } else {
            t
        }
    }
}

/// The false positives on a label's mutant.
pub open spec fn label_fps(l: Label, results: Seq<CrateTally>, baseline: Seq<CrateTally>) -> Seq<Seq<char>> {
    match crate_entry(results, l.mutant@) {
        Some(ct) => keys_fps(l, ct.keys@, baseline),
        None => Seq::empty(),
    }
}

/// The false positives on every label's mutant, in label order.
pub open spec fn labels_fps(labels: Seq<Label>, results: Seq<CrateTally>, baseline: Seq<CrateTally>) -> Seq<Seq<char>>
    decreases labels.len(),
{
    if labels.len() == 0 {
        Seq::empty()
    } else {
        labels_fps(labels.drop_last(), results, baseline) + label_fps(labels.last(), results, baseline)
    }
}

/// How many gating findings the keys hold.
pub open spec fn keys_gating(keys: Seq<KeyTally>) -> nat
    decreases keys.len(),
{
    if keys.len() == 0 {
        0
    } else {
        keys_gating(keys.drop_last()) + keys.last().counts.gating as nat
    }
}

/// How many gating findings the labels' mutants show, each mutant counted
/// once per label.
pub open spec fn claimed(labels: Seq<Label>, results: Seq<CrateTally>) -> nat
    decreases labels.len(),
{
    if labels.len() == 0 {
        0
    } else {
        claimed(labels.drop_last(), results) + match crate_entry(results, labels.last().mutant@) {
            Some(ct) => keys_gating(ct.keys@),
            None => 0,
        }
    }
}

/// Some label names mutant `c`.
pub open spec fn labeled(labels: Seq<Label>, c: Seq<char>) -> bool {
    exists|i: int| 0 <= i < labels.len() && (#[trigger] labels[i]).mutant@ == c
}

/// The analyzed crates no label claims, in crate order: the corpus and
/// the run disagree.
pub open spec fn unlisted(results: Seq<CrateTally>, labels: Seq<Label>) -> Seq<Seq<char>>
    decreases results.len(),
{
    if results.len() == 0 {
        Seq::empty()
    } else {
        let t = unlisted(results.drop_last(), labels);
        if labeled(labels, results.last().krate@) {
            t
        } else {
            t.push(results.last().krate@ + ": analyzed but not in labels.tsv"@)
        }
    }
}

/// Every false positive of the run.
pub open spec fn false_positives(labels: Seq<Label>, results: Seq<CrateTally>, baseline: Seq<CrateTally>) -> Seq<
    Seq<char>,
> {
    labels_fps(labels, results, baseline) + unlisted(results, labels)
}

/// What the class's injected bug is.
pub open spec fn class_what(c: Class) -> Seq<char> {
    match c {
        Class::WrapBarrier => "barrier wrapped in an index-derived `if`"@,
        Class::DeleteBarrier => "barrier deleted (data race)"@,
        Class::WrapCollective => "warp collective wrapped the same way"@,
        Class::ShrinkMask => "full mask shrunk to `0x0000_ffff`"@,
        Class::SwapMutSlice => "`DisjointSlice<T>` param swapped to `&mut [T]`"@,
    }
}

/// A row of the summary table.
pub open spec fn row_text(c: Class, row: (nat, nat, nat, nat)) -> Seq<char> {
    "| "@ + class_slug(c) + " | "@ + class_what(c) + " | "@ + class_code(c) + " | "@ + decimal(row.0) + " | "@
        + decimal(row.1) + " | "@ + percent_text(row.2, row.1) + " | "@ + percent_text(row.3, row.1) + " |\n"@
}

/// The rows of the summary table, one per class.
pub open spec fn table_rows(labels: Seq<Label>, results: Seq<CrateTally>, baseline: Seq<CrateTally>) -> Seq<char> {
    row_text(class_at(0), class_row(labels, results, baseline, class_at(0))) + row_text(
        class_at(1),
        class_row(labels, results, baseline, class_at(1)),
    ) + row_text(class_at(2), class_row(labels, results, baseline, class_at(2))) + row_text(
        class_at(3),
        class_row(labels, results, baseline, class_at(3)),
    ) + row_text(class_at(4), class_row(labels, results, baseline, class_at(4)))
}

/// Each false positive as a list item.
pub open spec fn bullets(fps: Seq<Seq<char>>) -> Seq<char>
    decreases fps.len(),
{
    if fps.len() == 0 {
        Seq::empty()
    } else {
        bullets(fps.drop_last()) + "- "@ + fps.last() + "\n"@
    }
}

/// The precision verdict.
pub open spec fn precision_text(fps: Seq<Seq<char>>, claimed: nat) -> Seq<char> {
    if fps.len() == 0 {
        PRECISION_OK_HEAD@ + decimal(claimed) + PRECISION_OK_TAIL@
    } else {
        PRECISION_FAILED@ + bullets(fps)
    }
}

/// The published report of a run.
pub open spec fn score_report(
    labels: Seq<Label>,
    site_report: Seq<char>,
    baseline: Seq<CrateTally>,
    results: Seq<CrateTally>,
) -> Seq<char> {
    REPORT_INTRO@ + REPORT_ORIGIN@ + SUMMARY_HEAD@ + table_rows(labels, results, baseline) + "\n"@ + precision_text(
        false_positives(labels, results, baseline),
        claimed(labels, results),
    ) + READING@ + SITES_HEAD@ + trim_leading(site_report, SITES_HEADER_LINE@) + "```\n"@
}

/// The counts of crate `c` under (code, kernel) in a tally.
fn counts_at(v: &Vec<CrateTally>, c: &str, code: &str, kernel: &str) -> (r: KeyCounts)
    ensures
        (r.gating as nat, r.total as nat) == counts_of(v@, c@, (code@, kernel@)),
        r == (KeyCounts { gating: 0, total: 0 }) || exists|i: int, j: int|
            0 <= i < v.len() && 0 <= j < v@[i].keys.len() && v@[i].keys@[j].counts == r,
{
    match find_crate(v, c) {
        Some(i) => lookup(&v[i].keys, code, kernel),
        None => KeyCounts { gating: 0, total: 0 },
    }
}

proof fn lemma_keys_gating_prefix(keys: Seq<KeyTally>, j: int)
    requires
        0 <= j <= keys.len(),
    ensures
        keys_gating(keys.take(j)) <= keys_gating(keys),
    decreases keys.len() - j,
{
    if j < keys.len() {
        assert(keys.take(j + 1).drop_last() =~= keys.take(j));
        lemma_keys_gating_prefix(keys, j + 1);
    } else {
        assert(keys.take(j) =~= keys);
    }
}

proof fn lemma_claimed_prefix(labels: Seq<Label>, results: Seq<CrateTally>, i: int)
    requires
        0 <= i <= labels.len(),
    ensures
        claimed(labels.take(i), results) <= claimed(labels, results),
    decreases labels.len() - i,
{
    if i < labels.len() {
        assert(labels.take(i + 1).drop_last() =~= labels.take(i));
        lemma_claimed_prefix(labels, results, i + 1);
    } else {
        assert(labels.take(i) =~= labels);
    }
}

/// Append the false positives among a mutant's keys, adding its gating
/// findings to `total`.
fn key_fps_into(l: &Label, keys: &Vec<KeyTally>, baseline: &Vec<CrateTally>, fps: &mut Vec<String>, total: usize) -> (r:
    usize)
    requires
        total + keys_gating(keys@) <= usize::MAX,
        forall|i: int, j: int|
            0 <= i < baseline.len() && 0 <= j < baseline@[i].keys.len() ==> #[trigger] baseline@[i].keys@[j].counts.gating
                < usize::MAX,
    ensures
        str_views(final(fps)@) == str_views(old(fps)@) + keys_fps(*l, keys@, baseline@),
        r == total + keys_gating(keys@),
{
    let ghost start = str_views(fps@);
    let mut acc = total;
    let mut j: usize = 0;
    assert(keys@.take(0) =~= Seq::<KeyTally>::empty());
    assert(start + keys_fps(*l, keys@.take(0), baseline@) =~= start);
    while j < keys.len()
        invariant
            j <= keys.len(),
            total + keys_gating(keys@) <= usize::MAX,
            forall|i: int, k: int|
                0 <= i < baseline.len() && 0 <= k < baseline@[i].keys.len() ==> #[trigger] baseline@[i].keys@[k].counts.gating
                    < usize::MAX,
            str_views(fps@) == start + keys_fps(*l, keys@.take(j as int), baseline@),
            acc == total + keys_gating(keys@.take(j as int)),
        decreases keys.len() - j,
    {
        let kt = &keys[j];
        proof {
            assert(keys@.take(j + 1).drop_last() =~= keys@.take(j as int));
            assert(keys@.take(j + 1).last() == *kt);
            lemma_keys_gating_prefix(keys@, j + 1);
        }
        let g = kt.counts.gating;
        if g > 0 {
            acc = acc + g;
            let base = counts_at(baseline, l.source_crate.as_str(), kt.code.as_str(), kt.kernel.as_str());
            let mine = str_eq(l.expected.as_str(), kt.code.as_str()) && str_eq(l.kernel.as_str(), kt.kernel.as_str());
            let allowed_here = if mine {
                base.gating + 1
            } else {
                base.gating
            };
            assert(allowed_here == allowed(*l, baseline@, tally_key(*kt)));
            if g > allowed_here {
                let ghost before = fps@;
                let mut m = l.mutant.clone();
                push_str(&mut m, ": ");
                push_str(&mut m, kt.code.as_str());
                push_str(&mut m, " on kernel `");
                push_str(&mut m, kt.kernel.as_str());
                push_str(&mut m, "` — ");
                push_decimal(&mut m, g);
                push_str(&mut m, " gating finding(s), ");
                push_decimal(&mut m, allowed_here);
                push_str(&mut m, " attributable");
                assert(m@ =~= fp_text(*l, *kt, allowed_here as nat));
                fps.push(m);
                assert(str_views(fps@) =~= str_views(before).push(m@));
            }
        }
        j = j + 1;
    }
    assert(keys@.take(j as int) =~= keys@);
    acc
}

/// One class's row of the summary table.
#[derive(Debug, Clone, Copy, PartialEq, Eq, Structural)]
pub struct ClassRow {
    pub emitted: usize,
    pub compiling: usize,
    pub detected_default: usize,
    pub detected_strict: usize,
}

/// A row as plain counts.
pub open spec fn row_view(r: ClassRow) -> (nat, nat, nat, nat) {
    (r.emitted as nat, r.compiling as nat, r.detected_default as nat, r.detected_strict as nat)
}

fn what(c: Class) -> (r: &'static str)
    ensures
        r@ == class_what(c),
{
    match c {
        Class::WrapBarrier => "barrier wrapped in an index-derived `if`",
        Class::DeleteBarrier => "barrier deleted (data race)",
        Class::WrapCollective => "warp collective wrapped the same way",
        Class::ShrinkMask => "full mask shrunk to `0x0000_ffff`",
        Class::SwapMutSlice => "`DisjointSlice<T>` param swapped to `&mut [T]`",
    }
}

fn push_row(md: &mut String, c: Class, row: ClassRow)
    requires
        row.detected_default * 100 <= usize::MAX,
        row.detected_strict * 100 <= usize::MAX,
    ensures
        final(md)@ == old(md)@ + row_text(c, row_view(row)),
{
    let ghost start = md@;
    push_str(md, "| ");
    push_str(md, c.slug());
    push_str(md, " | ");
    push_str(md, what(c));
    push_str(md, " | ");
    push_str(md, c.expected_code());
    push_str(md, " | ");
    push_decimal(md, row.emitted);
    push_str(md, " | ");
    push_decimal(md, row.compiling);
    push_str(md, " | ");
    let d = percent(row.detected_default, row.compiling);
    push_str(md, d.as_str());
    push_str(md, " | ");
    let t = percent(row.detected_strict, row.compiling);
    push_str(md, t.as_str());
    push_str(md, " |\n");
    assert(md@ =~= start + row_text(c, row_view(row)));
}

proof fn lemma_class_row_bounds(labels: Seq<Label>, results: Seq<CrateTally>, baseline: Seq<CrateTally>, c: Class)
    ensures
        ({
            let r = class_row(labels, results, baseline, c);
            r.0 <= labels.len() && r.1 <= r.0 && r.2 <= r.0 && r.3 <= r.0
        }),
    decreases labels.len(),
{
    if labels.len() > 0 {
        lemma_class_row_bounds(labels.drop_last(), results, baseline, c);
    }
}

/// Whether some label names mutant `c`.
fn is_labeled(labels: &Vec<Label>, c: &str) -> (r: bool)
    ensures
        r == labeled(labels@, c@),
{
    let mut i: usize = 0;
    while i < labels.len()
        invariant
            i <= labels.len(),
            forall|j: int| 0 <= j < i ==> (#[trigger] labels@[j]).mutant@ != c@,
        decreases labels.len() - i,
    {
        if str_eq(labels[i].mutant.as_str(), c) {
            return true;
        }
        i = i + 1;
    }
    false
}

/// A label's contribution to its class's row.
fn next_row(l: &Label, row: ClassRow, results: &Vec<CrateTally>, baseline: &Vec<CrateTally>, Ghost(pre): Ghost<Seq<Label>>) -> (r: ClassRow)
    requires
        row_view(row) == class_row(pre, results@, baseline@, l.class),
        pre.len() + 1 <= usize::MAX,
    ensures
        row_view(r) == class_row(pre.push(*l), results@, baseline@, l.class),
{
    proof {
        assert(pre.push(*l).drop_last() =~= pre);
        lemma_class_row_bounds(pre, results@, baseline@, l.class);
    }
    let mut new_row = ClassRow { emitted: row.emitted + 1, ..row };
    if find_crate(results, l.mutant.as_str()).is_some() {
        new_row.compiling = new_row.compiling + 1;
        if !str_eq(l.expected.as_str(), "-") {
            let got = counts_at(results, l.mutant.as_str(), l.expected.as_str(), l.kernel.as_str());
            let had = counts_at(baseline, l.source_crate.as_str(), l.expected.as_str(), l.kernel.as_str());
            if got.gating > had.gating {
                new_row.detected_default = new_row.detected_default + 1;
            }
            if got.total > had.total {
                new_row.detected_strict = new_row.detected_strict + 1;
            }
        }
    }
    new_row
}

/// The rows of every class, the false positives on the labels' mutants,
/// and how many gating findings those mutants show.
fn score_labels(labels: &Vec<Label>, results: &Vec<CrateTally>, baseline: &Vec<CrateTally>) -> (r: (
    Vec<ClassRow>,
    Vec<String>,
    usize,
))
    requires
        labels.len() * 100 <= usize::MAX,
        claimed(labels@, results@) <= usize::MAX,
        forall|i: int, j: int|
            0 <= i < baseline.len() && 0 <= j < baseline@[i].keys.len() ==> #[trigger] baseline@[i].keys@[j].counts.gating
                < usize::MAX,
    ensures
        r.0.len() == 5,
        forall|k: int| 0 <= k < 5 ==> row_view(#[trigger] r.0@[k]) == class_row(labels@, results@, baseline@, class_at(k)),
        str_views(r.1@) == labels_fps(labels@, results@, baseline@),
        r.2 == claimed(labels@, results@),
{
    let zero = ClassRow { emitted: 0, compiling: 0, detected_default: 0, detected_strict: 0 };
    let mut rows: Vec<ClassRow> = vec![zero, zero, zero, zero, zero];
    let mut fps: Vec<String> = Vec::new();
    let mut gating_total: usize = 0;
    let mut i: usize = 0;
    proof {
        assert(labels@.take(0) =~= Seq::<Label>::empty());
    }
    while i < labels.len()
        invariant
            i <= labels.len(),
            labels.len() * 100 <= usize::MAX,
            claimed(labels@, results@) <= usize::MAX,
            forall|a: int, b: int|
                0 <= a < baseline.len() && 0 <= b < baseline@[a].keys.len() ==> #[trigger] baseline@[a].keys@[b].counts.gating
                    < usize::MAX,
            rows.len() == 5,
            forall|k: int|
                0 <= k < 5 ==> row_view(#[trigger] rows@[k]) == class_row(
                    labels@.take(i as int),
                    results@,
                    baseline@,
                    class_at(k),
                ),
            str_views(fps@) == labels_fps(labels@.take(i as int), results@, baseline@),
            gating_total == claimed(labels@.take(i as int), results@),
        decreases labels.len() - i,
    {
        let l = &labels[i];
        let ghost pre = labels@.take(i as int);
        let ghost now = labels@.take(i + 1);
        proof {
            assert(now =~= pre.push(*l));
            assert(now.drop_last() =~= pre);
            lemma_claimed_prefix(labels@, results@, i + 1);
        }
        let k = class_index(l.class);
        let new_row = next_row(l, rows[k], results, baseline, Ghost(pre));
        if let Some(ri) = find_crate(results, l.mutant.as_str()) {
            gating_total = key_fps_into(l, &results[ri].keys, baseline, &mut fps, gating_total);
        }
        assert(str_views(fps@) =~= labels_fps(now, results@, baseline@));
        rows.set(k, new_row);
        proof {
            assert forall|kk: int| 0 <= kk < 5 implies row_view(#[trigger] rows@[kk]) == class_row(
                now,
                results@,
                baseline@,
                class_at(kk),
            ) by {
                if kk != k {
                    assert(class_at(kk) != l.class);
                }
            }
        }
        i = i + 1;
    }
    proof {
        assert(labels@.take(i as int) =~= labels@);
    }
    (rows, fps, gating_total)
}

/// Append the analyzed crates no label claims.
fn unlisted_into(results: &Vec<CrateTally>, labels: &Vec<Label>, fps: &mut Vec<String>)
    ensures
        str_views(final(fps)@) == str_views(old(fps)@) + unlisted(results@, labels@),
{
    let ghost lf = str_views(fps@);
    let mut c: usize = 0;
    assert(results@.take(0) =~= Seq::<CrateTally>::empty());
    assert(lf + unlisted(results@.take(0), labels@) =~= lf);
    while c < results.len()
        invariant
            c <= results.len(),
            str_views(fps@) == lf + unlisted(results@.take(c as int), labels@),
        decreases results.len() - c,
    {
        proof {
            assert(results@.take(c + 1).drop_last() =~= results@.take(c as int));
            assert(results@.take(c + 1).last() == results@[c as int]);
        }
        if !is_labeled(labels, results[c].krate.as_str()) {
            let ghost before = fps@;
            let mut m = results[c].krate.clone();
            push_str(&mut m, ": analyzed but not in labels.tsv");
            fps.push(m);
            assert(str_views(fps@) =~= str_views(before).push(m@));
        }
        c = c + 1;
    }
    proof {
        assert(results@.take(c as int) =~= results@);
    }
}

fn push_precision(md: &mut String, fps: &Vec<String>, total: usize)
    ensures
        final(md)@ == old(md)@ + precision_text(str_views(fps@), total as nat),
{
    let ghost head = md@;
    let ghost all_fps = str_views(fps@);
    if fps.len() == 0 {
        push_str(md, PRECISION_OK_HEAD);
        push_decimal(md, total);
        push_str(md, PRECISION_OK_TAIL);
    } else {
        push_str(md, PRECISION_FAILED);
        let ghost mid = md@;
        let mut f: usize = 0;
        assert(all_fps.take(0) =~= Seq::<Seq<char>>::empty());
        while f < fps.len()
            invariant
                f <= fps.len(),
                all_fps == str_views(fps@),
                md@ == mid + bullets(all_fps.take(f as int)),
            decreases fps.len() - f,
        {
            assert(all_fps.take(f + 1).drop_last() =~= all_fps.take(f as int));
            assert(all_fps[f as int] == fps@[f as int]@);
            push_str(md, "- ");
            push_str(md, fps[f].as_str());
            push_str(md, "\n");
            f = f + 1;
        }
        assert(all_fps.take(f as int) =~= all_fps);
    }
    assert(md@ =~= head + precision_text(all_fps, total as nat));
}

/// Score a run: `Ok` with the report when every gating finding on a
/// mutant is its injected bug or its source example's, `Err` with the
/// same report, listing the false positives, otherwise.
#[verifier::spinoff_prover]
#[verifier::rlimit(50)]
pub fn score(labels: &Vec<Label>, site_report: &str, baseline: &Vec<CrateTally>, results: &Vec<CrateTally>) -> (r: Result<
    String,
    String,
>)
    requires
        labels.len() * 100 <= usize::MAX,
        claimed(labels@, results@) <= usize::MAX,
        forall|i: int, j: int|
            0 <= i < baseline.len() && 0 <= j < baseline@[i].keys.len() ==> #[trigger] baseline@[i].keys@[j].counts.gating
                < usize::MAX,
    ensures
        match r {
            Ok(md) => false_positives(labels@, results@, baseline@).len() == 0 && md@ == score_report(
                labels@,
                site_report@,
                baseline@,
                results@,
            ),
            Err(md) => false_positives(labels@, results@, baseline@).len() > 0 && md@ == score_report(
                labels@,
                site_report@,
                baseline@,
                results@,
            ),
        },
{
    let (rows, mut fps, gating_total) = score_labels(labels, results, baseline);
    unlisted_into(results, labels, &mut fps);
    proof {
        lemma_class_row_bounds(labels@, results@, baseline@, class_at(0));
        lemma_class_row_bounds(labels@, results@, baseline@, class_at(1));
        lemma_class_row_bounds(labels@, results@, baseline@, class_at(2));
        lemma_class_row_bounds(labels@, results@, baseline@, class_at(3));
        lemma_class_row_bounds(labels@, results@, baseline@, class_at(4));
        assert(row_view(rows@[0]) == class_row(labels@, results@, baseline@, class_at(0)));
        assert(row_view(rows@[1]) == class_row(labels@, results@, baseline@, class_at(1)));
        assert(row_view(rows@[2]) == class_row(labels@, results@, baseline@, class_at(2)));
        assert(row_view(rows@[3]) == class_row(labels@, results@, baseline@, class_at(3)));
        assert(row_view(rows@[4]) == class_row(labels@, results@, baseline@, class_at(4)));
    }
    let mut md = owned(REPORT_INTRO);
    push_str(&mut md, REPORT_ORIGIN);
    push_str(&mut md, SUMMARY_HEAD);
    let ghost top = md@;
    push_row(&mut md, Class::WrapBarrier, rows[0]);
    push_row(&mut md, Class::DeleteBarrier, rows[1]);
    push_row(&mut md, Class::WrapCollective, rows[2]);
    push_row(&mut md, Class::ShrinkMask, rows[3]);
    push_row(&mut md, Class::SwapMutSlice, rows[4]);
    assert(md@ =~= top + table_rows(labels@, results@, baseline@));
    push_str(&mut md, "\n");
    push_precision(&mut md, &fps, gating_total);
    push_str(&mut md, READING);
    push_str(&mut md, SITES_HEAD);
    push_str(&mut md, trim_leading_str(site_report, SITES_HEADER_LINE));
    push_str(&mut md, "```\n");
    assert(md@ =~= score_report(labels@, site_report@, baseline@, results@));
    if fps.len() == 0 {
        Ok(md)
    } else {
        Err(md)
    }
}

/// Whether the gating findings the labels' mutants show can be counted
/// in a `usize`.
pub fn claims_fit(labels: &Vec<Label>, results: &Vec<CrateTally>) -> (r: bool)
    ensures
        r == (claimed(labels@, results@) <= usize::MAX),
{
    let mut acc: usize = 0;
    let mut i: usize = 0;
    assert(labels@.take(0) =~= Seq::<Label>::empty());
    while i < labels.len()
        invariant
            i <= labels.len(),
            acc == claimed(labels@.take(i as int), results@),
        decreases labels.len() - i,
    {
        let ghost pre = labels@.take(i as int);
        proof {
            assert(labels@.take(i + 1).drop_last() =~= pre);
            assert(labels@.take(i + 1).last() == labels@[i as int]);
            lemma_claimed_prefix(labels@, results@, i + 1);
        }
        if let Some(ri) = find_crate(results, labels[i].mutant.as_str()) {
            let keys = &results[ri].keys;
            let mut j: usize = 0;
            let ghost base = acc;
            assert(keys@.take(0) =~= Seq::<KeyTally>::empty());
            while j < keys.len()
                invariant
                    j <= keys.len(),
                    acc == base + keys_gating(keys@.take(j as int)),
                    base + keys_gating(keys@) <= claimed(labels@, results@),
                decreases keys.len() - j,
            {
                proof {
                    assert(keys@.take(j + 1).drop_last() =~= keys@.take(j as int));
                    lemma_keys_gating_prefix(keys@, j + 1);
                }
                match acc.checked_add(keys[j].counts.gating) {
                    Some(n) => acc = n,
                    None => return false,
                }
                j = j + 1;
            }
            assert(keys@.take(j as int) =~= keys@);
        }
        i = i + 1;
    }
    assert(labels@.take(i as int) =~= labels@);
    true
}

/// Whether a run's findings can be tallied in `usize` counts.
pub fn run_size_fits(docs: &Vec<RunDoc>) -> (r: bool)
    ensures
        r == (findings_total(docs@) + 1 < usize::MAX),
{
    let mut acc: usize = 0;
    let mut i: usize = 0;
    assert(docs@.take(0) =~= Seq::<RunDoc>::empty());
    while i < docs.len()
        invariant
            i <= docs.len(),
            acc == findings_total(docs@.take(i as int)),
            acc + 1 < usize::MAX,
        decreases docs.len() - i,
    {
        proof {
            lemma_run_prefix(docs@, i as int);
            lemma_total_prefix(docs@, i + 1);
        }
        let n = docs[i].findings.len();
        if n >= usize::MAX - 1 - acc {
            return false;
        }
        acc = acc + n;
        i = i + 1;
    }
    assert(docs@.take(i as int) =~= docs@);
    true
}

} // verus!
