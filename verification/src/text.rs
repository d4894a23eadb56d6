//! Character-level string operations with their meaning stated over
//! `Seq<char>`: the vocabulary every path matcher and message builder in
//! this crate is written in.
use vstd::prelude::*;

verus! {

/// `p` occurs in `s` starting at index `i`.
pub open spec fn occurs_at(s: Seq<char>, p: Seq<char>, i: int) -> bool {
    0 <= i && i + p.len() <= s.len() && s.subrange(i, i + p.len()) == p
}

/// `p` occurs somewhere in `s`.
pub open spec fn contains_seq(s: Seq<char>, p: Seq<char>) -> bool {
    exists|i: int| occurs_at(s, p, i)
}

/// `i` is the first occurrence of `p` in `s`.
pub open spec fn is_first_occurrence(s: Seq<char>, p: Seq<char>, i: int) -> bool {
    occurs_at(s, p, i) && forall|j: int| 0 <= j < i ==> !occurs_at(s, p, j)
}

/// `i` is the last occurrence of `p` in `s`.
pub open spec fn is_last_occurrence(s: Seq<char>, p: Seq<char>, i: int) -> bool {
    occurs_at(s, p, i) && forall|j: int| i < j <= s.len() ==> !occurs_at(s, p, j)
}

/// What follows the last `sep` in `s`, or all of `s` when `sep` does not
/// occur: the first item `rsplit(sep)` yields.
pub open spec fn after_last(s: Seq<char>, sep: Seq<char>) -> Seq<char> {
    if exists|i: int| is_last_occurrence(s, sep, i) {
        let i = choose|i: int| is_last_occurrence(s, sep, i);
        s.skip(i + sep.len())
    } else {
        s
    }
}

/// The characters of `s`, in order.
pub fn chars_of(s: &str) -> (r: Vec<char>)
    ensures
        r@ == s@,
{
    let mut out: Vec<char> = Vec::new();
    for c in it: s.chars()
        invariant
            out@ == it.seq().take(it.index() as int),
    {
        out.push(c);
    }
    out
}

/// Whether `p` occurs in `s` at `i` (slice form).
pub fn matches_at(s: &[char], p: &[char], i: usize) -> (r: bool)
    ensures
        r == occurs_at(s@, p@, i as int),
{
    if i > s.len() || p.len() > s.len() - i {
        return false;
    }
    let mut k: usize = 0;
    while k < p.len()
        invariant
            i + p.len() <= s.len(),
            k <= p.len(),
            forall|j: int| 0 <= j < k ==> s@[i + j] == p@[j],
        decreases p.len() - k,
    {
        if s[i + k] != p[k] {
            assert(s@.subrange(i as int, i + p.len())[k as int] != p@[k as int]);
            return false;
        }
        k = k + 1;
    }
    assert(s@.subrange(i as int, i + p.len()) =~= p@);
    true
}

/// The first occurrence of `p` in `s`, if any.
pub fn find_seq(s: &[char], p: &[char]) -> (r: Option<usize>)
    ensures
        match r {
            Some(i) => is_first_occurrence(s@, p@, i as int),
            None => !contains_seq(s@, p@),
        },
{
    let mut i: usize = 0;
    while i < s.len()
        invariant
            i <= s.len(),
            forall|j: int| 0 <= j < i ==> !occurs_at(s@, p@, j),
        decreases s.len() - i,
    {
        if matches_at(s, p, i) {
            return Some(i);
        }
        i = i + 1;
    }
    if matches_at(s, p, s.len()) {
        return Some(s.len());
    }
    assert forall|j: int| !occurs_at(s@, p@, j) by {
        if 0 <= j && j <= s.len() {
        }
    }
    None
}

/// The last occurrence of `p` in `s`, if any.
pub fn rfind_seq(s: &[char], p: &[char]) -> (r: Option<usize>)
    ensures
        match r {
            Some(i) => is_last_occurrence(s@, p@, i as int),
            None => !contains_seq(s@, p@),
        },
{
    if matches_at(s, p, s.len()) {
        return Some(s.len());
    }
    let mut i: usize = s.len();
    while i > 0
        invariant
            i <= s.len(),
            forall|j: int| i <= j <= s.len() ==> !occurs_at(s@, p@, j),
        decreases i,
    {
        if matches_at(s, p, i - 1) {
            return Some(i - 1);
        }
        i = i - 1;
    }
    assert forall|j: int| !occurs_at(s@, p@, j) by {
        if 0 <= j && j <= s.len() {
        }
    }
    None
}

/// String equality, as the character sequences.
pub fn str_eq(a: &str, b: &str) -> (r: bool)
    ensures
        r == (a@ == b@),
{
    let x = chars_of(a);
    let y = chars_of(b);
    if x.len() != y.len() {
        return false;
    }
    let r = matches_at(x.as_slice(), y.as_slice(), 0);
    proof {
        if r {
            assert(x@.subrange(0, y@.len() as int) =~= x@);
        } else {
            assert(!(x@.subrange(0, y@.len() as int) =~= y@));
            assert(x@.subrange(0, y@.len() as int) =~= x@);
        }
    }
    r
}

/// Whether `s` begins with `p`.
pub fn starts_with(s: &str, p: &str) -> (r: bool)
    ensures
        r == p@.is_prefix_of(s@),
{
    let x = chars_of(s);
    let y = chars_of(p);
    let r = matches_at(x.as_slice(), y.as_slice(), 0);
    proof {
        if r {
            assert forall|i: int| 0 <= i < p@.len() implies p@[i] == s@[i] by {
                assert(x@.subrange(0, y@.len() as int)[i] == s@[i]);
            }
        } else if p@.len() <= s@.len() {
            if p@.is_prefix_of(s@) {
                assert(x@.subrange(0, y@.len() as int) =~= y@);
            }
        }
    }
    r
}

/// Whether `s` ends with `p`.
pub fn ends_with(s: &str, p: &str) -> (r: bool)
    ensures
        r == p@.is_suffix_of(s@),
{
    let x = chars_of(s);
    let y = chars_of(p);
    if y.len() > x.len() {
        return false;
    }
    let at = x.len() - y.len();
    let r = matches_at(x.as_slice(), y.as_slice(), at);
    proof {
        if r {
            assert forall|i: int| 0 <= i < p@.len() implies p@[i] == s@[s@.len() - p@.len() + i] by {
                assert(x@.subrange(at as int, at + y@.len())[i] == s@[at + i]);
            }
        } else if p@.is_suffix_of(s@) {
            assert(x@.subrange(at as int, at + y@.len()) =~= y@);
        }
    }
    r
}

/// Whether `p` occurs anywhere in `s`.
pub fn contains_str(s: &str, p: &str) -> (r: bool)
    ensures
        r == contains_seq(s@, p@),
{
    let x = chars_of(s);
    let y = chars_of(p);
    find_seq(x.as_slice(), y.as_slice()).is_some()
}

/// `s` without its prefix `p`, when `s` begins with `p`.
pub fn strip_prefix<'a>(s: &'a str, p: &str) -> (r: Option<&'a str>)
    ensures
        match r {
            Some(rest) => p@.is_prefix_of(s@) && rest@ == s@.skip(p@.len() as int),
            None => !p@.is_prefix_of(s@),
        },
{
    if starts_with(s, p) {
        let n = s.unicode_len();
        let k = p.unicode_len();
        let rest = s.substring_char(k, n);
        assert(rest@ =~= s@.skip(p@.len() as int));
        Some(rest)
    } else {
        None
    }
}

/// `s` without its suffix `p`, when `s` ends with `p`.
pub fn strip_suffix<'a>(s: &'a str, p: &str) -> (r: Option<&'a str>)
    ensures
        match r {
            Some(rest) => p@.is_suffix_of(s@) && rest@ == s@.take(s@.len() - p@.len()),
            None => !p@.is_suffix_of(s@),
        },
{
    if ends_with(s, p) {
        let n = s.unicode_len();
        let k = p.unicode_len();
        let rest = s.substring_char(0, n - k);
        assert(rest@ =~= s@.take(s@.len() - p@.len()));
        Some(rest)
    } else {
        None
    }
}

/// The part of `s` after the last `sep` (all of `s` when there is none):
/// what `s.rsplit(sep).next()` yields.
pub fn after_last_str<'a>(s: &'a str, sep: &str) -> (r: &'a str)
    ensures
        r@ == after_last(s@, sep@),
{
    let x = chars_of(s);
    let y = chars_of(sep);
    match rfind_seq(x.as_slice(), y.as_slice()) {
        Some(i) => {
            proof {
                let j = choose|j: int| is_last_occurrence(s@, sep@, j);
                assert(j == i as int) by {
                    if j < i {
                    } else if j > i {
                    }
                }
            }
            let n = s.unicode_len();
            let rest = s.substring_char(i + y.len(), n);
            assert(rest@ =~= s@.skip(i + sep@.len()));
            rest
        },
        None => {
            assert(!exists|i: int| is_last_occurrence(s@, sep@, i));
            s
        },
    }
}

/// The two halves around the first `sep` character, as `split_once(sep)`
/// returns them.
pub fn split_once_char<'a>(s: &'a str, sep: char) -> (r: Option<(&'a str, &'a str)>)
    ensures
        match r {
            Some((a, b)) => exists|i: int|
                0 <= i < s@.len() && s@[i] == sep && (forall|j: int| 0 <= j < i ==> s@[j] != sep)
                    && a@ == s@.take(i) && b@ == s@.skip(i + 1),
            None => forall|j: int| 0 <= j < s@.len() ==> s@[j] != sep,
        },
{
    let x = chars_of(s);
    let mut i: usize = 0;
    while i < x.len()
        invariant
            x@ == s@,
            i <= x.len(),
            forall|j: int| 0 <= j < i ==> s@[j] != sep,
        decreases x.len() - i,
    {
        if x[i] == sep {
            let n = x.len();
            let a = s.substring_char(0, i);
            let b = s.substring_char(i + 1, n);
            assert(a@ =~= s@.take(i as int));
            assert(b@ =~= s@.skip(i + 1));
            return Some((a, b));
        }
        i = i + 1;
    }
    None
}

/// Append one character; `String::push`.
#[verifier::external_body]
pub fn push_char(s: &mut String, c: char)
    ensures
        final(s)@ == old(s)@.push(c),
{
    s.push(c);
}

/// Append a string slice.
pub fn push_str(s: &mut String, t: &str)
    ensures
        final(s)@ == old(s)@ + t@,
{
    s.append(t);
}

/// An owned copy of `s`.
pub fn owned(s: &str) -> (r: String)
    ensures
        r@ == s@,
{
    String::from_str(s)
}

/// The decimal digit for `d < 10`.
pub open spec fn digit_char(d: int) -> char {
    if d == 0 { '0' }
    else if d == 1 { '1' }
    else if d == 2 { '2' }
    else if d == 3 { '3' }
    else if d == 4 { '4' }
    else if d == 5 { '5' }
    else if d == 6 { '6' }
    else if d == 7 { '7' }
    else if d == 8 { '8' }
    else { '9' }
}

/// The decimal spelling of `n`, without leading zeros.
pub open spec fn decimal(n: nat) -> Seq<char>
    decreases n,
{
    if n < 10 {
        seq![digit_char(n as int)]
    } else {
        decimal(n / 10).push(digit_char((n % 10) as int))
    }
}

fn digit(d: usize) -> (c: char)
    requires
        d < 10,
    ensures
        c == digit_char(d as int),
{
    if d == 0 { '0' }
    else if d == 1 { '1' }
    else if d == 2 { '2' }
    else if d == 3 { '3' }
    else if d == 4 { '4' }
    else if d == 5 { '5' }
    else if d == 6 { '6' }
    else if d == 7 { '7' }
    else if d == 8 { '8' }
    else { '9' }
}

/// Append the decimal spelling of `n`.
pub fn push_decimal(s: &mut String, n: usize)
    ensures
        final(s)@ == old(s)@ + decimal(n as nat),
    decreases n,
{
    if n < 10 {
        push_char(s, digit(n));
        assert(old(s)@.push(digit_char(n as int)) =~= old(s)@ + decimal(n as nat));
    } else {
        push_decimal(s, n / 10);
        push_char(s, digit(n % 10));
        assert(old(s)@ + decimal(n as nat) =~= (old(s)@ + decimal((n / 10) as nat)).push(
            digit_char((n % 10) as int),
        ));
    }
}

/// Append the decimal spelling of a 64-bit `n`.
pub fn push_decimal_u64(s: &mut String, n: u64)
    ensures
        final(s)@ == old(s)@ + decimal(n as nat),
    decreases n,
{
    if n < 10 {
        push_char(s, digit(n as usize));
        assert(old(s)@.push(digit_char(n as int)) =~= old(s)@ + decimal(n as nat));
    } else {
        push_decimal_u64(s, n / 10);
        push_char(s, digit((n % 10) as usize));
        assert(old(s)@ + decimal(n as nat) =~= (old(s)@ + decimal((n / 10) as nat)).push(
            digit_char((n % 10) as int),
        ));
    }
}

/// The decimal spelling of `n`, as `n.to_string()` gives it.
pub fn decimal_string(n: usize) -> (r: String)
    ensures
        r@ == decimal(n as nat),
{
    let mut s = String::new();
    push_decimal(&mut s, n);
    assert(Seq::<char>::empty() + decimal(n as nat) =~= decimal(n as nat));
    s
}


/// The lowercase hexadecimal digit for `d < 16`.
pub open spec fn hex_digit_char(d: int) -> char {
    if d < 10 {
        digit_char(d)
    } else if d == 10 {
        'a'
    } else if d == 11 {
        'b'
    } else if d == 12 {
        'c'
    } else if d == 13 {
        'd'
    } else if d == 14 {
        'e'
    } else {
        'f'
    }
}

/// The lowercase hexadecimal spelling of `n`, without leading zeros.
pub open spec fn hex(n: nat) -> Seq<char>
    decreases n,
{
    if n < 16 {
        seq![hex_digit_char(n as int)]
    } else {
        hex(n / 16).push(hex_digit_char((n % 16) as int))
    }
}

/// `0x` and the hexadecimal spelling of `n` zero-padded to eight digits,
/// as `{:#010x}` prints it.
pub open spec fn hex_width8(n: nat) -> Seq<char> {
    "0x"@ + Seq::new(
        if hex(n).len() < 8 {
            (8 - hex(n).len()) as nat
        } else {
            0
        },
        |i: int| '0',
    ) + hex(n)
}

fn hex_digit(d: u64) -> (c: char)
    requires
        d < 16,
    ensures
        c == hex_digit_char(d as int),
{
    if d < 10 {
        digit(d as usize)
    } else if d == 10 {
        'a'
    } else if d == 11 {
        'b'
    } else if d == 12 {
        'c'
    } else if d == 13 {
        'd'
    } else if d == 14 {
        'e'
    } else {
        'f'
    }
}

/// Append the hexadecimal spelling of `n`.
pub fn push_hex(s: &mut String, n: u64)
    ensures
        final(s)@ == old(s)@ + hex(n as nat),
    decreases n,
{
    if n < 16 {
        push_char(s, hex_digit(n));
        assert(old(s)@.push(hex_digit_char(n as int)) =~= old(s)@ + hex(n as nat));
    } else {
        push_hex(s, n / 16);
        push_char(s, hex_digit(n % 16));
        assert(old(s)@ + hex(n as nat) =~= (old(s)@ + hex((n / 16) as nat)).push(hex_digit_char((n % 16) as int)));
    }
}

/// Append `n` as `{:#010x}` prints it.
pub fn push_hex_width8(s: &mut String, n: u64)
    ensures
        final(s)@ == old(s)@ + hex_width8(n as nat),
{
    let mut digits = String::new();
    push_hex(&mut digits, n);
    assert(digits@ =~= hex(n as nat));
    let len = digits.unicode_len();
    let ghost start = s@;
    push_str(s, "0x");
    let ghost mid = s@;
    let mut k: usize = len;
    while k < 8
        invariant
            len <= k <= 8 || (len > 8 && k == len),
            s@ == mid + Seq::new((k - len) as nat, |i: int| '0'),
        decreases 8 - k,
    {
        push_char(s, '0');
        assert(s@ =~= mid + Seq::new((k + 1 - len) as nat, |i: int| '0'));
        k = k + 1;
    }
    push_str(s, digits.as_str());
    assert(s@ =~= start + hex_width8(n as nat));
}

/// A string occurs first at one place only.
pub proof fn lemma_first_occurrence_unique(s: Seq<char>, p: Seq<char>, i: int, j: int)
    requires
        is_first_occurrence(s, p, i),
        is_first_occurrence(s, p, j),
    ensures
        i == j,
{
}

/// The two halves around the first `sep`, as `split_once(sep)` returns
/// them.
pub fn split_once_str<'a>(s: &'a str, sep: &str) -> (r: Option<(&'a str, &'a str)>)
    ensures
        match r {
            Some((a, b)) => exists|i: int|
                is_first_occurrence(s@, sep@, i) && a@ == s@.take(i) && b@ == s@.skip(i + sep@.len()),
            None => !contains_seq(s@, sep@),
        },
{
    let x = chars_of(s);
    let y = chars_of(sep);
    match find_seq(x.as_slice(), y.as_slice()) {
        Some(i) => {
            let n = s.unicode_len();
            let a = s.substring_char(0, i);
            let b = s.substring_char(i + y.len(), n);
            assert(a@ =~= s@.take(i as int));
            assert(b@ =~= s@.skip(i + sep@.len()));
            Some((a, b))
        },
        None => None,
    }
}

/// The strings of `v` with `sep` between them.
pub open spec fn joined(v: Seq<Seq<char>>, sep: Seq<char>) -> Seq<char>
    decreases v.len(),
{
    if v.len() == 0 {
        Seq::empty()
    } else if v.len() == 1 {
        v[0]
    } else {
        joined(v.drop_last(), sep) + sep + v.last()
    }
}

/// `v.join(sep)`.
pub fn join_strings(v: &Vec<String>, sep: &str) -> (r: String)
    ensures
        r@ == joined(v@.map_values(|x: String| x@), sep@),
{
    let mut out = String::new();
    let mut i: usize = 0;
    while i < v.len()
        invariant
            i <= v.len(),
            out@ == joined(v@.take(i as int).map_values(|x: String| x@), sep@),
        decreases v.len() - i,
    {
        let ghost before = v@.take(i as int).map_values(|x: String| x@);
        let ghost after = v@.take(i + 1).map_values(|x: String| x@);
        assert(after.drop_last() =~= before);
        if i > 0 {
            push_str(&mut out, sep);
        }
        push_str(&mut out, v[i].as_str());
        proof {
            if i == 0 {
                assert(after.len() == 1);
                assert(out@ =~= after[0]);
            } else {
                assert(out@ =~= joined(before, sep@) + sep@ + after.last());
            }
        }
        i = i + 1;
    }
    assert(v@.take(v.len() as int) =~= v@);
    out
}

/// The Unicode `White_Space` property, as `char::is_whitespace` reads it.
pub open spec fn spec_is_whitespace(c: char) -> bool {
    ||| ('\t' <= c && c <= '\r')
    ||| c == ' '
    ||| c == '\u{85}'
    ||| c == '\u{a0}'
    ||| c == '\u{1680}'
    ||| ('\u{2000}' <= c && c <= '\u{200a}')
    ||| c == '\u{2028}'
    ||| c == '\u{2029}'
    ||| c == '\u{202f}'
    ||| c == '\u{205f}'
    ||| c == '\u{3000}'
}

/// Whether `c` is white space.
pub fn is_whitespace(c: char) -> (r: bool)
    ensures
        r == spec_is_whitespace(c),
{
    ('\t' <= c && c <= '\r') || c == ' ' || c == '\u{85}' || c == '\u{a0}' || c == '\u{1680}' || (
    '\u{2000}' <= c && c <= '\u{200a}') || c == '\u{2028}' || c == '\u{2029}' || c == '\u{202f}' || c
        == '\u{205f}' || c == '\u{3000}'
}

/// Nothing but white space: what is left after `trim` is empty.
pub open spec fn is_blank(s: Seq<char>) -> bool {
    forall|i: int| 0 <= i < s.len() ==> spec_is_whitespace(#[trigger] s[i])
}

/// Whether `s.trim()` is empty.
pub fn blank(s: &str) -> (r: bool)
    ensures
        r == is_blank(s@),
{
    let cs = chars_of(s);
    let mut i: usize = 0;
    while i < cs.len()
        invariant
            cs@ == s@,
            i <= cs.len(),
            forall|k: int| 0 <= k < i ==> spec_is_whitespace(#[trigger] cs@[k]),
        decreases cs.len() - i,
    {
        if !is_whitespace(cs[i]) {
            return false;
        }
        i = i + 1;
    }
    true
}

/// `a` sorts before `b`, character by character.
pub open spec fn seq_lt(a: Seq<char>, b: Seq<char>) -> bool
    decreases a.len(),
{
    if a.len() == 0 {
        b.len() > 0
    } else if b.len() == 0 {
        false
    } else if a[0] != b[0] {
        a[0] < b[0]
    } else {
        seq_lt(a.drop_first(), b.drop_first())
    }
}

/// No string sorts before itself.
pub proof fn lemma_seq_lt_irreflexive(a: Seq<char>)
    ensures
        !seq_lt(a, a),
    decreases a.len(),
{
    if a.len() > 0 {
        lemma_seq_lt_irreflexive(a.drop_first());
    }
}

/// The string order is transitive.
pub proof fn lemma_seq_lt_transitive(a: Seq<char>, b: Seq<char>, c: Seq<char>)
    requires
        seq_lt(a, b),
        seq_lt(b, c),
    ensures
        seq_lt(a, c),
    decreases a.len(),
{
    if a.len() > 0 && b.len() > 0 && c.len() > 0 && a[0] == b[0] && b[0] == c[0] {
        lemma_seq_lt_transitive(a.drop_first(), b.drop_first(), c.drop_first());
    }
}

/// The string order is asymmetric.
pub proof fn lemma_seq_lt_asymmetric(a: Seq<char>, b: Seq<char>)
    requires
        seq_lt(a, b),
    ensures
        !seq_lt(b, a),
        a != b,
    decreases a.len(),
{
    if a.len() > 0 && b.len() > 0 && a[0] == b[0] {
        lemma_seq_lt_asymmetric(a.drop_first(), b.drop_first());
        if a == b {
            assert(a.drop_first() == b.drop_first());
        }
    }
}

/// Any two strings are ordered one way or the other, or equal.
pub proof fn lemma_seq_lt_total(a: Seq<char>, b: Seq<char>)
    ensures
        seq_lt(a, b) || seq_lt(b, a) || a == b,
    decreases a.len(),
{
    if a.len() > 0 && b.len() > 0 && a[0] == b[0] {
        lemma_seq_lt_total(a.drop_first(), b.drop_first());
        if a.drop_first() == b.drop_first() {
            assert(a =~= seq![a[0]] + a.drop_first());
            assert(b =~= seq![b[0]] + b.drop_first());
        }
    } else if a.len() == 0 && b.len() == 0 {
        assert(a =~= b);
    }
}

/// Whether `a` sorts before `b`.
pub fn str_lt(a: &str, b: &str) -> (r: bool)
    ensures
        r == seq_lt(a@, b@),
{
    let x = chars_of(a);
    let y = chars_of(b);
    let mut i: usize = 0;
    assert(a@.skip(0) =~= a@);
    assert(b@.skip(0) =~= b@);
    while i < x.len() && i < y.len()
        invariant
            x@ == a@,
            y@ == b@,
            i <= x.len(),
            i <= y.len(),
            seq_lt(a@, b@) == seq_lt(a@.skip(i as int), b@.skip(i as int)),
        decreases x.len() - i,
    {
        assert(a@.skip(i as int)[0] == x@[i as int]);
        assert(b@.skip(i as int)[0] == y@[i as int]);
        if x[i] != y[i] {
            return x[i] < y[i];
        }
        assert(a@.skip(i as int).drop_first() =~= a@.skip(i + 1));
        assert(b@.skip(i as int).drop_first() =~= b@.skip(i + 1));
        i = i + 1;
    }
    i < y.len()
}

/// The pieces of `s` between the `sep` characters, as `split(sep)` yields
/// them: one more piece than there are separators.
pub open spec fn split_on(s: Seq<char>, sep: char) -> Seq<Seq<char>>
    decreases s.len(),
{
    if s.len() == 0 {
        seq![Seq::<char>::empty()]
    } else if s.last() == sep {
        split_on(s.drop_last(), sep).push(Seq::<char>::empty())
    } else {
        let p = split_on(s.drop_last(), sep);
        p.update(p.len() - 1, p.last().push(s.last()))
    }
}

proof fn lemma_split_on_nonempty(s: Seq<char>, sep: char)
    ensures
        split_on(s, sep).len() >= 1,
    decreases s.len(),
{
    if s.len() > 0 {
        lemma_split_on_nonempty(s.drop_last(), sep);
    }
}

/// `s` split at every `sep`.
pub fn split_chars(s: &str, sep: char) -> (r: Vec<String>)
    ensures
        str_views(r@) == split_on(s@, sep),
{
    let x = chars_of(s);
    let mut done: Vec<String> = Vec::new();
    let mut cur = String::new();
    let mut i: usize = 0;
    assert(s@.take(0) =~= Seq::<char>::empty());
    while i < x.len()
        invariant
            x@ == s@,
            i <= x.len(),
            str_views(done@).push(cur@) == split_on(s@.take(i as int), sep),
        decreases x.len() - i,
    {
        let c = x[i];
        proof {
            assert(s@.take(i + 1).drop_last() =~= s@.take(i as int));
            assert(s@.take(i + 1).last() == c);
            lemma_split_on_nonempty(s@.take(i as int), sep);
        }
        if c == sep {
            let ghost before = done@;
            done.push(cur);
            cur = String::new();
            assert(str_views(done@) =~= str_views(before).push(split_on(s@.take(i as int), sep).last()));
            assert(str_views(done@).push(cur@) =~= split_on(s@.take(i + 1), sep));
        } else {
            let ghost prev = split_on(s@.take(i as int), sep);
            push_char(&mut cur, c);
            assert(str_views(done@).push(cur@) =~= prev.update(prev.len() - 1, prev.last().push(c)));
        }
        i = i + 1;
    }
    assert(s@.take(x.len() as int) =~= s@);
    done.push(cur);
    done
}

/// A line without the `\r` of a `\r\n` ending.
pub open spec fn strip_cr(p: Seq<char>) -> Seq<char> {
    if p.len() > 0 && p.last() == '\r' {
        p.drop_last()
    } else {
        p
    }
}

/// The lines of `s`, as `lines()` yields them: split at `\n`, a `\r`
/// before it dropped, and no empty line after a final line ending.
pub open spec fn text_lines(s: Seq<char>) -> Seq<Seq<char>> {
    let parts = split_on(s, '\n');
    let n = parts.len() - 1;
    let ended = parts.take(n).map_values(|p: Seq<char>| strip_cr(p));
    if parts[n].len() == 0 {
        ended
    } else {
        ended.push(parts[n])
    }
}

fn without_cr(p: String) -> (r: String)
    ensures
        r@ == strip_cr(p@),
{
    let x = chars_of(p.as_str());
    if x.len() > 0 && x[x.len() - 1] == '\r' {
        let n = x.len() - 1;
        let t = p.as_str().substring_char(0, n);
        assert(t@ =~= p@.drop_last());
        owned(t)
    } else {
        p
    }
}

/// The lines of `s`.
pub fn lines_of(s: &str) -> (r: Vec<String>)
    ensures
        str_views(r@) == text_lines(s@),
{
    let mut parts = split_chars(s, '\n');
    proof {
        lemma_split_on_nonempty(s@, '\n');
    }
    let ghost all = str_views(parts@);
    let n = parts.len() - 1;
    let last = parts.pop().unwrap();
    assert(str_views(parts@) =~= all.take(n as int));
    let mut out: Vec<String> = Vec::new();
    let mut i: usize = 0;
    while i < n
        invariant
            n == parts.len(),
            all.len() == n + 1,
            str_views(parts@) == all.take(n as int),
            i <= n,
            str_views(out@) == all.take(i as int).map_values(|p: Seq<char>| strip_cr(p)),
        decreases n - i,
    {
        let ghost before = out@;
        assert(str_views(parts@)[i as int] == parts@[i as int]@);
        assert(all.take(n as int)[i as int] == all[i as int]);
        let piece = without_cr(parts[i].clone());
        assert(piece@ == strip_cr(all[i as int]));
        out.push(piece);
        assert(str_views(out@) =~= str_views(before).push(strip_cr(all[i as int])));
        assert(str_views(out@) =~= all.take(i + 1).map_values(|p: Seq<char>| strip_cr(p)));
        i = i + 1;
    }
    if last.unicode_len() > 0 {
        out.push(last);
        assert(str_views(out@) =~= text_lines(s@));
    } else {
        assert(str_views(out@) =~= text_lines(s@));
    }
    out
}

/// `s` with every leading repetition of `p` removed, as
/// `trim_start_matches(p)` leaves it (`p` non-empty).
pub open spec fn trim_leading(s: Seq<char>, p: Seq<char>) -> Seq<char>
    decreases s.len(),
{
    if p.len() > 0 && p.is_prefix_of(s) {
        trim_leading(s.skip(p.len() as int), p)
    } else {
        s
    }
}

/// `s` with every leading repetition of `p` removed.
pub fn trim_leading_str<'a>(s: &'a str, p: &str) -> (r: &'a str)
    ensures
        r@ == trim_leading(s@, p@),
{
    let mut rest = s;
    while p.unicode_len() > 0 && starts_with(rest, p)
        invariant
            trim_leading(rest@, p@) == trim_leading(s@, p@),
        decreases rest@.len(),
    {
        let n = p.unicode_len();
        let m = rest.unicode_len();
        let next = rest.substring_char(n, m);
        assert(next@ =~= rest@.skip(p@.len() as int));
        rest = next;
    }
    rest
}

/// `s` without its leading white space.
pub open spec fn trim_start_ws(s: Seq<char>) -> Seq<char>
    decreases s.len(),
{
    if s.len() > 0 && spec_is_whitespace(s[0]) {
        trim_start_ws(s.drop_first())
    } else {
        s
    }
}

/// `s` without its trailing white space.
pub open spec fn trim_end_ws(s: Seq<char>) -> Seq<char>
    decreases s.len(),
{
    if s.len() > 0 && spec_is_whitespace(s.last()) {
        trim_end_ws(s.drop_last())
    } else {
        s
    }
}

/// `s` without white space at either end, as `trim` leaves it.
pub open spec fn trimmed(s: Seq<char>) -> Seq<char> {
    trim_end_ws(trim_start_ws(s))
}

/// `s` trimmed of white space at both ends.
pub fn trim_str(s: &str) -> (r: &str)
    ensures
        r@ == trimmed(s@),
{
    let x = chars_of(s);
    let mut a: usize = 0;
    assert(s@.subrange(0, s@.len() as int) =~= s@);
    while a < x.len() && is_whitespace(x[a])
        invariant
            x@ == s@,
            a <= x.len(),
            trim_start_ws(s@) == trim_start_ws(s@.subrange(a as int, s@.len() as int)),
        decreases x.len() - a,
    {
        assert(s@.subrange(a as int, s@.len() as int).drop_first() =~= s@.subrange(a + 1, s@.len() as int));
        a = a + 1;
    }
    let ghost front = s@.subrange(a as int, s@.len() as int);
    assert(trim_start_ws(front) == front);
    let mut b: usize = x.len();
    assert(front.subrange(0, (b - a) as int) =~= front);
    while b > a && is_whitespace(x[b - 1])
        invariant
            x@ == s@,
            a <= b <= x.len(),
            front == s@.subrange(a as int, s@.len() as int),
            trim_end_ws(front) == trim_end_ws(s@.subrange(a as int, b as int)),
        decreases b,
    {
        assert(s@.subrange(a as int, b as int).drop_last() =~= s@.subrange(a as int, b - 1));
        b = b - 1;
    }
    let r = s.substring_char(a, b);
    assert(r@ =~= s@.subrange(a as int, b as int));
    r
}

/// `s` with every occurrence of `from` (non-empty) replaced by `to`,
/// scanning left to right, as `replace` does.
pub open spec fn replace_all(s: Seq<char>, from: Seq<char>, to: Seq<char>) -> Seq<char>
    decreases s.len(),
{
    if from.len() == 0 || s.len() == 0 {
        s
    } else if from.is_prefix_of(s) {
        to + replace_all(s.skip(from.len() as int), from, to)
    } else {
        seq![s[0]] + replace_all(s.drop_first(), from, to)
    }
}

/// `s` with every occurrence of `from` (non-empty) replaced by `to`.
pub fn replace_str(s: &str, from: &str, to: &str) -> (r: String)
    requires
        from@.len() > 0,
    ensures
        r@ == replace_all(s@, from@, to@),
{
    let x = chars_of(s);
    let f = chars_of(from);
    let mut out = String::new();
    let mut i: usize = 0;
    assert(s@.skip(0) =~= s@);
    while i < x.len()
        invariant
            x@ == s@,
            f@ == from@,
            from@.len() > 0,
            i <= x.len(),
            out@ + replace_all(s@.skip(i as int), from@, to@) == replace_all(s@, from@, to@),
        decreases x.len() - i,
    {
        let ghost rest = s@.skip(i as int);
        if matches_at(x.as_slice(), f.as_slice(), i) {
            assert(rest.subrange(0, from@.len() as int) =~= s@.subrange(i as int, i + from@.len()));
            assert(from@.is_prefix_of(rest));
            assert(rest.skip(from@.len() as int) =~= s@.skip(i + f.len()));
            push_str(&mut out, to);
            i = i + f.len();
        } else {
            assert(!from@.is_prefix_of(rest)) by {
                if from@.is_prefix_of(rest) {
                    assert(s@.subrange(i as int, i + from@.len()) =~= rest.subrange(0, from@.len() as int));
                }
            }
            assert(rest.drop_first() =~= s@.skip(i + 1));
            assert(rest[0] == x@[i as int]);
            push_char(&mut out, x[i]);
            i = i + 1;
        }
    }
    assert(s@.skip(i as int) =~= Seq::<char>::empty());
    out
}

/// Pairs of strings in order: by the first, then by the second.
pub open spec fn pair_lt(a: (Seq<char>, Seq<char>), b: (Seq<char>, Seq<char>)) -> bool {
    seq_lt(a.0, b.0) || (a.0 == b.0 && seq_lt(a.1, b.1))
}

/// The pair order is a strict total order.
pub proof fn lemma_pair_order(a: (Seq<char>, Seq<char>), b: (Seq<char>, Seq<char>), c: (Seq<char>, Seq<char>))
    ensures
        !pair_lt(a, a),
        pair_lt(a, b) ==> !pair_lt(b, a),
        pair_lt(a, b) && pair_lt(b, c) ==> pair_lt(a, c),
        pair_lt(a, b) || pair_lt(b, a) || a == b,
{
    lemma_seq_lt_irreflexive(a.0);
    lemma_seq_lt_irreflexive(a.1);
    lemma_seq_lt_total(a.0, b.0);
    lemma_seq_lt_total(a.1, b.1);
    if seq_lt(a.0, b.0) {
        lemma_seq_lt_asymmetric(a.0, b.0);
    }
    if seq_lt(a.1, b.1) {
        lemma_seq_lt_asymmetric(a.1, b.1);
    }
    if seq_lt(a.0, b.0) && seq_lt(b.0, c.0) {
        lemma_seq_lt_transitive(a.0, b.0, c.0);
    }
    if seq_lt(a.1, b.1) && seq_lt(b.1, c.1) {
        lemma_seq_lt_transitive(a.1, b.1, c.1);
    }
}

/// The views of a sequence of strings.
pub open spec fn str_views(v: Seq<String>) -> Seq<Seq<char>> {
    v.map_values(|s: String| s@)
}

/// Ascending, character by character.
pub open spec fn sorted_strs(s: Seq<Seq<char>>) -> bool {
    forall|i: int, j: int| 0 <= i < j < s.len() ==> !seq_lt(#[trigger] s[j], #[trigger] s[i])
}

proof fn lemma_insert_sorted_str(s: Seq<Seq<char>>, p: int, e: Seq<char>)
    requires
        sorted_strs(s),
        0 <= p <= s.len(),
        forall|j: int| 0 <= j < p ==> !seq_lt(e, #[trigger] s[j]),
        p < s.len() ==> seq_lt(e, s[p]),
    ensures
        sorted_strs(s.insert(p, e)),
{
    let t = s.insert(p, e);
    assert forall|i: int, j: int| 0 <= i < j < t.len() implies !seq_lt(#[trigger] t[j], #[trigger] t[i]) by {
        if i < p && j == p {
            lemma_seq_lt_total(e, s[i]);
            if seq_lt(e, s[i]) {
            } else if e == s[i] {
                lemma_seq_lt_irreflexive(e);
            } else {
                lemma_seq_lt_asymmetric(s[i], e);
            }
        } else if i == p && j > p {
            lemma_seq_lt_asymmetric(e, s[p]);
            if j - 1 > p {
                lemma_seq_lt_total(s[p], s[j - 1]);
                if seq_lt(s[j - 1], e) {
                    lemma_seq_lt_total(s[j - 1], s[p]);
                    if seq_lt(s[p], s[j - 1]) {
                        lemma_seq_lt_transitive(e, s[p], s[j - 1]);
                        lemma_seq_lt_asymmetric(e, s[j - 1]);
                    } else if s[p] == s[j - 1] {
                        lemma_seq_lt_asymmetric(e, s[p]);
                    }
                }
            }
        }
    }
}

/// `v` sorted ascending, character by character (byte order for UTF-8).
pub fn sort_strings(v: Vec<String>) -> (r: Vec<String>)
    ensures
        sorted_strs(str_views(r@)),
        str_views(r@).to_multiset() == str_views(v@).to_multiset(),
{
    let ghost input = str_views(v@);
    let mut rest = v;
    let mut sorted: Vec<String> = Vec::new();
    proof {
        vstd::seq_lib::to_multiset_len(str_views(sorted@));
        vstd::multiset::lemma_multiset_empty_len(str_views(sorted@).to_multiset());
        assert(str_views(sorted@).to_multiset().add(str_views(rest@).to_multiset()) =~= input.to_multiset());
    }
    while rest.len() > 0
        invariant
            sorted_strs(str_views(sorted@)),
            str_views(sorted@).to_multiset().add(str_views(rest@).to_multiset()) == input.to_multiset(),
        decreases rest.len(),
    {
        let ghost before_rest = rest@;
        let ghost before_sorted = sorted@;
        let e = rest.pop().unwrap();
        proof {
            assert(before_rest =~= rest@.push(e));
            assert(str_views(before_rest) =~= str_views(rest@).push(e@));
            vstd::seq_lib::to_multiset_build(str_views(rest@), e@);
        }
        let mut p: usize = 0;
        while p < sorted.len() && !str_lt(e.as_str(), sorted[p].as_str())
            invariant
                p <= sorted.len(),
                forall|j: int| 0 <= j < p ==> !seq_lt(e@, #[trigger] str_views(sorted@)[j]),
            decreases sorted.len() - p,
        {
            p = p + 1;
        }
        let ghost ev = e@;
        sorted.insert(p, e);
        proof {
            assert(str_views(sorted@) =~= str_views(before_sorted).insert(p as int, ev));
            lemma_insert_sorted_str(str_views(before_sorted), p as int, ev);
            vstd::seq_lib::to_multiset_insert(str_views(before_sorted), p as int, ev);
            assert(str_views(sorted@).to_multiset().add(str_views(rest@).to_multiset()) =~= input.to_multiset());
        }
    }
    proof {
        vstd::seq_lib::to_multiset_len(str_views(rest@));
        vstd::multiset::lemma_multiset_empty_len(str_views(rest@).to_multiset());
        assert(str_views(sorted@).to_multiset() =~= input.to_multiset());
    }
    sorted
}

} // verus!
