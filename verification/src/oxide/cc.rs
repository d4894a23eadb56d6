//! Compute-capability limits table.
//!
//! Static shared memory is capped at 48 KiB per kernel on every listed
//! architecture; the per-block capacity (the opt-in maximum, static and
//! dynamic together) differs per architecture and gives the diagnostic its
//! "what this target could ever offer" context.
use vstd::prelude::*;

use crate::text::{
    decimal, join_strings, joined, owned, push_char, push_decimal, push_str, split_once_char,
};

verus! {

/// Hard per-kernel cap for statically sized shared memory, in bytes,
/// uniform across all supported architectures.
pub const STATIC_SHARED_LIMIT_BYTES: u64 = 48 * 1024;

/// A compute capability, e.g. `(8, 6)` for `--cc 8.6`.
pub type ComputeCapability = (u8, u8);

/// Per-architecture shared-memory capacity.
#[derive(Debug, Clone, Copy, PartialEq, Eq)]
pub struct SharedMemoryLimits {
    pub cc: ComputeCapability,
    /// Maximum shared memory per thread block (bytes), including the
    /// dynamic opt-in region.
    pub max_per_block: u64,
}

/// One kibibyte.
pub const KIB: u64 = 1024;

/// The capacity table, ascending by compute capability.
pub open spec fn limits_table() -> Seq<SharedMemoryLimits> {
    seq![
        SharedMemoryLimits { cc: (7, 0), max_per_block: (96 * KIB) as u64 },
        SharedMemoryLimits { cc: (7, 2), max_per_block: (96 * KIB) as u64 },
        SharedMemoryLimits { cc: (7, 5), max_per_block: (64 * KIB) as u64 },
        SharedMemoryLimits { cc: (8, 0), max_per_block: (163 * KIB) as u64 },
        SharedMemoryLimits { cc: (8, 6), max_per_block: (99 * KIB) as u64 },
        SharedMemoryLimits { cc: (8, 7), max_per_block: (163 * KIB) as u64 },
        SharedMemoryLimits { cc: (8, 9), max_per_block: (99 * KIB) as u64 },
        SharedMemoryLimits { cc: (9, 0), max_per_block: (227 * KIB) as u64 },
        SharedMemoryLimits { cc: (10, 0), max_per_block: (227 * KIB) as u64 },
        SharedMemoryLimits { cc: (12, 0), max_per_block: (99 * KIB) as u64 },
    ]
}

/// The shared-memory capacity table, ascending by compute capability.
pub fn shared_memory_table() -> (r: Vec<SharedMemoryLimits>)
    ensures
        r@ == limits_table(),
{
    let mut v: Vec<SharedMemoryLimits> = Vec::new();
    v.push(SharedMemoryLimits { cc: (7, 0), max_per_block: 96 * KIB });
    v.push(SharedMemoryLimits { cc: (7, 2), max_per_block: 96 * KIB });
    v.push(SharedMemoryLimits { cc: (7, 5), max_per_block: 64 * KIB });
    v.push(SharedMemoryLimits { cc: (8, 0), max_per_block: 163 * KIB });
    v.push(SharedMemoryLimits { cc: (8, 6), max_per_block: 99 * KIB });
    v.push(SharedMemoryLimits { cc: (8, 7), max_per_block: 163 * KIB });
    v.push(SharedMemoryLimits { cc: (8, 9), max_per_block: 99 * KIB });
    v.push(SharedMemoryLimits { cc: (9, 0), max_per_block: 227 * KIB });
    v.push(SharedMemoryLimits { cc: (10, 0), max_per_block: 227 * KIB });
    v.push(SharedMemoryLimits { cc: (12, 0), max_per_block: 99 * KIB });
    assert(v@ =~= limits_table());
    v
}

/// `a` comes before `b` in the (major, minor) order.
pub open spec fn cc_before(a: ComputeCapability, b: ComputeCapability) -> bool {
    a.0 < b.0 || (a.0 == b.0 && a.1 < b.1)
}

/// The table is strictly ascending by compute capability, and every
/// capacity can hold at least the universal static cap.
pub proof fn table_is_ascending_and_holds_the_static_cap()
    ensures
        forall|i: int, j: int|
            0 <= i < j < limits_table().len() ==> cc_before(limits_table()[i].cc, limits_table()[j].cc),
        forall|i: int|
            0 <= i < limits_table().len() ==> limits_table()[i].max_per_block >= STATIC_SHARED_LIMIT_BYTES,
{
    let t = limits_table();
    assert(t[0].cc == (7u8, 0u8) && t[1].cc == (7u8, 2u8) && t[2].cc == (7u8, 5u8) && t[3].cc == (8u8, 0u8)
        && t[4].cc == (8u8, 6u8) && t[5].cc == (8u8, 7u8) && t[6].cc == (8u8, 9u8) && t[7].cc == (9u8, 0u8)
        && t[8].cc == (10u8, 0u8) && t[9].cc == (12u8, 0u8));
    assert forall|i: int, j: int| 0 <= i < j < t.len() implies cc_before(t[i].cc, t[j].cc) by {
        assert(0 <= i <= 9 && 1 <= j <= 9);
    }
}

/// The first entry of `t` for `cc`.
pub open spec fn find_limits(t: Seq<SharedMemoryLimits>, cc: ComputeCapability) -> Option<SharedMemoryLimits>
    decreases t.len(),
{
    if t.len() == 0 {
        None
    } else if t[0].cc == cc {
        Some(t[0])
    } else {
        find_limits(t.drop_first(), cc)
    }
}

/// Look up the shared-memory capacity for a compute capability.
pub fn shared_memory_limits(cc: ComputeCapability) -> (r: Option<SharedMemoryLimits>)
    ensures
        r == find_limits(limits_table(), cc),
{
    let t = shared_memory_table();
    let mut i: usize = 0;
    assert(t@.skip(0) =~= t@);
    while i < t.len()
        invariant
            t@ == limits_table(),
            i <= t.len(),
            find_limits(t@.skip(i as int), cc) == find_limits(limits_table(), cc),
        decreases t.len() - i,
    {
        assert(t@.skip(i as int)[0] == t@[i as int]);
        assert(t@.skip(i as int).drop_first() =~= t@.skip(i + 1));
        if t[i].cc.0 == cc.0 && t[i].cc.1 == cc.1 {
            return Some(t[i]);
        }
        i = i + 1;
    }
    None
}

/// How a compute capability is written: `major.minor`.
pub open spec fn cc_text(cc: ComputeCapability) -> Seq<char> {
    decimal(cc.0 as nat) + seq!['.'] + decimal(cc.1 as nat)
}

/// The compute capabilities the table covers, as written.
pub open spec fn known_texts() -> Seq<Seq<char>> {
    limits_table().map_values(|l: SharedMemoryLimits| cc_text(l.cc))
}

/// The compute capabilities the table covers, for error messages.
pub fn known_compute_capabilities() -> (r: Vec<String>)
    ensures
        r@.map_values(|s: String| s@) == known_texts(),
{
    let t = shared_memory_table();
    let mut out: Vec<String> = Vec::new();
    let mut i: usize = 0;
    while i < t.len()
        invariant
            t@ == limits_table(),
            i <= t.len(),
            out.len() == i,
            forall|k: int| 0 <= k < i ==> #[trigger] out@[k]@ == cc_text(t@[k].cc),
        decreases t.len() - i,
    {
        let mut s = String::new();
        push_decimal(&mut s, t[i].cc.0 as usize);
        push_char(&mut s, '.');
        push_decimal(&mut s, t[i].cc.1 as usize);
        assert(s@ =~= cc_text(t@[i as int].cc));
        out.push(s);
        i = i + 1;
    }
    assert(out@.map_values(|s: String| s@) =~= known_texts());
    out
}

/// An ASCII decimal digit.
pub open spec fn is_digit(c: char) -> bool {
    '0' <= c && c <= '9'
}

/// Every character of `s` is an ASCII digit.
pub open spec fn all_digits(s: Seq<char>) -> bool {
    forall|i: int| 0 <= i < s.len() ==> is_digit(#[trigger] s[i])
}

/// The number a string of decimal digits spells.
pub open spec fn digits_value(s: Seq<char>) -> nat
    decreases s.len(),
{
    if s.len() == 0 {
        0
    } else {
        digits_value(s.drop_last()) * 10 + (s.last() as nat - '0' as nat) as nat
    }
}

/// What `u8::from_str` accepts: an optional `+` and one or more digits
/// spelling a number below 256.
pub open spec fn spec_parse_u8(s: Seq<char>) -> Option<u8> {
    let d = if s.len() > 0 && s[0] == '+' {
        s.skip(1)
    } else {
        s
    };
    if d.len() > 0 && all_digits(d) && digits_value(d) < 256 {
        Some(digits_value(d) as u8)
    } else {
        None
    }
}

/// An optional sign followed by one or more ASCII digits: a real number
/// even when it overflows `u8` or is negative.
pub open spec fn spec_is_integer_literal(s: Seq<char>) -> bool {
    let d = if s.len() > 0 && (s[0] == '+' || s[0] == '-') {
        s.skip(1)
    } else {
        s
    };
    d.len() > 0 && all_digits(d)
}

proof fn lemma_digits_grow(s: Seq<char>, i: int)
    requires
        0 <= i <= s.len(),
        all_digits(s),
    ensures
        digits_value(s.take(i)) <= digits_value(s),
    decreases s.len() - i,
{
    if i < s.len() {
        lemma_digits_grow(s, i + 1);
        assert(s.take(i + 1).drop_last() =~= s.take(i));
    } else {
        assert(s.take(i) =~= s);
    }
}

fn parse_u8(s: &str) -> (r: Option<u8>)
    ensures
        r == spec_parse_u8(s@),
{
    let cs = crate::text::chars_of(s);
    let start: usize = if cs.len() > 0 && cs[0] == '+' {
        1
    } else {
        0
    };
    let ghost d = if s@.len() > 0 && s@[0] == '+' {
        s@.skip(1)
    } else {
        s@
    };
    assert(d =~= cs@.skip(start as int));
    if start >= cs.len() {
        return None;
    }
    let mut value: u32 = 0;
    let mut i: usize = start;
    while i < cs.len()
        invariant
            cs@ == s@,
            d =~= cs@.skip(start as int),
            d == (if s@.len() > 0 && s@[0] == '+' {
                s@.skip(1)
            } else {
                s@
            }),
            start <= i <= cs.len(),
            all_digits(cs@.subrange(start as int, i as int)),
            value == digits_value(cs@.subrange(start as int, i as int)),
            value < 256,
        decreases cs.len() - i,
    {
        let c = cs[i];
        if !('0' <= c && c <= '9') {
            proof {
                assert(d[i - start] == c);
                assert(!is_digit(d[i - start]));
            }
            return None;
        }
        let ghost pre = cs@.subrange(start as int, i as int);
        let ghost next = cs@.subrange(start as int, i + 1);
        assert(next.drop_last() =~= pre);
        assert(next.last() == c);
        let digit = (c as u32) - ('0' as u32);
        assert(digit == (c as nat - '0' as nat));
        value = value * 10 + digit;
        assert(value == digits_value(next));
        assert(all_digits(next)) by {
            assert forall|k: int| 0 <= k < next.len() implies is_digit(#[trigger] next[k]) by {
                if k < next.len() - 1 {
                    assert(next[k] == pre[k]);
                }
            }
        }
        if value >= 256 {
            proof {
                assert(next =~= d.take(i + 1 - start));
                if all_digits(d) {
                    lemma_digits_grow(d, i + 1 - start);
                }
            }
            return None;
        }
        i = i + 1;
    }
    assert(cs@.subrange(start as int, cs.len() as int) =~= d);
    Some(value as u8)
}

/// What `usize::from_str` accepts: an optional `+` and one or more digits
/// spelling a number no greater than `usize::MAX`.
pub open spec fn spec_parse_usize(s: Seq<char>) -> Option<usize> {
    let d = if s.len() > 0 && s[0] == '+' {
        s.skip(1)
    } else {
        s
    };
    if d.len() > 0 && all_digits(d) && digits_value(d) <= usize::MAX {
        Some(digits_value(d) as usize)
    } else {
        None
    }
}

/// `s.parse::<usize>().ok()`.
pub fn parse_usize(s: &str) -> (r: Option<usize>)
    ensures
        r == spec_parse_usize(s@),
{
    let cs = crate::text::chars_of(s);
    let start: usize = if cs.len() > 0 && cs[0] == '+' {
        1
    } else {
        0
    };
    let ghost d = if s@.len() > 0 && s@[0] == '+' {
        s@.skip(1)
    } else {
        s@
    };
    assert(d =~= cs@.skip(start as int));
    if start >= cs.len() {
        return None;
    }
    let max: u128 = usize::MAX as u128;
    let mut value: u128 = 0;
    let mut i: usize = start;
    while i < cs.len()
        invariant
            cs@ == s@,
            d =~= cs@.skip(start as int),
            d == (if s@.len() > 0 && s@[0] == '+' {
                s@.skip(1)
            } else {
                s@
            }),
            start <= i <= cs.len(),
            max == usize::MAX,
            all_digits(cs@.subrange(start as int, i as int)),
            value == digits_value(cs@.subrange(start as int, i as int)),
            value <= usize::MAX,
        decreases cs.len() - i,
    {
        let c = cs[i];
        if !('0' <= c && c <= '9') {
            proof {
                assert(d[i - start] == c);
                assert(!is_digit(d[i - start]));
            }
            return None;
        }
        let ghost pre = cs@.subrange(start as int, i as int);
        let ghost next = cs@.subrange(start as int, i + 1);
        assert(next.drop_last() =~= pre);
        assert(next.last() == c);
        let digit = (c as u128) - ('0' as u128);
        assert(digit == (c as nat - '0' as nat));
        value = value * 10 + digit;
        assert(value == digits_value(next));
        assert(all_digits(next)) by {
            assert forall|k: int| 0 <= k < next.len() implies is_digit(#[trigger] next[k]) by {
                if k < next.len() - 1 {
                    assert(next[k] == pre[k]);
                }
            }
        }
        if value > max {
            proof {
                assert(next =~= d.take(i + 1 - start));
                if all_digits(d) {
                    lemma_digits_grow(d, i + 1 - start);
                }
            }
            return None;
        }
        i = i + 1;
    }
    assert(cs@.subrange(start as int, cs.len() as int) =~= d);
    Some(value as usize)
}

fn is_integer_literal(part: &str) -> (r: bool)
    ensures
        r == spec_is_integer_literal(part@),
{
    let cs = crate::text::chars_of(part);
    let start: usize = if cs.len() > 0 && (cs[0] == '+' || cs[0] == '-') {
        1
    } else {
        0
    };
    let ghost d = if part@.len() > 0 && (part@[0] == '+' || part@[0] == '-') {
        part@.skip(1)
    } else {
        part@
    };
    assert(d =~= cs@.skip(start as int));
    if start >= cs.len() {
        return false;
    }
    let mut i: usize = start;
    while i < cs.len()
        invariant
            cs@ == part@,
            d =~= cs@.skip(start as int),
            d == (if part@.len() > 0 && (part@[0] == '+' || part@[0] == '-') {
                part@.skip(1)
            } else {
                part@
            }),
            start <= i <= cs.len(),
            forall|k: int| start <= k < i ==> is_digit(#[trigger] cs@[k]),
        decreases cs.len() - i,
    {
        if !('0' <= cs[i] && cs[i] <= '9') {
            assert(d[i - start] == cs@[i as int]);
            assert(!is_digit(d[i - start]));
            return false;
        }
        i = i + 1;
    }
    assert forall|k: int| 0 <= k < d.len() implies is_digit(#[trigger] d[k]) by {
        assert(d[k] == cs@[start + k]);
    }
    true
}

/// The message for input without a `.`.
pub open spec fn not_cc_message(s: Seq<char>) -> Seq<char> {
    "`"@ + s + "` is not a compute capability; expected e.g. `8.6`"@
}

/// The message for a part that is a number but no compute capability.
pub open spec fn table_message(s: Seq<char>) -> Seq<char> {
    "`"@ + s + "` is not in the compute-capability table; known: "@ + joined(known_texts(), ", "@)
}

/// The message for a part that is not a number at all.
pub open spec fn non_numeric_message(s: Seq<char>, what: Seq<char>) -> Seq<char> {
    "`"@ + s + "` has a non-numeric "@ + what + " part; expected e.g. `8.6`"@
}

/// One part of a `--cc` value: its number, or the message that fits.
pub open spec fn part_result(s: Seq<char>, part: Seq<char>, what: Seq<char>) -> Result<u8, Seq<char>> {
    match spec_parse_u8(part) {
        Some(v) => Ok(v),
        None => if spec_is_integer_literal(part) {
            Err(table_message(s))
        } else {
            Err(non_numeric_message(s, what))
        },
    }
}

/// The index of the first `.` in `s`.
pub open spec fn first_dot(s: Seq<char>) -> int {
    choose|i: int| 0 <= i < s.len() && s[i] == '.' && forall|j: int| 0 <= j < i ==> s[j] != '.'
}

/// What `--cc s` means: major and minor around the first `.`, each parsed
/// as `u8::from_str` does; the first failure decides the message.
pub open spec fn spec_parse_cc(s: Seq<char>) -> Result<ComputeCapability, Seq<char>> {
    if !s.contains('.') {
        Err(not_cc_message(s))
    } else {
        let i = first_dot(s);
        match part_result(s, s.take(i), "major"@) {
            Err(m) => Err(m),
            Ok(a) => match part_result(s, s.skip(i + 1), "minor"@) {
                Err(m) => Err(m),
                Ok(b) => Ok((a, b)),
            },
        }
    }
}

fn part(s: &str, p: &str, what: &str) -> (r: Result<u8, String>)
    ensures
        match r {
            Ok(v) => part_result(s@, p@, what@) == Ok::<u8, Seq<char>>(v),
            Err(m) => part_result(s@, p@, what@) == Err::<u8, Seq<char>>(m@),
        },
{
    match parse_u8(p) {
        Some(v) => Ok(v),
        None => {
            let mut m = owned("`");
            push_str(&mut m, s);
            if is_integer_literal(p) {
                push_str(&mut m, "` is not in the compute-capability table; known: ");
                let known = known_compute_capabilities();
                let list = join_strings(&known, ", ");
                push_str(&mut m, list.as_str());
            } else {
                push_str(&mut m, "` has a non-numeric ");
                push_str(&mut m, what);
                push_str(&mut m, " part; expected e.g. `8.6`");
            }
            Err(m)
        },
    }
}

/// Parse a `--cc` value like `"8.6"`. A part that is not a number at all
/// is reported as non-numeric; one that is a number but cannot be a
/// compute capability is reported against the table.
pub fn parse_compute_capability(s: &str) -> (r: Result<ComputeCapability, String>)
    ensures
        match r {
            Ok(v) => spec_parse_cc(s@) == Ok::<ComputeCapability, Seq<char>>(v),
            Err(m) => spec_parse_cc(s@) == Err::<ComputeCapability, Seq<char>>(m@),
        },
{
    let (major, minor) = match split_once_char(s, '.') {
        Some(parts) => parts,
        None => {
            assert(!s@.contains('.'));
            let mut m = owned("`");
            push_str(&mut m, s);
            push_str(&mut m, "` is not a compute capability; expected e.g. `8.6`");
            return Err(m);
        },
    };
    proof {
        let i = choose|i: int|
            0 <= i < s@.len() && s@[i] == '.' && (forall|j: int| 0 <= j < i ==> s@[j] != '.') && major@
                == s@.take(i) && minor@ == s@.skip(i + 1);
        assert(s@.contains('.'));
        let k = first_dot(s@);
        assert(k == i) by {
            if k < i {
                assert(s@[k] == '.');
            } else if k > i {
                assert(s@[i] != '.');
            }
        }
    }
    let a = match part(s, major, "major") {
        Ok(v) => v,
        Err(m) => {
            return Err(m);
        },
    };
    let b = match part(s, minor, "minor") {
        Ok(v) => v,
        Err(m) => {
            return Err(m);
        },
    };
    Ok((a, b))
}

} // verus!
