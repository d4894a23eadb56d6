//! rustc-style text rendering of one finding, and the preparation of a
//! foreign source line for a terminal: control bytes made visible, tabs
//! expanded, the caret measured in cells, and an over-long line trimmed
//! around its span. Reading the source file and writing to stdout stay
//! with the binary.
use vstd::prelude::*;

use super::args::opt_str;
use super::review::{carried, gating, lone_finding_gates, Item};
use crate::artifacts::baseline::Entry;
use crate::artifacts::findings::{Confidence, Finding, ProvenanceStep};
use crate::text::{chars_of, decimal, decimal_string, owned, push_char, push_decimal, push_str};

verus! {

/// Widest source line the snippet prints, in terminal cells.
pub const MAX_SNIPPET_WIDTH: usize = 120;

/// Cells kept before the span when a line has to be trimmed.
pub const TRIM_CONTEXT: usize = 20;

/// Tab stop used when expanding tabs in a printed source line.
pub const TAB_WIDTH: usize = 4;

/// The cells unicode-width gives a character (`None` for a control code).
pub uninterp spec fn unicode_char_width(c: char) -> Option<usize>;

/// `UnicodeWidthChar::width` of unicode-width: `None` for the control
/// codes below U+0020 and from U+007F to U+009F, one cell for the rest of
/// ASCII, and a table value held in a `u8` from U+00A0 on. Which value the
/// table gives a character is not stated.
#[verifier::external_body]
fn char_width(c: char) -> (r: Option<usize>)
    ensures
        r == unicode_char_width(c),
        (c as u32) < 0x20 || (0x7f <= (c as u32) && (c as u32) < 0xa0) ==> r is None,
        0x20 <= (c as u32) && (c as u32) < 0x7f ==> r == Some(1usize),
        0xa0 <= (c as u32) ==> r is Some,
        0xa0 <= (c as u32) ==> r.unwrap() < 256,
{
    unicode_width::UnicodeWidthChar::width(c)
}

/// `char::from_u32`: the character of a scalar value, `None` for a
/// surrogate or a value past U+10FFFF.
#[verifier::external_body]
fn char_from_u32(n: u32) -> (r: Option<char>)
    ensures
        (n <= 0xd7ff || (0xe000 <= n && n <= 0x10ffff)) ==> r == Some(n as char),
        !(n <= 0xd7ff || (0xe000 <= n && n <= 0x10ffff)) ==> r is None,
{
    char::from_u32(n)
}

/// The Unicode control picture of a C0 code: `ESC` shows as `␛`.
pub open spec fn picture_of(c: char) -> char {
    let n = (c as u32) + 0x2400;
    if n <= 0xd7ff || (0xe000 <= n && n <= 0x10ffff) {
        n as char
    } else {
        '\u{fffd}'
    }
}

/// The control picture of `ch`, as a string.
pub fn control_picture(ch: char) -> (r: String)
    ensures
        r@ == seq![picture_of(ch)],
{
    let c = match char_from_u32((ch as u32) + 0x2400) {
        Some(c) => c,
        None => '\u{fffd}',
    };
    let mut s = String::new();
    push_char(&mut s, c);
    assert(s@ =~= seq![picture_of(ch)]);
    s
}

/// `n` copies of `c`.
pub open spec fn repeated(c: char, n: nat) -> Seq<char> {
    Seq::new(n, |i: int| c)
}

/// `n` copies of `c`, as `c.to_string().repeat(n)` gives them.
pub fn repeat_char(c: char, n: usize) -> (r: String)
    ensures
        r@ == repeated(c, n as nat),
{
    let mut s = String::new();
    let mut i: usize = 0;
    while i < n
        invariant
            i <= n,
            s@ == repeated(c, i as nat),
        decreases n - i,
    {
        push_char(&mut s, c);
        assert(s@ =~= repeated(c, (i + 1) as nat));
        i = i + 1;
    }
    s
}

/// What a source character becomes on a terminal when `w` cells precede
/// it: its glyph and the cells it takes.
pub open spec fn glyph_of(c: char, w: nat) -> (Seq<char>, nat) {
    if c == '\t' {
        let stop = (w / 4 + 1) * 4;
        (repeated(' ', (stop - w) as nat), (stop - w) as nat)
    } else if c <= '\u{1f}' {
        (seq![picture_of(c)], 1)
    } else if c == '\u{7f}' {
        (seq!['\u{2421}'], 1)
    } else if '\u{80}' <= c && c <= '\u{9f}' {
        (seq!['\u{fffd}'], 1)
    } else {
        (
            seq![c],
            match unicode_char_width(c) {
                Some(n) => n as nat,
                None => 0,
            },
        )
    }
}

/// Cells taken by the first `k` characters of `raw`.
pub open spec fn col(raw: Seq<char>, k: int) -> nat
    decreases k,
{
    if k <= 0 || k > raw.len() {
        0
    } else {
        col(raw, k - 1) + glyph_of(raw[k - 1], col(raw, k - 1)).1
    }
}

/// The glyph of character `k`.
pub open spec fn glyph_at(raw: Seq<char>, k: int) -> Seq<char> {
    glyph_of(raw[k], col(raw, k)).0
}

/// The glyphs of the first `m` characters.
pub open spec fn shown_text(raw: Seq<char>, m: int) -> Seq<char>
    decreases m,
{
    if m <= 0 || m > raw.len() {
        Seq::empty()
    } else {
        shown_text(raw, m - 1) + glyph_at(raw, m - 1)
    }
}

/// `a - b`, or 0.
pub open spec fn sat_sub(a: int, b: int) -> nat {
    if a >= b {
        (a - b) as nat
    } else {
        0
    }
}

/// The cell a 1-based span column falls on; a column past the end of the
/// line clamps to its end.
pub open spec fn cell_at(raw: Seq<char>, column: nat) -> nat {
    let k = sat_sub(column as int, 1);
    col(
        raw,
        if k > raw.len() {
            raw.len() as int
        } else {
            k as int
        },
    )
}

/// Where the window of a trimmed line starts: a little context before
/// the span, slid back from the end so the window is always full.
pub open spec fn window_start(caret_col: nat, width: nat) -> nat {
    let a = sat_sub(caret_col as int, 20);
    let b = sat_sub(width as int, 120);
    if a <= b {
        a
    } else {
        b
    }
}

/// Character `k` lies wholly inside the window starting at `start`.
pub open spec fn kept(raw: Seq<char>, k: int, start: nat) -> bool {
    col(raw, k) >= start && col(raw, k + 1) <= start + 120
}

/// The glyphs of the kept characters among the first `m`.
pub open spec fn kept_text(raw: Seq<char>, m: int, start: nat) -> Seq<char>
    decreases m,
{
    if m <= 0 || m > raw.len() {
        Seq::empty()
    } else {
        kept_text(raw, m - 1, start) + if kept(raw, m - 1, start) {
            glyph_at(raw, m - 1)
        } else {
            Seq::empty()
        }
    }
}

/// The cell of the first kept character among the first `m`.
pub open spec fn kept_from(raw: Seq<char>, m: int, start: nat) -> Option<nat>
    decreases m,
{
    if m <= 0 || m > raw.len() {
        None
    } else {
        match kept_from(raw, m - 1, start) {
            Some(s) => Some(s),
            None => if kept(raw, m - 1, start) {
                Some(col(raw, m - 1))
            } else {
                None
            },
        }
    }
}

/// A prepared line: its text, the cells before the caret, and the cells
/// the caret covers.
pub open spec fn prepared(raw: Seq<char>, column_start: nat, column_end: nat) -> (Seq<char>, nat, nat) {
    let n = raw.len() as int;
    let width = col(raw, n);
    let caret_col = cell_at(raw, column_start);
    let run = sat_sub(cell_at(raw, column_end) as int, caret_col as int);
    let caret_width = if run >= 1 {
        run
    } else {
        1
    };
    if width <= 120 {
        (shown_text(raw, n), caret_col, caret_width)
    } else {
        let start = window_start(caret_col, width);
        let kept_start = match kept_from(raw, n, start) {
            Some(s) => s,
            None => start,
        };
        let head = if kept_start > 0 {
            seq!['.', '.', '.']
        } else {
            Seq::empty()
        };
        let tail = if start + 120 < width {
            seq!['.', '.', '.']
        } else {
            Seq::empty()
        };
        (
            head + kept_text(raw, n, start) + tail,
            sat_sub(caret_col as int, kept_start as int) + head.len(),
            if caret_width <= 120 {
                caret_width
            } else {
                120
            },
        )
    }
}

/// A character a terminal would act on rather than show: C0 controls, DEL
/// and C1 controls.
pub open spec fn is_terminal_control(c: char) -> bool {
    c <= '\u{1f}' || c == '\u{7f}' || ('\u{80}' <= c && c <= '\u{9f}')
}

/// No character of `s` is a terminal control.
pub open spec fn control_free(s: Seq<char>) -> bool {
    forall|i: int| 0 <= i < s.len() ==> !is_terminal_control(#[trigger] s[i])
}

proof fn lemma_glyph_control_free(c: char, w: nat)
    ensures
        control_free(glyph_of(c, w).0),
{
    if c <= '\u{1f}' && c != '\t' {
        let n = (c as u32) + 0x2400;
        assert(0x2400 <= n <= 0x241f);
        assert(picture_of(c) == n as char);
        assert((n as char) as u32 == n);
    }
}

proof fn lemma_shown_control_free(raw: Seq<char>, m: int)
    ensures
        control_free(shown_text(raw, m)),
    decreases m,
{
    if 0 < m <= raw.len() {
        lemma_shown_control_free(raw, m - 1);
        lemma_glyph_control_free(raw[m - 1], col(raw, m - 1));
    }
}

proof fn lemma_kept_control_free(raw: Seq<char>, m: int, start: nat)
    ensures
        control_free(kept_text(raw, m, start)),
    decreases m,
{
    if 0 < m <= raw.len() {
        lemma_kept_control_free(raw, m - 1, start);
        lemma_glyph_control_free(raw[m - 1], col(raw, m - 1));
    }
}

/// Whatever the source line holds, the prepared text holds no terminal
/// control: tabs become spaces and controls their pictures.
pub proof fn prepared_text_is_control_free(raw: Seq<char>, column_start: nat, column_end: nat)
    ensures
        control_free(prepared(raw, column_start, column_end).0),
{
    lemma_shown_control_free(raw, raw.len() as int);
    lemma_kept_control_free(raw, raw.len() as int, window_start(cell_at(raw, column_start), col(raw, raw.len() as int)));
}

/// A source line ready for a terminal, with the span located in cells.
#[derive(Debug, Clone, PartialEq, Eq)]
pub struct PreparedLine {
    pub text: String,
    /// Cells before the first caret.
    pub caret_col: usize,
    /// Cells the caret run covers.
    pub caret_width: usize,
}

fn piece(ch: char, width: usize) -> (r: (String, usize))
    requires
        width + 255 <= usize::MAX,
    ensures
        (r.0@, r.1 as nat) == glyph_of(ch, width as nat),
        r.1 <= 255,
{
    if ch == '\t' {
        let stop = (width / TAB_WIDTH + 1) * TAB_WIDTH;
        (repeat_char(' ', stop - width), stop - width)
    } else if ch <= '\u{1f}' {
        (control_picture(ch), 1)
    } else if ch == '\u{7f}' {
        let mut s = String::new();
        push_char(&mut s, '\u{2421}');
        assert(s@ =~= seq!['\u{2421}']);
        (s, 1)
    } else if '\u{80}' <= ch && ch <= '\u{9f}' {
        let mut s = String::new();
        push_char(&mut s, '\u{fffd}');
        assert(s@ =~= seq!['\u{fffd}']);
        (s, 1)
    } else {
        let cells = match char_width(ch) {
            Some(n) => n,
            None => 0,
        };
        let mut s = String::new();
        push_char(&mut s, ch);
        assert(s@ =~= seq![ch]);
        (s, cells)
    }
}

/// Each character's glyph and cells, the cells before each character
/// (and after the last), and the line's whole width.
fn layout(raw: &str) -> (r: (Vec<String>, Vec<usize>, Vec<usize>, usize))
    requires
        255 * (raw@.len() + 1) <= usize::MAX,
    ensures
        r.0.len() == raw@.len(),
        r.1.len() == raw@.len(),
        r.2.len() == raw@.len() + 1,
        r.3 == col(raw@, raw@.len() as int),
        r.3 <= usize::MAX - 255,
        forall|k: int| 0 <= k <= raw@.len() ==> #[trigger] r.2@[k] == col(raw@, k),
        forall|k: int| 0 <= k < raw@.len() ==> #[trigger] r.0@[k]@ == glyph_at(raw@, k),
        forall|k: int| 0 <= k < raw@.len() ==> col(raw@, k + 1) == col(raw@, k) + #[trigger] r.1@[k],
{
    let ghost line = raw@;
    let cs = chars_of(raw);
    let mut glyphs: Vec<String> = Vec::new();
    let mut cells: Vec<usize> = Vec::new();
    let mut columns: Vec<usize> = Vec::new();
    let mut width: usize = 0;
    let mut i: usize = 0;
    while i < cs.len()
        invariant
            cs@ == line,
            i <= cs.len(),
            255 * (cs.len() + 1) <= usize::MAX,
            glyphs.len() == i,
            cells.len() == i,
            columns.len() == i,
            width == col(line, i as int),
            width <= 255 * i,
            forall|k: int| 0 <= k < i ==> #[trigger] columns@[k] == col(line, k),
            forall|k: int| 0 <= k < i ==> #[trigger] glyphs@[k]@ == glyph_at(line, k),
            forall|k: int| 0 <= k < i ==> col(line, k + 1) == col(line, k) + #[trigger] cells@[k],
        decreases cs.len() - i,
    {
        columns.push(width);
        let (glyph, c) = piece(cs[i], width);
        assert(col(line, i + 1) == col(line, i as int) + glyph_of(line[i as int], col(line, i as int)).1);
        width = width + c;
        glyphs.push(glyph);
        cells.push(c);
        i = i + 1;
    }
    columns.push(width);
    (glyphs, cells, columns, width)
}

fn concat_glyphs(glyphs: &Vec<String>, Ghost(line): Ghost<Seq<char>>) -> (r: String)
    requires
        glyphs.len() == line.len(),
        forall|j: int| 0 <= j < line.len() ==> #[trigger] glyphs@[j]@ == glyph_at(line, j),
    ensures
        r@ == shown_text(line, line.len() as int),
{
    let mut text = String::new();
    let mut k: usize = 0;
    while k < glyphs.len()
        invariant
            k <= glyphs.len(),
            glyphs.len() == line.len(),
            forall|j: int| 0 <= j < line.len() ==> #[trigger] glyphs@[j]@ == glyph_at(line, j),
            text@ == shown_text(line, k as int),
        decreases glyphs.len() - k,
    {
        push_str(&mut text, glyphs[k].as_str());
        k = k + 1;
    }
    text
}

impl PreparedLine {
    /// Prepare `raw` for printing, with the 1-based span columns
    /// `column_start` (inclusive) and `column_end` (exclusive) turned into
    /// cells.
    #[verifier::spinoff_prover]
    #[verifier::rlimit(40)]
    pub fn new(raw: &str, column_start: usize, column_end: usize) -> (r: PreparedLine)
        requires
            255 * (raw@.len() + 1) <= usize::MAX,
        ensures
            (r.text@, r.caret_col as nat, r.caret_width as nat) == prepared(
                raw@,
                column_start as nat,
                column_end as nat,
            ),
    {
        let ghost line = raw@;
        let (glyphs, cells, columns, width) = layout(raw);
        let n = glyphs.len();
        let from = if column_start >= 1 {
            column_start - 1
        } else {
            0
        };
        let from = if from > n {
            n
        } else {
            from
        };
        let to = if column_end >= 1 {
            column_end - 1
        } else {
            0
        };
        let to = if to > n {
            n
        } else {
            to
        };
        proof {
            lemma_col_monotone(line, from as int, n as int);
        }
        let caret_col = columns[from];
        let run = if columns[to] >= caret_col {
            columns[to] - caret_col
        } else {
            0
        };
        let caret_width = if run >= 1 {
            run
        } else {
            1
        };
        assert(caret_col == cell_at(line, column_start as nat));
        assert(columns[to as int] == cell_at(line, column_end as nat));
        if width <= MAX_SNIPPET_WIDTH {
            let text = concat_glyphs(&glyphs, Ghost(line));
            return PreparedLine { text, caret_col, caret_width };
        }
        Self::trimmed(&glyphs, &cells, caret_col, caret_width, width, Ghost(line))
    }

    /// A window of at most `MAX_SNIPPET_WIDTH` cells around the span, with
    /// an ellipsis marking whichever side was cut.
    fn trimmed(
        glyphs: &Vec<String>,
        cells: &Vec<usize>,
        caret_col: usize,
        caret_width: usize,
        width: usize,
        Ghost(line): Ghost<Seq<char>>,
    ) -> (r: PreparedLine)
        requires
            glyphs.len() == line.len(),
            cells.len() == line.len(),
            forall|k: int| 0 <= k < line.len() ==> #[trigger] glyphs@[k]@ == glyph_at(line, k),
            forall|k: int| 0 <= k < line.len() ==> col(line, k + 1) == col(line, k) + #[trigger] cells@[k],
            width == col(line, line.len() as int),
            width > 120,
            width <= usize::MAX - 255,
            caret_col <= width,
        ensures
            r.text@ == seq!['.', '.', '.'].take(
                if (match kept_from(line, line.len() as int, window_start(caret_col as nat, width as nat)) {
                    Some(s) => s,
                    None => window_start(caret_col as nat, width as nat),
                }) > 0 {
                    3
                } else {
                    0
                },
            ) + kept_text(line, line.len() as int, window_start(caret_col as nat, width as nat)) + seq![
                '.',
                '.',
                '.',
            ].take(
                if window_start(caret_col as nat, width as nat) + 120 < width {
                    3
                } else {
                    0
                },
            ),
            r.caret_col == sat_sub(
                caret_col as int,
                (match kept_from(line, line.len() as int, window_start(caret_col as nat, width as nat)) {
                    Some(s) => s,
                    None => window_start(caret_col as nat, width as nat),
                }) as int,
            ) + if (match kept_from(line, line.len() as int, window_start(caret_col as nat, width as nat)) {
                Some(s) => s,
                None => window_start(caret_col as nat, width as nat),
            }) > 0 {
                3int
            } else {
                0int
            },
            r.caret_width == if caret_width <= 120 {
                caret_width
            } else {
                120
            },
    {
        let a = if caret_col >= TRIM_CONTEXT {
            caret_col - TRIM_CONTEXT
        } else {
            0
        };
        let b = width - MAX_SNIPPET_WIDTH;
        let start = if a <= b {
            a
        } else {
            b
        };
        let end = start + MAX_SNIPPET_WIDTH;
        assert(start == window_start(caret_col as nat, width as nat));
        let mut text = String::new();
        let mut cell: usize = 0;
        let mut kept_start: Option<usize> = None;
        let mut k: usize = 0;
        while k < glyphs.len()
            invariant
                k <= glyphs.len(),
                glyphs.len() == line.len(),
                cells.len() == line.len(),
                forall|j: int| 0 <= j < line.len() ==> #[trigger] glyphs@[j]@ == glyph_at(line, j),
                forall|j: int| 0 <= j < line.len() ==> col(line, j + 1) == col(line, j) + #[trigger] cells@[j],
                width == col(line, line.len() as int),
                end == start + 120,
                width <= usize::MAX - 255,
                cell == col(line, k as int),
                cell <= width,
                text@ == kept_text(line, k as int, start as nat),
                match kept_start {
                    Some(s) => kept_from(line, k as int, start as nat) == Some(s as nat),
                    None => kept_from(line, k as int, start as nat) is None,
                },
            decreases glyphs.len() - k,
        {
            proof {
                lemma_col_monotone(line, k + 1, line.len() as int);
            }
            let next = cell + cells[k];
            if cell >= start && next <= end {
                if kept_start.is_none() {
                    kept_start = Some(cell);
                }
                push_str(&mut text, glyphs[k].as_str());
            }
            cell = next;
            k = k + 1;
        }
        let kept_start = match kept_start {
            Some(s) => s,
            None => start,
        };
        let mut out = String::new();
        let head: usize = if kept_start > 0 {
            push_str(&mut out, "...");
            3
        } else {
            0
        };
        let ghost head_text = out@;
        push_str(&mut out, text.as_str());
        let ghost body = out@;
        if end < width {
            push_str(&mut out, "...");
        }
        proof {
            reveal_strlit("...");
            assert(seq!['.', '.', '.'].take(3) =~= seq!['.', '.', '.']);
            assert(seq!['.', '.', '.'].take(0) =~= Seq::<char>::empty());
            assert(out@ =~= seq!['.', '.', '.'].take(head as int) + kept_text(line, line.len() as int, start as nat)
                + seq!['.', '.', '.'].take(
                if end < width {
                    3
                } else {
                    0
                },
            ));
        }
        let lead = if caret_col >= kept_start {
            caret_col - kept_start
        } else {
            0
        };
        PreparedLine {
            caret_col: lead + head,
            caret_width: if caret_width <= MAX_SNIPPET_WIDTH {
                caret_width
            } else {
                MAX_SNIPPET_WIDTH
            },
            text: out,
        }
    }
}

/// Cells never shrink along a line.
proof fn lemma_col_monotone(raw: Seq<char>, i: int, j: int)
    requires
        0 <= i <= j <= raw.len(),
    ensures
        col(raw, i) <= col(raw, j),
    decreases j - i,
{
    if i < j {
        lemma_col_monotone(raw, i, j - 1);
    }
}

/// The label a finding is shown under: a suppressed one is a decision,
/// neither an error nor a warning.
pub open spec fn severity_of(suppressed: bool, confidence: Confidence) -> Seq<char> {
    if suppressed {
        "suppressed"@
    } else if confidence == Confidence::Warning {
        "warning"@
    } else {
        "error"@
    }
}

/// An unsuppressed finding is headed `error` exactly when it alone would
/// fail the run, and `warning` otherwise; a suppressed one is headed
/// `suppressed` whatever its tier.
pub proof fn headline_is_error_iff_gating(krate: Seq<char>, f: Finding)
    ensures
        severity_of(false, f.confidence) == "error"@ <==> gating(seq![(krate, f)], Seq::empty()),
        severity_of(false, f.confidence) != "error"@ ==> severity_of(false, f.confidence) == "warning"@,
        severity_of(true, f.confidence) == "suppressed"@,
{
    reveal_strlit("error");
    reveal_strlit("warning");
    assert("error"@[0] != "warning"@[0]);
    lone_finding_gates(krate, f);
}

/// The indentation of a finding's block: as wide as its line number.
pub open spec fn pad_of(f: Finding) -> Seq<char> {
    repeated(' ', decimal(f.span.line_start as nat).len())
}

/// The snippet of a single-line span: the source line and a caret run.
pub open spec fn snippet_text(f: Finding, line: Option<Seq<char>>) -> Seq<char> {
    if f.span.line_start != f.span.line_end {
        Seq::empty()
    } else {
        match line {
            None => Seq::empty(),
            Some(raw) => {
                let p = prepared(raw, f.span.column_start as nat, f.span.column_end as nat);
                pad_of(f) + " |\n"@ + decimal(f.span.line_start as nat) + " | "@ + p.0 + "\n"@ + pad_of(f) + " | "@
                    + repeated(' ', p.1) + repeated('^', p.2) + "\n"@
            },
        }
    }
}

/// One `= note:` line per note.
pub open spec fn note_lines(pad: Seq<char>, notes: Seq<String>) -> Seq<char>
    decreases notes.len(),
{
    if notes.len() == 0 {
        Seq::empty()
    } else {
        note_lines(pad, notes.drop_last()) + pad + " = note: "@ + notes.last()@ + "\n"@
    }
}

/// One `= provenance:` line per step.
pub open spec fn provenance_lines(pad: Seq<char>, steps: Seq<ProvenanceStep>) -> Seq<char>
    decreases steps.len(),
{
    if steps.len() == 0 {
        Seq::empty()
    } else {
        provenance_lines(pad, steps.drop_last()) + pad + " = provenance: "@ + steps.last().what@ + " ("@
            + steps.last().span.file@ + ":"@ + decimal(steps.last().span.line_start as nat) + ")\n"@
    }
}

/// The whole rendered block of a finding.
pub open spec fn item_text(f: Finding, suppression: Option<Entry>, line: Option<Seq<char>>) -> Seq<char> {
    header_text(f, suppression is Some) + snippet_text(f, line) + match suppression {
        Some(e) => pad_of(f) + " = baseline: "@ + e.reason@ + "\n"@,
        None => Seq::empty(),
    } + note_lines(pad_of(f), f.notes@) + provenance_lines(pad_of(f), f.provenance@) + match f.help {
        Some(h) => pad_of(f) + " = help: "@ + h@ + "\n"@,
        None => Seq::empty(),
    }
}

fn source_snippet(finding: &Finding, line: Option<&str>, pad: &str) -> (r: Option<String>)
    requires
        pad@ == pad_of(*finding),
        line matches Some(raw) ==> 255 * (raw@.len() + 1) <= usize::MAX,
    ensures
        match r {
            Some(s) => s@ == snippet_text(*finding, opt_str(line)) && snippet_text(*finding, opt_str(line)).len() > 0,
            None => snippet_text(*finding, opt_str(line)) == Seq::<char>::empty(),
        },
{
    let span = &finding.span;
    if span.line_start != span.line_end {
        return None;
    }
    let raw = match line {
        Some(raw) => raw,
        None => return None,
    };
    let prepared = PreparedLine::new(raw, span.column_start, span.column_end);
    let mut s = owned(pad);
    push_str(&mut s, " |\n");
    push_decimal(&mut s, span.line_start);
    push_str(&mut s, " | ");
    push_str(&mut s, prepared.text.as_str());
    push_str(&mut s, "\n");
    push_str(&mut s, pad);
    push_str(&mut s, " | ");
    push_str(&mut s, repeat_char(' ', prepared.caret_col).as_str());
    push_str(&mut s, repeat_char('^', prepared.caret_width).as_str());
    push_str(&mut s, "\n");
    proof {
        reveal_strlit(" |\n");
    }
    assert(s@ =~= snippet_text(*finding, opt_str(line)));
    Some(s)
}

fn push_notes(out: &mut String, pad: &str, notes: &Vec<String>)
    ensures
        final(out)@ == old(out)@ + note_lines(pad@, notes@),
{
    let ghost start = out@;
    let mut n: usize = 0;
    while n < notes.len()
        invariant
            n <= notes.len(),
            out@ == start + note_lines(pad@, notes@.take(n as int)),
        decreases notes.len() - n,
    {
        assert(notes@.take(n + 1).drop_last() =~= notes@.take(n as int));
        push_str(out, pad);
        push_str(out, " = note: ");
        push_str(out, notes[n].as_str());
        push_str(out, "\n");
        assert(out@ =~= start + note_lines(pad@, notes@.take(n + 1)));
        n = n + 1;
    }
    assert(notes@.take(notes.len() as int) =~= notes@);
}

fn push_provenance(out: &mut String, pad: &str, steps: &Vec<ProvenanceStep>)
    ensures
        final(out)@ == old(out)@ + provenance_lines(pad@, steps@),
{
    let ghost start = out@;
    let mut p: usize = 0;
    while p < steps.len()
        invariant
            p <= steps.len(),
            out@ == start + provenance_lines(pad@, steps@.take(p as int)),
        decreases steps.len() - p,
    {
        assert(steps@.take(p + 1).drop_last() =~= steps@.take(p as int));
        let step = &steps[p];
        push_str(out, pad);
        push_str(out, " = provenance: ");
        push_str(out, step.what.as_str());
        push_str(out, " (");
        push_str(out, step.span.file.as_str());
        push_str(out, ":");
        push_decimal(out, step.span.line_start);
        push_str(out, ")\n");
        assert(out@ =~= start + provenance_lines(pad@, steps@.take(p + 1)));
        p = p + 1;
    }
    assert(steps@.take(steps.len() as int) =~= steps@);
}

/// The first two lines of a finding's block.
pub open spec fn header_text(f: Finding, suppressed: bool) -> Seq<char> {
    severity_of(suppressed, f.confidence) + "["@ + f.code@ + "]: "@ + f.message@ + "\n"@ + pad_of(f) + "--> "@
        + f.span.file@ + ":"@ + decimal(f.span.line_start as nat) + ":"@ + decimal(f.span.column_start as nat)
        + "\n"@
}

fn header(finding: &Finding, suppressed: bool, pad: &str) -> (r: String)
    requires
        pad@ == pad_of(*finding),
    ensures
        r@ == header_text(*finding, suppressed),
{
    let severity = if suppressed {
        "suppressed"
    } else {
        match finding.confidence {
            Confidence::Deny | Confidence::Confirmed => "error",
            Confidence::Warning => "warning",
        }
    };
    let mut out = owned(severity);
    push_str(&mut out, "[");
    push_str(&mut out, finding.code.as_str());
    push_str(&mut out, "]: ");
    push_str(&mut out, finding.message.as_str());
    push_str(&mut out, "\n");
    push_str(&mut out, pad);
    push_str(&mut out, "--> ");
    push_str(&mut out, finding.span.file.as_str());
    push_str(&mut out, ":");
    push_decimal(&mut out, finding.span.line_start);
    push_str(&mut out, ":");
    push_decimal(&mut out, finding.span.column_start);
    push_str(&mut out, "\n");
    assert(out@ =~= header_text(*finding, suppressed));
    out
}

/// Render one finding rustc-style. `line` is the source line its span
/// starts on, when the file could be read.
pub fn render_item(item: &Item, line: Option<&str>) -> (r: String)
    requires
        line matches Some(raw) ==> 255 * (raw@.len() + 1) <= usize::MAX,
    ensures
        r@ == item_text(*item.finding, carried(*item), opt_str(line)),
{
    let finding = item.finding;
    let pad = repeat_char(' ', decimal_string(finding.span.line_start).unicode_len());
    let mut out = header(finding, item.suppression.is_some(), pad.as_str());
    let ghost a = out@;
    if let Some(snippet) = source_snippet(finding, line, pad.as_str()) {
        push_str(&mut out, snippet.as_str());
    }
    assert(out@ =~= a + snippet_text(*finding, opt_str(line)));
    let ghost b = out@;
    if let Some(entry) = item.suppression {
        push_str(&mut out, pad.as_str());
        push_str(&mut out, " = baseline: ");
        push_str(&mut out, entry.reason.as_str());
        push_str(&mut out, "\n");
    }
    let ghost c = out@;
    assert(c =~= b + match carried(*item) {
        Some(e) => pad_of(*finding) + " = baseline: "@ + e.reason@ + "\n"@,
        None => Seq::empty(),
    });
    push_notes(&mut out, pad.as_str(), &finding.notes);
    push_provenance(&mut out, pad.as_str(), &finding.provenance);
    let ghost d = out@;
    if let Some(help) = &finding.help {
        push_str(&mut out, pad.as_str());
        push_str(&mut out, " = help: ");
        push_str(&mut out, help.as_str());
        push_str(&mut out, "\n");
    }
    assert(out@ =~= d + match finding.help {
        Some(h) => pad_of(*finding) + " = help: "@ + h@ + "\n"@,
        None => Seq::empty(),
    });
    assert(out@ =~= item_text(*finding, carried(*item), opt_str(line)));
    out
}

} // verus!
