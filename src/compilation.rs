//! Placing the messages of a compilation on the document they came from.
use vstd::prelude::*;
use vstd::string::StringSliceAdditionalSpecFns;
use vstd::utf8::is_continuation_byte;
use crate::ast::{find_byte, trimmed, trim_start, trim_end};
use crate::text::{Class, run_end, lemma_run_end, scan, has_at, bytes_at, is_cut, slice_str, utf8};
use crate::backend_traits::{CompilationError, CompilationResult};
use crate::parser::{trim_bounds, lemma_trim_start, lemma_trim_end};
use crate::diagnostic::{Diagnostic, DiagnosticSeverity, DiagnosticSource, diagnostics_view};

verus! {

/// The offset where line `k + 1` begins, counting lines from the one that
/// starts at `i`; none if the text has fewer lines.
pub open spec fn line_start_from(s: Seq<u8>, i: int, k: nat) -> Option<int>
    decreases k,
{
    if k == 0 {
        Some(i)
    } else {
        let nl = find_byte(s, i, s.len() as int, 0x0a);
        if nl >= s.len() || nl < i {
            None
        } else {
            line_start_from(s, nl + 1, (k - 1) as nat)
        }
    }
}

/// The offset of character `t` (0-based) of `s[p..end)`, or `end` when the
/// range holds fewer characters.
pub open spec fn char_offset(s: Seq<u8>, p: int, end: int, t: nat) -> int
    decreases end - p,
{
    if p >= end || p < 0 || p >= s.len() {
        end
    } else if is_continuation_byte(s[p]) {
        char_offset(s, p + 1, end, t)
    } else if t == 0 {
        p
    } else {
        char_offset(s, p + 1, end, (t - 1) as nat)
    }
}

/// The byte offset of 1-based `line` and `column` (in characters) in `s`.
/// A column past the end of its line gives the end of the line; column 0
/// counts as column 1; a line that `s` does not have gives none.
pub open spec fn line_offset(s: Seq<u8>, line: nat, column: nat) -> Option<int> {
    if line == 0 {
        None
    } else {
        match line_start_from(s, 0, (line - 1) as nat) {
            None => None,
            Some(st) => Some(
                char_offset(s, st, find_byte(s, st, s.len() as int, 0x0a), if column == 0 { 0 } else { (column - 1) as nat }),
            ),
        }
    }
}

proof fn lemma_find_byte(s: Seq<u8>, i: int, end: int, x: u8)
    requires
        0 <= i <= end <= s.len(),
    ensures
        i <= find_byte(s, i, end, x) <= end,
        find_byte(s, i, end, x) < end ==> s[find_byte(s, i, end, x)] == x,
    decreases end - i,
{
    if i < end && s[i] != x {
        lemma_find_byte(s, i + 1, end, x);
    }
}

proof fn lemma_char_offset(s: Seq<u8>, p: int, end: int, t: nat)
    requires
        0 <= p <= end <= s.len(),
    ensures
        p <= char_offset(s, p, end, t) <= end,
    decreases end - p,
{
    if p < end {
        if is_continuation_byte(s[p]) {
            lemma_char_offset(s, p + 1, end, t);
        } else if t > 0 {
            lemma_char_offset(s, p + 1, end, (t - 1) as nat);
        }
    }
}

/// The first `x` in `s[i..end)`, or `end`.
fn find_exec(s: &[u8], i: usize, end: usize, x: u8) -> (r: usize)
    requires
        i <= end <= s@.len(),
    ensures
        r == find_byte(s@, i as int, end as int, x),
        i <= r <= end,
{
    let mut j = i;
    while j < end && s[j] != x
        invariant
            i <= j <= end <= s@.len(),
            find_byte(s@, i as int, end as int, x) == find_byte(s@, j as int, end as int, x),
        decreases end - j,
    {
        j = j + 1;
    }
    j
}

/// The byte offset of 1-based `line` and `column` (counted in characters)
/// in `text`.
pub fn line_column_to_offset(text: &str, line: u32, column: u32) -> (r: Option<usize>)
    ensures
        r matches Some(o) ==> line_offset(text.spec_bytes(), line as nat, column as nat) == Some(o as int),
        r is None ==> line_offset(text.spec_bytes(), line as nat, column as nat) is None,
{
    let s = text.as_bytes();
    let ghost g = s@;
    let n = s.len();
    if line == 0 {
        return None;
    }
    // Skip `line - 1` newlines.
    let mut start: usize = 0;
    let mut k: u32 = line - 1;
    while k > 0
        invariant
            g == s@,
            g == text.spec_bytes(),
            n == g.len(),
            start <= n,
            line_start_from(g, 0, (line - 1) as nat) == line_start_from(g, start as int, k as nat),
        decreases k,
    {
        let nl = find_exec(s, start, n, 0x0a);
        proof {
            lemma_find_byte(g, start as int, n as int, 0x0a);
        }
        if nl >= n {
            assert(line_start_from(g, start as int, k as nat) is None);
            return None;
        }
        start = nl + 1;
        k = k - 1;
    }
    let le = find_exec(s, start, n, 0x0a);
    let target: u32 = if column == 0 { 0 } else { column - 1 };
    // Walk to the start of character `target`, but not past the line's end.
    let mut p = start;
    let mut t = target;
    while p < le && (is_continuation(s[p]) || t > 0)
        invariant
            g == s@,
            start <= p <= le <= n,
            n == g.len(),
            char_offset(g, start as int, le as int, target as nat) == char_offset(g, p as int, le as int, t as nat),
        decreases le - p,
    {
        if !is_continuation(s[p]) {
            t = t - 1;
        }
        p = p + 1;
    }
    Some(p)
}

fn is_continuation(b: u8) -> (r: bool)
    ensures
        r == is_continuation_byte(b),
{
    0x80 <= b && b <= 0xbf
}

/// Where the diagnostic of a compiler message placed at `o` ends: it covers
/// the one byte there, or nothing at the very end of the text.
pub open spec fn end_of(s: Seq<u8>, o: int) -> int {
    if o < s.len() {
        o + 1
    } else {
        o
    }
}

/// The diagnostics of the messages `es` that can be placed in `s`, in order.
pub open spec fn placed(s: Seq<u8>, es: Seq<CompilationError>, sev: DiagnosticSeverity) -> Seq<(int, int, DiagnosticSeverity, Seq<char>, DiagnosticSource)>
    decreases es.len(),
{
    if es.len() == 0 {
        seq![]
    } else {
        let e = es.last();
        let rest = placed(s, es.drop_last(), sev);
        match line_offset(s, e.line as nat, e.column as nat) {
            Some(o) => rest.push((o, end_of(s, o), sev, e.message@, DiagnosticSource::Compiler)),
            None => rest,
        }
    }
}

fn place_messages(text: &str, es: &Vec<CompilationError>, sev: DiagnosticSeverity, out: &mut Vec<Diagnostic>)
    ensures
        diagnostics_view(final(out)@) == diagnostics_view(old(out)@) + placed(text.spec_bytes(), es@, sev),
{
    let ghost s = text.spec_bytes();
    let n = text.as_bytes().len();
    let mut j: usize = 0;
    assert(diagnostics_view(out@) + placed(s, es@.subrange(0, 0), sev) =~= diagnostics_view(out@));
    while j < es.len()
        invariant
            j <= es@.len(),
            s == text.spec_bytes(),
            n == s.len(),
            diagnostics_view(out@) == diagnostics_view(old(out)@) + placed(s, es@.subrange(0, j as int), sev),
        decreases es@.len() - j,
    {
        let e = &es[j];
        proof {
            assert(es@.subrange(0, j + 1).drop_last() =~= es@.subrange(0, j as int));
            assert(es@.subrange(0, j + 1).last() == es@[j as int]);
        }
        match line_column_to_offset(text, e.line, e.column) {
            Some(o) => {
                proof {
                    lemma_offset_bound(s, e.line as nat, e.column as nat);
                }
                let end = if o < n { o + 1 } else { o };
                let d = Diagnostic {
                    start: o,
                    end,
                    severity: sev,
                    message: e.message.clone(),
                    source: DiagnosticSource::Compiler,
                };
                let ghost before = out@;
                out.push(d);
                assert(diagnostics_view(out@) =~= diagnostics_view(before) + seq![(o as int, end as int, sev, e.message@, DiagnosticSource::Compiler)]);
            },
            None => {},
        }
        j = j + 1;
    }
    assert(es@.subrange(0, j as int) =~= es@);
}

/// An offset that `line_offset` gives lies within the text, so a length of
/// at most `u32::MAX` past it still fits in `usize`.
proof fn lemma_offset_bound(s: Seq<u8>, line: nat, column: nat)
    requires
        line_offset(s, line, column) is Some,
        s.len() <= usize::MAX,
    ensures
        0 <= line_offset(s, line, column)->Some_0 <= s.len(),
{
    lemma_line_start(s, 0, (line - 1) as nat);
    let st = line_start_from(s, 0, (line - 1) as nat)->Some_0;
    lemma_find_byte(s, st, s.len() as int, 0x0a);
    let le = find_byte(s, st, s.len() as int, 0x0a);
    lemma_char_offset(s, st, le, if column == 0 { 0 } else { (column - 1) as nat });
}

proof fn lemma_line_start(s: Seq<u8>, i: int, k: nat)
    requires
        0 <= i <= s.len(),
    ensures
        line_start_from(s, i, k) matches Some(st) ==> i <= st <= s.len(),
    decreases k,
{
    if k > 0 {
        lemma_find_byte(s, i, s.len() as int, 0x0a);
        let nl = find_byte(s, i, s.len() as int, 0x0a);
        if nl < s.len() {
            lemma_line_start(s, nl + 1, (k - 1) as nat);
        }
    }
}

/// The diagnostics of a compilation of `source`: its errors, then its
/// warnings, each placed at its line and column and covering the byte
/// there. Messages whose line `source` does not have are left out.
pub fn compilation_diagnostics(source: &str, result: &CompilationResult) -> (r: Vec<Diagnostic>)
    ensures
        diagnostics_view(r@) == placed(source.spec_bytes(), result.errors@, DiagnosticSeverity::Error) + placed(
            source.spec_bytes(),
            result.warnings@,
            DiagnosticSeverity::Warning,
        ),
{
    let mut out: Vec<Diagnostic> = Vec::new();
    place_messages(source, &result.errors, DiagnosticSeverity::Error, &mut out);
    place_messages(source, &result.warnings, DiagnosticSeverity::Warning, &mut out);
    assert(diagnostics_view(Seq::<Diagnostic>::empty()) =~= seq![]);
    assert(seq![] + placed(source.spec_bytes(), result.errors@, DiagnosticSeverity::Error) =~= placed(
        source.spec_bytes(),
        result.errors@,
        DiagnosticSeverity::Error,
    ));
    out
}

/// `error`
pub open spec fn kw_error() -> Seq<u8> {
    seq![0x65u8, 0x72, 0x72, 0x6f, 0x72]
}

/// `warning`
pub open spec fn kw_warning() -> Seq<u8> {
    seq![0x77u8, 0x61, 0x72, 0x6e, 0x69, 0x6e, 0x67]
}

/// The end of the run of class `c` from `i`, cut at `e`.
pub open spec fn run_within(s: Seq<u8>, i: int, e: int, c: Class) -> int {
    if run_end(s, i, c) < e {
        run_end(s, i, c)
    } else {
        e
    }
}

/// Where `error` or `warning` at `w` ends, or -1.
pub open spec fn keyword_end(s: Seq<u8>, w: int, e: int) -> int {
    if w + 5 <= e && has_at(s, w, kw_error()) {
        w + 5
    } else if w + 7 <= e && has_at(s, w, kw_warning()) {
        w + 7
    } else {
        -1
    }
}

/// A compiler message that starts at `p` within the line `s[..e)`: an
/// optional `:`, the line number, `:`, the column, white space, `error` or
/// `warning`, an optional `:`, white space and the message. The result
/// holds the bounds of both numbers and where the message begins; when
/// nothing follows the white space, its last byte is the message.
pub open spec fn message_at(s: Seq<u8>, p: int, e: int) -> Option<(int, int, int, int, int)> {
    let q = if p < e && s[p] == 0x3a { p + 1 } else { p };
    let d1 = run_within(s, q, e, Class::Digit);
    let d2 = run_within(s, d1 + 1, e, Class::Digit);
    let w = run_within(s, d2, e, Class::Space);
    let k = keyword_end(s, w, e);
    let c = if 0 <= k < e && s[k] == 0x3a { k + 1 } else { k };
    let w2 = run_within(s, c, e, Class::Space);
    if d1 == q || d1 >= e || s[d1] != 0x3a || d2 == d1 + 1 || w == d2 || k < 0 || w2 == c || (w2 == e && w2 - c < 2) {
        None
    } else {
        Some((q, d1, d1 + 1, d2, if w2 < e { w2 } else { e - 1 }))
    }
}

/// The first message found in `s[p..e)`, trying each start from `p` on.
pub open spec fn first_message(s: Seq<u8>, p: int, e: int) -> Option<(int, int, int, int, int)>
    decreases e + 1 - p,
{
    if p > e {
        None
    } else {
        match message_at(s, p, e) {
            Some(m) => Some(m),
            None => first_message(s, p + 1, e),
        }
    }
}

/// The value of the decimal digits `s[a..b)`.
pub open spec fn digits_value(s: Seq<u8>, a: int, b: int) -> nat
    decreases b - a,
{
    if b <= a {
        0
    } else {
        digits_value(s, a, b - 1) * 10 + ((s[b - 1] - 0x30) as nat)
    }
}

/// A number of the message: its value if it fits in `u32`, else 0.
pub open spec fn number_of(s: Seq<u8>, a: int, b: int) -> u32 {
    if digits_value(s, a, b) <= u32::MAX {
        digits_value(s, a, b) as u32
    } else {
        0
    }
}

pub open spec fn ascii_lower(b: u8) -> u8 {
    if 0x41 <= b && b <= 0x5a {
        (b + 0x20) as u8
    } else {
        b
    }
}

/// `s` says `warning` at `j`, in any letter case.
pub open spec fn warning_at(s: Seq<u8>, j: int) -> bool {
    Seq::new(7, |t: int| ascii_lower(s[j + t])) == kw_warning()
}

/// The line `s[a..e)` says `warning`, in any letter case.
pub open spec fn mentions_warning(s: Seq<u8>, a: int, e: int) -> bool {
    exists|j: int| a <= j && j + 7 <= e && #[trigger] warning_at(s, j)
}

/// The message of the line `s[a..e)`, if it holds one: line, column and
/// text without surrounding white space.
pub open spec fn line_message(s: Seq<u8>, a: int, e: int) -> Option<(u32, u32, Seq<u8>)> {
    match first_message(s, a, e) {
        Some((d1s, d1e, d2s, d2e, m)) => Some((number_of(s, d1s, d1e), number_of(s, d2s, d2e), trimmed(s, m, e))),
        None => None,
    }
}

/// The lines of `s` from `i` on: split at `\n`, a `\r` before it dropped.
pub open spec fn lines_from(s: Seq<u8>, i: int) -> Seq<(int, int)>
    decreases s.len() + 1 - i,
{
    if i < 0 || i >= s.len() {
        seq![]
    } else {
        let nl = find_byte(s, i, s.len() as int, 0x0a);
        let e = if nl < s.len() && nl > i && s[nl - 1] == 0x0d { nl - 1 } else { nl };
        if nl < i || nl > s.len() {
            seq![]
        } else {
            seq![(i, e)] + lines_from(s, nl + 1)
        }
    }
}

/// The messages of the lines `ls` of `s` that mention `warning` (if `warn`)
/// or do not (if not).
pub open spec fn messages_in(s: Seq<u8>, ls: Seq<(int, int)>, warn: bool) -> Seq<(u32, u32, Seq<u8>)>
    decreases ls.len(),
{
    if ls.len() == 0 {
        seq![]
    } else {
        let (a, e) = ls.last();
        let rest = messages_in(s, ls.drop_last(), warn);
        match line_message(s, a, e) {
            Some(m) => if mentions_warning(s, a, e) == warn { rest.push(m) } else { rest },
            None => rest,
        }
    }
}

pub open spec fn errors_view(es: Seq<CompilationError>) -> Seq<(u32, u32, Seq<u8>)> {
    Seq::new(es.len(), |k: int| (es[k].line, es[k].column, utf8(es[k].message@)))
}

fn run_within_exec(s: &[u8], i: usize, e: usize, c: Class) -> (r: usize)
    requires
        i <= e <= s@.len(),
    ensures
        r == run_within(s@, i as int, e as int, c),
        i <= r <= e,
{
    let r = scan(s, i, c);
    if r < e {
        r
    } else {
        e
    }
}

fn keyword_end_exec(s: &[u8], w: usize, e: usize) -> (r: Option<usize>)
    requires
        w <= e <= s@.len(),
    ensures
        r matches Some(k) ==> keyword_end(s@, w as int, e as int) == k && w < k <= e,
        r is None ==> keyword_end(s@, w as int, e as int) == -1,
{
    let err = vec![0x65u8, 0x72, 0x72, 0x6f, 0x72];
    let warn = vec![0x77u8, 0x61, 0x72, 0x6e, 0x69, 0x6e, 0x67];
    assert(err@ =~= kw_error());
    assert(warn@ =~= kw_warning());
    if e - w >= 5 && bytes_at(s, w, err.as_slice()) {
        Some(w + 5)
    } else if e - w >= 7 && bytes_at(s, w, warn.as_slice()) {
        Some(w + 7)
    } else {
        None
    }
}

fn message_at_exec(s: &[u8], p: usize, e: usize) -> (r: Option<(usize, usize, usize, usize, usize)>)
    requires
        p <= e <= s@.len(),
    ensures
        r matches Some(m) ==> message_at(s@, p as int, e as int) == Some((m.0 as int, m.1 as int, m.2 as int, m.3 as int, m.4 as int)),
        r is None ==> message_at(s@, p as int, e as int) is None,
{
    let q = if p < e && s[p] == 0x3a { p + 1 } else { p };
    let d1 = run_within_exec(s, q, e, Class::Digit);
    if d1 == q || d1 >= e || s[d1] != 0x3a {
        return None;
    }
    let d2 = run_within_exec(s, d1 + 1, e, Class::Digit);
    if d2 == d1 + 1 {
        return None;
    }
    let w = run_within_exec(s, d2, e, Class::Space);
    if w == d2 {
        return None;
    }
    let k = match keyword_end_exec(s, w, e) {
        Some(k) => k,
        None => {
            return None;
        },
    };
    let c = if k < e && s[k] == 0x3a { k + 1 } else { k };
    let w2 = run_within_exec(s, c, e, Class::Space);
    if w2 == c || (w2 == e && w2 - c < 2) {
        return None;
    }
    Some((q, d1, d1 + 1, d2, if w2 < e { w2 } else { e - 1 }))
}

fn first_message_exec(s: &[u8], a: usize, e: usize) -> (r: Option<(usize, usize, usize, usize, usize)>)
    requires
        a <= e <= s@.len(),
    ensures
        r matches Some(m) ==> first_message(s@, a as int, e as int) == Some((m.0 as int, m.1 as int, m.2 as int, m.3 as int, m.4 as int)),
        r is None ==> first_message(s@, a as int, e as int) is None,
{
    let mut p = a;
    loop
        invariant
            a <= p <= e <= s@.len(),
            first_message(s@, a as int, e as int) == first_message(s@, p as int, e as int),
        decreases e - p,
    {
        match message_at_exec(s, p, e) {
            Some(m) => {
                return Some(m);
            },
            None => {},
        }
        if p == e {
            assert(first_message(s@, p + 1, e as int) is None);
            return None;
        }
        p = p + 1;
    }
}

proof fn lemma_digits_grow(s: Seq<u8>, a: int, b: int)
    requires
        a < b,
    ensures
        digits_value(s, a, b) >= digits_value(s, a, b - 1),
{
    let v = digits_value(s, a, b - 1);
    assert(v * 10 >= v) by (nonlinear_arith);
}

/// The number written in the digits `s[a..b)`, or 0 if it does not fit in
/// `u32`.
fn number_exec(s: &[u8], a: usize, b: usize) -> (r: u32)
    requires
        a <= b <= s@.len(),
        forall|j: int| a <= j < b ==> 0x30 <= #[trigger] s@[j] <= 0x39,
    ensures
        r == number_of(s@, a as int, b as int),
{
    let mut v: u64 = 0;
    let mut big = false;
    let mut j = a;
    while j < b
        invariant
            a <= j <= b <= s@.len(),
            forall|t: int| a <= t < b ==> 0x30 <= #[trigger] s@[t] <= 0x39,
            !big ==> v == digits_value(s@, a as int, j as int) && v <= u32::MAX,
            big ==> digits_value(s@, a as int, j as int) > u32::MAX,
        decreases b - j,
    {
        proof {
            lemma_digits_grow(s@, a as int, j + 1);
        }
        if !big {
            let d = (s[j] - 0x30) as u64;
            assert(v * 10 + d <= u32::MAX * 10 + 9) by (nonlinear_arith)
                requires
                    v <= u32::MAX,
                    d <= 9,
            ;
            let nv = v * 10 + d;
            if nv > 0xffff_ffff {
                big = true;
            } else {
                v = nv;
            }
        }
        j = j + 1;
    }
    if big {
        0
    } else {
        v as u32
    }
}

fn mentions_warning_exec(s: &[u8], a: usize, e: usize) -> (r: bool)
    requires
        a <= e <= s@.len(),
    ensures
        r == mentions_warning(s@, a as int, e as int),
{
    let warn = vec![0x77u8, 0x61, 0x72, 0x6e, 0x69, 0x6e, 0x67];
    assert(warn@ =~= kw_warning());
    let mut j = a;
    while e - j >= 7
        invariant
            a <= j <= e,
            e <= s@.len(),
            warn@ == kw_warning(),
            forall|x: int| a <= x < j ==> !#[trigger] warning_at(s@, x),
        decreases e - j,
    {
        let mut t: usize = 0;
        let mut same = true;
        while t < 7 && same
            invariant
                t <= 7,
                j + 7 <= e <= s@.len(),
                warn@ == kw_warning(),
                same == forall|u: int| 0 <= u < t ==> ascii_lower(#[trigger] s@[j + u]) == kw_warning()[u],
            decreases 7 - t,
        {
            let b = s[j + t];
            let l = if 0x41 <= b && b <= 0x5a { b + 0x20 } else { b };
            if l != warn[t] {
                same = false;
            }
            t = t + 1;
        }
        proof {
            if same {
                assert(Seq::new(7, |u: int| ascii_lower(s@[j + u])) =~= kw_warning());
            } else {
                let u = choose|u: int| 0 <= u < t && ascii_lower(#[trigger] s@[j + u]) != kw_warning()[u];
                assert(Seq::new(7, |u: int| ascii_lower(s@[j + u]))[u] != kw_warning()[u]);
            }
        }
        if same {
            assert(warning_at(s@, j as int));
            return true;
        }
        j = j + 1;
    }
    false
}

proof fn lemma_run_within(s: Seq<u8>, i: int, e: int, c: Class)
    requires
        0 <= i <= e <= s.len(),
    ensures
        i <= run_within(s, i, e, c) <= e,
        forall|j: int| i <= j < run_within(s, i, e, c) ==> crate::text::in_class(c, #[trigger] s[j]),
{
    lemma_run_end(s, i, c);
}

/// What a message found at `p` consists of.
proof fn lemma_message_facts(s: Seq<u8>, p: int, e: int)
    requires
        0 <= p <= e <= s.len(),
        message_at(s, p, e) is Some,
    ensures
        ({
            let m = message_at(s, p, e)->Some_0;
            &&& p <= m.0 < m.1 && m.2 == m.1 + 1 && m.2 < m.3 && m.3 < m.4 < e
            &&& forall|j: int| m.0 <= j < m.1 ==> 0x30 <= #[trigger] s[j] <= 0x39
            &&& forall|j: int| m.2 <= j < m.3 ==> 0x30 <= #[trigger] s[j] <= 0x39
            &&& is_cut(s, m.4)
        }),
{
    let q = if p < e && s[p] == 0x3a { p + 1 } else { p };
    lemma_run_within(s, q, e, Class::Digit);
    let d1 = run_within(s, q, e, Class::Digit);
    lemma_run_within(s, d1 + 1, e, Class::Digit);
    let d2 = run_within(s, d1 + 1, e, Class::Digit);
    lemma_run_within(s, d2, e, Class::Space);
    let w = run_within(s, d2, e, Class::Space);
    let k = keyword_end(s, w, e);
    let c = if 0 <= k < e && s[k] == 0x3a { k + 1 } else { k };
    lemma_run_within(s, c, e, Class::Space);
    let w2 = run_within(s, c, e, Class::Space);
    if w2 < e {
        assert(crate::text::in_class(Class::Space, s[w2 - 1]));
    } else {
        assert(crate::text::in_class(Class::Space, s[e - 1]));
    }
}

proof fn lemma_first_message_facts(s: Seq<u8>, p: int, e: int)
    requires
        0 <= p <= e <= s.len(),
        first_message(s, p, e) is Some,
    ensures
        ({
            let m = first_message(s, p, e)->Some_0;
            &&& p <= m.0 < m.1 && m.2 == m.1 + 1 && m.2 < m.3 && m.3 < m.4 < e
            &&& forall|j: int| m.0 <= j < m.1 ==> 0x30 <= #[trigger] s[j] <= 0x39
            &&& forall|j: int| m.2 <= j < m.3 ==> 0x30 <= #[trigger] s[j] <= 0x39
            &&& is_cut(s, m.4)
        }),
    decreases e + 1 - p,
{
    if message_at(s, p, e) is Some {
        lemma_message_facts(s, p, e);
    } else {
        lemma_first_message_facts(s, p + 1, e);
    }
}

/// The message of the line `text[a..e)`, if it holds one.
fn line_message_exec(text: &str, a: usize, e: usize) -> (r: Option<CompilationError>)
    requires
        a <= e <= text.spec_bytes().len(),
        is_cut(text.spec_bytes(), e as int),
    ensures
        r matches Some(m) ==> line_message(text.spec_bytes(), a as int, e as int) == Some((m.line, m.column, utf8(m.message@))),
        r is None ==> line_message(text.spec_bytes(), a as int, e as int) is None,
{
    let s = text.as_bytes();
    let ghost g = s@;
    match first_message_exec(s, a, e) {
        None => None,
        Some((d1s, d1e, d2s, d2e, m)) => {
            proof {
                lemma_first_message_facts(g, a as int, e as int);
            }
            let line = number_exec(s, d1s, d1e);
            let column = number_exec(s, d2s, d2e);
            let (x, y) = trim_bounds(s, m, e);
            proof {
                lemma_trim_start(g, m as int, e as int);
                lemma_trim_end(g, x as int, e as int);
            }
            let message = slice_str(text, x, y);
            Some(CompilationError { line, column, message })
        },
    }
}

/// The errors and warnings that a compiler printed in `output`: each line
/// that holds a message as `message_at` reads it gives one, a warning when
/// the line says `warning` in any letter case, an error otherwise. The
/// compilation succeeded when there is no error.
pub fn parse_compiler_output(output: &str) -> (r: CompilationResult)
    ensures
        errors_view(r.errors@) == messages_in(output.spec_bytes(), lines_from(output.spec_bytes(), 0), false),
        errors_view(r.warnings@) == messages_in(output.spec_bytes(), lines_from(output.spec_bytes(), 0), true),
        r.success == (r.errors@.len() == 0),
        r.pdf_path is None,
        r.log@ == output@,
{
    let s = output.as_bytes();
    let ghost g = s@;
    let n = s.len();
    let mut errors: Vec<CompilationError> = Vec::new();
    let mut warnings: Vec<CompilationError> = Vec::new();
    let ghost mut done: Seq<(int, int)> = seq![];
    let mut i: usize = 0;
    assert(lines_from(g, 0) =~= done + lines_from(g, 0));
    assert(errors_view(errors@) =~= messages_in(g, done, false));
    assert(errors_view(warnings@) =~= messages_in(g, done, true));
    while i < n
        invariant
            g == s@,
            g == output.spec_bytes(),
            n == g.len(),
            i <= n,
            lines_from(g, 0) == done + lines_from(g, i as int),
            errors_view(errors@) == messages_in(g, done, false),
            errors_view(warnings@) == messages_in(g, done, true),
        decreases n - i,
    {
        let nl = find_exec(s, i, n, 0x0a);
        proof {
            lemma_find_byte(g, i as int, n as int, 0x0a);
        }
        let e = if nl < n && nl > i && s[nl - 1] == 0x0d { nl - 1 } else { nl };
        proof {
            assert(lines_from(g, i as int) == seq![(i as int, e as int)] + lines_from(g, nl + 1));
            assert(done + lines_from(g, i as int) =~= done.push((i as int, e as int)) + lines_from(g, nl + 1));
            assert(done.push((i as int, e as int)).drop_last() =~= done);
        }
        let found = line_message_exec(output, i, e);
        let warn = mentions_warning_exec(s, i, e);
        match found {
            Some(m) => {
                let ghost mv = (m.line, m.column, utf8(m.message@));
                if warn {
                    let ghost before = warnings@;
                    warnings.push(m);
                    assert(errors_view(warnings@) =~= errors_view(before).push(mv));
                } else {
                    let ghost before = errors@;
                    errors.push(m);
                    assert(errors_view(errors@) =~= errors_view(before).push(mv));
                }
            },
            None => {},
        }
        proof {
            done = done.push((i as int, e as int));
        }
        if nl < n {
            i = nl + 1;
        } else {
            assert(lines_from(g, nl + 1) =~= lines_from(g, n as int));
            i = n;
        }
    }
    proof {
        assert(lines_from(g, i as int) =~= Seq::<(int, int)>::empty());
        assert(done + Seq::<(int, int)>::empty() =~= done);
    }
    let success = errors.len() == 0;
    CompilationResult { success, pdf_path: None, log: output.to_owned(), errors, warnings }
}

} // verus!
