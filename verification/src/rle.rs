//! The run-length-encoded pattern decoder: turns pattern text into a
//! coordinate-tagged token stream plus a rule string, and applies both to
//! a grid. The decoder is deliberately non-strict: unrecognized characters
//! are skipped, an unparseable header leaves the defaults in place, and an
//! unparseable rule string leaves the grid's rule unchanged.

use vstd::prelude::*;

use crate::grid::{cell_write, Grid};
use crate::rule::{counts_of, Rule, RuleData};
use vstd::string::StringSliceAdditionalSpecFns;

verus! {

/// One decoded pattern token: a run of dead cells, a run of live cells,
/// ends of line, or the end of the whole pattern.
#[derive(Copy, Clone, Debug, PartialEq, Eq, Structural)]
pub enum Tag {
    /// A run of dead cells (`b`).
    DeadCell,
    /// A run of live cells (`o`).
    AliveCell,
    /// One or more line ends (`$`).
    EoL,
    /// The pattern terminator (`!`); everything after it is discarded.
    EoF,
}

/// Whether a byte is an ASCII decimal digit.
pub open spec fn is_digit(b: u8) -> bool {
    48 <= b <= 57
}

/// Whether a byte is ASCII whitespace.
pub open spec fn is_space(b: u8) -> bool {
    b == 32 || b == 9 || b == 10 || b == 11 || b == 12 || b == 13
}

/// Whether a byte is one of the three run tags `b`, `o`, `$`.
pub open spec fn is_tag(b: u8) -> bool {
    b == 98 || b == 111 || b == 36
}

/// The token a tag byte stands for.
pub open spec fn tag_of(b: u8) -> Tag {
    if b == 98 {
        Tag::DeadCell
    } else if b == 111 {
        Tag::AliveCell
    } else {
        Tag::EoL
    }
}

/// The position of the first non-digit byte at or after `i`.
pub open spec fn digits_end(s: Seq<u8>, i: int) -> int
    decreases s.len() - i when 0 <= i <= s.len()
{
    if i < s.len() && is_digit(s[i]) {
        digits_end(s, i + 1)
    } else {
        i
    }
}

/// What `digits_end` yields: the end of the maximal digit run from `i`.
pub proof fn lemma_digits_end(s: Seq<u8>, i: int)
    requires
        0 <= i <= s.len(),
    ensures
        i <= digits_end(s, i) <= s.len(),
        forall|k: int| i <= k < digits_end(s, i) ==> is_digit(#[trigger] s[k]),
        digits_end(s, i) < s.len() ==> !is_digit(s[digits_end(s, i)]),
    decreases s.len() - i,
{
    if i < s.len() && is_digit(s[i]) {
        lemma_digits_end(s, i + 1);
    }
}

/// The decimal value of the digit bytes `s[i..j]`.
pub open spec fn digits_val(s: Seq<u8>, i: int, j: int) -> int
    decreases j - i when i <= j
{
    if i >= j {
        0
    } else {
        digits_val(s, i, j - 1) * 10 + (s[j - 1] - 48)
    }
}

/// The value of a digit run is never negative.
pub proof fn lemma_digits_val_nonneg(s: Seq<u8>, i: int, j: int)
    requires
        i <= j,
        forall|k: int| i <= k < j ==> is_digit(#[trigger] s[k]),
    ensures
        digits_val(s, i, j) >= 0,
    decreases j - i,
{
    if i < j {
        lemma_digits_val_nonneg(s, i, j - 1);
    }
}

/// The run count a digit run before a tag stands for: the value of the
/// digits, 1 when there are none, and 1 again when the value does not fit
/// in a machine word - the count falls back to a single run.
pub open spec fn token_count(s: Seq<u8>, i: int, j: int) -> nat {
    if i == j {
        1
    } else if digits_val(s, i, j) > usize::MAX {
        1
    } else {
        digits_val(s, i, j) as nat
    }
}

/// The token stream of the pattern body read from position `i`, with the
/// digits of a partially read run starting at `run_start`: a digit extends
/// the pending run, a tag byte emits a token counted by the pending run, a
/// `!` emits the terminator and stops, and any other byte is skipped and
/// discards the pending run.
pub open spec fn scan_from(s: Seq<u8>, i: int, run_start: int) -> Seq<(Tag, nat)>
    decreases s.len() - i when 0 <= i <= s.len()
{
    if i >= s.len() {
        seq![]
    } else if is_digit(s[i]) {
        scan_from(s, i + 1, run_start)
    } else if is_tag(s[i]) {
        seq![(tag_of(s[i]), token_count(s, run_start, i))] + scan_from(s, i + 1, i + 1)
    } else if s[i] == 33 {
        seq![(Tag::EoF, 1nat)]
    } else {
        scan_from(s, i + 1, i + 1)
    }
}

/// The token stream of a whole pattern body.
pub open spec fn tokens_of(body: Seq<u8>) -> Seq<(Tag, nat)> {
    scan_from(body, 0, 0)
}

/// The mathematical counts of an executable token list.
pub open spec fn patterns_view(s: Seq<(Tag, usize)>) -> Seq<(Tag, nat)> {
    s.map_values(|p: (Tag, usize)| (p.0, p.1 as nat))
}

/// The position after an optional single whitespace byte at `i`.
pub open spec fn skip_one_space(l: Seq<u8>, i: int) -> int {
    if i < l.len() && is_space(l[i]) {
        i + 1
    } else {
        i
    }
}

/// The widths, height and rule string of a header line of the shape
/// `x = <width>, y = <height>, rule = <rule-string>`, each `=` and each
/// comma tolerating one optional whitespace byte around it, or nothing
/// when the line has another shape.
pub open spec fn header_parse(l: Seq<u8>) -> Option<(nat, nat, Seq<u8>)> {
    if !(0 < l.len() && l[0] == 120) {
        None
    } else {
        let i1 = skip_one_space(l, 1);
        if !(i1 < l.len() && l[i1] == 61) {
            None
        } else {
            let i2 = skip_one_space(l, i1 + 1);
            let j1 = digits_end(l, i2);
            if j1 == i2 || !(j1 < l.len() && l[j1] == 44) {
                None
            } else {
                let i3 = skip_one_space(l, j1 + 1);
                if !(i3 < l.len() && l[i3] == 121) {
                    None
                } else {
                    let i4 = skip_one_space(l, i3 + 1);
                    if !(i4 < l.len() && l[i4] == 61) {
                        None
                    } else {
                        let i5 = skip_one_space(l, i4 + 1);
                        let j2 = digits_end(l, i5);
                        if j2 == i5 || !(j2 < l.len() && l[j2] == 44) {
                            None
                        } else {
                            header_parse_tail(l, j2 + 1, digits_val(l, i2, j1), digits_val(l, i5, j2))
                        }
                    }
                }
            }
        }
    }
}

/// The tail of a header line from the byte after the second comma: the
/// literal `rule`, an `=` with one optional whitespace byte around it, and
/// a nonempty rule string reaching the end of the line.
pub open spec fn header_parse_tail(l: Seq<u8>, p: int, w: int, h: int) -> Option<
    (nat, nat, Seq<u8>),
> {
    let i6 = skip_one_space(l, p);
    if !(i6 + 4 <= l.len() && l[i6] == 114 && l[i6 + 1] == 117 && l[i6 + 2] == 108 && l[i6 + 3]
        == 101) {
        None
    } else {
        let i7 = skip_one_space(l, i6 + 4);
        if !(i7 < l.len() && l[i7] == 61) {
            None
        } else {
            let i8 = skip_one_space(l, i7 + 1);
            if i8 >= l.len() {
                None
            } else {
                Some((w as nat, h as nat, l.subrange(i8, l.len() as int)))
            }
        }
    }
}

/// The position of the first non-whitespace byte at or after `i`.
pub open spec fn ws_end(s: Seq<u8>, i: int) -> int
    decreases s.len() - i when 0 <= i <= s.len()
{
    if i < s.len() && is_space(s[i]) {
        ws_end(s, i + 1)
    } else {
        i
    }
}

/// The two digit runs of a rule string read at position `i`: an optional
/// `B` or `b`, birth digits, a `/` with optional whitespace around it, an
/// optional `S` or `s`, and survival digits. The result gives the bounds
/// of the two digit runs, or nothing when the text at `i` has another
/// shape.
pub open spec fn rule_match_at(s: Seq<u8>, i: int) -> Option<(int, int, int, int)>
    recommends
        0 <= i <= s.len(),
{
    let p0 = if i < s.len() && (s[i] == 66 || s[i] == 98) {
        i + 1
    } else {
        i
    };
    let p1 = digits_end(s, p0);
    if p1 == p0 {
        None
    } else {
        let p2 = ws_end(s, p1);
        if !(p2 < s.len() && s[p2] == 47) {
            None
        } else {
            let p3 = ws_end(s, p2 + 1);
            let p4 = if p3 < s.len() && (s[p3] == 83 || s[p3] == 115) {
                p3 + 1
            } else {
                p3
            };
            let p5 = digits_end(s, p4);
            if p5 == p4 {
                None
            } else {
                Some((p0, p1, p4, p5))
            }
        }
    }
}

/// The first position at or after `i` where the rule shape matches, with
/// the digit-run bounds of that match.
pub open spec fn rule_first_match(s: Seq<u8>, i: int) -> Option<(int, int, int, int)>
    decreases s.len() - i when 0 <= i <= s.len()
{
    if i >= s.len() {
        None
    } else if rule_match_at(s, i) is Some {
        rule_match_at(s, i)
    } else {
        rule_first_match(s, i + 1)
    }
}

/// The set of neighbor counts the digit bytes `s[i..j]` spell out.
pub open spec fn digit_counts(s: Seq<u8>, i: int, j: int) -> Set<int> {
    Set::new(|n: int| exists|k: int| i <= k < j && s[k] - 48 == n)
}

/// The rule a rule string installs: the birth and survival count sets of
/// its first match, or the previous rule when nothing in it matches.
pub open spec fn rule_after(rule: Seq<u8>, prev: RuleData) -> RuleData {
    match rule_first_match(rule, 0) {
        Some(m) => RuleData {
            birth: digit_counts(rule, m.0, m.1),
            stay: digit_counts(rule, m.2, m.3),
        },
        None => prev,
    }
}

/// The position of the first non-whitespace byte at or after `i`.
fn ws_end_exec(v: &Vec<u8>, i: usize) -> (r: usize)
    requires
        i <= v@.len(),
    ensures
        r as int == ws_end(v@, i as int),
        i <= r <= v@.len(),
{
    let n = v.len();
    let mut k = i;
    while k < n && (v[k] == 32 || v[k] == 9 || v[k] == 10 || v[k] == 11 || v[k] == 12 || v[k]
        == 13)
        invariant
            i <= k <= n,
            n == v@.len(),
            ws_end(v@, i as int) == ws_end(v@, k as int),
        decreases n - k,
    {
        proof {
            assert(ws_end(v@, k as int) == ws_end(v@, k as int + 1));
        }
        k += 1;
    }
    proof {
        assert(ws_end(v@, k as int) == k as int);
    }
    k
}

/// Reads the rule shape at position `i`: the bounds of the two digit runs,
/// or nothing when the text at `i` has another shape.
fn rule_match_at_exec(v: &Vec<u8>, i: usize) -> (r: Option<(usize, usize, usize, usize)>)
    requires
        i <= v@.len(),
    ensures
        r is Some <==> rule_match_at(v@, i as int) is Some,
        r matches Some(t) ==> {
            &&& rule_match_at(v@, i as int) == Some(
                (t.0 as int, t.1 as int, t.2 as int, t.3 as int),
            )
            &&& t.0 <= t.1 <= v@.len()
            &&& t.2 <= t.3 <= v@.len()
            &&& forall|k: int| t.0 <= k < t.1 ==> is_digit(#[trigger] v@[k])
            &&& forall|k: int| t.2 <= k < t.3 ==> is_digit(#[trigger] v@[k])
        },
{
    let n = v.len();
    let p0 = if i < n && (v[i] == 66 || v[i] == 98) {
        i + 1
    } else {
        i
    };
    let p1 = digits_end_exec(v, p0);
    if p1 == p0 {
        return None;
    }
    let p2 = ws_end_exec(v, p1);
    if !(p2 < n && v[p2] == 47) {
        return None;
    }
    let p3 = ws_end_exec(v, p2 + 1);
    let p4 = if p3 < n && (v[p3] == 83 || v[p3] == 115) {
        p3 + 1
    } else {
        p3
    };
    let p5 = digits_end_exec(v, p4);
    if p5 == p4 {
        return None;
    }
    proof {
        lemma_digits_end(v@, p0 as int);
        lemma_digits_end(v@, p4 as int);
    }
    Some((p0, p1, p4, p5))
}

/// The first position where the rule shape matches, with its digit runs.
fn find_rule_match(v: &Vec<u8>) -> (r: Option<(usize, usize, usize, usize)>)
    ensures
        r is Some <==> rule_first_match(v@, 0) is Some,
        r matches Some(t) ==> {
            &&& rule_first_match(v@, 0) == Some((t.0 as int, t.1 as int, t.2 as int, t.3 as int))
            &&& t.0 <= t.1 <= v@.len()
            &&& t.2 <= t.3 <= v@.len()
            &&& forall|k: int| t.0 <= k < t.1 ==> is_digit(#[trigger] v@[k])
            &&& forall|k: int| t.2 <= k < t.3 ==> is_digit(#[trigger] v@[k])
        },
{
    let n = v.len();
    let mut i: usize = 0;
    while i < n
        invariant
            i <= n,
            n == v@.len(),
            rule_first_match(v@, 0) == rule_first_match(v@, i as int),
        decreases n - i,
    {
        let m = rule_match_at_exec(v, i);
        if let Some(t) = m {
            return Some(t);
        }
        proof {
            assert(rule_first_match(v@, i as int) == rule_first_match(v@, i as int + 1));
        }
        i += 1;
    }
    None
}

/// The neighbor counts a digit run spells out, one per digit byte.
fn digits_to_counts(v: &Vec<u8>, start: usize, end: usize) -> (r: Vec<usize>)
    requires
        start <= end <= v@.len(),
        forall|k: int| start <= k < end ==> is_digit(#[trigger] v@[k]),
    ensures
        counts_of(r@) == digit_counts(v@, start as int, end as int),
{
    let mut out: Vec<usize> = Vec::new();
    let mut k = start;
    while k < end
        invariant
            start <= k <= end <= v@.len(),
            forall|m: int| start <= m < end ==> is_digit(#[trigger] v@[m]),
            counts_of(out@) == digit_counts(v@, start as int, k as int),
        decreases end - k,
    {
        let ghost out0 = out@;
        out.push((v[k] - 48) as usize);
        proof {
            assert forall|n: int|
                counts_of(out@).contains(n) implies digit_counts(
                v@,
                start as int,
                k as int + 1,
            ).contains(n) by {
                let j = choose|j: int| 0 <= j < out@.len() && out@[j] as int == n;
                if j < out0.len() {
                    assert(counts_of(out0).contains(n));
                    let m = choose|m: int| start <= m < k && v@[m] - 48 == n;
                    assert(v@[m] - 48 == n);
                } else {
                    assert(v@[k as int] - 48 == n);
                }
            }
            assert forall|n: int|
                digit_counts(v@, start as int, k as int + 1).contains(n) implies counts_of(
                out@,
            ).contains(n) by {
                let m = choose|m: int| start <= m < k + 1 && v@[m] - 48 == n;
                if m < k {
                    assert(digit_counts(v@, start as int, k as int).contains(n));
                    let j = choose|j: int| 0 <= j < out0.len() && out0[j] as int == n;
                    assert(out@[j] as int == n);
                } else {
                    assert(out@[out@.len() - 1] as int == n);
                }
            }
            assert(counts_of(out@) =~= digit_counts(v@, start as int, k as int + 1));
        }
        k += 1;
    }
    out
}

/// The position of the first line-feed byte at or after `i`.
pub open spec fn line_end(s: Seq<u8>, i: int) -> int
    decreases s.len() - i when 0 <= i <= s.len()
{
    if i < s.len() && s[i] != 10 {
        line_end(s, i + 1)
    } else {
        i
    }
}

/// What `line_end` yields: the position of the line's terminating byte.
pub proof fn lemma_line_end(s: Seq<u8>, i: int)
    requires
        0 <= i <= s.len(),
    ensures
        i <= line_end(s, i) <= s.len(),
        forall|k: int| i <= k < line_end(s, i) ==> #[trigger] s[k] != 10,
        line_end(s, i) < s.len() ==> s[line_end(s, i)] == 10,
    decreases s.len() - i,
{
    if i < s.len() && s[i] != 10 {
        lemma_line_end(s, i + 1);
    }
}

/// A line without its trailing carriage return, if it carries one.
pub open spec fn strip_cr(l: Seq<u8>) -> Seq<u8> {
    if l.len() > 0 && l[l.len() - 1] == 13 {
        l.drop_last()
    } else {
        l
    }
}

/// What a decoder pass accumulates over the lines of the pattern text.
pub ghost struct Decoded {
    /// The width the header states; 0 before a header line is seen.
    pub width: nat,
    /// The height the header states; 0 before a header line is seen.
    pub height: nat,
    /// The rule string of the header; empty before a header line is seen.
    pub rule: Seq<u8>,
    /// The concatenated pattern body lines.
    pub body: Seq<u8>,
}

/// The accumulator before any line is decoded.
pub open spec fn decode_init() -> Decoded {
    Decoded { width: 0, height: 0, rule: seq![], body: seq![] }
}

/// A header value, or 0 in place of one too large for a machine word.
pub open spec fn clamp_or_zero(n: nat) -> nat {
    if n > usize::MAX {
        0
    } else {
        n
    }
}

/// What one line contributes: a comment line (leading `#`) is ignored, a
/// header line replaces width, height and rule string, and any other line
/// extends the pattern body.
pub open spec fn classify_line(l: Seq<u8>, acc: Decoded) -> Decoded {
    if l.len() > 0 && l[0] == 35 {
        acc
    } else {
        match header_parse(l) {
            Some(t) => Decoded { width: t.0, height: t.1, rule: t.2, body: acc.body },
            None => Decoded {
                width: acc.width,
                height: acc.height,
                rule: acc.rule,
                body: acc.body + l,
            },
        }
    }
}

/// The decoder pass over the whole text: splits it at line feeds, strips
/// one trailing carriage return per line, and folds `classify_line` over
/// the lines in order.
pub open spec fn decode_lines(s: Seq<u8>, acc: Decoded) -> Decoded
    decreases s.len()
    via decode_lines_decreases
{
    if s.len() == 0 {
        acc
    } else {
        let e = line_end(s, 0);
        let acc2 = classify_line(strip_cr(s.subrange(0, e)), acc);
        if e >= s.len() {
            acc2
        } else {
            decode_lines(s.subrange(e + 1, s.len() as int), acc2)
        }
    }
}

#[via_fn]
proof fn decode_lines_decreases(s: Seq<u8>, acc: Decoded) {
    if s.len() > 0 {
        lemma_line_end(s, 0);
    }
}

/// The position of the first non-digit byte at or after `i`.
fn digits_end_exec(v: &Vec<u8>, i: usize) -> (r: usize)
    requires
        i <= v@.len(),
    ensures
        r as int == digits_end(v@, i as int),
        i <= r <= v@.len(),
{
    let n = v.len();
    let mut k = i;
    while k < n && 48 <= v[k] && v[k] <= 57
        invariant
            i <= k <= n,
            n == v@.len(),
            digits_end(v@, i as int) == digits_end(v@, k as int),
        decreases n - k,
    {
        proof {
            assert(digits_end(v@, k as int) == digits_end(v@, k as int + 1));
        }
        k += 1;
    }
    proof {
        assert(digits_end(v@, k as int) == k as int);
        lemma_digits_end(v@, i as int);
    }
    k
}

/// The position after an optional single whitespace byte at `i`.
fn skip_space_exec(v: &Vec<u8>, i: usize) -> (r: usize)
    requires
        i <= v@.len(),
    ensures
        r as int == skip_one_space(v@, i as int),
        i <= r <= v@.len(),
{
    if i < v.len() {
        let b = v[i];
        if b == 32 || b == 9 || b == 10 || b == 11 || b == 12 || b == 13 {
            return i + 1;
        }
    }
    i
}

/// Reads a header line: the clamped width and height and the rule string,
/// or nothing when the line has another shape.
fn parse_header_line(l: &Vec<u8>) -> (r: Option<(usize, usize, Vec<u8>)>)
    ensures
        r is Some <==> header_parse(l@) is Some,
        r matches Some(t) ==> {
            let hp = header_parse(l@)->Some_0;
            &&& t.0 as nat == clamp_or_zero(hp.0)
            &&& t.1 as nat == clamp_or_zero(hp.1)
            &&& t.2@ == hp.2
        },
{
    let n = l.len();
    if !(0 < n && l[0] == 120) {
        return None;
    }
    let i1 = skip_space_exec(l, 1);
    if !(i1 < n && l[i1] == 61) {
        return None;
    }
    let i2 = skip_space_exec(l, i1 + 1);
    let j1 = digits_end_exec(l, i2);
    if j1 == i2 || !(j1 < n && l[j1] == 44) {
        return None;
    }
    let i3 = skip_space_exec(l, j1 + 1);
    if !(i3 < n && l[i3] == 121) {
        return None;
    }
    let i4 = skip_space_exec(l, i3 + 1);
    if !(i4 < n && l[i4] == 61) {
        return None;
    }
    let i5 = skip_space_exec(l, i4 + 1);
    let j2 = digits_end_exec(l, i5);
    if j2 == i5 || !(j2 < n && l[j2] == 44) {
        return None;
    }
    let i6 = skip_space_exec(l, j2 + 1);
    if n < 4 || i6 > n - 4 {
        return None;
    }
    if !(l[i6] == 114 && l[i6 + 1] == 117 && l[i6 + 2] == 108 && l[i6 + 3] == 101) {
        return None;
    }
    let i7 = skip_space_exec(l, i6 + 4);
    if !(i7 < n && l[i7] == 61) {
        return None;
    }
    let i8 = skip_space_exec(l, i7 + 1);
    if i8 >= n {
        return None;
    }
    proof {
        lemma_digits_end(l@, i2 as int);
        lemma_digits_end(l@, i5 as int);
        lemma_digits_val_nonneg(l@, i2 as int, j1 as int);
        lemma_digits_val_nonneg(l@, i5 as int, j2 as int);
    }
    let width = digits_value_clamped(l, i2, j1, 0);
    let height = digits_value_clamped(l, i5, j2, 0);
    let mut rule_str: Vec<u8> = Vec::new();
    let mut k = i8;
    while k < n
        invariant
            i8 <= k <= n,
            n == l@.len(),
            rule_str@ == l@.subrange(i8 as int, k as int),
        decreases n - k,
    {
        rule_str.push(l[k]);
        proof {
            assert(rule_str@ =~= l@.subrange(i8 as int, k as int + 1));
        }
        k += 1;
    }
    Some((width, height, rule_str))
}

/// The value of the digit run `v[start..end]` when it fits in a machine
/// word, else `fallback`.
fn digits_value_clamped(v: &Vec<u8>, start: usize, end: usize, fallback: usize) -> (r: usize)
    requires
        start <= end <= v@.len(),
        forall|k: int| start <= k < end ==> is_digit(#[trigger] v@[k]),
    ensures
        digits_val(v@, start as int, end as int) <= usize::MAX ==> r as int == digits_val(
            v@,
            start as int,
            end as int,
        ),
        digits_val(v@, start as int, end as int) > usize::MAX ==> r == fallback,
{
    let mut acc: usize = 0;
    let mut overflow = false;
    let mut k = start;
    while k < end
        invariant
            start <= k <= end <= v@.len(),
            forall|m: int| start <= m < end ==> is_digit(#[trigger] v@[m]),
            !overflow ==> acc as int == digits_val(v@, start as int, k as int),
            overflow ==> digits_val(v@, start as int, k as int) > usize::MAX,
        decreases end - k,
    {
        proof {
            lemma_digits_val_nonneg(v@, start as int, k as int);
        }
        let d = (v[k] - 48) as usize;
        if !overflow {
            if acc > (usize::MAX - d) / 10 {
                proof {
                    assert(acc as int * 10 + d as int > usize::MAX) by (nonlinear_arith)
                        requires
                            acc as int > (usize::MAX as int - d as int) / 10,
                            0 <= d <= 9,
                    ;
                }
                overflow = true;
            } else {
                proof {
                    assert(acc as int * 10 + d as int <= usize::MAX) by (nonlinear_arith)
                        requires
                            acc as int <= (usize::MAX as int - d as int) / 10,
                            0 <= d <= 9,
                    ;
                }
                acc = acc * 10 + d;
            }
        } else {
            proof {
                lemma_digits_val_nonneg(v@, start as int, k as int);
                assert(digits_val(v@, start as int, k as int + 1) == digits_val(
                    v@,
                    start as int,
                    k as int,
                ) * 10 + (v@[k as int] - 48));
                assert(digits_val(v@, start as int, k as int) * 10 >= digits_val(
                    v@,
                    start as int,
                    k as int,
                )) by (nonlinear_arith)
                    requires
                        digits_val(v@, start as int, k as int) >= 0,
                ;
            }
        }
        k += 1;
    }
    if overflow {
        fallback
    } else {
        acc
    }
}

/// The run count of the digit run `v[start..end]` before a tag byte.
fn run_count(v: &Vec<u8>, start: usize, end: usize) -> (r: usize)
    requires
        start <= end <= v@.len(),
        forall|k: int| start <= k < end ==> is_digit(#[trigger] v@[k]),
    ensures
        r as nat == token_count(v@, start as int, end as int),
{
    if start == end {
        1
    } else {
        proof {
            lemma_digits_val_nonneg(v@, start as int, end as int);
        }
        digits_value_clamped(v, start, end, 1)
    }
}

/// Reads the token stream out of a pattern body.
fn scan_body(body: &Vec<u8>) -> (r: Vec<(Tag, usize)>)
    ensures
        patterns_view(r@) == tokens_of(body@),
{
    let mut toks: Vec<(Tag, usize)> = Vec::new();
    let mut i: usize = 0;
    let mut run_start: usize = 0;
    proof {
        assert(patterns_view(toks@) + scan_from(body@, 0, 0) =~= tokens_of(body@));
    }
    while i < body.len()
        invariant
            run_start <= i <= body@.len(),
            forall|k: int| run_start <= k < i ==> is_digit(#[trigger] body@[k]),
            patterns_view(toks@) + scan_from(body@, i as int, run_start as int) == tokens_of(body@),
        decreases body@.len() - i,
    {
        let b = body[i];
        if 48 <= b && b <= 57 {
            i += 1;
        } else if b == 98 || b == 111 || b == 36 {
            let count = run_count(body, run_start, i);
            let tag = if b == 98 {
                Tag::DeadCell
            } else if b == 111 {
                Tag::AliveCell
            } else {
                Tag::EoL
            };
            let ghost toks0 = toks@;
            toks.push((tag, count));
            proof {
                assert(patterns_view(toks@) =~= patterns_view(toks0).push(
                    (tag, count as nat),
                ));
                assert(patterns_view(toks@) + scan_from(body@, i as int + 1, i as int + 1)
                    =~= patterns_view(toks0) + (seq![(tag_of(body@[i as int]), token_count(body@, run_start as int, i as int))]
                    + scan_from(body@, i as int + 1, i as int + 1)));
            }
            i += 1;
            run_start = i;
        } else if b == 33 {
            let ghost toks0 = toks@;
            toks.push((Tag::EoF, 1));
            proof {
                assert(scan_from(body@, i as int, run_start as int) =~= seq![(Tag::EoF, 1nat)]);
                assert(patterns_view(toks@) =~= patterns_view(toks0).push((Tag::EoF, 1nat)));
                assert(patterns_view(toks@) =~= patterns_view(toks0) + seq![(Tag::EoF, 1nat)]);
                assert(patterns_view(toks@) =~= tokens_of(body@));
            }
            return toks;
        } else {
            i += 1;
            run_start = i;
        }
    }
    proof {
        assert(scan_from(body@, i as int, run_start as int) =~= Seq::<(Tag, nat)>::empty());
        assert(patterns_view(toks@) =~= tokens_of(body@));
    }
    toks
}

/// The live-cell set after writing one run of `n` cells on `row` starting
/// at `col`: a live run inserts every coordinate of the run, a dead run
/// removes every one.
pub open spec fn run_set(alive: Set<(int, int)>, row: int, col: int, n: nat, live: bool) -> Set<
    (int, int),
> {
    if live {
        Set::new(|q: (int, int)| alive.contains(q) || (q.0 == row && col <= q.1 < col + n))
    } else {
        Set::new(|q: (int, int)| alive.contains(q) && !(q.0 == row && col <= q.1 < col + n))
    }
}

/// The live-cell set after walking the token stream with a cursor that
/// starts at (row, col): a run writes its cells and advances the column, a
/// line-end token advances the row by its count and returns to column 0,
/// and the terminator stops the walk, discarding the remaining tokens. A
/// line-end token of count 0 moves nothing.
pub open spec fn apply_tokens(
    alive: Set<(int, int)>,
    toks: Seq<(Tag, nat)>,
    row: int,
    col: int,
) -> Set<(int, int)>
    decreases toks.len(),
{
    if toks.len() == 0 {
        alive
    } else {
        let tag = toks[0].0;
        let n = toks[0].1;
        match tag {
            Tag::DeadCell => apply_tokens(
                run_set(alive, row, col, n, false),
                toks.drop_first(),
                row,
                col + n,
            ),
            Tag::AliveCell => apply_tokens(
                run_set(alive, row, col, n, true),
                toks.drop_first(),
                row,
                col + n,
            ),
            Tag::EoL => apply_tokens(
                alive,
                toks.drop_first(),
                row + n,
                if n == 0 {
                    col
                } else {
                    0
                },
            ),
            Tag::EoF => alive,
        }
    }
}

/// The total of all run counts in a token stream; it bounds how far the
/// walk's cursor can travel.
pub open spec fn sum_counts(toks: Seq<(Tag, nat)>) -> nat
    decreases toks.len(),
{
    if toks.len() == 0 {
        0
    } else {
        toks[0].1 + sum_counts(toks.drop_first())
    }
}

/// The mathematical content of a decoded pattern: the header's width,
/// height and rule string, and the token stream of the body.
pub ghost struct RleData {
    /// The width the header states; 0 without a header.
    pub width: nat,
    /// The height the header states; 0 without a header.
    pub height: nat,
    /// The rule string of the header; empty without a header.
    pub rule: Seq<u8>,
    /// The run tokens of the body, in source order.
    pub patterns: Seq<(Tag, nat)>,
}

/// The error type of pattern decoding. Decoding is non-strict and never
/// actually fails; the type exists so that the decoder can keep the usual
/// parsing signature.
#[derive(Debug, Clone, PartialEq, Eq, Structural)]
pub struct ParseRleError {}

/// A decoded run-length-encoded pattern: header metadata plus the token
/// stream of the body, ready to be applied to a grid.
pub struct RLE {
    width: usize,
    height: usize,
    name: String,
    author: String,
    origin: (i64, i64),
    rule: Vec<u8>,
    patterns: Vec<(Tag, usize)>,
}

impl View for RLE {
    type V = RleData;

    closed spec fn view(&self) -> RleData {
        RleData {
            width: self.width as nat,
            height: self.height as nat,
            rule: self.rule@,
            patterns: patterns_view(self.patterns@),
        }
    }
}

/// The metadata a comment line carries. Comment metadata is noted but not
/// needed for simulation, so nothing is read out of the line yet.
fn parse_comment(_s: &Vec<u8>) -> (r: (String, String, (i64, i64)))
    ensures
        r.0@.len() == 0,
        r.1@.len() == 0,
        r.2.0 == 0 && r.2.1 == 0,
{
    (String::new(), String::new(), (0, 0))
}

/// Why `line_end` finds the first line feed: all bytes before `e` differ
/// from it and `e` is a line feed or the end.
proof fn lemma_first_newline(s: Seq<u8>, pos: int, e: int)
    requires
        0 <= pos <= e <= s.len(),
        forall|k: int| pos <= k < e ==> #[trigger] s[k] != 10,
        e == s.len() || s[e] == 10,
    ensures
        line_end(s.subrange(pos, s.len() as int), 0) == e - pos,
{
    let sub = s.subrange(pos, s.len() as int);
    lemma_line_end(sub, 0);
    let le = line_end(sub, 0);
    if le < e - pos {
        assert(sub[le] == s[pos + le]);
        assert(false);
    }
    if le > e - pos {
        if e < s.len() {
            assert(sub[e - pos] == s[e]);
            assert(false);
        } else {
            assert(false);
        }
    }
}

impl RLE {
    /// Decodes pattern text, never failing: comment lines (leading `#`)
    /// are noted, the last header line sets width, height and the rule
    /// string, every other line joins the body, and the body is scanned
    /// into run tokens. Malformed pieces degrade to defaults: without a
    /// well-formed header the width and height stay 0 and the rule string
    /// empty, a header value too large for a machine word reads as 0, and
    /// unrecognized body bytes are skipped.
    pub fn parse(s: &str) -> (r: Result<RLE, ParseRleError>)
        ensures
            r is Ok,
            r matches Ok(rle) ==> {
                let d = decode_lines(s.spec_bytes(), decode_init());
                &&& rle@.width == clamp_or_zero(d.width)
                &&& rle@.height == clamp_or_zero(d.height)
                &&& rle@.rule == d.rule
                &&& rle@.patterns == tokens_of(d.body)
            },
    {
        let bytes = s.as_bytes();
        let n = bytes.len();
        let mut width: usize = 0;
        let mut height: usize = 0;
        let mut rule: Vec<u8> = Vec::new();
        let mut body: Vec<u8> = Vec::new();
        let mut name = String::new();
        let mut author = String::new();
        let mut origin: (i64, i64) = (0, 0);
        let ghost mut acc = decode_init();
        let mut pos: usize = 0;
        proof {
            assert(bytes@.subrange(0, n as int) =~= bytes@);
        }
        while pos < n
            invariant
                pos <= n,
                n == bytes@.len(),
                bytes@ == s.spec_bytes(),
                width as nat == clamp_or_zero(acc.width),
                height as nat == clamp_or_zero(acc.height),
                rule@ == acc.rule,
                body@ == acc.body,
                decode_lines(bytes@.subrange(pos as int, n as int), acc) == decode_lines(
                    s.spec_bytes(),
                    decode_init(),
                ),
            decreases n - pos,
        {
            let mut e = pos;
            while e < n && bytes[e] != 10
                invariant
                    pos <= e <= n,
                    n == bytes@.len(),
                    forall|k: int| pos <= k < e ==> #[trigger] bytes@[k] != 10,
                decreases n - e,
            {
                e += 1;
            }
            let mut line: Vec<u8> = Vec::new();
            let mut k = pos;
            while k < e
                invariant
                    pos <= k <= e <= n,
                    n == bytes@.len(),
                    line@ == bytes@.subrange(pos as int, k as int),
                decreases e - k,
            {
                line.push(bytes[k]);
                proof {
                    assert(line@ =~= bytes@.subrange(pos as int, k as int + 1));
                }
                k += 1;
            }
            if line.len() > 0 && line[line.len() - 1] == 13 {
                line.pop();
                proof {
                    assert(line@ =~= strip_cr(bytes@.subrange(pos as int, e as int)));
                }
            }
            proof {
                assert(line@ == strip_cr(bytes@.subrange(pos as int, e as int)));
            }
            let ghost acc0 = acc;
            let ghost l = strip_cr(bytes@.subrange(pos as int, e as int));
            if line.len() > 0 && line[0] == 35 {
                let c = parse_comment(&line);
                name = c.0;
                author = c.1;
                origin = c.2;
                proof {
                    acc = classify_line(l, acc0);
                    assert(acc == acc0);
                }
            } else {
                let header = parse_header_line(&line);
                match header {
                    Some(t) => {
                        width = t.0;
                        height = t.1;
                        rule = t.2;
                        proof {
                            acc = classify_line(l, acc0);
                        }
                    },
                    None => {
                        let ghost body0 = body@;
                        let mut k2: usize = 0;
                        let line_len = line.len();
                        while k2 < line_len
                            invariant
                                k2 <= line_len,
                                line_len == line@.len(),
                                body@ == body0 + line@.subrange(0, k2 as int),
                            decreases line_len - k2,
                        {
                            body.push(line[k2]);
                            proof {
                                assert(body@ =~= body0 + line@.subrange(0, k2 as int + 1));
                            }
                            k2 += 1;
                        }
                        proof {
                            acc = classify_line(l, acc0);
                            assert(line@.subrange(0, line@.len() as int) =~= line@);
                            assert(body@ == acc.body);
                        }
                    },
                }
            }
            proof {
                lemma_first_newline(bytes@, pos as int, e as int);
                let sub = bytes@.subrange(pos as int, n as int);
                assert(sub.subrange(0, e as int - pos as int) =~= bytes@.subrange(
                    pos as int,
                    e as int,
                ));
                if e < n {
                    assert(sub.subrange(e as int - pos as int + 1, sub.len() as int)
                        =~= bytes@.subrange(e as int + 1, n as int));
                }
                assert(decode_lines(sub, acc0) == decode_lines(
                    s.spec_bytes(),
                    decode_init(),
                ));
            }
            if e < n {
                pos = e + 1;
            } else {
                pos = n;
            }
        }
        proof {
            assert(bytes@.subrange(n as int, n as int) =~= Seq::<u8>::empty());
            assert(decode_lines(Seq::<u8>::empty(), acc) == acc);
        }
        let patterns = scan_body(&body);
        let out = RLE { width, height, name, author, origin, rule, patterns };
        Ok(out)
    }

    /// Whether the total of all run counts stays within the coordinate
    /// range a walk over the tokens can address; `apply` asks for it.
    pub fn counts_fit(&self) -> (r: bool)
        ensures
            r == (sum_counts(self@.patterns) <= i64::MAX),
    {
        let mut total: u128 = 0;
        let n = self.patterns.len();
        let mut t: usize = 0;
        proof {
            assert(patterns_view(self.patterns@).skip(0) =~= patterns_view(self.patterns@));
        }
        while t < n
            invariant
                t <= n,
                n == self.patterns@.len(),
                total <= i64::MAX as u128,
                total as nat + sum_counts(patterns_view(self.patterns@).skip(t as int))
                    == sum_counts(patterns_view(self.patterns@)),
            decreases n - t,
        {
            let ghost toks = patterns_view(self.patterns@);
            let count = self.patterns[t].1;
            proof {
                assert(toks.skip(t as int).drop_first() =~= toks.skip(t as int + 1));
                assert(toks.skip(t as int)[0] == toks[t as int]);
            }
            let c = count as u128;
            if total + c > i64::MAX as u128 {
                return false;
            }
            total = total + c;
            t += 1;
        }
        proof {
            let toks = patterns_view(self.patterns@);
            assert(toks.skip(n as int) =~= Seq::<(Tag, nat)>::empty());
        }
        true
    }

    /// Applies the decoded pattern to a grid: writes the body's runs from
    /// the origin, then installs the rule its rule string spells out,
    /// leaving the grid's rule unchanged when nothing in the string
    /// matches the rule shape.
    pub fn apply(&self, grid: &mut Grid)
        requires
            old(grid).wf(),
            sum_counts(self@.patterns) <= i64::MAX,
        ensures
            final(grid).wf(),
            final(grid)@.alive == apply_tokens(old(grid)@.alive, self@.patterns, 0, 0),
            final(grid)@.rule == rule_after(self@.rule, old(grid)@.rule),
    {
        self.set_grid(grid);
        self.set_rule(grid);
    }

    /// Walks the token stream from the origin, writing each run's cells.
    fn set_grid(&self, grid: &mut Grid)
        requires
            old(grid).wf(),
            sum_counts(self@.patterns) <= i64::MAX,
        ensures
            final(grid).wf(),
            final(grid)@.alive == apply_tokens(old(grid)@.alive, self@.patterns, 0, 0),
            final(grid)@.rule == old(grid)@.rule,
    {
        let mut row: i64 = 0;
        let mut col: i64 = 0;
        let n = self.patterns.len();
        let mut t: usize = 0;
        proof {
            assert(patterns_view(self.patterns@).skip(0) =~= patterns_view(self.patterns@));
        }
        while t < n
            invariant
                t <= n,
                n == self.patterns@.len(),
                grid.wf(),
                grid@.rule == old(grid)@.rule,
                0 <= row,
                0 <= col,
                row + col + sum_counts(patterns_view(self.patterns@).skip(t as int)) <= i64::MAX,
                apply_tokens(
                    grid@.alive,
                    patterns_view(self.patterns@).skip(t as int),
                    row as int,
                    col as int,
                ) == apply_tokens(old(grid)@.alive, patterns_view(self.patterns@), 0, 0),
            decreases n - t,
        {
            let ghost toks = patterns_view(self.patterns@);
            let pattern = self.patterns[t];
            let tag = pattern.0;
            let count = pattern.1;
            proof {
                assert(toks.skip(t as int).drop_first() =~= toks.skip(t as int + 1));
                assert(toks.skip(t as int)[0] == toks[t as int]);
            }
            match tag {
                Tag::DeadCell => {
                    write_run(grid, row, col, count, false);
                    col = col + count as i64;
                },
                Tag::AliveCell => {
                    write_run(grid, row, col, count, true);
                    col = col + count as i64;
                },
                Tag::EoL => {
                    if count > 0 {
                        row = row + count as i64;
                        col = 0;
                    }
                },
                Tag::EoF => {
                    return ;
                },
            }
            t += 1;
        }
        proof {
            let toks = patterns_view(self.patterns@);
            assert(toks.skip(n as int) =~= Seq::<(Tag, nat)>::empty());
        }
    }

    /// Installs the rule the pattern's rule string spells out, if any.
    fn set_rule(&self, grid: &mut Grid)
        ensures
            final(grid).wf() == old(grid).wf(),
            final(grid)@.alive == old(grid)@.alive,
            final(grid)@.rule == rule_after(self@.rule, old(grid)@.rule),
    {
        let m = find_rule_match(&self.rule);
        match m {
            None => {},
            Some((b0, b1, s0, s1)) => {
                let become_alive = digits_to_counts(&self.rule, b0, b1);
                let stay_alive = digits_to_counts(&self.rule, s0, s1);
                grid.set_rule(Rule { become_alive, stay_alive });
            },
        }
    }
}

impl core::str::FromStr for RLE {
    type Err = ParseRleError;

    fn from_str(s: &str) -> Result<RLE, ParseRleError> {
        RLE::parse(s)
    }
}

/// Writes one run of `count` cells on `row` starting at `col`.
fn write_run(grid: &mut Grid, row: i64, col: i64, count: usize, live: bool)
    requires
        old(grid).wf(),
        0 <= col,
        col + count <= i64::MAX,
    ensures
        final(grid).wf(),
        final(grid)@.rule == old(grid)@.rule,
        final(grid)@.alive == run_set(old(grid)@.alive, row as int, col as int, count as nat, live),
{
    let ghost alive0 = grid@.alive;
    let mut k: usize = 0;
    proof {
        assert(run_set(alive0, row as int, col as int, 0nat, live) =~= alive0);
    }
    while k < count
        invariant
            k <= count,
            col + count <= i64::MAX,
            0 <= col,
            grid.wf(),
            grid@.rule == old(grid)@.rule,
            grid@.alive == run_set(alive0, row as int, col as int, k as nat, live),
        decreases count - k,
    {
        grid.set_cell(row, col + k as i64, live);
        proof {
            assert(run_set(alive0, row as int, col as int, k as nat + 1, live) =~= cell_write(
                run_set(alive0, row as int, col as int, k as nat, live),
                row as int,
                col as int + k as int,
                live,
            ));
        }
        k += 1;
    }
}

} // verus!
