//! The mathematical model of scanning.
//!
//! A scan result is a sequence of *spans*: half-open intervals `(start, end)`
//! of character offsets into the input, one per emitted token, in source
//! order.  [`scan_from`] gives, for any starting offset, either the spans of
//! all tokens from there to the end of the input, or the first unrecognized
//! character together with its offset.

use vstd::prelude::*;

use crate::scanner::TokenType;

verus! {

/// An ASCII digit `0`-`9`.
pub open spec fn is_digit_char(c: char) -> bool {
    48 <= c as u32 <= 57
}

/// The numeric value of an ASCII digit.
pub open spec fn digit_value(c: char) -> usize {
    (c as u32 - 48) as usize
}

/// One of the four operator characters.
pub open spec fn is_operator_char(c: char) -> bool {
    c == '+' || c == '-' || c == '*' || c == '/'
}

/// The space character, the only whitespace the alphabet has.
pub open spec fn is_space_char(c: char) -> bool {
    c == ' '
}

/// A character of the recognized alphabet.
pub open spec fn is_recognized_char(c: char) -> bool {
    is_digit_char(c) || is_operator_char(c) || is_space_char(c)
}

/// The classification of an optional character; `None` stands for the end of
/// the input.  Classification never fails: it only labels.
pub open spec fn classify(c: Option<char>) -> TokenType {
    match c {
        None => TokenType::EOF,
        Some(ch) => if is_digit_char(ch) {
            TokenType::INT(digit_value(ch))
        } else if ch == '+' {
            TokenType::ADD
        } else if ch == '-' {
            TokenType::MIN
        } else if ch == '*' {
            TokenType::MULT
        } else if ch == '/' {
            TokenType::DIV
        } else if ch == ' ' {
            TokenType::WS
        } else {
            TokenType::UNKNOWN
        },
    }
}

/// The first offset at or after `i` that does not hold a digit: the end of
/// the maximal digit run starting at `i`.
pub open spec fn digit_run_end(s: Seq<char>, i: int) -> int
    decreases s.len() - i,
{
    if i < s.len() && is_digit_char(s[i]) {
        digit_run_end(s, i + 1)
    } else {
        i
    }
}

/// The spans of all tokens of `s` from offset `i` on, in source order, or
/// the first unrecognized character from `i` on with its offset.
///
/// Operators span one character; a digit run spans up to its maximal end
/// (greedy matching); spaces are skipped and emit nothing.
pub open spec fn scan_from(s: Seq<char>, i: int) -> Result<Seq<(int, int)>, (char, int)>
    decreases s.len() - i via scan_from_decreases
{
    if i >= s.len() {
        Ok(Seq::empty())
    } else if is_space_char(s[i]) {
        scan_from(s, i + 1)
    } else if is_operator_char(s[i]) {
        match scan_from(s, i + 1) {
            Ok(rest) => Ok(seq![(i, i + 1)] + rest),
            Err(e) => Err(e),
        }
    } else if is_digit_char(s[i]) {
        match scan_from(s, digit_run_end(s, i)) {
            Ok(rest) => Ok(seq![(i, digit_run_end(s, i))] + rest),
            Err(e) => Err(e),
        }
    } else {
        Err((s[i], i))
    }
}

#[via_fn]
proof fn scan_from_decreases(s: Seq<char>, i: int) {
    if i < s.len() && is_digit_char(s[i]) {
        lemma_digit_run_end_bounds(s, i);
    }
}

/// `toks` holds exactly the lexeme of each of the `spans`, in order: the
/// substring of `s` that the span delimits.
pub open spec fn lexemes_match(s: Seq<char>, spans: Seq<(int, int)>, toks: Seq<Seq<char>>) -> bool {
    &&& toks.len() == spans.len()
    &&& forall|j: int|
        0 <= j < spans.len() ==> #[trigger] toks[j] == s.subrange(spans[j].0, spans[j].1)
}

/// `kinds` holds exactly the kind of each of the `spans`, in order: the
/// classification of the first character of the span.
pub open spec fn kinds_match(s: Seq<char>, spans: Seq<(int, int)>, kinds: Seq<TokenType>) -> bool {
    &&& kinds.len() == spans.len()
    &&& forall|j: int|
        0 <= j < spans.len() ==> #[trigger] kinds[j] == classify(Some(s[spans[j].0]))
}

/// A scan of all of `s` is the spans `emitted` followed by whatever a scan
/// from `pos` yields, and fails exactly when the scan from `pos` fails.
/// This is the state a partial scan leaves behind: `emitted` tokens produced,
/// cursor at `pos`.
pub open spec fn splice_ok(s: Seq<char>, emitted: Seq<(int, int)>, pos: int) -> bool {
    match scan_from(s, pos) {
        Ok(rest) => scan_from(s, 0) == Ok::<_, (char, int)>(emitted + rest),
        Err(e) => scan_from(s, 0) == Err::<Seq<(int, int)>, _>(e),
    }
}

/// Scanning starts with nothing emitted and the cursor at zero.
pub proof fn lemma_splice_init(s: Seq<char>)
    ensures
        splice_ok(s, Seq::empty(), 0),
{
    if let Ok(rest) = scan_from(s, 0) {
        assert(Seq::<(int, int)>::empty() + rest =~= rest);
    }
}

/// Emitting the token that a scan step produces keeps the partial scan
/// consistent: if a scan from `pos` yields the span `(pos, end)` followed by
/// a scan from `end`, the span moves onto the emitted list and the cursor
/// moves to `end`.
pub proof fn lemma_splice_push(s: Seq<char>, emitted: Seq<(int, int)>, pos: int, end: int)
    requires
        splice_ok(s, emitted, pos),
        scan_from(s, pos) == (match scan_from(s, end) {
            Ok(rest) => Ok::<_, (char, int)>(seq![(pos, end)] + rest),
            Err(e) => Err::<Seq<(int, int)>, _>(e),
        }),
    ensures
        splice_ok(s, emitted.push((pos, end)), end),
{
    match scan_from(s, end) {
        Ok(rest) => {
            assert(emitted + (seq![(pos, end)] + rest) =~= emitted.push((pos, end)) + rest);
        },
        Err(_) => {},
    }
}

/// The end of a digit run lies between its start and the end of the input,
/// and strictly after the start when the start holds a digit.
pub proof fn lemma_digit_run_end_bounds(s: Seq<char>, i: int)
    requires
        i <= s.len(),
    ensures
        i <= digit_run_end(s, i) <= s.len(),
        i < s.len() && is_digit_char(s[i]) ==> i + 1 <= digit_run_end(s, i),
    decreases s.len() - i,
{
    if i < s.len() && is_digit_char(s[i]) {
        lemma_digit_run_end_bounds(s, i + 1);
    }
}

/// A digit run holds digits throughout, and its end is maximal: the end of
/// the input, or the first non-digit.
pub proof fn lemma_digit_run_props(s: Seq<char>, i: int)
    requires
        0 <= i <= s.len(),
    ensures
        i <= digit_run_end(s, i) <= s.len(),
        forall|p: int| i <= p < digit_run_end(s, i) ==> is_digit_char(#[trigger] s[p]),
        digit_run_end(s, i) == s.len() || !is_digit_char(s[digit_run_end(s, i)]),
    decreases s.len() - i,
{
    if i < s.len() && is_digit_char(s[i]) {
        lemma_digit_run_props(s, i + 1);
    }
}

/// What each scan outcome says of the input: a scan that succeeds saw only
/// recognized characters, and a scan that fails reports exactly the first
/// unrecognized character at or after its starting offset, together with
/// that character's own offset.
pub proof fn lemma_scan_outcome(s: Seq<char>, i: int)
    requires
        0 <= i <= s.len(),
    ensures
        match scan_from(s, i) {
            Ok(_) => forall|p: int| i <= p < s.len() ==> is_recognized_char(#[trigger] s[p]),
            Err(e) => {
                &&& i <= e.1 < s.len()
                &&& s[e.1] == e.0
                &&& !is_recognized_char(e.0)
                &&& forall|p: int| i <= p < e.1 ==> is_recognized_char(#[trigger] s[p])
            },
        },
    decreases s.len() - i,
{
    if i >= s.len() {
    } else if is_space_char(s[i]) || is_operator_char(s[i]) {
        lemma_scan_outcome(s, i + 1);
    } else if is_digit_char(s[i]) {
        lemma_digit_run_props(s, i);
        lemma_scan_outcome(s, digit_run_end(s, i));
    } else {
    }
}

/// Determinism: the scan result is a function of the source alone, and it
/// determines the emitted lexeme texts — any two token lists that match the
/// same spans of the same source are equal, view by view.
pub proof fn lemma_lexemes_determined(
    s: Seq<char>,
    spans: Seq<(int, int)>,
    t1: Seq<Seq<char>>,
    t2: Seq<Seq<char>>,
)
    requires
        lexemes_match(s, spans, t1),
        lexemes_match(s, spans, t2),
    ensures
        t1 == t2,
{
    assert(t1 =~= t2);
}

/// Some span of `spans` contains the offset `p`.
pub open spec fn covered_by(spans: Seq<(int, int)>, p: int) -> bool {
    exists|j: int| 0 <= j < spans.len() && ((#[trigger] spans[j]).0 <= p < spans[j].1)
}

/// What one emitted span holds: an integer token is a digit run that is
/// maximal on its right, and any other token is a single operator character.
pub open spec fn span_content_ok(s: Seq<char>, sp: (int, int)) -> bool {
    if is_digit_char(s[sp.0]) {
        &&& forall|p: int| sp.0 <= p < sp.1 ==> is_digit_char(#[trigger] s[p])
        &&& sp.1 == s.len() || !is_digit_char(s[sp.1])
    } else {
        &&& sp.1 == sp.0 + 1
        &&& is_operator_char(s[sp.0])
    }
}

#[verifier::rlimit(60)]
proof fn lemma_scan_spans_props(s: Seq<char>, i: int, spans: Seq<(int, int)>)
    requires
        0 <= i <= s.len(),
        scan_from(s, i) == Ok::<_, (char, int)>(spans),
    ensures
        forall|j: int|
            0 <= j < spans.len() ==> i <= (#[trigger] spans[j]).0 < spans[j].1 <= s.len(),
        forall|j: int| 0 <= j < spans.len() ==> span_content_ok(s, #[trigger] spans[j]),
        forall|j1: int, j2: int|
            0 <= j1 < j2 < spans.len() ==> (#[trigger] spans[j1]).1 <= (#[trigger] spans[j2]).0,
        forall|p: int| i <= p < s.len() ==> (covered_by(spans, p) <==> !is_space_char(#[trigger] s[p])),
    decreases s.len() - i,
{
    if i >= s.len() {
        // No offsets are left and no spans were produced.
    } else if is_space_char(s[i]) {
        lemma_scan_spans_props(s, i + 1, spans);
        assert(!covered_by(spans, i));
    } else if is_operator_char(s[i]) || is_digit_char(s[i]) {
        let e = if is_operator_char(s[i]) {
            i + 1
        } else {
            digit_run_end(s, i)
        };
        lemma_digit_run_props(s, i);
        match scan_from(s, e) {
            Ok(rest) => {
                lemma_scan_spans_props(s, e, rest);
                let sp0 = (i, e);
                assert(spans == seq![sp0] + rest);
                assert(spans[0] == sp0);
                assert(forall|j: int| 0 < j < spans.len() ==> spans[j] == rest[j - 1]);
                assert(span_content_ok(s, sp0));
                // An offset inside the leading span is covered and is not a
                // space; a later offset is covered here exactly when the tail
                // covers it.
                assert forall|p: int| i <= p < s.len() implies (covered_by(spans, p)
                    <==> !is_space_char(s[p])) by {
                    if p < e {
                        assert(spans[0].0 <= p < spans[0].1);
                        assert(covered_by(spans, p));
                        assert(!is_space_char(s[p]));
                    } else {
                        if covered_by(spans, p) {
                            let j = choose|j: int|
                                0 <= j < spans.len() && ((#[trigger] spans[j]).0 <= p
                                    < spans[j].1);
                            assert(j != 0);
                            assert(rest[j - 1].0 <= p < rest[j - 1].1);
                            assert(covered_by(rest, p));
                        }
                        if covered_by(rest, p) {
                            let j = choose|j: int|
                                0 <= j < rest.len() && ((#[trigger] rest[j]).0 <= p < rest[j].1);
                            assert(spans[j + 1].0 <= p < spans[j + 1].1);
                            assert(covered_by(spans, p));
                        }
                    }
                }
            },
            Err(_) => {
                assert(false);
            },
        }
    } else {
        assert(false);
    }
}

/// Coverage and partition: on a successful scan, the spans lie within the
/// input in strictly increasing, non-overlapping order, each offset of the
/// input is inside exactly the spans' union or holds a skipped space, and
/// each span holds a maximal digit run or a single operator.
pub proof fn lemma_token_partition(s: Seq<char>, spans: Seq<(int, int)>)
    requires
        scan_from(s, 0) == Ok::<_, (char, int)>(spans),
    ensures
        forall|j: int|
            0 <= j < spans.len() ==> 0 <= (#[trigger] spans[j]).0 < spans[j].1 <= s.len(),
        forall|j: int| 0 <= j < spans.len() ==> span_content_ok(s, #[trigger] spans[j]),
        forall|j1: int, j2: int|
            0 <= j1 < j2 < spans.len() ==> (#[trigger] spans[j1]).1 <= (#[trigger] spans[j2]).0,
        forall|p: int| 0 <= p < s.len() ==> (covered_by(spans, p) <==> !is_space_char(#[trigger] s[p])),
{
    lemma_scan_spans_props(s, 0, spans);
}

/// Maximal munch: two successive integer tokens never abut — a digit run is
/// never split across two tokens, so between two successive integer tokens
/// there is always at least one other character.
pub proof fn lemma_maximal_munch(s: Seq<char>, spans: Seq<(int, int)>, j: int)
    requires
        scan_from(s, 0) == Ok::<_, (char, int)>(spans),
        0 <= j,
        j + 1 < spans.len(),
        is_digit_char(s[spans[j].0]),
        is_digit_char(s[spans[j + 1].0]),
    ensures
        spans[j].1 < spans[j + 1].0,
{
    lemma_scan_spans_props(s, 0, spans);
    assert(span_content_ok(s, spans[j]));
    assert(span_content_ok(s, spans[j + 1]));
}

/// Failure locality: the first character outside the alphabet, at offset
/// `k`, makes the scan fail reporting that character and exactly offset `k`,
/// whatever precedes it.
pub proof fn lemma_failure_locality(s: Seq<char>, k: int)
    requires
        0 <= k < s.len(),
        !is_recognized_char(s[k]),
        forall|p: int| 0 <= p < k ==> is_recognized_char(#[trigger] s[p]),
    ensures
        scan_from(s, 0) == Err::<Seq<(int, int)>, _>((s[k], k)),
{
    lemma_scan_outcome(s, 0);
    match scan_from(s, 0) {
        Ok(_) => {
            assert(is_recognized_char(s[k]));
        },
        Err(e) => {
            if e.1 < k {
                assert(is_recognized_char(s[e.1]));
            }
            if e.1 > k {
                assert(is_recognized_char(s[k]));
            }
        },
    }
}

/// `s` with a single space inserted at offset `k`.
pub open spec fn insert_space(s: Seq<char>, k: int) -> Seq<char> {
    s.subrange(0, k) + seq![' '] + s.subrange(k, s.len() as int)
}

/// `s` with the character at offset `k` removed.
pub open spec fn remove_at(s: Seq<char>, k: int) -> Seq<char> {
    s.subrange(0, k) + s.subrange(k + 1, s.len() as int)
}

proof fn lemma_insert_space_index(s: Seq<char>, k: int)
    requires
        0 <= k <= s.len(),
    ensures
        insert_space(s, k).len() == s.len() + 1,
        forall|m: int| 0 <= m < k ==> #[trigger] insert_space(s, k)[m] == s[m],
        insert_space(s, k)[k] == ' ',
        forall|m: int| k < m <= s.len() ==> #[trigger] insert_space(s, k)[m] == s[m - 1],
{
}

/// `digit_run_end` from what a stretch of the input holds: the run covers
/// exactly the digits from `i` up to the first offset `e` that is the end of
/// the input or holds no digit.
proof fn lemma_digit_run_end_from_content(s: Seq<char>, i: int, e: int)
    requires
        0 <= i <= e <= s.len(),
        forall|p: int| i <= p < e ==> is_digit_char(#[trigger] s[p]),
        e == s.len() || !is_digit_char(s[e]),
    ensures
        digit_run_end(s, i) == e,
    decreases e - i,
{
    if i < e {
        lemma_digit_run_end_from_content(s, i + 1, e);
    }
}

/// The spans `sp1` into `s1` and `sp2` into `s2` delimit the same lexeme
/// texts, token by token.
pub open spec fn same_lexemes(
    s1: Seq<char>,
    sp1: Seq<(int, int)>,
    s2: Seq<char>,
    sp2: Seq<(int, int)>,
) -> bool {
    &&& sp1.len() == sp2.len()
    &&& forall|j: int|
        #![trigger sp1[j], sp2[j]]
        0 <= j < sp1.len() ==> s1.subrange(sp1[j].0, sp1[j].1) == s2.subrange(sp2[j].0, sp2[j].1)
}

proof fn lemma_same_lexemes_cons(
    s1: Seq<char>,
    a1: (int, int),
    r1: Seq<(int, int)>,
    s2: Seq<char>,
    a2: (int, int),
    r2: Seq<(int, int)>,
)
    requires
        s1.subrange(a1.0, a1.1) == s2.subrange(a2.0, a2.1),
        same_lexemes(s1, r1, s2, r2),
    ensures
        same_lexemes(s1, seq![a1] + r1, s2, seq![a2] + r2),
{
    let c1 = seq![a1] + r1;
    let c2 = seq![a2] + r2;
    assert forall|j: int|
        #![trigger c1[j], c2[j]]
        0 <= j < c1.len() implies s1.subrange(c1[j].0, c1[j].1) == s2.subrange(
        c2[j].0,
        c2[j].1,
    ) by {
        if j == 0 {
            assert(c1[0] == a1);
            assert(c2[0] == a2);
        } else {
            assert(c1[j] == r1[j - 1]);
            assert(c2[j] == r2[j - 1]);
        }
    }
}

/// Scanning behind the inserted space: from any offset `j` at or after the
/// insertion point, the shifted scan of the longer input agrees with the
/// scan of `s`, lexeme by lexeme, and a failure shifts its offset by one.
proof fn lemma_insert_space_after(s: Seq<char>, k: int, j: int)
    requires
        0 <= k <= j <= s.len(),
    ensures
        match (scan_from(s, j), scan_from(insert_space(s, k), j + 1)) {
            (Ok(a), Ok(b)) => same_lexemes(s, a, insert_space(s, k), b),
            (Err(e1), Err(e2)) => e2.0 == e1.0 && j <= e1.1 && e2.1 == e1.1 + 1,
            _ => false,
        },
    decreases s.len() - j,
{
    let s2 = insert_space(s, k);
    lemma_insert_space_index(s, k);
    if j >= s.len() {
        // Both scans are at their end and give no further tokens.
    } else if is_space_char(s[j]) {
        lemma_insert_space_after(s, k, j + 1);
    } else if is_operator_char(s[j]) {
        lemma_insert_space_after(s, k, j + 1);
        match (scan_from(s, j + 1), scan_from(s2, j + 2)) {
            (Ok(a), Ok(b)) => {
                assert(s.subrange(j, j + 1) =~= s2.subrange(j + 1, j + 2));
                lemma_same_lexemes_cons(s, (j, j + 1), a, s2, (j + 1, j + 2), b);
            },
            _ => {},
        }
    } else if is_digit_char(s[j]) {
        lemma_digit_run_props(s, j);
        let e = digit_run_end(s, j);
        assert forall|p: int| j + 1 <= p < e + 1 implies is_digit_char(#[trigger] s2[p]) by {
            assert(s2[p] == s[p - 1]);
        }
        lemma_digit_run_end_from_content(s2, j + 1, e + 1);
        lemma_insert_space_after(s, k, e);
        match (scan_from(s, e), scan_from(s2, e + 1)) {
            (Ok(a), Ok(b)) => {
                assert(s.subrange(j, e) =~= s2.subrange(j + 1, e + 1));
                lemma_same_lexemes_cons(s, (j, e), a, s2, (j + 1, e + 1), b);
            },
            _ => {},
        }
    } else {
        // Both scans fail here, on the same character, one offset apart.
    }
}

/// Scanning ahead of the inserted space: from any offset `j` at or before
/// the insertion point, the scans of `s` and of the longer input agree,
/// lexeme by lexeme; a failure reports the same character, and its offset is
/// unchanged before the insertion point and shifted by one after it.
proof fn lemma_insert_space_before(s: Seq<char>, k: int, j: int)
    requires
        0 <= j <= k <= s.len(),
        !(0 < k < s.len() && is_digit_char(s[k - 1]) && is_digit_char(s[k])),
    ensures
        match (scan_from(s, j), scan_from(insert_space(s, k), j)) {
            (Ok(a), Ok(b)) => same_lexemes(s, a, insert_space(s, k), b),
            (Err(e1), Err(e2)) => e2.0 == e1.0 && e2.1 == (if e1.1 < k {
                e1.1
            } else {
                e1.1 + 1
            }),
            _ => false,
        },
    decreases k - j,
{
    let s2 = insert_space(s, k);
    lemma_insert_space_index(s, k);
    if j == k {
        // The longer input holds the inserted space here and skips it.
        lemma_insert_space_after(s, k, k);
    } else if is_space_char(s[j]) {
        lemma_insert_space_before(s, k, j + 1);
    } else if is_operator_char(s[j]) {
        lemma_insert_space_before(s, k, j + 1);
        match (scan_from(s, j + 1), scan_from(s2, j + 1)) {
            (Ok(a), Ok(b)) => {
                assert(s.subrange(j, j + 1) =~= s2.subrange(j, j + 1));
                lemma_same_lexemes_cons(s, (j, j + 1), a, s2, (j, j + 1), b);
            },
            _ => {},
        }
    } else if is_digit_char(s[j]) {
        lemma_digit_run_props(s, j);
        let e = digit_run_end(s, j);
        // The run cannot cross the insertion point: that would put digits on
        // both of its sides.
        assert(e <= k) by {
            if e > k {
                assert(is_digit_char(s[k - 1]));
                assert(is_digit_char(s[k]));
            }
        }
        assert forall|p: int| j <= p < e implies is_digit_char(#[trigger] s2[p]) by {
            assert(s2[p] == s[p]);
        }
        if e < k {
            assert(s2[e] == s[e]);
        }
        lemma_digit_run_end_from_content(s2, j, e);
        lemma_insert_space_before(s, k, e);
        match (scan_from(s, e), scan_from(s2, e)) {
            (Ok(a), Ok(b)) => {
                assert(s.subrange(j, e) =~= s2.subrange(j, e));
                lemma_same_lexemes_cons(s, (j, e), a, s2, (j, e), b);
            },
            _ => {},
        }
    } else {
        // Both scans fail here, on the same character at the same offset.
    }
}

/// Whitespace transparency, insertion direction: inserting a single space
/// anywhere that does not split a digit run leaves the emitted lexeme
/// sequence unchanged, and on a failing input leaves the reported character
/// unchanged.
pub proof fn lemma_whitespace_insertion(s: Seq<char>, k: int)
    requires
        0 <= k <= s.len(),
        !(0 < k < s.len() && is_digit_char(s[k - 1]) && is_digit_char(s[k])),
    ensures
        match (scan_from(s, 0), scan_from(insert_space(s, k), 0)) {
            (Ok(a), Ok(b)) => same_lexemes(s, a, insert_space(s, k), b),
            (Err(e1), Err(e2)) => e1.0 == e2.0,
            _ => false,
        },
{
    lemma_insert_space_before(s, k, 0);
}

/// Whitespace transparency, removal direction: removing a space whose two
/// neighbours are not both digits leaves the emitted lexeme sequence
/// unchanged, and on a failing input leaves the reported character
/// unchanged.
pub proof fn lemma_whitespace_removal(s: Seq<char>, k: int)
    requires
        0 <= k < s.len(),
        is_space_char(s[k]),
        !(0 < k && k + 1 < s.len() && is_digit_char(s[k - 1]) && is_digit_char(s[k + 1])),
    ensures
        match (scan_from(remove_at(s, k), 0), scan_from(s, 0)) {
            (Ok(a), Ok(b)) => same_lexemes(remove_at(s, k), a, s, b),
            (Err(e1), Err(e2)) => e1.0 == e2.0,
            _ => false,
        },
{
    let t = remove_at(s, k);
    lemma_whitespace_insertion(t, k);
    assert(insert_space(t, k) =~= s);
}

} // verus!

