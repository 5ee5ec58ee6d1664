//! The mathematical model of a scan: which token sequence, or which error, a
//! byte buffer yields, and at which offset each scan stops.  The executable
//! scanner in `token` is proved against `scan_at` and `lex_spec`.

use vstd::prelude::*;
use crate::chars::{is_whitespace, is_name_start, is_digit, is_name_char, is_quote};
use crate::error::ScanErrorView;
use crate::operator::{Operator, is_operator_byte, operator_for};

verus! {

/// The mathematical shape of one token: an operator kind, a number given by
/// its integer and fractional digit runs, an identifier's text, or a string
/// literal's text with the delimiters stripped.
#[verifier::ext_equal]
pub enum TokenView {
    Operator(Operator),
    Number { integer: Seq<u8>, fraction: Seq<u8> },
    Name(Seq<u8>),
    String(Seq<u8>),
}

/// What one scan yields: the tokens of the scanned region and the offset just
/// past it, or the error that stopped the scan.
pub type ScanOutcome = Result<(Seq<TokenView>, int), ScanErrorView>;

/// The end of the maximal run of identifier characters that starts at `from`.
pub open spec fn name_run_end(input: Seq<u8>, from: int) -> int
    decreases input.len() - from,
{
    if 0 <= from && from < input.len() && is_name_char(input[from]) {
        name_run_end(input, from + 1)
    } else {
        from
    }
}

/// The end of the maximal run of decimal digits that starts at `from`.
pub open spec fn digit_run_end(input: Seq<u8>, from: int) -> int
    decreases input.len() - from,
{
    if 0 <= from && from < input.len() && is_digit(input[from]) {
        digit_run_end(input, from + 1)
    } else {
        from
    }
}

/// The offset of the first occurrence of `target` at or after `from`, if any.
pub open spec fn find_from(input: Seq<u8>, from: int, target: u8) -> Option<int>
    decreases input.len() - from,
{
    if 0 <= from && from < input.len() {
        if input[from] == target {
            Some(from)
        } else {
            find_from(input, from + 1, target)
        }
    } else {
        None
    }
}

/// The value of a run of decimal digit bytes read in base ten: the meaning
/// of a `Number` token's integer part, and of its fraction before scaling.
pub open spec fn digits_value(digits: Seq<u8>) -> nat
    decreases digits.len(),
{
    if digits.len() == 0 {
        0
    } else {
        (digits_value(digits.drop_last()) * 10 + (digits.last() - 48)) as nat
    }
}

/// Ten to the `k`: the scale of a fraction of `k` digits.
pub open spec fn pow10(k: nat) -> nat
    decreases k,
{
    if k == 0 {
        1
    } else {
        10 * pow10((k - 1) as nat)
    }
}

/// The number token that starts at the digit at `start`: its integer digit
/// run, then, when a dot follows that run, the digit run after the dot as the
/// fraction.  A second dot is not consumed; the number ends there.
pub open spec fn number_token(input: Seq<u8>, start: int) -> TokenView
    recommends
        0 <= start < input.len(),
        is_digit(input[start]),
{
    let ie = digit_run_end(input, start);
    if ie < input.len() && input[ie] == 46 {
        TokenView::Number {
            integer: input.subrange(start, ie),
            fraction: input.subrange(ie + 1, digit_run_end(input, ie + 1)),
        }
    } else {
        TokenView::Number { integer: input.subrange(start, ie), fraction: Seq::empty() }
    }
}

/// The offset just past the number that starts at the digit at `start`.
pub open spec fn number_end(input: Seq<u8>, start: int) -> int
    recommends
        0 <= start < input.len(),
        is_digit(input[start]),
{
    let ie = digit_run_end(input, start);
    if ie < input.len() && input[ie] == 46 {
        digit_run_end(input, ie + 1)
    } else {
        ie
    }
}

/// Puts `t` in front of the tokens of `r`, leaving an error unchanged.
pub open spec fn prepend(t: TokenView, r: ScanOutcome) -> ScanOutcome {
    match r {
        Ok((ts, end)) => Ok((seq![t] + ts, end)),
        Err(e) => Err(e),
    }
}

/// Puts the already-scanned tokens `ts` in front of the outcome of the rest
/// of a scan, leaving an error unchanged.
pub open spec fn with_prefix(ts: Seq<TokenView>, r: ScanOutcome) -> ScanOutcome {
    match r {
        Ok((ts2, end)) => Ok((ts + ts2, end)),
        Err(e) => Err(e),
    }
}

/// One scan, unrolled at most `fuel` steps: from `pos`, skip whitespace, stop
/// just past the terminator byte if one is set and met, otherwise classify
/// the byte, take its lexeme, and continue after it.  An opening parenthesis
/// scans a bracket-scoped region with the matching closer as terminator; the
/// region's tokens stand between the two bracket operator tokens, flat in the
/// same sequence.  `fuel` only bounds the unrolling: any fuel of at least
/// `input.len() - pos + 1` gives the one true outcome (`lemma_scan_fuel`).
pub open spec fn scan_steps(input: Seq<u8>, pos: int, terminator: Option<u8>, fuel: nat)
    -> ScanOutcome
    decreases fuel,
{
    if fuel == 0 {
        arbitrary()
    } else if !(0 <= pos && pos < input.len()) {
        if terminator is Some {
            Err(ScanErrorView::UnmatchedBracket { position: pos })
        } else {
            Ok((Seq::empty(), pos))
        }
    } else {
        let b = input[pos];
        let rest = (fuel - 1) as nat;
        if is_whitespace(b) {
            scan_steps(input, pos + 1, terminator, rest)
        } else if terminator == Some(b) {
            Ok((Seq::empty(), pos + 1))
        } else if is_name_start(b) {
            let end = name_run_end(input, pos);
            prepend(
                TokenView::Name(input.subrange(pos, end)),
                scan_steps(input, end, terminator, rest),
            )
        } else if is_quote(b) {
            match find_from(input, pos + 1, b) {
                Some(close) => prepend(
                    TokenView::String(input.subrange(pos + 1, close)),
                    scan_steps(input, close + 1, terminator, rest),
                ),
                None => Err(ScanErrorView::UnterminatedString { delimiter: b, position: pos }),
            }
        } else if is_digit(b) {
            prepend(
                number_token(input, pos),
                scan_steps(input, number_end(input, pos), terminator, rest),
            )
        } else if b == 40 {
            match scan_steps(input, pos + 1, Some(41u8), rest) {
                Ok((inner, after)) => match scan_steps(input, after, terminator, rest) {
                    Ok((ts, end)) => Ok(
                        (
                            seq![TokenView::Operator(Operator::LeftBracket)] + inner
                                + seq![TokenView::Operator(Operator::RightBracket)] + ts,
                            end,
                        ),
                    ),
                    Err(e) => Err(e),
                },
                Err(e) => Err(e),
            }
        } else if is_operator_byte(b) {
            prepend(
                TokenView::Operator(operator_for(b)),
                scan_steps(input, pos + 1, terminator, rest),
            )
        } else {
            Err(ScanErrorView::UnknownCharacter { byte: b, position: pos })
        }
    }
}

/// The outcome of the scan that starts at `pos`: `scan_steps` with enough
/// fuel for the rest of the input.
pub open spec fn scan_at(input: Seq<u8>, pos: int, terminator: Option<u8>) -> ScanOutcome
    recommends
        0 <= pos <= input.len(),
{
    scan_steps(input, pos, terminator, (input.len() - pos + 1) as nat)
}

/// The outcome of scanning a whole buffer: its token sequence, or the error
/// that stopped the scan.
pub open spec fn lex_spec(input: Seq<u8>) -> Result<Seq<TokenView>, ScanErrorView> {
    match scan_at(input, 0, None) {
        Ok((ts, _)) => Ok(ts),
        Err(e) => Err(e),
    }
}

/// The run of identifier characters that starts at `from` is bounded by the
/// input, covers only identifier characters, and is maximal.
pub proof fn lemma_name_run_end(input: Seq<u8>, from: int)
    requires
        0 <= from <= input.len(),
    ensures
        from <= name_run_end(input, from) <= input.len(),
        forall|j: int| from <= j < name_run_end(input, from) ==> is_name_char(input[j]),
        name_run_end(input, from) == input.len() || !is_name_char(
            input[name_run_end(input, from)],
        ),
    decreases input.len() - from,
{
    if from < input.len() && is_name_char(input[from]) {
        lemma_name_run_end(input, from + 1);
    }
}

/// The run of digits that starts at `from` is bounded by the input, covers
/// only digits, and is maximal.
pub proof fn lemma_digit_run_end(input: Seq<u8>, from: int)
    requires
        0 <= from <= input.len(),
    ensures
        from <= digit_run_end(input, from) <= input.len(),
        forall|j: int| from <= j < digit_run_end(input, from) ==> is_digit(input[j]),
        digit_run_end(input, from) == input.len() || !is_digit(input[digit_run_end(input, from)]),
    decreases input.len() - from,
{
    if from < input.len() && is_digit(input[from]) {
        lemma_digit_run_end(input, from + 1);
    }
}

/// `find_from` returns the offset of the first occurrence of `target` at or
/// after `from`, and `None` exactly when there is none.
pub proof fn lemma_find_from(input: Seq<u8>, from: int, target: u8)
    requires
        0 <= from <= input.len(),
    ensures
        match find_from(input, from, target) {
            Some(at) => from <= at < input.len() && input[at] == target && forall|j: int|
                from <= j < at ==> input[j] != target,
            None => forall|j: int| from <= j < input.len() ==> input[j] != target,
        },
    decreases input.len() - from,
{
    if from < input.len() && input[from] != target {
        lemma_find_from(input, from + 1, target);
    }
}

/// The number that starts at the digit at `start` ends past that digit and
/// within the input.
pub proof fn lemma_number_end(input: Seq<u8>, start: int)
    requires
        0 <= start < input.len(),
        is_digit(input[start]),
    ensures
        start < number_end(input, start) <= input.len(),
{
    lemma_digit_run_end(input, start);
    assert(digit_run_end(input, start) == digit_run_end(input, start + 1));
    lemma_digit_run_end(input, start + 1);
    let ie = digit_run_end(input, start);
    if ie < input.len() && input[ie] == 46 {
        lemma_digit_run_end(input, ie + 1);
    }
}

/// A run of identifier characters from `from` up to a stop at `k` is what
/// `name_run_end` finds.
pub proof fn lemma_name_run_end_is(input: Seq<u8>, from: int, k: int)
    requires
        0 <= from <= k <= input.len(),
        forall|j: int| from <= j < k ==> is_name_char(input[j]),
        k == input.len() || !is_name_char(input[k]),
    ensures
        name_run_end(input, from) == k,
    decreases k - from,
{
    if from < k {
        lemma_name_run_end_is(input, from + 1, k);
    }
}

/// A run of digits from `from` up to a stop at `k` is what `digit_run_end`
/// finds.
pub proof fn lemma_digit_run_end_is(input: Seq<u8>, from: int, k: int)
    requires
        0 <= from <= k <= input.len(),
        forall|j: int| from <= j < k ==> is_digit(input[j]),
        k == input.len() || !is_digit(input[k]),
    ensures
        digit_run_end(input, from) == k,
    decreases k - from,
{
    if from < k {
        lemma_digit_run_end_is(input, from + 1, k);
    }
}

/// The first occurrence of `target` at or after `from` stands at `k` when
/// `input[k]` is `target` and nothing before it is.
pub proof fn lemma_find_from_is(input: Seq<u8>, from: int, k: int, target: u8)
    requires
        0 <= from <= k < input.len(),
        input[k] == target,
        forall|j: int| from <= j < k ==> input[j] != target,
    ensures
        find_from(input, from, target) == Some(k),
    decreases k - from,
{
    if from < k {
        lemma_find_from_is(input, from + 1, k, target);
    }
}

/// Folding an already-scanned prefix over a prepended token gathers the token
/// into the prefix.
pub proof fn lemma_with_prefix_prepend(ts: Seq<TokenView>, t: TokenView, r: ScanOutcome)
    ensures
        with_prefix(ts, prepend(t, r)) == with_prefix(ts.push(t), r),
{
    match r {
        Ok((ts2, end)) => {
            assert(ts + (seq![t] + ts2) =~= ts.push(t) + ts2);
        },
        Err(_) => {},
    }
}

/// Folding an empty prefix changes nothing.
pub proof fn lemma_with_prefix_empty(r: ScanOutcome)
    ensures
        with_prefix(Seq::empty(), r) == r,
{
    match r {
        Ok((ts, end)) => {
            assert(Seq::<TokenView>::empty() + ts =~= ts);
        },
        Err(_) => {},
    }
}

/// Folding two already-scanned prefixes one after the other is folding their
/// concatenation.
pub proof fn lemma_with_prefix_flatten(a: Seq<TokenView>, b: Seq<TokenView>, r: ScanOutcome)
    ensures
        with_prefix(a, with_prefix(b, r)) == with_prefix(a + b, r),
{
    match r {
        Ok((ts, end)) => {
            assert(a + (b + ts) =~= (a + b) + ts);
        },
        Err(_) => {},
    }
}

/// Any fuel of at least `input.len() - pos + 1` yields the canonical outcome
/// `scan_at`; a successful scan stops within the input, past its start when a
/// terminator was required, and at the very end when none was set.
pub proof fn lemma_scan_fuel(input: Seq<u8>, pos: int, terminator: Option<u8>, fuel: nat)
    requires
        0 <= pos <= input.len(),
        fuel >= input.len() - pos + 1,
    ensures
        scan_steps(input, pos, terminator, fuel) == scan_at(input, pos, terminator),
        match scan_at(input, pos, terminator) {
            Ok((ts, end)) => {
                &&& pos <= end <= input.len()
                &&& (terminator is Some ==> pos < end)
                &&& (terminator is None ==> end == input.len())
            },
            Err(_) => true,
        },
    decreases fuel,
{
    let canon = (input.len() - pos + 1) as nat;
    if pos == input.len() {
        // both unfold to the same base case
    } else {
        let b = input[pos];
        if is_whitespace(b) {
            lemma_scan_fuel(input, pos + 1, terminator, (fuel - 1) as nat);
            lemma_scan_fuel(input, pos + 1, terminator, (canon - 1) as nat);
        } else if terminator == Some(b) {
            // both yield Ok((empty, pos + 1))
        } else if is_name_start(b) {
            let end = name_run_end(input, pos);
            lemma_name_run_end(input, pos);
            assert(name_run_end(input, pos) == name_run_end(input, pos + 1));
            lemma_name_run_end(input, pos + 1);
            lemma_scan_fuel(input, end, terminator, (fuel - 1) as nat);
            lemma_scan_fuel(input, end, terminator, (canon - 1) as nat);
        } else if is_quote(b) {
            lemma_find_from(input, pos + 1, b);
            match find_from(input, pos + 1, b) {
                Some(close) => {
                    lemma_scan_fuel(input, close + 1, terminator, (fuel - 1) as nat);
                    lemma_scan_fuel(input, close + 1, terminator, (canon - 1) as nat);
                },
                None => {},
            }
        } else if is_digit(b) {
            let end = number_end(input, pos);
            lemma_number_end(input, pos);
            lemma_scan_fuel(input, end, terminator, (fuel - 1) as nat);
            lemma_scan_fuel(input, end, terminator, (canon - 1) as nat);
        } else if b == 40 {
            lemma_scan_fuel(input, pos + 1, Some(41u8), (fuel - 1) as nat);
            lemma_scan_fuel(input, pos + 1, Some(41u8), (canon - 1) as nat);
            match scan_at(input, pos + 1, Some(41u8)) {
                Ok((inner, after)) => {
                    lemma_scan_fuel(input, after, terminator, (fuel - 1) as nat);
                    lemma_scan_fuel(input, after, terminator, (canon - 1) as nat);
                },
                Err(_) => {},
            }
        } else if is_operator_byte(b) {
            lemma_scan_fuel(input, pos + 1, terminator, (fuel - 1) as nat);
            lemma_scan_fuel(input, pos + 1, terminator, (canon - 1) as nat);
        } else {
            // both yield the same unknown-character error
        }
    }
}

} // verus!
