//! The laws of the scanner, each proved against the model: whitespace-only
//! input yields no tokens; digit-only input is one number read in base ten;
//! a decimal literal is one number with its two digit runs; an identifier is
//! one name; a delimited literal is one string, and one without its closer
//! fails; scanning is a pure function of the buffer; and a byte of no
//! category fails with that exact byte and position.

use vstd::prelude::*;
use crate::chars::{is_digit, is_name_char, is_name_start, is_quote, is_whitespace};
use crate::error::ScanErrorView;
use crate::model::{
    digits_value, lemma_digit_run_end_is, lemma_find_from, lemma_find_from_is,
    lemma_name_run_end_is, lex_spec, number_token, pow10, scan_at, TokenView,
};
use crate::operator::is_operator_byte;

verus! {

/// An input of nothing but whitespace scans to the empty token sequence.
pub proof fn lemma_whitespace_only_scans_empty(input: Seq<u8>)
    requires
        forall|i: int| 0 <= i < input.len() ==> is_whitespace(input[i]),
    ensures
        lex_spec(input) == Ok::<Seq<TokenView>, ScanErrorView>(Seq::empty()),
{
    lemma_whitespace_tail(input, 0);
}

proof fn lemma_whitespace_tail(input: Seq<u8>, pos: int)
    requires
        0 <= pos <= input.len(),
        forall|i: int| pos <= i < input.len() ==> is_whitespace(input[i]),
    ensures
        scan_at(input, pos, None) == Ok::<(Seq<TokenView>, int), ScanErrorView>(
            (Seq::empty(), input.len() as int),
        ),
    decreases input.len() - pos,
{
    if pos < input.len() {
        lemma_whitespace_tail(input, pos + 1);
    }
}

/// An input of nothing but digits scans to exactly one `Number` token whose
/// integer part is the whole input and whose fraction is empty; the value it
/// denotes is `digits_value(input)`, the standard base-ten reading.
pub proof fn lemma_digits_scan_to_one_number(input: Seq<u8>)
    requires
        input.len() > 0,
        forall|i: int| 0 <= i < input.len() ==> is_digit(input[i]),
    ensures
        lex_spec(input) == Ok::<Seq<TokenView>, ScanErrorView>(
            seq![TokenView::Number { integer: input, fraction: Seq::empty() }],
        ),
{
    reveal_with_fuel(crate::model::scan_steps, 2);
    let len = input.len() as int;
    lemma_digit_run_end_is(input, 0, len);
    assert(input.subrange(0, len) =~= input);
    assert(seq![number_token(input, 0)] + Seq::<TokenView>::empty() =~= seq![
        TokenView::Number { integer: input, fraction: Seq::empty() },
    ]);
}

/// An input of one digit run, a dot, and a second digit run scans to exactly
/// one `Number` token holding those runs as its integer and fractional
/// parts.  The value that such a token denotes is `digits_value(integer)`
/// plus each fractional digit scaled by the matching negative power of ten;
/// `lemma_digits_value_positional` states that scaling exactly.
pub proof fn lemma_decimal_scans_to_one_number(d1: Seq<u8>, d2: Seq<u8>)
    requires
        d1.len() > 0,
        forall|i: int| 0 <= i < d1.len() ==> is_digit(d1[i]),
        forall|i: int| 0 <= i < d2.len() ==> is_digit(d2[i]),
    ensures
        lex_spec(d1 + seq![46u8] + d2) == Ok::<Seq<TokenView>, ScanErrorView>(
            seq![TokenView::Number { integer: d1, fraction: d2 }],
        ),
{
    reveal_with_fuel(crate::model::scan_steps, 2);
    let input = d1 + seq![46u8] + d2;
    let i1 = d1.len() as int;
    let len = input.len() as int;
    assert(input[i1] == 46);
    assert forall|j: int| 0 <= j < i1 implies is_digit(input[j]) by {
        assert(input[j] == d1[j]);
    }
    assert forall|j: int| i1 + 1 <= j < len implies is_digit(input[j]) by {
        assert(input[j] == d2[j - (i1 + 1)]);
    }
    lemma_digit_run_end_is(input, 0, i1);
    lemma_digit_run_end_is(input, i1 + 1, len);
    assert(input.subrange(0, i1) =~= d1);
    assert(input.subrange(i1 + 1, len) =~= d2);
    assert(seq![number_token(input, 0)] + Seq::<TokenView>::empty() =~= seq![
        TokenView::Number { integer: d1, fraction: d2 },
    ]);
}

/// Digit runs are read positionally: the value of two runs read as one is
/// the first run's value scaled by ten to the length of the second, plus the
/// second run's value.  Dividing both sides by that scale gives the
/// fractional reading: each digit of `b` counts for ten to the minus its
/// place past the dot.
pub proof fn lemma_digits_value_positional(a: Seq<u8>, b: Seq<u8>)
    requires
        forall|i: int| 0 <= i < b.len() ==> is_digit(b[i]),
    ensures
        digits_value(a + b) == digits_value(a) * pow10(b.len()) + digits_value(b),
    decreases b.len(),
{
    if b.len() == 0 {
        assert(a + b =~= a);
        assert(digits_value(a) * pow10(b.len()) + digits_value(b) == digits_value(a)) by (
        nonlinear_arith)
            requires
                pow10(b.len()) == 1,
                digits_value(b) == 0,
        ;
    } else {
        let b0 = b.drop_last();
        let x = b.last();
        assert forall|i: int| 0 <= i < b0.len() implies is_digit(b0[i]) by {
            assert(b0[i] == b[i]);
        }
        lemma_digits_value_positional(a, b0);
        assert((a + b).drop_last() =~= a + b0);
        assert((a + b).last() == x);
        assert(is_digit(b[b.len() - 1]));
        assert(x == b[b.len() - 1]);
        assert(pow10(b.len()) == 10 * pow10(b0.len()));
        assert(digits_value(a + b) == (digits_value(a + b0) * 10 + (x - 48)) as nat);
        assert(digits_value(b) == (digits_value(b0) * 10 + (x - 48)) as nat);
        assert((digits_value(a) * pow10(b0.len()) + digits_value(b0)) * 10 + (x - 48)
            == digits_value(a) * pow10(b.len()) + (digits_value(b0) * 10 + (x - 48))) by (
        nonlinear_arith)
            requires
                pow10(b.len()) == 10 * pow10(b0.len()),
        ;
        assert(digits_value(b0) * 10 + (x - 48) >= 0);
        assert((digits_value(b0) * 10 + (x - 48)) as nat == digits_value(b0) * 10 + (x - 48));
        assert(digits_value(a + b) == (digits_value(a) * pow10(b.len()) + (digits_value(b0) * 10
            + (x - 48))) as nat);
        assert(digits_value(a + b) == digits_value(a) * pow10(b.len()) + digits_value(b));
    }
}

/// An input that is one identifier — a letter or underscore followed by
/// letters, digits and underscores — scans to exactly one `Name` token
/// holding the whole input.
pub proof fn lemma_identifier_scans_to_one_name(input: Seq<u8>)
    requires
        input.len() > 0,
        is_name_start(input[0]),
        forall|i: int| 0 <= i < input.len() ==> is_name_char(input[i]),
    ensures
        lex_spec(input) == Ok::<Seq<TokenView>, ScanErrorView>(seq![TokenView::Name(input)]),
{
    reveal_with_fuel(crate::model::scan_steps, 2);
    let len = input.len() as int;
    lemma_name_run_end_is(input, 0, len);
    assert(input.subrange(0, len) =~= input);
    assert(seq![TokenView::Name(input)] + Seq::<TokenView>::empty() =~= seq![
        TokenView::Name(input),
    ]);
}

/// A quote-delimited literal whose text holds no delimiter byte scans to
/// exactly one `String` token holding the text, delimiters stripped.
pub proof fn lemma_string_literal_scans_to_one_string(q: u8, text: Seq<u8>)
    requires
        is_quote(q),
        forall|i: int| 0 <= i < text.len() ==> text[i] != q,
    ensures
        lex_spec(seq![q] + text + seq![q]) == Ok::<Seq<TokenView>, ScanErrorView>(
            seq![TokenView::String(text)],
        ),
{
    reveal_with_fuel(crate::model::scan_steps, 2);
    let input = seq![q] + text + seq![q];
    let len = input.len() as int;
    assert(input[0] == q);
    assert(input[len - 1] == q);
    assert forall|j: int| 1 <= j < len - 1 implies input[j] != q by {
        assert(input[j] == text[j - 1]);
    }
    lemma_find_from_is(input, 1, len - 1, q);
    assert(input.subrange(1, len - 1) =~= text);
    assert(seq![TokenView::String(text)] + Seq::<TokenView>::empty() =~= seq![
        TokenView::String(text),
    ]);
}

/// A literal whose closing quote never comes fails with `UnterminatedString`
/// naming the delimiter and the opening quote's position.
pub proof fn lemma_unterminated_string_fails(q: u8, text: Seq<u8>)
    requires
        is_quote(q),
        forall|i: int| 0 <= i < text.len() ==> text[i] != q,
    ensures
        lex_spec(seq![q] + text) == Err::<Seq<TokenView>, ScanErrorView>(
            ScanErrorView::UnterminatedString { delimiter: q, position: 0 },
        ),
{
    let input = seq![q] + text;
    assert(input[0] == q);
    assert forall|j: int| 1 <= j < input.len() implies input[j] != q by {
        assert(input[j] == text[j - 1]);
    }
    lemma_find_from(input, 1, q);
}

/// Scanning keeps no hidden state: the outcome is a function of the buffer
/// alone, so scanning the same buffer a second time yields an identical
/// token sequence, or the identical error.
pub proof fn lemma_rescan_identical(
    input: Seq<u8>,
    first: Result<Seq<TokenView>, ScanErrorView>,
    second: Result<Seq<TokenView>, ScanErrorView>,
)
    requires
        first == lex_spec(input),
        second == lex_spec(input),
    ensures
        first == second,
{
}

/// A byte in no lexical category — not whitespace, not a name or number
/// start, not a quote, not a bracket, not a recognized operator — fails the
/// scan with `UnknownCharacter` naming exactly that byte and its position.
pub proof fn lemma_unknown_byte_fails(input: Seq<u8>, at: int)
    requires
        0 <= at < input.len(),
        forall|j: int| 0 <= j < at ==> is_whitespace(input[j]),
        !is_whitespace(input[at]),
        !is_name_start(input[at]),
        !is_digit(input[at]),
        !is_quote(input[at]),
        input[at] != 40,
        !is_operator_byte(input[at]),
    ensures
        lex_spec(input) == Err::<Seq<TokenView>, ScanErrorView>(
            ScanErrorView::UnknownCharacter { byte: input[at], position: at },
        ),
{
    lemma_unknown_tail(input, 0, at);
}

proof fn lemma_unknown_tail(input: Seq<u8>, pos: int, at: int)
    requires
        0 <= pos <= at < input.len(),
        forall|j: int| pos <= j < at ==> is_whitespace(input[j]),
        !is_whitespace(input[at]),
        !is_name_start(input[at]),
        !is_digit(input[at]),
        !is_quote(input[at]),
        input[at] != 40,
        !is_operator_byte(input[at]),
    ensures
        scan_at(input, pos, None) == Err::<(Seq<TokenView>, int), ScanErrorView>(
            ScanErrorView::UnknownCharacter { byte: input[at], position: at },
        ),
    decreases at - pos,
{
    if pos < at {
        lemma_unknown_tail(input, pos + 1, at);
    }
}

} // verus!
