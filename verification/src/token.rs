//! Tokens and the scanner.  `lex` walks a byte buffer once, skipping
//! whitespace, taking each lexeme with the matching scan routine, and
//! appending one token per lexeme; a parenthesis opens a bracket-scoped
//! sub-scan.  Every function here is proved against the model in `model`.

use vstd::prelude::*;
use vstd::slice::{slice_index_get, slice_subrange, slice_to_vec};
use crate::chars::{digit, is_digit, is_quote, name_char, name_start, quote, whitespace};
use crate::error::ScanError;
use crate::model::{
    digit_run_end, find_from, lemma_digit_run_end, lemma_find_from, lemma_name_run_end,
    lemma_number_end, lemma_scan_fuel, lemma_with_prefix_empty, lemma_with_prefix_flatten,
    lemma_with_prefix_prepend, lex_spec, name_run_end, number_end, number_token, prepend,
    scan_at, with_prefix, TokenView,
};
use crate::operator::{byte_for, Operator};

verus! {

broadcast use vstd::slice::group_slice_axioms;

/// One lexeme of the input: an operator kind, a number given by its integer
/// and fractional digit runs, an identifier's text, or a string literal's
/// text with the delimiters stripped.  A token owns a copy of its text.
#[derive(Debug, Clone, PartialEq, Eq)]
pub enum Token {
    Operator(Operator),
    Number { integer: Vec<u8>, fraction: Vec<u8> },
    Name(Vec<u8>),
    String(Vec<u8>),
}

impl View for Token {
    type V = TokenView;

    open spec fn view(&self) -> TokenView {
        match self {
            Token::Operator(k) => TokenView::Operator(*k),
            Token::Number { integer, fraction } => TokenView::Number {
                integer: integer@,
                fraction: fraction@,
            },
            Token::Name(text) => TokenView::Name(text@),
            Token::String(text) => TokenView::String(text@),
        }
    }
}

/// The views of a token sequence, element by element.
pub open spec fn views_of(tokens: Seq<Token>) -> Seq<TokenView> {
    tokens.map_values(|t: Token| t@)
}

/// The text that a token stands for: the operator's byte, a number's digits
/// with a dot before a non-empty fraction, or an identifier's or literal's
/// own text.
pub open spec fn token_bytes(t: TokenView) -> Seq<u8> {
    match t {
        TokenView::Operator(k) => seq![byte_for(k)],
        TokenView::Number { integer, fraction } => if fraction.len() > 0 {
            integer + seq![46u8] + fraction
        } else {
            integer
        },
        TokenView::Name(text) => text,
        TokenView::String(text) => text,
    }
}

impl Token {
    /// The text that this token stands for, as an owned copy.
    pub fn bytes(&self) -> (r: Vec<u8>)
        ensures
            r@ == token_bytes(self@),
    {
        match self {
            Token::Operator(k) => {
                let mut v: Vec<u8> = Vec::new();
                v.push(k.to_ascii());
                proof {
                    assert(v@ =~= seq![byte_for(*k)]);
                }
                v
            },
            Token::Number { integer, fraction } => {
                let mut v = slice_to_vec(integer.as_slice());
                if fraction.len() > 0 {
                    v.push(46);
                    let mut i: usize = 0;
                    while i < fraction.len()
                        invariant
                            i <= fraction@.len(),
                            v@ == integer@ + seq![46u8] + fraction@.subrange(0, i as int),
                        decreases fraction@.len() - i,
                    {
                        v.push(*slice_index_get(fraction.as_slice(), i));
                        proof {
                            assert(integer@ + seq![46u8] + fraction@.subrange(0, i + 1) =~= (
                            integer@ + seq![46u8] + fraction@.subrange(0, i as int)).push(
                                fraction@[i as int],
                            ));
                        }
                        i = i + 1;
                    }
                    proof {
                        assert(fraction@.subrange(0, fraction@.len() as int) =~= fraction@);
                    }
                } else {
                    proof {
                        assert(v@ == integer@);
                    }
                }
                proof {
                    assert(integer@ + seq![46u8] =~= integer@ + seq![46u8] + fraction@.subrange(
                        0,
                        0,
                    ));
                }
                v
            },
            Token::Name(text) => slice_to_vec(text.as_slice()),
            Token::String(text) => slice_to_vec(text.as_slice()),
        }
    }
}

/// An owned copy of `input[from..to]`.
fn copy_range(input: &[u8], from: usize, to: usize) -> (r: Vec<u8>)
    requires
        from <= to,
        to <= input@.len(),
    ensures
        r@ == input@.subrange(from as int, to as int),
{
    slice_to_vec(slice_subrange(input, from, to))
}

/// Consumes the maximal run of identifier characters that starts at `from`,
/// returning the offset of the first byte past the run.
#[verifier::loop_isolation(false)]
pub fn scan_name(input: &[u8], from: usize) -> (end: usize)
    requires
        from <= input@.len(),
    ensures
        end == name_run_end(input@, from as int),
        from <= end <= input@.len(),
{
    proof {
        lemma_name_run_end(input@, from as int);
    }
    let mut i = from;
    while i < input.len() && name_char(*slice_index_get(input, i))
        invariant
            from <= i <= input@.len(),
            name_run_end(input@, from as int) == name_run_end(input@, i as int),
        decreases input@.len() - i,
    {
        i = i + 1;
    }
    i
}

/// Consumes the maximal run of decimal digits that starts at `from`,
/// returning the offset of the first byte past the run.
#[verifier::loop_isolation(false)]
pub fn scan_digits(input: &[u8], from: usize) -> (end: usize)
    requires
        from <= input@.len(),
    ensures
        end == digit_run_end(input@, from as int),
        from <= end <= input@.len(),
{
    proof {
        lemma_digit_run_end(input@, from as int);
    }
    let mut i = from;
    while i < input.len() && digit(*slice_index_get(input, i))
        invariant
            from <= i <= input@.len(),
            digit_run_end(input@, from as int) == digit_run_end(input@, i as int),
        decreases input@.len() - i,
    {
        i = i + 1;
    }
    i
}

/// The offset of the first occurrence of `target` at or after `from`, if any.
#[verifier::loop_isolation(false)]
fn find_byte(input: &[u8], from: usize, target: u8) -> (r: Option<usize>)
    requires
        from <= input@.len(),
    ensures
        match r {
            Some(at) => find_from(input@, from as int, target) == Some(at as int) && from <= at
                && (at as int) < input@.len(),
            None => find_from(input@, from as int, target) is None,
        },
{
    proof {
        lemma_find_from(input@, from as int, target);
    }
    let mut i = from;
    while i < input.len()
        invariant
            from <= i <= input@.len(),
            find_from(input@, from as int, target) == find_from(input@, i as int, target),
        decreases input@.len() - i,
    {
        if *slice_index_get(input, i) == target {
            return Some(i);
        }
        i = i + 1;
    }
    None
}

/// Consumes the number that starts at the digit at `start`: its integer digit
/// run and, when a single dot follows, the digit run after the dot.  Never
/// fails; returns the token and the offset just past the number.
pub fn scan_number(input: &[u8], start: usize) -> (r: (Token, usize))
    requires
        start < input@.len(),
        is_digit(input@[start as int]),
    ensures
        r.0@ == number_token(input@, start as int),
        r.1 == number_end(input@, start as int),
        start < r.1 <= input@.len(),
{
    proof {
        lemma_number_end(input@, start as int);
    }
    let ie = scan_digits(input, start);
    if ie < input.len() && *slice_index_get(input, ie) == 46 {
        let fe = scan_digits(input, ie + 1);
        let integer = copy_range(input, start, ie);
        let fraction = copy_range(input, ie + 1, fe);
        (Token::Number { integer, fraction }, fe)
    } else {
        let integer = copy_range(input, start, ie);
        (Token::Number { integer, fraction: Vec::new() }, ie)
    }
}

/// Scans the string literal whose opening quote stands at `start`: the
/// literal's text is everything up to the next occurrence of the same quote
/// byte, with no escape processing.  Returns the text and the offset just
/// past the closing quote, or `UnterminatedString` when the input ends first.
pub fn scan_string(input: &[u8], start: usize) -> (r: Result<(Vec<u8>, usize), ScanError>)
    requires
        start < input@.len(),
        is_quote(input@[start as int]),
    ensures
        match find_from(input@, start as int + 1, input@[start as int]) {
            Some(close) => match r {
                Ok((text, next)) => text@ == input@.subrange(start as int + 1, close) && next
                    == close + 1,
                Err(_) => false,
            },
            None => r == Err::<(Vec<u8>, usize), ScanError>(
                ScanError::UnterminatedString {
                    delimiter: input@[start as int],
                    position: start,
                },
            ),
        },
{
    let n = input.len();
    let q = *slice_index_get(input, start);
    match find_byte(input, start + 1, q) {
        Some(close) => {
            let text = copy_range(input, start + 1, close);
            proof {
                assert(close < n);
            }
            Ok((text, close + 1))
        },
        None => Err(ScanError::UnterminatedString { delimiter: q, position: start }),
    }
}

/// Pushing a token pushes its view.
proof fn lemma_views_push(s: Seq<Token>, t: Token)
    ensures
        views_of(s.push(t)) == views_of(s).push(t@),
{
    assert(views_of(s.push(t)) =~= views_of(s).push(t@));
}

/// The views of a concatenation are the concatenated views.
proof fn lemma_views_concat(a: Seq<Token>, b: Seq<Token>)
    ensures
        views_of(a + b) == views_of(a) + views_of(b),
{
    assert(views_of(a + b) =~= views_of(a) + views_of(b));
}

/// The dispatcher's engine: scans from `start` until the input ends or the
/// terminator byte is met, gathering the region's tokens into a fresh
/// sequence.  On success it returns the tokens with the number of bytes
/// consumed; on failure, the error of the model.
#[verifier::loop_isolation(false)]
fn scan_region(input: &[u8], start: usize, terminator: Option<u8>) -> (r: Result<
    (Vec<Token>, usize),
    ScanError,
>)
    requires
        start <= input@.len(),
    ensures
        match scan_at(input@, start as int, terminator) {
            Ok((ts, end)) => match r {
                Ok((toks, consumed)) => views_of(toks@) == ts && consumed + start == end,
                Err(_) => false,
            },
            Err(e) => match r {
                Ok(_) => false,
                Err(ae) => ae@ == e,
            },
        },
    decreases input@.len() - start,
{
    let n = input.len();
    let mut toks: Vec<Token> = Vec::new();
    let mut pos: usize = start;
    proof {
        assert(views_of(Seq::<Token>::empty()) =~= Seq::<TokenView>::empty());
        lemma_with_prefix_empty(scan_at(input@, start as int, terminator));
    }
    loop
        invariant
            start <= pos <= n,
            with_prefix(views_of(toks@), scan_at(input@, pos as int, terminator)) == scan_at(
                input@,
                start as int,
                terminator,
            ),
        decreases n - pos,
    {
        if pos == n {
            proof {
                assert(views_of(toks@) + Seq::<TokenView>::empty() =~= views_of(toks@));
            }
            match terminator {
                Option::None => {
                    return Ok((toks, pos - start));
                },
                Option::Some(_) => {
                    return Err(ScanError::UnmatchedBracket { position: pos });
                },
            }
        }
        let b = *slice_index_get(input, pos);
        if whitespace(b) {
            proof {
                lemma_scan_fuel(input@, pos as int + 1, terminator, (input@.len() - pos) as nat);
            }
            pos = pos + 1;
        } else {
            let term_hit = match terminator {
                Option::Some(t) => b == t,
                Option::None => false,
            };
            if term_hit {
                proof {
                    assert(terminator == Some(b));
                    assert(views_of(toks@) + Seq::<TokenView>::empty() =~= views_of(toks@));
                }
                return Ok((toks, pos + 1 - start));
            } else if name_start(b) {
                let ghost pre = views_of(toks@);
                proof {
                    lemma_name_run_end(input@, pos as int);
                    assert(name_run_end(input@, pos as int) == name_run_end(
                        input@,
                        pos as int + 1,
                    ));
                    lemma_name_run_end(input@, pos as int + 1);
                }
                let end = scan_name(input, pos);
                let text = copy_range(input, pos, end);
                let tok = Token::Name(text);
                proof {
                    lemma_scan_fuel(input@, end as int, terminator, (input@.len() - pos) as nat);
                    assert(scan_at(input@, pos as int, terminator) == prepend(
                        tok@,
                        scan_at(input@, end as int, terminator),
                    ));
                    lemma_with_prefix_prepend(pre, tok@, scan_at(input@, end as int, terminator));
                    lemma_views_push(toks@, tok);
                }
                toks.push(tok);
                pos = end;
            } else if quote(b) {
                let ghost pre = views_of(toks@);
                proof {
                    lemma_find_from(input@, pos as int + 1, b);
                }
                match scan_string(input, pos) {
                    Ok((text, next)) => {
                        let tok = Token::String(text);
                        proof {
                            lemma_scan_fuel(
                                input@,
                                next as int,
                                terminator,
                                (input@.len() - pos) as nat,
                            );
                            assert(scan_at(input@, pos as int, terminator) == prepend(
                                tok@,
                                scan_at(input@, next as int, terminator),
                            ));
                            lemma_with_prefix_prepend(
                                pre,
                                tok@,
                                scan_at(input@, next as int, terminator),
                            );
                            lemma_views_push(toks@, tok);
                        }
                        toks.push(tok);
                        pos = next;
                    },
                    Err(e) => {
                        return Err(e);
                    },
                }
            } else if digit(b) {
                let ghost pre = views_of(toks@);
                let (tok, next) = scan_number(input, pos);
                proof {
                    lemma_scan_fuel(input@, next as int, terminator, (input@.len() - pos) as nat);
                    assert(scan_at(input@, pos as int, terminator) == prepend(
                        tok@,
                        scan_at(input@, next as int, terminator),
                    ));
                    lemma_with_prefix_prepend(pre, tok@, scan_at(input@, next as int, terminator));
                    lemma_views_push(toks@, tok);
                }
                toks.push(tok);
                pos = next;
            } else if b == 40 {
                let ghost pre = views_of(toks@);
                let lb = Token::Operator(Operator::LeftBracket);
                proof {
                    lemma_views_push(toks@, lb);
                }
                toks.push(lb);
                proof {
                    lemma_scan_fuel(
                        input@,
                        pos as int + 1,
                        Some(41u8),
                        (input@.len() - pos) as nat,
                    );
                }
                match scan_region(input, pos + 1, Some(41u8)) {
                    Err(e) => {
                        return Err(e);
                    },
                    Ok((mut inner, consumed)) => {
                        let ghost innerv = views_of(inner@);
                        let after = pos + 1 + consumed;
                        proof {
                            lemma_views_concat(toks@, inner@);
                        }
                        toks.append(&mut inner);
                        let rb = Token::Operator(Operator::RightBracket);
                        proof {
                            lemma_views_push(toks@, rb);
                        }
                        toks.push(rb);
                        proof {
                            let lbv = TokenView::Operator(Operator::LeftBracket);
                            let rbv = TokenView::Operator(Operator::RightBracket);
                            lemma_scan_fuel(
                                input@,
                                after as int,
                                terminator,
                                (input@.len() - pos) as nat,
                            );
                            let region = seq![lbv] + innerv + seq![rbv];
                            assert(scan_at(input@, pos as int, terminator) == with_prefix(
                                region,
                                scan_at(input@, after as int, terminator),
                            ));
                            lemma_with_prefix_flatten(
                                pre,
                                region,
                                scan_at(input@, after as int, terminator),
                            );
                            assert(pre + region =~= (pre.push(lbv) + innerv).push(rbv));
                        }
                        pos = after;
                    },
                }
            } else {
                match Operator::from_ascii(b) {
                    Ok(kind) => {
                        let ghost pre = views_of(toks@);
                        let tok = Token::Operator(kind);
                        proof {
                            lemma_scan_fuel(
                                input@,
                                pos as int + 1,
                                terminator,
                                (input@.len() - pos) as nat,
                            );
                            assert(scan_at(input@, pos as int, terminator) == prepend(
                                tok@,
                                scan_at(input@, pos as int + 1, terminator),
                            ));
                            lemma_with_prefix_prepend(
                                pre,
                                tok@,
                                scan_at(input@, pos as int + 1, terminator),
                            );
                            lemma_views_push(toks@, tok);
                        }
                        toks.push(tok);
                        pos = pos + 1;
                    },
                    Err(_) => {
                        return Err(ScanError::UnknownCharacter { byte: b, position: pos });
                    },
                }
            }
        }
    }
}

/// The dispatcher: scans `input` from `start`, appending one token per
/// lexeme to `output`, until the input ends or, when a terminator byte is
/// set, until that byte is met.  On success it returns how many bytes were
/// consumed, the terminator included; on failure `output` is unchanged and
/// the error carries the failing byte and position.
pub fn scan(input: &[u8], start: usize, terminator: Option<u8>, output: &mut Vec<Token>) -> (r:
    Result<usize, ScanError>)
    requires
        start <= input@.len(),
    ensures
        match scan_at(input@, start as int, terminator) {
            Ok((ts, end)) => match r {
                Ok(consumed) => consumed + start == end && views_of(final(output)@) == views_of(
                    old(output)@,
                ) + ts,
                Err(_) => false,
            },
            Err(e) => match r {
                Ok(_) => false,
                Err(ae) => ae@ == e && final(output)@ == old(output)@,
            },
        },
{
    match scan_region(input, start, terminator) {
        Ok((mut toks, consumed)) => {
            proof {
                lemma_views_concat(old(output)@, toks@);
            }
            output.append(&mut toks);
            Ok(consumed)
        },
        Err(e) => Err(e),
    }
}

/// Scans a whole buffer into tokens, appending them to `output`.  Exactly
/// the successful inputs of the model yield `Ok`; on failure `output` is
/// unchanged and the error names the failing byte and position.
pub fn lex(input: &[u8], output: &mut Vec<Token>) -> (r: Result<(), ScanError>)
    ensures
        match lex_spec(input@) {
            Ok(ts) => r == Ok::<(), ScanError>(()) && views_of(final(output)@) == views_of(
                old(output)@,
            ) + ts,
            Err(e) => match r {
                Ok(_) => false,
                Err(ae) => ae@ == e && final(output)@ == old(output)@,
            },
        },
{
    match scan(input, 0, None, output) {
        Ok(_) => Ok(()),
        Err(e) => Err(e),
    }
}

} // verus!
