//! Splitting a payload into tokens and converting each token by its form.

use vstd::prelude::*;
use vstd::string::StringSliceAdditionalSpecFns;
use vstd::utf8::encode_utf8;
use crate::ascii::{marker_interior, parse_str_ascii};
use crate::binary::{binary_bytes, parse_binary};
use crate::decimal::{decimal_in_range, minimal_bytes, parse_decimal};
use crate::digits::{digit_value, number_value};
use crate::error::{ConvertError, ErrorKind};
use crate::hexadecimal::{hexadecimal_bytes, parse_hexadecimal};
use crate::pattern::{
    marker_at, ascii_marker_shape, binary_shape, decimal_shape, hexadecimal_shape, is_binary, is_decimal,
    is_hexadecimal, is_str_ascii,
};

verus! {

/// A conversion's outcome as values: the bytes, or the failure's kind and the
/// offending token (empty where there is none).
pub type Outcome = Result<Seq<u8>, (ErrorKind, Seq<char>)>;

/// The words into which `shlex::split` cuts a payload under shell quoting
/// rules, or `None` where the quoting is malformed.
pub uninterp spec fn shlex_words(s: Seq<char>) -> Option<Seq<Seq<char>>>;

/// The text of each token.
pub open spec fn words(tokens: Seq<String>) -> Seq<Seq<char>> {
    tokens.map_values(|t: String| t@)
}

/// One token's bytes, by the first form it has, tried in the order binary,
/// hexadecimal, decimal, `ASCII(...)` marker.
pub open spec fn token_bytes(t: Seq<char>) -> Result<Seq<u8>, ErrorKind> {
    let b = encode_utf8(t);
    if binary_shape(b) {
        Ok(binary_bytes(b.skip(2)))
    } else if hexadecimal_shape(b) {
        Ok(hexadecimal_bytes(b.skip(2)))
    } else if decimal_shape(b) {
        if decimal_in_range(b) {
            Ok(minimal_bytes(number_value(b, 10)))
        } else {
            Err(ErrorKind::NumericOverflow)
        }
    } else if ascii_marker_shape(b) {
        Ok(marker_interior(b))
    } else {
        Err(ErrorKind::UnrecognizedToken)
    }
}

/// The tokens' bytes concatenated in order, or the failure of the first token
/// that fails.
pub open spec fn tokens_bytes(ws: Seq<Seq<char>>) -> Outcome
    decreases ws.len(),
{
    if ws.len() == 0 {
        Ok(Seq::empty())
    } else {
        match token_bytes(ws[0]) {
            Err(k) => Err((k, ws[0])),
            Ok(x) => match tokens_bytes(ws.skip(1)) {
                Ok(y) => Ok(x + y),
                Err(e) => Err(e),
            },
        }
    }
}

/// The conversion of a list of tokens: an empty list is an error.
pub open spec fn convert_words(ws: Seq<Seq<char>>) -> Outcome {
    if ws.len() == 0 {
        Err((ErrorKind::EmptyInput, Seq::empty()))
    } else {
        tokens_bytes(ws)
    }
}

/// The conversion of a whole payload.
pub open spec fn convert_payload(p: Seq<char>) -> Outcome {
    match shlex_words(p) {
        None => Err((ErrorKind::Tokenize, Seq::empty())),
        Some(ws) => convert_words(ws),
    }
}

/// The outcome as values of a conversion result.
pub open spec fn outcome_of(r: Result<Vec<u8>, ConvertError>) -> Outcome {
    match r {
        Ok(v) => Ok(v@),
        Err(e) => Err((e.kind, e.token@)),
    }
}

/// Relies on `shlex::split`: the payload cut into words by shell rules
/// (whitespace separates, quotes group and are stripped, backslash escapes),
/// or `None` where the quoting is malformed. The words depend on the payload
/// alone.
#[verifier::external_body]
fn split_words(payload: &str) -> (r: Option<Vec<String>>)
    ensures
        r matches Some(v) ==> shlex_words(payload@) == Some(words(v@)),
        r is None ==> shlex_words(payload@) is None,
{
    shlex::split(payload)
}

/// Converts one token by the first form it has (binary, hexadecimal, decimal,
/// `ASCII(...)` marker); a token of none of them is an `UnrecognizedToken`
/// error that carries it.
pub fn convert_token(a: &str) -> (r: Result<Vec<u8>, ConvertError>)
    ensures
        outcome_of(r) == match token_bytes(a@) {
            Ok(x) => Ok(x),
            Err(k) => Err((k, a@)),
        },
{
    if is_binary(a) {
        Ok(parse_binary(a))
    } else if is_hexadecimal(a) {
        Ok(parse_hexadecimal(a))
    } else if is_decimal(a) {
        parse_decimal(a)
    } else if is_str_ascii(a) {
        Ok(parse_str_ascii(a))
    } else {
        Err(ConvertError { kind: ErrorKind::UnrecognizedToken, token: a.to_owned() })
    }
}

/// Converts a list of tokens and concatenates their bytes in order. Fails with
/// `EmptyInput` on an empty list, and otherwise with the failure of the first
/// token that fails.
pub fn convert_tokens(tokens: &Vec<String>) -> (r: Result<Vec<u8>, ConvertError>)
    ensures
        outcome_of(r) == convert_words(words(tokens@)),
{
    let ghost ws = words(tokens@);
    if tokens.len() == 0 {
        return Err(ConvertError { kind: ErrorKind::EmptyInput, token: String::new() });
    }
    let mut bytes: Vec<u8> = Vec::new();
    let mut i: usize = 0;
    assert(ws.skip(0) =~= ws);
    assert(bytes@ + Seq::<u8>::empty() =~= bytes@);
    while i < tokens.len()
        invariant
            ws == words(tokens@),
            ws.len() == tokens@.len() >= 1,
            i <= tokens@.len(),
            match tokens_bytes(ws.skip(i as int)) {
                Ok(y) => tokens_bytes(ws) == Ok::<Seq<u8>, (ErrorKind, Seq<char>)>(bytes@ + y),
                Err(e) => tokens_bytes(ws) == Err::<Seq<u8>, (ErrorKind, Seq<char>)>(e),
            },
        decreases tokens@.len() - i,
    {
        let ghost rest = ws.skip(i as int);
        assert(rest[0] == tokens@[i as int]@);
        assert(rest.skip(1) =~= ws.skip(i + 1));
        let a = tokens[i].as_str();
        let mut part = match convert_token(a) {
            Ok(p) => p,
            Err(e) => {
                return Err(e);
            },
        };
        let ghost before = bytes@;
        bytes.append(&mut part);
        proof {
            match tokens_bytes(ws.skip(i + 1)) {
                Ok(y) => {
                    assert(before + (token_bytes(rest[0])->Ok_0 + y) =~= bytes@ + y);
                },
                Err(e) => {},
            }
        }
        i = i + 1;
    }
    assert(ws.skip(i as int) =~= Seq::<Seq<char>>::empty());
    assert(bytes@ + Seq::<u8>::empty() =~= bytes@);
    Ok(bytes)
}

/// Converts a payload of whitespace-separated literals into bytes: the payload
/// is split by shell rules (`Tokenize` error on malformed quoting), then the
/// tokens are converted as [`convert_tokens`] does.
pub fn str_to_bytes(payload: &str) -> (r: Result<Vec<u8>, ConvertError>)
    ensures
        outcome_of(r) == convert_payload(payload@),
{
    match split_words(payload) {
        None => Err(ConvertError { kind: ErrorKind::Tokenize, token: String::new() }),
        Some(tokens) => convert_tokens(&tokens),
    }
}

/// Converting two token lists one after the other gives the first list's
/// bytes followed by the second's, or the first failure met.
pub proof fn lemma_tokens_bytes_concat(wa: Seq<Seq<char>>, wb: Seq<Seq<char>>)
    ensures
        tokens_bytes(wa + wb) == match tokens_bytes(wa) {
            Ok(x) => match tokens_bytes(wb) {
                Ok(y) => Ok(x + y),
                Err(e) => Err(e),
            },
            Err(e) => Err(e),
        },
    decreases wa.len(),
{
    if wa.len() == 0 {
        assert(wa + wb =~= wb);
        if let Ok(y) = tokens_bytes(wb) {
            assert(Seq::<u8>::empty() + y =~= y);
        }
    } else {
        assert((wa + wb)[0] == wa[0]);
        assert((wa + wb).skip(1) =~= wa.skip(1) + wb);
        lemma_tokens_bytes_concat(wa.skip(1), wb);
        if let Ok(x) = token_bytes(wa[0]) {
            if let Ok(x2) = tokens_bytes(wa.skip(1)) {
                if let Ok(y) = tokens_bytes(wb) {
                    assert(x + (x2 + y) =~= (x + x2) + y);
                }
            }
        }
    }
}

/// Two payloads' token lists that each convert convert together, one after
/// the other, to the concatenation of their bytes.
pub proof fn lemma_convert_words_concat(wa: Seq<Seq<char>>, wb: Seq<Seq<char>>)
    requires
        convert_words(wa) is Ok,
        convert_words(wb) is Ok,
    ensures
        convert_words(wa + wb) == Ok::<Seq<u8>, (ErrorKind, Seq<char>)>(
            convert_words(wa)->Ok_0 + convert_words(wb)->Ok_0,
        ),
{
    lemma_tokens_bytes_concat(wa, wb);
}

/// A token of any of the four forms converts, but for a decimal one beyond the
/// unsigned 64-bit range; a token of none of them is the one that is
/// unrecognised.
pub proof fn lemma_recognized_token_converts(t: Seq<char>)
    ensures
        token_bytes(t) is Ok <==> {
            let b = encode_utf8(t);
            binary_shape(b) || hexadecimal_shape(b) || (decimal_shape(b) && decimal_in_range(b))
                || ascii_marker_shape(b)
        },
        token_bytes(t) == Err::<Seq<u8>, ErrorKind>(ErrorKind::UnrecognizedToken) <==> {
            let b = encode_utf8(t);
            !binary_shape(b) && !hexadecimal_shape(b) && !decimal_shape(b) && !ascii_marker_shape(b)
        },
{
    let b = encode_utf8(t);
    if decimal_shape(b) && !decimal_in_range(b) {
        assert(!ascii_marker_shape(b)) by {
            if ascii_marker_shape(b) {
                let (i, j) = choose|i: int, j: int| marker_at(b, i, j);
                assert(digit_value(b[j]) < 10);
            }
        }
    }
}

} // verus!
