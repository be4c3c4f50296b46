//! The executable decoder.
//!
//! Each function consumes a prefix of the input starting at a byte position
//! and returns the decoded value together with the position of the first
//! unconsumed byte, or a [`DecodeError`] naming the fault and its offset.
//! Every contract ties the result to the grammar in [`crate::model`].

use crate::model::{
    all_digits, digits_val, int_body, int_value, is_digit, lemma_digits_val_nonneg, line_break_at,
    lemma_digits_val_prefix_le, spec_array, spec_bulk_string, spec_elements, spec_error,
    spec_integer, spec_length, spec_line, spec_resp, spec_simple_string, valid_i64_literal,
    valid_length_literal, ErrV, RespV, ARRAY_MARKER, BULK_STRING_MARKER, CR, ERROR_MARKER,
    INTEGER_MARKER, LF, SIMPLE_STRING_MARKER,
};
use vstd::prelude::*;
use vstd::slice::{slice_subrange, slice_to_vec};

verus! {

broadcast use vstd::std_specs::vec::group_vec_axioms;

/// A structured decode failure: the kind of fault and the byte offset at
/// which it was detected. Decoding never panics; every malformed input is
/// reported through this type.
#[derive(Clone, Copy, Debug, PartialEq, Eq, Structural)]
pub enum DecodeError {
    /// The byte at `offset` is not one of the five recognized markers.
    UnknownMarker { marker: u8, offset: usize },
    /// No well-formed two-byte line terminator where one is required.
    MissingTerminator { offset: usize },
    /// The line at `offset` is not a numeric literal of the required form.
    InvalidIntegerLiteral { offset: usize },
    /// Fewer bytes remain at `offset` than a declared length requires.
    TruncatedPayload { offset: usize },
    /// An aggregate nested beyond the configured depth begins at `offset`.
    NestingTooDeep { offset: usize },
}

impl View for DecodeError {
    type V = ErrV;

    open spec fn view(&self) -> ErrV {
        match self {
            DecodeError::UnknownMarker { marker, offset } => ErrV::UnknownMarker {
                marker: *marker,
                offset: *offset as int,
            },
            DecodeError::MissingTerminator { offset } => ErrV::MissingTerminator {
                offset: *offset as int,
            },
            DecodeError::InvalidIntegerLiteral { offset } => ErrV::InvalidIntegerLiteral {
                offset: *offset as int,
            },
            DecodeError::TruncatedPayload { offset } => ErrV::TruncatedPayload {
                offset: *offset as int,
            },
            DecodeError::NestingTooDeep { offset } => ErrV::NestingTooDeep {
                offset: *offset as int,
            },
        }
    }
}

/// A decoded protocol value. Bulk strings and arrays are optional: the
/// absent form stands both for the wire format's null case and for the
/// zero-length case, which this decoder does not tell apart.
#[derive(Debug)]
pub enum Resp {
    /// A line-delimited status reply, its bytes verbatim.
    SimpleString(Vec<u8>),
    /// A numeric reply.
    Integer(i64),
    /// A line-delimited error-message reply, its bytes verbatim.
    Error(Vec<u8>),
    /// A binary-safe, length-prefixed blob; `None` for the absent form.
    BulkString(Option<Vec<u8>>),
    /// An ordered aggregate of nested values; `None` for the absent form.
    Array(Option<Vec<Resp>>),
}

/// The model of a decoded value: payloads become byte sequences, and a
/// present aggregate becomes the sequence of its elements' models.
pub open spec fn resp_view(r: Resp) -> RespV
    decreases r,
{
    match r {
        Resp::SimpleString(v) => RespV::SimpleString(v@),
        Resp::Integer(i) => RespV::Integer(i as int),
        Resp::Error(v) => RespV::Error(v@),
        Resp::BulkString(None) => RespV::BulkString(None),
        Resp::BulkString(Some(v)) => RespV::BulkString(Some(v@)),
        Resp::Array(None) => RespV::Array(None),
        // the range guard keeps the recursion inside the vector, which the
        // termination measure needs; `seq_view` gives the plain form
        Resp::Array(Some(vs)) => RespV::Array(
            Some(
                Seq::new(
                    vs@.len(),
                    |i: int|
                        if 0 <= i < vs@.len() {
                            resp_view(vs@[i])
                        } else {
                            RespV::Array(None)
                        },
                ),
            ),
        ),
    }
}

impl View for Resp {
    type V = RespV;

    open spec fn view(&self) -> RespV {
        resp_view(*self)
    }
}

/// The views of a sequence of decoded values, element by element.
pub open spec fn seq_view(vs: Seq<Resp>) -> Seq<RespV> {
    Seq::new(vs.len(), |i: int| vs[i]@)
}

/// The view of a present aggregate is the element-wise view of its vector.
pub proof fn lemma_array_view(vs: Vec<Resp>)
    ensures
        Resp::Array(Some(vs))@ == RespV::Array(Some(seq_view(vs@))),
{
    let r = Resp::Array(Some(vs));
    match r@ {
        RespV::Array(Some(s)) => {
            assert(s =~= seq_view(vs@));
        },
        _ => {
            assert(false);
        },
    }
}

/// How an executable decoding result relates to the model's: same success
/// or failure, the same fault at the same offset, the same value under the
/// view, and the same first unconsumed position, which never passes the end
/// of `s`.
pub open spec fn decoded_matches(
    r: Result<(Resp, usize), DecodeError>,
    m: Result<(RespV, int), ErrV>,
    s: Seq<u8>,
) -> bool {
    match (r, m) {
        (Ok((v, p)), Ok((mv, mp))) => v@ == mv && p == mp && p <= s.len(),
        (Err(e), Err(me)) => e@ == me,
        _ => false,
    }
}

/// The shared line primitive: the bytes strictly before the next CRLF pair
/// and the position just past it, exactly as [`spec_line`] describes.
fn read_line(input: &[u8], pos: usize) -> (r: Result<(Vec<u8>, usize), DecodeError>)
    requires
        pos <= input@.len(),
    ensures
        match (r, spec_line(input@, pos as int)) {
            (Ok((v, p)), Ok((mv, mp))) => v@ == mv && p == mp && pos < p <= input@.len(),
            (Err(e), Err(me)) => e@ == me,
            _ => false,
        },
{
    let mut i: usize = pos;
    while i < input.len() && input[i] != CR && input[i] != LF
        invariant
            pos <= i <= input@.len(),
            line_break_at(input@, pos as int) == line_break_at(input@, i as int),
        decreases input@.len() - i,
    {
        i = i + 1;
    }
    if i == input.len() {
        return Err(DecodeError::MissingTerminator { offset: i });
    }
    if input[i] == CR && i + 1 < input.len() && input[i + 1] == LF {
        let content = slice_to_vec(slice_subrange(input, pos, i));
        Ok((content, i + 2))
    } else {
        Err(DecodeError::MissingTerminator { offset: i })
    }
}

/// Parses a length line: one or more digits, no sign, with a value that
/// fits `usize`. Returns `None` exactly on the lines the model rejects.
fn parse_length(bytes: &Vec<u8>) -> (r: Option<usize>)
    ensures
        match r {
            Some(n) => valid_length_literal(bytes@) && n == digits_val(bytes@),
            None => !valid_length_literal(bytes@),
        },
{
    if bytes.len() == 0 {
        return None;
    }
    let mut acc: usize = 0;
    let mut i: usize = 0;
    while i < bytes.len()
        invariant
            0 <= i <= bytes@.len(),
            all_digits(bytes@.take(i as int)),
            acc == digits_val(bytes@.take(i as int)),
        decreases bytes@.len() - i,
    {
        let b = bytes[i];
        if b < 48 || b > 57 {
            proof {
                assert(!is_digit(bytes@[i as int]));
            }
            return None;
        }
        let d = (b - 48) as usize;
        proof {
            assert(bytes@.take(i as int + 1).drop_last() =~= bytes@.take(i as int));
            assert(bytes@.take(i as int + 1).last() == bytes@[i as int]);
        }
        let next = match acc.checked_mul(10) {
            Some(m) => m.checked_add(d),
            None => None,
        };
        match next {
            Some(a) => {
                acc = a;
            },
            None => {
                proof {
                    if all_digits(bytes@) {
                        lemma_digits_val_nonneg(bytes@.take(i as int));
                        assert(digits_val(bytes@.take(i as int + 1)) == acc * 10 + d);
                        lemma_digits_val_prefix_le(bytes@, i as int + 1);
                    }
                }
                return None;
            },
        }
        i = i + 1;
    }
    proof {
        assert(bytes@.take(i as int) =~= bytes@);
    }
    Some(acc)
}

/// Parses an integer line: an optional `+` or `-` sign, then one or more
/// digits, with a value that fits a signed 64-bit number. Returns `None`
/// exactly on the lines the model rejects.
fn parse_i64(bytes: &Vec<u8>) -> (r: Option<i64>)
    ensures
        match r {
            Some(v) => valid_i64_literal(bytes@) && v as int == int_value(bytes@),
            None => !valid_i64_literal(bytes@),
        },
{
    let signed = bytes.len() > 0 && (bytes[0] == 43 || bytes[0] == 45);
    let neg = bytes.len() > 0 && bytes[0] == 45;
    let start: usize = if signed {
        1
    } else {
        0
    };
    let ghost body = int_body(bytes@);
    proof {
        assert(body =~= bytes@.subrange(start as int, bytes@.len() as int));
    }
    if bytes.len() == start {
        return None;
    }
    let mut mag: u64 = 0;
    let mut i: usize = start;
    while i < bytes.len()
        invariant
            start <= i <= bytes@.len(),
            body == int_body(bytes@),
            body =~= bytes@.subrange(start as int, bytes@.len() as int),
            all_digits(body.take(i - start)),
            mag == digits_val(body.take(i - start)),
        decreases bytes@.len() - i,
    {
        let b = bytes[i];
        if b < 48 || b > 57 {
            proof {
                assert(body[i - start] == bytes@[i as int]);
                assert(!is_digit(body[i - start]));
            }
            return None;
        }
        let d = (b - 48) as u64;
        proof {
            assert(body.take(i - start + 1).drop_last() =~= body.take(i - start));
            assert(body.take(i - start + 1).last() == body[i - start] == bytes@[i as int]);
        }
        let next = match mag.checked_mul(10) {
            Some(m) => m.checked_add(d),
            None => None,
        };
        match next {
            Some(a) => {
                mag = a;
            },
            None => {
                proof {
                    if all_digits(body) {
                        lemma_digits_val_nonneg(body.take(i - start));
                        assert(digits_val(body.take(i - start + 1)) == mag * 10 + d);
                        lemma_digits_val_prefix_le(body, i - start + 1);
                    }
                }
                return None;
            },
        }
        i = i + 1;
    }
    proof {
        assert(body.take(i - start) =~= body);
    }
    // the magnitude bounds of a signed 64-bit number: one more is allowed
    // under a minus sign than without one
    if neg {
        if mag > 9223372036854775808u64 {
            return None;
        }
        if mag == 9223372036854775808u64 {
            Some(i64::MIN)
        } else {
            Some(-(mag as i64))
        }
    } else {
        if mag > 9223372036854775807u64 {
            return None;
        }
        Some(mag as i64)
    }
}

/// The simple-string decoder: the line at `pos`, verbatim.
fn simple_string(input: &[u8], pos: usize) -> (r: Result<(Resp, usize), DecodeError>)
    requires
        pos <= input@.len(),
    ensures
        decoded_matches(r, spec_simple_string(input@, pos as int), input@),
{
    match read_line(input, pos) {
        Ok((line, p)) => Ok((Resp::SimpleString(line), p)),
        Err(e) => Err(e),
    }
}

/// The error decoder: the line at `pos`, verbatim.
fn error(input: &[u8], pos: usize) -> (r: Result<(Resp, usize), DecodeError>)
    requires
        pos <= input@.len(),
    ensures
        decoded_matches(r, spec_error(input@, pos as int), input@),
{
    match read_line(input, pos) {
        Ok((line, p)) => Ok((Resp::Error(line), p)),
        Err(e) => Err(e),
    }
}

/// The integer decoder: the line at `pos` as a signed 64-bit number.
fn integer(input: &[u8], pos: usize) -> (r: Result<(Resp, usize), DecodeError>)
    requires
        pos <= input@.len(),
    ensures
        decoded_matches(r, spec_integer(input@, pos as int), input@),
{
    match read_line(input, pos) {
        Ok((line, p)) => match parse_i64(&line) {
            Some(v) => Ok((Resp::Integer(v), p)),
            None => Err(DecodeError::InvalidIntegerLiteral { offset: pos }),
        },
        Err(e) => Err(e),
    }
}

/// The shared length primitive: the line at `pos` as a non-negative count.
fn length(input: &[u8], pos: usize) -> (r: Result<(usize, usize), DecodeError>)
    requires
        pos <= input@.len(),
    ensures
        match (r, spec_length(input@, pos as int)) {
            (Ok((n, p)), Ok((mn, mp))) => n == mn && p == mp && p <= input@.len(),
            (Err(e), Err(me)) => e@ == me,
            _ => false,
        },
{
    match read_line(input, pos) {
        Ok((line, p)) => match parse_length(&line) {
            Some(n) => Ok((n, p)),
            None => Err(DecodeError::InvalidIntegerLiteral { offset: pos }),
        },
        Err(e) => Err(e),
    }
}

/// The binary-blob decoder: a length line at `pos`, then exactly that many
/// raw bytes and a closing CRLF pair. A declared length of zero yields the
/// absent form at once.
fn bulk_string(input: &[u8], pos: usize) -> (r: Result<(Resp, usize), DecodeError>)
    requires
        pos <= input@.len(),
    ensures
        decoded_matches(r, spec_bulk_string(input@, pos as int), input@),
{
    match length(input, pos) {
        Ok((n, p)) => {
            if n == 0 {
                Ok((Resp::BulkString(None), p))
            } else if n > input.len() - p {
                Err(DecodeError::TruncatedPayload { offset: p })
            } else {
                let end = p + n;
                if input.len() - end >= 2 && input[end] == CR && input[end + 1] == LF {
                    let payload = slice_to_vec(slice_subrange(input, p, end));
                    Ok((Resp::BulkString(Some(payload)), end + 2))
                } else {
                    Err(DecodeError::MissingTerminator { offset: end })
                }
            }
        },
        Err(e) => Err(e),
    }
}

/// The aggregate decoder: a count line at `pos`, then that many nested
/// units decoded back to back, each on one level less of the depth budget.
/// A declared count of zero yields the absent form at once.
fn array(input: &[u8], pos: usize, depth: usize) -> (r: Result<(Resp, usize), DecodeError>)
    requires
        pos <= input@.len(),
    ensures
        decoded_matches(r, spec_array(input@, pos as int, depth as nat), input@),
    decreases depth, 0int, 0int,
{
    let ghost s = input@;
    match length(input, pos) {
        Ok((n, p0)) => {
            if n == 0 {
                return Ok((Resp::Array(None), p0));
            }
            if depth == 0 {
                return Err(DecodeError::NestingTooDeep { offset: p0 });
            }
            let ghost d = (depth - 1) as nat;
            let mut els: Vec<Resp> = Vec::new();
            let mut p: usize = p0;
            let mut k: usize = 0;
            proof {
                match spec_elements(s, p0 as int, n as nat, d) {
                    Ok((vs, pe)) => {
                        assert(seq_view(els@) + vs =~= vs);
                    },
                    Err(_) => {},
                }
            }
            while k < n
                invariant
                    0 <= k <= n,
                    1 <= depth,
                    1 <= n,
                    d == (depth - 1) as nat,
                    p <= s.len(),
                    input@ == s,
                    els@.len() == k,
                    spec_length(s, pos as int) == Ok::<_, ErrV>((n as int, p0 as int)),
                    spec_elements(s, p0 as int, n as nat, d) == (match spec_elements(
                        s,
                        p as int,
                        (n - k) as nat,
                        d,
                    ) {
                        Ok((vs, pe)) => Ok::<_, ErrV>((seq_view(els@) + vs, pe)),
                        Err(e) => Err(e),
                    }),
                decreases n - k,
            {
                match resp(input, p, depth - 1) {
                    Ok((v, p2)) => {
                        proof {
                            assert(spec_resp(s, p as int, d) == Ok::<_, ErrV>((v@, p2 as int)));
                            assert(seq_view(els@.push(v)) =~= seq_view(els@) + seq![v@]);
                            match spec_elements(s, p2 as int, (n - k - 1) as nat, d) {
                                Ok((vs, pe)) => {
                                    vstd::seq_lib::lemma_concat_associative(
                                        seq_view(els@),
                                        seq![v@],
                                        vs,
                                    );
                                },
                                Err(_) => {},
                            }
                        }
                        els.push(v);
                        p = p2;
                    },
                    Err(e) => {
                        return Err(e);
                    },
                }
                k = k + 1;
            }
            proof {
                assert(seq_view(els@) + Seq::<RespV>::empty() =~= seq_view(els@));
                lemma_array_view(els);
            }
            Ok((Resp::Array(Some(els)), p))
        },
        Err(e) => Err(e),
    }
}

/// The decoder's sole entry point: the marker byte at `pos` selects the
/// unit shape, and the matching decoder consumes one whole unit, returning
/// the decoded value and the position of the first unconsumed byte. Calling
/// it again at that position decodes the next unit of a pipelined buffer;
/// `pos` must not lie past the end of the input.
/// `depth` bounds aggregate nesting: a non-empty array spends one level,
/// and a non-empty array met with no budget left is refused as too deep.
/// The result, success or structured failure, is exactly what the model
/// function [`spec_resp`] yields; decoding never panics.
pub fn resp(input: &[u8], pos: usize, depth: usize) -> (r: Result<(Resp, usize), DecodeError>)
    requires
        pos <= input@.len(),
    ensures
        decoded_matches(r, spec_resp(input@, pos as int, depth as nat), input@),
    decreases depth, 0int, 1int,
{
    if pos == input.len() {
        return Err(DecodeError::TruncatedPayload { offset: pos });
    }
    let marker = input[pos];
    if marker == SIMPLE_STRING_MARKER {
        simple_string(input, pos + 1)
    } else if marker == INTEGER_MARKER {
        integer(input, pos + 1)
    } else if marker == ERROR_MARKER {
        error(input, pos + 1)
    } else if marker == BULK_STRING_MARKER {
        bulk_string(input, pos + 1)
    } else if marker == ARRAY_MARKER {
        array(input, pos + 1, depth)
    } else {
        Err(DecodeError::UnknownMarker { marker, offset: pos })
    }
}

} // verus!
