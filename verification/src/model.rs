//! The mathematical model of the wire format.
//!
//! Everything here is specification-level: the grammar is stated over
//! `Seq<u8>` with unbounded integer positions. [`spec_resp`] is the model of
//! the whole decoder; the executable functions in [`crate::parser`] are
//! verified to return exactly what these functions describe.

use vstd::prelude::*;

verus! {

/// A decoded value at the specification level: payloads are byte sequences,
/// numbers are unbounded integers.
pub ghost enum RespV {
    /// A line-delimited status reply.
    SimpleString(Seq<u8>),
    /// A numeric reply.
    Integer(int),
    /// A line-delimited error-message reply.
    Error(Seq<u8>),
    /// A length-prefixed binary blob; `None` is the absent form, which also
    /// stands for the zero-length blob.
    BulkString(Option<Seq<u8>>),
    /// An ordered aggregate of nested values; `None` is the absent form,
    /// which also stands for the zero-length aggregate.
    Array(Option<Seq<RespV>>),
}

/// A decode failure at the specification level: the kind of fault and the
/// byte offset at which it was detected.
pub ghost enum ErrV {
    /// The byte at `offset` is not one of the five recognized markers.
    UnknownMarker { marker: u8, offset: int },
    /// No well-formed two-byte line terminator where one is required;
    /// `offset` is the offending terminator byte, or the input length when
    /// the input ended first.
    MissingTerminator { offset: int },
    /// The line starting at `offset` is not a numeric literal of the
    /// required form.
    InvalidIntegerLiteral { offset: int },
    /// Fewer bytes remain at `offset` than a declared length requires.
    TruncatedPayload { offset: int },
    /// An aggregate at nesting depth beyond the configured bound begins at
    /// `offset`.
    NestingTooDeep { offset: int },
}

/// The marker byte opening a simple-string unit: an ASCII `+`.
pub const SIMPLE_STRING_MARKER: u8 = 43;

/// The marker byte opening an integer unit: an ASCII `:`.
pub const INTEGER_MARKER: u8 = 58;

/// The marker byte opening an error unit: an ASCII `-`.
pub const ERROR_MARKER: u8 = 45;

/// The marker byte opening a binary-blob unit: an ASCII `$`.
pub const BULK_STRING_MARKER: u8 = 36;

/// The marker byte opening an aggregate unit: an ASCII `*`.
pub const ARRAY_MARKER: u8 = 42;

/// The carriage-return byte ending a line together with [`LF`].
pub const CR: u8 = 13;

/// The line-feed byte ending a line together with [`CR`].
pub const LF: u8 = 10;

/// Whether `b` is one of the two line-terminator bytes.
pub open spec fn is_line_break(b: u8) -> bool {
    b == CR || b == LF
}

/// The index of the first carriage-return or line-feed at or after `pos`,
/// if any.
pub open spec fn line_break_at(s: Seq<u8>, pos: int) -> Option<int>
    decreases s.len() - pos,
{
    if pos < 0 || pos >= s.len() {
        None
    } else if is_line_break(s[pos]) {
        Some(pos)
    } else {
        line_break_at(s, pos + 1)
    }
}

/// What the line decoder yields at `pos`: the bytes strictly before the
/// first line break, which must be a full CRLF pair, and the position just
/// past that pair. A lone terminator byte, a reversed pair, or an input that
/// ends without a terminator is a fault.
pub open spec fn spec_line(s: Seq<u8>, pos: int) -> Result<(Seq<u8>, int), ErrV> {
    match line_break_at(s, pos) {
        None => Err(ErrV::MissingTerminator { offset: s.len() as int }),
        Some(e) => if s[e] == CR && e + 1 < s.len() && s[e + 1] == LF {
            Ok((s.subrange(pos, e), e + 2))
        } else {
            Err(ErrV::MissingTerminator { offset: e })
        },
    }
}

/// Whether `b` is an ASCII decimal digit.
pub open spec fn is_digit(b: u8) -> bool {
    48 <= b && b <= 57
}

/// Whether every byte of `s` is an ASCII decimal digit.
pub open spec fn all_digits(s: Seq<u8>) -> bool {
    forall|i: int| 0 <= i < s.len() ==> is_digit(s[i])
}

/// The numeric value of a digit string, most significant digit first.
pub open spec fn digits_val(s: Seq<u8>) -> int
    decreases s.len(),
{
    if s.len() == 0 {
        0
    } else {
        digits_val(s.drop_last()) * 10 + (s.last() - 48)
    }
}

/// Whether `s` opens with an explicit sign byte (`+` or `-`).
pub open spec fn has_sign(s: Seq<u8>) -> bool {
    s.len() > 0 && (s[0] == 43 || s[0] == 45)
}

/// The digits of a signed literal: `s` without its sign byte, if any.
pub open spec fn int_body(s: Seq<u8>) -> Seq<u8> {
    if has_sign(s) {
        s.subrange(1, s.len() as int)
    } else {
        s
    }
}

/// The sign of a signed literal: `-1` under a leading `-`, else `1`.
pub open spec fn int_sign(s: Seq<u8>) -> int {
    if s.len() > 0 && s[0] == 45 {
        -1
    } else {
        1
    }
}

/// The value of a signed decimal literal.
pub open spec fn int_value(s: Seq<u8>) -> int {
    int_sign(s) * digits_val(int_body(s))
}

/// Whether `s` is a well-formed integer line: an optional sign, then one or
/// more digits, with a value that fits a signed 64-bit number.
pub open spec fn valid_i64_literal(s: Seq<u8>) -> bool {
    &&& int_body(s).len() > 0
    &&& all_digits(int_body(s))
    &&& i64::MIN <= int_value(s) <= i64::MAX
}

/// Whether `s` is a well-formed length line: one or more digits, no sign,
/// with a value that fits the platform's size type.
pub open spec fn valid_length_literal(s: Seq<u8>) -> bool {
    s.len() > 0 && all_digits(s) && digits_val(s) <= usize::MAX
}

/// What the simple-string decoder yields at `pos` (just past the marker):
/// the line's bytes, verbatim.
pub open spec fn spec_simple_string(s: Seq<u8>, pos: int) -> Result<(RespV, int), ErrV> {
    match spec_line(s, pos) {
        Ok((line, p)) => Ok((RespV::SimpleString(line), p)),
        Err(e) => Err(e),
    }
}

/// What the error decoder yields at `pos` (just past the marker): the
/// line's bytes, verbatim.
pub open spec fn spec_error(s: Seq<u8>, pos: int) -> Result<(RespV, int), ErrV> {
    match spec_line(s, pos) {
        Ok((line, p)) => Ok((RespV::Error(line), p)),
        Err(e) => Err(e),
    }
}

/// What the integer decoder yields at `pos` (just past the marker): the
/// line parsed as a signed 64-bit decimal literal, or a fault at the start
/// of the line.
pub open spec fn spec_integer(s: Seq<u8>, pos: int) -> Result<(RespV, int), ErrV> {
    match spec_line(s, pos) {
        Ok((line, p)) => if valid_i64_literal(line) {
            Ok((RespV::Integer(int_value(line)), p))
        } else {
            Err(ErrV::InvalidIntegerLiteral { offset: pos })
        },
        Err(e) => Err(e),
    }
}

/// What the shared length primitive yields at `pos`: the line parsed as an
/// unsigned decimal length, or a fault at the start of the line.
pub open spec fn spec_length(s: Seq<u8>, pos: int) -> Result<(int, int), ErrV> {
    match spec_line(s, pos) {
        Ok((line, p)) => if valid_length_literal(line) {
            Ok((digits_val(line), p))
        } else {
            Err(ErrV::InvalidIntegerLiteral { offset: pos })
        },
        Err(e) => Err(e),
    }
}

/// What the binary-blob decoder yields at `pos` (just past the marker): a
/// declared length `n`, then, when `n > 0`, exactly `n` raw bytes — any
/// byte values, terminator pairs included — closed by a CRLF pair. A
/// declared length of zero yields the absent form with nothing consumed
/// beyond the length line.
pub open spec fn spec_bulk_string(s: Seq<u8>, pos: int) -> Result<(RespV, int), ErrV> {
    match spec_length(s, pos) {
        Ok((n, p)) => if n == 0 {
            Ok((RespV::BulkString(None), p))
        } else if p + n > s.len() {
            Err(ErrV::TruncatedPayload { offset: p })
        } else if p + n + 2 <= s.len() && s[p + n] == CR && s[p + n + 1] == LF {
            Ok((RespV::BulkString(Some(s.subrange(p, p + n))), p + n + 2))
        } else {
            Err(ErrV::MissingTerminator { offset: p + n })
        },
        Err(e) => Err(e),
    }
}

/// What the aggregate decoder yields at `pos` (just past the marker): a
/// declared count `n`, then `n` nested units decoded back to back, each
/// with one level less of the depth budget. A declared count of zero yields
/// the absent form with nothing consumed beyond the length line; a
/// non-empty aggregate with no budget left is a fault at the position where
/// its first element would begin.
pub open spec fn spec_array(s: Seq<u8>, pos: int, depth: nat) -> Result<(RespV, int), ErrV>
    decreases depth, 0int, 0int,
{
    match spec_length(s, pos) {
        Ok((n, p)) => if n == 0 {
            Ok((RespV::Array(None), p))
        } else if depth == 0 {
            Err(ErrV::NestingTooDeep { offset: p })
        } else {
            match spec_elements(s, p, n as nat, (depth - 1) as nat) {
                Ok((vs, pe)) => Ok((RespV::Array(Some(vs)), pe)),
                Err(e) => Err(e),
            }
        },
        Err(e) => Err(e),
    }
}

/// `n` units decoded back to back from `pos`, in order, each starting where
/// the previous one ended; the first fault, if any, is the whole result.
pub open spec fn spec_elements(s: Seq<u8>, pos: int, n: nat, depth: nat) -> Result<
    (Seq<RespV>, int),
    ErrV,
>
    decreases depth, n, 2int,
{
    if n == 0 {
        Ok((Seq::empty(), pos))
    } else {
        match spec_resp(s, pos, depth) {
            Ok((v, p)) => match spec_elements(s, p, (n - 1) as nat, depth) {
                Ok((vs, pe)) => Ok((seq![v] + vs, pe)),
                Err(e) => Err(e),
            },
            Err(e) => Err(e),
        }
    }
}

/// The model of the whole decoder: one marker byte at `pos` selects the
/// unit shape, and the matching decoder consumes the unit that follows.
/// `depth` is the aggregate-nesting budget. An exhausted input is a
/// truncation fault; a byte that is no marker is an unknown-marker fault at
/// its own offset.
pub open spec fn spec_resp(s: Seq<u8>, pos: int, depth: nat) -> Result<(RespV, int), ErrV>
    decreases depth, 0int, 1int,
{
    if pos >= s.len() {
        Err(ErrV::TruncatedPayload { offset: pos })
    } else if s[pos] == SIMPLE_STRING_MARKER {
        spec_simple_string(s, pos + 1)
    } else if s[pos] == INTEGER_MARKER {
        spec_integer(s, pos + 1)
    } else if s[pos] == ERROR_MARKER {
        spec_error(s, pos + 1)
    } else if s[pos] == BULK_STRING_MARKER {
        spec_bulk_string(s, pos + 1)
    } else if s[pos] == ARRAY_MARKER {
        spec_array(s, pos + 1, depth)
    } else {
        Err(ErrV::UnknownMarker { marker: s[pos], offset: pos })
    }
}

/// A digit string never has a negative value.
pub proof fn lemma_digits_val_nonneg(s: Seq<u8>)
    requires
        all_digits(s),
    ensures
        digits_val(s) >= 0,
    decreases s.len(),
{
    if s.len() > 0 {
        assert(all_digits(s.drop_last())) by {
            assert(forall|i: int|
                0 <= i < s.drop_last().len() ==> s.drop_last()[i] == s[i] && is_digit(s[i]));
        }
        lemma_digits_val_nonneg(s.drop_last());
    }
}

/// Extending a digit string on the right cannot lower its value: the value
/// of each prefix is at most the value of the whole.
pub proof fn lemma_digits_val_prefix_le(s: Seq<u8>, i: int)
    requires
        all_digits(s),
        0 <= i <= s.len(),
    ensures
        digits_val(s.take(i)) <= digits_val(s),
    decreases s.len() - i,
{
    if i == s.len() {
        assert(s.take(i) =~= s);
    } else {
        let t = s.take(i + 1);
        assert(t.drop_last() =~= s.take(i));
        assert(all_digits(s.take(i))) by {
            assert(forall|j: int| 0 <= j < i ==> s.take(i)[j] == s[j] && is_digit(s[j]));
        }
        lemma_digits_val_nonneg(s.take(i));
        assert(digits_val(t) == digits_val(s.take(i)) * 10 + (t.last() - 48));
        assert(digits_val(s.take(i)) <= digits_val(t)) by {
            lemma_digits_val_nonneg(s.take(i));
        }
        lemma_digits_val_prefix_le(s, i + 1);
    }
}

} // verus!
