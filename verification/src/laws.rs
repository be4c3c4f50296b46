//! The decoder's laws: what holds of every well-formed or malformed unit,
//! proved once and for all over the model in [`crate::model`].
//!
//! Because [`crate::parser::resp`] is verified to return exactly what
//! [`spec_resp`] yields, each law here carries over to the executable
//! decoder unchanged.

use crate::model::{
    digits_val, int_body, int_value, is_line_break, lemma_digits_val_nonneg, line_break_at,
    spec_elements,
    spec_length, spec_line, spec_resp, valid_i64_literal, valid_length_literal, ErrV, RespV,
    ARRAY_MARKER, BULK_STRING_MARKER, CR, ERROR_MARKER, INTEGER_MARKER, LF, SIMPLE_STRING_MARKER,
};
use vstd::prelude::*;

verus! {

/// `s` holds a line running from `from` up to a CRLF pair at `e`: no
/// terminator byte strictly before `e`.
pub open spec fn line_at(s: Seq<u8>, from: int, e: int) -> bool {
    &&& 0 <= from <= e
    &&& e + 1 < s.len()
    &&& forall|j: int| from <= j < e ==> !is_line_break(s[j])
    &&& s[e] == CR
    &&& s[e + 1] == LF
}

/// The first terminator byte at or after `pos` is the one at `e`.
proof fn lemma_line_break_at_found(s: Seq<u8>, pos: int, e: int)
    requires
        0 <= pos <= e < s.len(),
        forall|j: int| pos <= j < e ==> !is_line_break(s[j]),
        is_line_break(s[e]),
    ensures
        line_break_at(s, pos) == Some(e),
    decreases e - pos,
{
    if pos < e {
        lemma_line_break_at_found(s, pos + 1, e);
    }
}

/// The line decoder yields exactly the bytes of a line: where `s` holds a
/// line from `from` to `e`, it returns those bytes and stops just past the
/// terminator pair.
pub proof fn lemma_line_decoded(s: Seq<u8>, from: int, e: int)
    requires
        line_at(s, from, e),
    ensures
        spec_line(s, from) == Ok::<_, ErrV>((s.subrange(from, e), e + 2)),
{
    lemma_line_break_at_found(s, from, e);
}

/// Decoding a well-formed simple-string unit yields exactly the bytes
/// between its marker and its terminator, and consumes the whole unit.
pub proof fn lemma_simple_string_unit(s: Seq<u8>, pos: int, e: int, depth: nat)
    requires
        0 <= pos < s.len(),
        s[pos] == SIMPLE_STRING_MARKER,
        line_at(s, pos + 1, e),
    ensures
        spec_resp(s, pos, depth) == Ok::<_, ErrV>(
            (RespV::SimpleString(s.subrange(pos + 1, e)), e + 2),
        ),
{
    lemma_line_decoded(s, pos + 1, e);
}

/// Decoding a well-formed error unit yields exactly the bytes between its
/// marker and its terminator, and consumes the whole unit.
pub proof fn lemma_error_unit(s: Seq<u8>, pos: int, e: int, depth: nat)
    requires
        0 <= pos < s.len(),
        s[pos] == ERROR_MARKER,
        line_at(s, pos + 1, e),
    ensures
        spec_resp(s, pos, depth) == Ok::<_, ErrV>((RespV::Error(s.subrange(pos + 1, e)), e + 2)),
{
    lemma_line_decoded(s, pos + 1, e);
}

/// Decoding a well-formed integer unit yields the value of the literal
/// between its marker and its terminator, and consumes the whole unit.
pub proof fn lemma_integer_unit(s: Seq<u8>, pos: int, e: int, depth: nat)
    requires
        0 <= pos < s.len(),
        s[pos] == INTEGER_MARKER,
        line_at(s, pos + 1, e),
        valid_i64_literal(s.subrange(pos + 1, e)),
    ensures
        spec_resp(s, pos, depth) == Ok::<_, ErrV>(
            (RespV::Integer(int_value(s.subrange(pos + 1, e))), e + 2),
        ),
{
    lemma_line_decoded(s, pos + 1, e);
}

/// An integer unit whose line is not a well-formed signed 64-bit literal is
/// refused as an invalid literal at the start of the line, not decoded.
pub proof fn lemma_integer_rejected(s: Seq<u8>, pos: int, e: int, depth: nat)
    requires
        0 <= pos < s.len(),
        s[pos] == INTEGER_MARKER,
        line_at(s, pos + 1, e),
        !valid_i64_literal(s.subrange(pos + 1, e)),
    ensures
        spec_resp(s, pos, depth) == Err::<(RespV, int), _>(
            ErrV::InvalidIntegerLiteral { offset: pos + 1 },
        ),
{
    lemma_line_decoded(s, pos + 1, e);
}

/// Decoding a well-formed, non-empty blob unit yields exactly the declared
/// number of raw bytes after the length line — whatever those bytes hold —
/// and consumes the unit including its closing terminator.
pub proof fn lemma_bulk_string_unit(s: Seq<u8>, pos: int, e: int, n: int, depth: nat)
    requires
        0 <= pos < s.len(),
        s[pos] == BULK_STRING_MARKER,
        line_at(s, pos + 1, e),
        valid_length_literal(s.subrange(pos + 1, e)),
        n == digits_val(s.subrange(pos + 1, e)),
        n > 0,
        e + 4 + n <= s.len(),
        s[e + 2 + n] == CR,
        s[e + 3 + n] == LF,
    ensures
        spec_resp(s, pos, depth) == Ok::<_, ErrV>(
            (RespV::BulkString(Some(s.subrange(e + 2, e + 2 + n))), e + 4 + n),
        ),
{
    lemma_line_decoded(s, pos + 1, e);
}

/// A blob unit declaring length zero yields the absent form and consumes no
/// bytes beyond its length line.
pub proof fn lemma_bulk_string_absent(s: Seq<u8>, pos: int, e: int, depth: nat)
    requires
        0 <= pos < s.len(),
        s[pos] == BULK_STRING_MARKER,
        line_at(s, pos + 1, e),
        valid_length_literal(s.subrange(pos + 1, e)),
        digits_val(s.subrange(pos + 1, e)) == 0,
    ensures
        spec_resp(s, pos, depth) == Ok::<_, ErrV>((RespV::BulkString(None), e + 2)),
{
    lemma_line_decoded(s, pos + 1, e);
}

/// An aggregate unit declaring count zero yields the absent form and
/// consumes no bytes beyond its length line.
pub proof fn lemma_array_absent(s: Seq<u8>, pos: int, e: int, depth: nat)
    requires
        0 <= pos < s.len(),
        s[pos] == ARRAY_MARKER,
        line_at(s, pos + 1, e),
        valid_length_literal(s.subrange(pos + 1, e)),
        digits_val(s.subrange(pos + 1, e)) == 0,
    ensures
        spec_resp(s, pos, depth) == Ok::<_, ErrV>((RespV::Array(None), e + 2)),
{
    lemma_line_decoded(s, pos + 1, e);
}

/// A blob or aggregate unit whose length line is not a well-formed
/// unsigned length — a sign, a stray byte, no digits, or a value too large
/// for the platform — is refused as an invalid literal at the start of the
/// line, not decoded.
pub proof fn lemma_length_rejected(s: Seq<u8>, pos: int, e: int, depth: nat)
    requires
        0 <= pos < s.len(),
        s[pos] == BULK_STRING_MARKER || s[pos] == ARRAY_MARKER,
        line_at(s, pos + 1, e),
        !valid_length_literal(s.subrange(pos + 1, e)),
    ensures
        spec_resp(s, pos, depth) == Err::<(RespV, int), _>(
            ErrV::InvalidIntegerLiteral { offset: pos + 1 },
        ),
{
    lemma_line_decoded(s, pos + 1, e);
}

/// A blob unit declaring more bytes than remain after its length line is a
/// truncation fault at the start of the payload, never a partial value.
pub proof fn lemma_bulk_string_truncated(s: Seq<u8>, pos: int, e: int, depth: nat)
    requires
        0 <= pos < s.len(),
        s[pos] == BULK_STRING_MARKER,
        line_at(s, pos + 1, e),
        valid_length_literal(s.subrange(pos + 1, e)),
        e + 2 + digits_val(s.subrange(pos + 1, e)) > s.len(),
    ensures
        spec_resp(s, pos, depth) == Err::<(RespV, int), _>(ErrV::TruncatedPayload { offset: e + 2 }),
{
    lemma_line_decoded(s, pos + 1, e);
    assert(digits_val(s.subrange(pos + 1, e)) > 0);
}

/// A blob unit whose declared bytes are present but are not followed by a
/// full terminator pair is a missing-terminator fault just past the
/// payload, never a partial value.
pub proof fn lemma_bulk_string_unterminated(s: Seq<u8>, pos: int, e: int, n: int, depth: nat)
    requires
        0 <= pos < s.len(),
        s[pos] == BULK_STRING_MARKER,
        line_at(s, pos + 1, e),
        valid_length_literal(s.subrange(pos + 1, e)),
        n == digits_val(s.subrange(pos + 1, e)),
        n > 0,
        e + 2 + n <= s.len(),
        !(e + 4 + n <= s.len() && s[e + 2 + n] == CR && s[e + 3 + n] == LF),
    ensures
        spec_resp(s, pos, depth) == Err::<(RespV, int), _>(
            ErrV::MissingTerminator { offset: e + 2 + n },
        ),
{
    lemma_line_decoded(s, pos + 1, e);
}

/// A byte that is none of the five markers is an unknown-marker fault
/// carrying that byte and its own offset, never a decoded value.
pub proof fn lemma_unknown_marker(s: Seq<u8>, pos: int, depth: nat)
    requires
        0 <= pos < s.len(),
        s[pos] != SIMPLE_STRING_MARKER,
        s[pos] != INTEGER_MARKER,
        s[pos] != ERROR_MARKER,
        s[pos] != BULK_STRING_MARKER,
        s[pos] != ARRAY_MARKER,
    ensures
        spec_resp(s, pos, depth) == Err::<(RespV, int), _>(
            ErrV::UnknownMarker { marker: s[pos], offset: pos },
        ),
{
}

/// A successful aggregate holds exactly as many elements as its length
/// line declared.
pub proof fn lemma_elements_count(
    s: Seq<u8>,
    pos: int,
    n: nat,
    depth: nat,
    vs: Seq<RespV>,
    pe: int,
)
    requires
        spec_elements(s, pos, n, depth) == Ok::<_, ErrV>((vs, pe)),
    ensures
        vs.len() == n,
    decreases n,
{
    if n > 0 {
        match spec_resp(s, pos, depth) {
            Ok((v, p)) => {
                match spec_elements(s, p, (n - 1) as nat, depth) {
                    Ok((vs2, pe2)) => {
                        lemma_elements_count(s, p, (n - 1) as nat, depth, vs2, pe2);
                    },
                    Err(_) => {
                        assert(false);
                    },
                }
            },
            Err(_) => {
                assert(false);
            },
        }
    }
}

/// A well-formed, non-empty aggregate unit whose elements decode back to
/// back decodes to exactly those element values, in that order, ending
/// where the last element ended.
pub proof fn lemma_array_unit(
    s: Seq<u8>,
    pos: int,
    e: int,
    n: int,
    depth: nat,
    vs: Seq<RespV>,
    pe: int,
)
    requires
        0 <= pos < s.len(),
        s[pos] == ARRAY_MARKER,
        line_at(s, pos + 1, e),
        valid_length_literal(s.subrange(pos + 1, e)),
        n == digits_val(s.subrange(pos + 1, e)),
        n > 0,
        depth > 0,
        spec_elements(s, e + 2, n as nat, (depth - 1) as nat) == Ok::<_, ErrV>((vs, pe)),
    ensures
        spec_resp(s, pos, depth) == Ok::<_, ErrV>((RespV::Array(Some(vs)), pe)),
        vs.len() == n,
{
    lemma_line_decoded(s, pos + 1, e);
    lemma_elements_count(s, e + 2, n as nat, (depth - 1) as nat, vs, pe);
}

/// Where the scan for a terminator byte stops, and why: the byte it finds
/// is the first one at or after `pos`.
proof fn lemma_line_break_at_first(s: Seq<u8>, pos: int)
    requires
        0 <= pos,
    ensures
        match line_break_at(s, pos) {
            Some(e) => pos <= e < s.len() && is_line_break(s[e]) && (forall|j: int|
                pos <= j < e ==> !is_line_break(s[j])),
            None => forall|j: int| pos <= j < s.len() ==> !is_line_break(s[j]),
        },
    decreases s.len() - pos,
{
    if pos < s.len() && !is_line_break(s[pos]) {
        lemma_line_break_at_first(s, pos + 1);
    }
}

/// A line decoded from `s` is decoded identically from `s` with more bytes
/// appended.
proof fn lemma_line_append(s: Seq<u8>, t: Seq<u8>, pos: int)
    requires
        0 <= pos,
        spec_line(s, pos) is Ok,
    ensures
        spec_line(s + t, pos) == spec_line(s, pos),
{
    lemma_line_break_at_first(s, pos);
    match line_break_at(s, pos) {
        Some(e) => {
            assert(forall|j: int| 0 <= j < s.len() ==> (s + t)[j] == s[j]);
            assert(line_at(s + t, pos, e));
            lemma_line_decoded(s + t, pos, e);
            assert((s + t).subrange(pos, e) =~= s.subrange(pos, e));
        },
        None => {
            assert(false);
        },
    }
}

/// Every successful decode consumes at least one byte and never reads past
/// the end of the input: the returned position moves strictly forward and
/// stays within the buffer.
pub proof fn lemma_decode_bounds(s: Seq<u8>, pos: int, depth: nat)
    requires
        0 <= pos,
    ensures
        match spec_resp(s, pos, depth) {
            Ok((v, p)) => pos < p <= s.len(),
            Err(_) => true,
        },
    decreases depth, 0int, 1int,
{
    if pos < s.len() {
        lemma_line_break_at_first(s, pos + 1);
        if s[pos] == BULK_STRING_MARKER || s[pos] == ARRAY_MARKER {
            match spec_length(s, pos + 1) {
                Ok((n, p)) => {
                    lemma_digits_val_nonneg(s.subrange(pos + 1, p - 2));
                    if s[pos] == ARRAY_MARKER && n != 0 && depth > 0 {
                        lemma_elements_bounds(s, p, n as nat, (depth - 1) as nat);
                    }
                },
                Err(_) => {},
            }
        }
    }
}

/// Back-to-back elements only move the position forward, and never past
/// the end of the input.
pub proof fn lemma_elements_bounds(s: Seq<u8>, pos: int, n: nat, depth: nat)
    requires
        0 <= pos <= s.len(),
    ensures
        match spec_elements(s, pos, n, depth) {
            Ok((vs, pe)) => pos <= pe <= s.len(),
            Err(_) => true,
        },
    decreases depth, n, 2int,
{
    if n > 0 {
        lemma_decode_bounds(s, pos, depth);
        match spec_resp(s, pos, depth) {
            Ok((v, p)) => {
                lemma_elements_bounds(s, p, (n - 1) as nat, depth);
            },
            Err(_) => {},
        }
    }
}

/// Pipelining is sound: a unit decoded from `s` is decoded identically —
/// same value, same end position — from `s` with further units appended,
/// so later bytes never change what an earlier decode yielded.
pub proof fn lemma_decode_append(s: Seq<u8>, t: Seq<u8>, pos: int, depth: nat)
    requires
        0 <= pos,
        spec_resp(s, pos, depth) is Ok,
    ensures
        spec_resp(s + t, pos, depth) == spec_resp(s, pos, depth),
    decreases depth, 0int, 1int,
{
    assert(pos < s.len());
    assert((s + t)[pos] == s[pos]);
    if s[pos] == SIMPLE_STRING_MARKER || s[pos] == INTEGER_MARKER || s[pos] == ERROR_MARKER {
        lemma_line_append(s, t, pos + 1);
    } else if s[pos] == BULK_STRING_MARKER {
        lemma_line_append(s, t, pos + 1);
        match spec_length(s, pos + 1) {
            Ok((n, p)) => {
                if n != 0 {
                    assert(0 <= p) by {
                        lemma_line_break_at_first(s, pos + 1);
                    }
                    lemma_digits_val_nonneg(s.subrange(pos + 1, p - 2));
                    assert(p + n + 2 <= s.len());
                    assert((s + t)[p + n] == s[p + n]);
                    assert((s + t)[p + n + 1] == s[p + n + 1]);
                    assert((s + t).subrange(p, p + n) =~= s.subrange(p, p + n));
                }
            },
            Err(_) => {
                assert(false);
            },
        }
    } else if s[pos] == ARRAY_MARKER {
        lemma_line_append(s, t, pos + 1);
        match spec_length(s, pos + 1) {
            Ok((n, p)) => {
                if n != 0 {
                    assert(0 <= p) by {
                        lemma_line_break_at_first(s, pos + 1);
                    }
                    lemma_elements_append(s, t, p, n as nat, (depth - 1) as nat);
                }
            },
            Err(_) => {
                assert(false);
            },
        }
    } else {
        assert(false);
    }
}

/// Back-to-back elements decoded from `s` are decoded identically from `s`
/// with more bytes appended.
pub proof fn lemma_elements_append(s: Seq<u8>, t: Seq<u8>, pos: int, n: nat, depth: nat)
    requires
        0 <= pos,
        spec_elements(s, pos, n, depth) is Ok,
    ensures
        spec_elements(s + t, pos, n, depth) == spec_elements(s, pos, n, depth),
    decreases depth, n, 2int,
{
    if n > 0 {
        lemma_decode_append(s, t, pos, depth);
        lemma_decode_bounds(s, pos, depth);
        match spec_resp(s, pos, depth) {
            Ok((v, p)) => {
                lemma_elements_append(s, t, p, (n - 1) as nat, depth);
            },
            Err(_) => {
                assert(false);
            },
        }
    }
}

/// `s` holds, at `pos`, `k` single-element aggregate headers wrapped one
/// inside the next, with one zero-integer unit at the centre: the deepest
/// witness of aggregate nesting `k` levels deep.
pub open spec fn nested_unit_at(s: Seq<u8>, pos: int, k: nat) -> bool
    decreases k,
{
    if k == 0 {
        &&& pos + 4 <= s.len()
        &&& s[pos] == INTEGER_MARKER
        &&& s[pos + 1] == 48
        &&& s[pos + 2] == CR
        &&& s[pos + 3] == LF
    } else {
        &&& pos + 4 <= s.len()
        &&& s[pos] == ARRAY_MARKER
        &&& s[pos + 1] == 49
        &&& s[pos + 2] == CR
        &&& s[pos + 3] == LF
        &&& nested_unit_at(s, pos + 4, (k - 1) as nat)
    }
}

/// The value of such a unit: `k` single-element aggregates around the
/// integer zero.
pub open spec fn nested_value(k: nat) -> RespV
    decreases k,
{
    if k == 0 {
        RespV::Integer(0)
    } else {
        RespV::Array(Some(seq![nested_value((k - 1) as nat)]))
    }
}

/// The one-digit line at `pos + 1` of a nested unit decodes to its digit.
proof fn lemma_nested_header_line(s: Seq<u8>, pos: int, d: u8)
    requires
        0 <= pos,
        pos + 4 <= s.len(),
        48 <= s[pos + 1] <= 57,
        s[pos + 1] == d,
        s[pos + 2] == CR,
        s[pos + 3] == LF,
    ensures
        spec_line(s, pos + 1) == Ok::<_, ErrV>((seq![d], pos + 4)),
        valid_length_literal(seq![d]),
        digits_val(seq![d]) == d - 48,
        valid_i64_literal(seq![d]),
        int_value(seq![d]) == d - 48,
{
    assert(line_at(s, pos + 1, pos + 2));
    lemma_line_decoded(s, pos + 1, pos + 2);
    assert(s.subrange(pos + 1, pos + 2) =~= seq![d]);
    assert(seq![d].drop_last() =~= Seq::<u8>::empty());
    assert(digits_val(seq![d]) == digits_val(Seq::<u8>::empty()) * 10 + (d - 48));
    assert(int_body(seq![d]) =~= seq![d]);
}

/// Nesting within the depth budget decodes: a unit nested `k` levels deep
/// succeeds under any budget of at least `k`, yielding its whole value and
/// consuming all of its bytes.
pub proof fn lemma_nesting_within_limit(s: Seq<u8>, pos: int, k: nat, depth: nat)
    requires
        0 <= pos,
        nested_unit_at(s, pos, k),
        k <= depth,
    ensures
        spec_resp(s, pos, depth) == Ok::<_, ErrV>((nested_value(k), pos + 4 * k + 4)),
    decreases k,
{
    if k == 0 {
        lemma_nested_header_line(s, pos, 48);
        assert(int_value(seq![48]) == 0);
    } else {
        lemma_nested_header_line(s, pos, 49);
        lemma_nesting_within_limit(s, pos + 4, (k - 1) as nat, (depth - 1) as nat);
        assert(spec_elements(s, pos + 4, 1, (depth - 1) as nat) == Ok::<_, ErrV>(
            (seq![nested_value((k - 1) as nat)], pos + 4 * k + 4),
        )) by {
            assert(spec_elements(s, pos + 4 * k + 4, 0, (depth - 1) as nat) == Ok::<_, ErrV>(
                (Seq::<RespV>::empty(), pos + 4 * k + 4),
            ));
            assert(seq![nested_value((k - 1) as nat)] + Seq::<RespV>::empty() =~= seq![
                nested_value((k - 1) as nat),
            ]);
        }
    }
}

/// Nesting one level — or more — beyond the depth budget is refused: the
/// aggregate that would pass the budget is reported as too deep, at the
/// offset where its first element would begin.
pub proof fn lemma_nesting_beyond_limit(s: Seq<u8>, pos: int, k: nat, depth: nat)
    requires
        0 <= pos,
        nested_unit_at(s, pos, k),
        k > depth,
    ensures
        spec_resp(s, pos, depth) == Err::<(RespV, int), _>(
            ErrV::NestingTooDeep { offset: pos + 4 * depth + 4 },
        ),
    decreases k,
{
    lemma_nested_header_line(s, pos, 49);
    if depth > 0 {
        lemma_nesting_beyond_limit(s, pos + 4, (k - 1) as nat, (depth - 1) as nat);
    }
}

} // verus!
