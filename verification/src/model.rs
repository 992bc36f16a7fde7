//! Mathematical model of the kernel command line grammar.
//!
//! The model mirrors the two layers of the parser: `scan` describes how a
//! single token is read from the byte sequence (with double quotes toggling
//! a flag that suppresses separator and `=` recognition), `spec_tokens_from`
//! describes the full token sequence, and `spec_pairs` describes how tokens
//! are assembled into `(name, optional value)` pairs.

use vstd::prelude::*;

verus! {

/// The bytes treated as separators between tokens: space, form feed,
/// newline, carriage return, horizontal tab and vertical tab.
pub open spec fn is_space(c: u8) -> bool {
    c == 32 || c == 12 || c == 10 || c == 13 || c == 9 || c == 11
}

/// Outcome of scanning one token: the content bytes gathered (quote bytes
/// stripped), whether the scan stopped at an unquoted `=` (only possible
/// while scanning a name), and the position just past the consumed bytes,
/// terminator included.
pub ghost struct ScanResult {
    /// Content bytes of the token, with all quote bytes stripped.
    pub buf: Seq<u8>,
    /// True when the scan stopped at an unquoted `=`.
    pub has_value: bool,
    /// First position not consumed by this scan.
    pub end: int,
}

/// Scan one token of `s` starting at `i`.
///
/// An unquoted separator ends the scan; when `eq_ends` holds (name scans)
/// an unquoted `=` ends it too and records that a value follows. A quote
/// byte toggles `in_quote` and is never part of the content. Every other
/// byte - including separators and `=` while inside quotes - is content.
pub open spec fn scan(s: Seq<u8>, i: int, in_quote: bool, eq_ends: bool) -> ScanResult
    decreases s.len() - i,
{
    if !(0 <= i < s.len()) {
        ScanResult { buf: seq![], has_value: false, end: s.len() as int }
    } else {
        let c = s[i];
        if eq_ends && !in_quote && c == 61 {
            ScanResult { buf: seq![], has_value: true, end: i + 1 }
        } else if !in_quote && is_space(c) {
            ScanResult { buf: seq![], has_value: false, end: i + 1 }
        } else if c == 34 {
            scan(s, i + 1, !in_quote, eq_ends)
        } else {
            let rest = scan(s, i + 1, in_quote, eq_ends);
            ScanResult { buf: seq![c] + rest.buf, has_value: rest.has_value, end: rest.end }
        }
    }
}

/// A scan starting inside the input consumes at least one byte and never
/// runs past the end of the input.
pub proof fn lemma_scan_bounds(s: Seq<u8>, i: int, in_quote: bool, eq_ends: bool)
    requires
        0 <= i <= s.len(),
    ensures
        i <= scan(s, i, in_quote, eq_ends).end <= s.len(),
        i < s.len() ==> i + 1 <= scan(s, i, in_quote, eq_ends).end,
    decreases s.len() - i,
{
    if i < s.len() {
        lemma_scan_bounds(s, i + 1, in_quote, eq_ends);
        lemma_scan_bounds(s, i + 1, !in_quote, eq_ends);
    }
}

/// A token of the intermediate sequence: a parameter name, or a value that
/// binds to the nearest preceding name.
pub ghost enum SpecToken {
    /// A parameter name; never emitted with empty content.
    Name(Seq<u8>),
    /// A parameter value; may be empty.
    Value(Seq<u8>),
}

/// The token sequence produced from `s` starting at position `i` in
/// name-scanning mode.
///
/// A name whose content is empty after quote stripping is dropped silently,
/// but the mode transition it causes still applies: when its scan stopped at
/// an unquoted `=`, a value token follows unconditionally, even if empty.
pub open spec fn spec_tokens_from(s: Seq<u8>, i: int) -> Seq<SpecToken>
    decreases s.len() - i via spec_tokens_from_decreases
{
    if !(0 <= i < s.len()) {
        seq![]
    } else {
        let n = scan(s, i, false, true);
        let named: Seq<SpecToken> = if n.buf.len() > 0 {
            seq![SpecToken::Name(n.buf)]
        } else {
            seq![]
        };
        if n.has_value {
            let v = scan(s, n.end, false, false);
            named + seq![SpecToken::Value(v.buf)] + spec_tokens_from(s, v.end)
        } else {
            named + spec_tokens_from(s, n.end)
        }
    }
}

#[via_fn]
proof fn spec_tokens_from_decreases(s: Seq<u8>, i: int) {
    if 0 <= i < s.len() {
        lemma_scan_bounds(s, i, false, true);
        lemma_scan_bounds(s, scan(s, i, false, true).end, false, false);
    }
}

/// Assembly of tokens into pairs, carrying the single pending-name slot.
///
/// A name flushes an already pending name as a pair without value; a value
/// resolves the pending name into a pair with that value. A value that
/// arrives while no name is pending (possible only after a dropped empty
/// name, as with a stray `=`) is discarded, since a pair may never carry an
/// empty name. At the end of the tokens a still pending name is flushed
/// without value.
pub open spec fn spec_pairs(
    toks: Seq<SpecToken>,
    pending: Option<Seq<u8>>,
) -> Seq<(Seq<u8>, Option<Seq<u8>>)>
    decreases toks.len(),
{
    if toks.len() == 0 {
        match pending {
            Some(p) => seq![(p, Option::<Seq<u8>>::None)],
            None => seq![],
        }
    } else {
        match toks[0] {
            SpecToken::Name(p) => match pending {
                Some(q) => seq![(q, Option::<Seq<u8>>::None)] + spec_pairs(toks.skip(1), Some(p)),
                None => spec_pairs(toks.skip(1), Some(p)),
            },
            SpecToken::Value(v) => match pending {
                Some(q) => seq![(q, Option::Some(v))] + spec_pairs(toks.skip(1), None),
                None => spec_pairs(toks.skip(1), None),
            },
        }
    }
}

/// The full meaning of parsing: tokenize from the start of the input, then
/// assemble the tokens into the ordered pair list.
pub open spec fn spec_parse(s: Seq<u8>) -> Seq<(Seq<u8>, Option<Seq<u8>>)> {
    spec_pairs(spec_tokens_from(s, 0), Option::None)
}

} // verus!
