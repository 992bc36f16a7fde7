//! A verified parser for Linux kernel boot command lines.
//!
//! [`parse`] turns the raw bytes of a command line (the contents of
//! `/proc/cmdline`) into an ordered list of `(name, optional value)`
//! parameters. Double quotes allow separators and `=` to appear inside a
//! name or value and are stripped from the output. The parser is total:
//! every byte sequence, however degenerate, yields a result.
//!
//! The contract of [`parse`] pins the result to the spec-level model in
//! [`model`]; general facts about that model (non-empty names, separator
//! absorption, the serialize/re-parse round trip) are proved in [`laws`]
//! and [`roundtrip`].

use vstd::prelude::*;

pub mod laws;
pub mod model;
pub mod roundtrip;

verus! {

use crate::model::{is_space, scan, spec_tokens_from, spec_pairs, spec_parse, SpecToken};
use crate::model::lemma_scan_bounds;

/// An intermediate token: a parameter name or a value bound to the nearest
/// preceding name.
pub enum Token {
    /// A parameter name; only pushed with non-empty content.
    Name(Vec<u8>),
    /// A parameter value; may be empty.
    Value(Vec<u8>),
}

impl View for Token {
    type V = SpecToken;

    open spec fn view(&self) -> SpecToken {
        match self {
            Token::Name(p) => SpecToken::Name(p@),
            Token::Value(v) => SpecToken::Value(v@),
        }
    }
}

/// The views of a sequence of tokens.
spec fn toks_view(ts: Seq<Token>) -> Seq<SpecToken> {
    Seq::new(ts.len(), |i: int| ts[i]@)
}

/// Reports whether `c` is one of the six separator bytes of the command
/// line grammar.
fn isspace(c: u8) -> (r: bool)
    ensures
        r == is_space(c),
{
    if c == 32 {
        return true;
    }
    if c == 0x0c {
        return true;
    }
    if c == 10 {
        return true;
    }
    if c == 13 {
        return true;
    }
    if c == 9 {
        return true;
    }
    if c == 0x0b {
        return true;
    }
    false
}

/// Scan one token starting at `pos`: gather content bytes until an unquoted
/// separator (or, when `eq_ends` holds, an unquoted `=`) or the end of the
/// input, with quote bytes toggling the quoting flag and never kept.
fn scan_token(cmdline: &[u8], pos: usize, eq_ends: bool) -> (r: (Vec<u8>, bool, usize))
    requires
        pos <= cmdline@.len(),
    ensures
        ({
            let sr = scan(cmdline@, pos as int, false, eq_ends);
            &&& r.0@ == sr.buf
            &&& r.1 == sr.has_value
            &&& r.2 == sr.end
            &&& pos <= r.2 <= cmdline@.len()
        }),
{
    let ghost s = cmdline@;
    let mut buf: Vec<u8> = Vec::new();
    let mut in_quote: bool = false;
    let mut j: usize = pos;
    proof {
        lemma_scan_bounds(s, pos as int, false, eq_ends);
    }
    loop
        invariant
            s == cmdline@,
            pos <= j <= s.len(),
            scan(s, pos as int, false, eq_ends).buf == buf@ + scan(
                s,
                j as int,
                in_quote,
                eq_ends,
            ).buf,
            scan(s, pos as int, false, eq_ends).has_value == scan(
                s,
                j as int,
                in_quote,
                eq_ends,
            ).has_value,
            scan(s, pos as int, false, eq_ends).end == scan(s, j as int, in_quote, eq_ends).end,
        decreases s.len() - j,
    {
        if j >= cmdline.len() {
            proof {
                assert(scan(s, j as int, in_quote, eq_ends).buf =~= Seq::<u8>::empty());
                assert(buf@ + Seq::<u8>::empty() =~= buf@);
            }
            return (buf, false, j);
        }
        let c = cmdline[j];
        if eq_ends && !in_quote && c == 61 {
            proof {
                assert(buf@ + Seq::<u8>::empty() =~= buf@);
            }
            return (buf, true, j + 1);
        } else if !in_quote && isspace(c) {
            proof {
                assert(buf@ + Seq::<u8>::empty() =~= buf@);
            }
            return (buf, false, j + 1);
        } else if c == 34 {
            in_quote = !in_quote;
            j = j + 1;
        } else {
            let ghost buf0 = buf@;
            let ghost rest = scan(s, j + 1, in_quote, eq_ends).buf;
            buf.push(c);
            j = j + 1;
            proof {
                assert(scan(s, j - 1, in_quote, eq_ends).buf =~= seq![c] + rest);
                assert(buf0 + (seq![c] + rest) =~= (buf0 + seq![c]) + rest);
                assert(buf@ =~= buf0 + seq![c]);
            }
        }
    }
}

/// Scan the next parameter name. Returns `None` exactly when no input is
/// left; otherwise pushes a `Name` token for a non-empty name (an
/// all-quotes name is dropped) and returns the position after the scan
/// together with the flag that says whether a value scan must follow.
fn parse_start(cmdline: &[u8], pos: usize, tokens: &mut Vec<Token>) -> (r: Option<(usize, bool)>)
    requires
        pos <= cmdline@.len(),
    ensures
        r is None <==> pos == cmdline@.len(),
        r is None ==> final(tokens)@ == old(tokens)@,
        pos < cmdline@.len() ==> ({
            let sr = scan(cmdline@, pos as int, false, true);
            &&& (r matches Some(pr) && pr.0 == sr.end && pr.1 == sr.has_value)
            &&& pos < sr.end <= cmdline@.len()
            &&& toks_view(final(tokens)@) == toks_view(old(tokens)@) + (if sr.buf.len() > 0 {
                seq![SpecToken::Name(sr.buf)]
            } else {
                Seq::<SpecToken>::empty()
            })
        }),
{
    if pos >= cmdline.len() {
        return None;
    }
    proof {
        lemma_scan_bounds(cmdline@, pos as int, false, true);
    }
    let ghost toks0 = tokens@;
    let (param, has_value, end) = scan_token(cmdline, pos, true);
    let ghost sr = scan(cmdline@, pos as int, false, true);
    if param.len() > 0 {
        tokens.push(Token::Name(param));
        proof {
            assert(toks_view(tokens@) =~= toks_view(toks0) + seq![SpecToken::Name(sr.buf)]);
        }
    } else {
        proof {
            assert(sr.buf.len() == 0);
            assert(toks_view(tokens@) =~= toks_view(toks0) + Seq::<SpecToken>::empty());
        }
    }
    Some((end, has_value))
}

/// Scan the value that follows a name whose scan stopped at `=`, and push
/// it as a `Value` token; the token is pushed even when the value is empty.
/// Returns the position after the scan.
fn parse_value(cmdline: &[u8], pos: usize, tokens: &mut Vec<Token>) -> (r: usize)
    requires
        pos <= cmdline@.len(),
    ensures
        ({
            let sr = scan(cmdline@, pos as int, false, false);
            &&& r == sr.end
            &&& pos <= r <= cmdline@.len()
            &&& toks_view(final(tokens)@) == toks_view(old(tokens)@) + seq![SpecToken::Value(sr.buf)]
        }),
{
    let ghost toks0 = tokens@;
    let (value, _, end) = scan_token(cmdline, pos, false);
    let ghost sr = scan(cmdline@, pos as int, false, false);
    tokens.push(Token::Value(value));
    proof {
        assert(toks_view(tokens@) =~= toks_view(toks0) + seq![SpecToken::Value(sr.buf)]);
    }
    end
}

/// The spec-level view of the pair list a parse returns.
pub open spec fn pairs_view(
    ps: Seq<(Vec<u8>, Option<Vec<u8>>)>,
) -> Seq<(Seq<u8>, Option<Seq<u8>>)> {
    Seq::new(
        ps.len(),
        |i: int|
            (
                ps[i].0@,
                match ps[i].1 {
                    Some(v) => Option::Some(v@),
                    None => Option::<Seq<u8>>::None,
                },
            ),
    )
}

/// The remaining token sequence as seen from scanner position `pos`, in
/// either scanning mode.
spec fn rem_tokens(s: Seq<u8>, pos: int, in_value: bool) -> Seq<SpecToken> {
    if in_value {
        let v = scan(s, pos, false, false);
        seq![SpecToken::Value(v.buf)] + spec_tokens_from(s, v.end)
    } else {
        spec_tokens_from(s, pos)
    }
}

/// Parses a sequence of bytes in the format of the Linux kernel command
/// line (`/proc/cmdline`) into an ordered list of parameters, each a name
/// together with its optional value.
///
/// The result is exactly the pair list of the spec-level model: every byte
/// sequence is accepted, names are never empty, quotes are structural and
/// stripped, and a `name=` with nothing before the next separator yields an
/// empty value.
pub fn parse(cmdline: &[u8]) -> (result: Vec<(Vec<u8>, Option<Vec<u8>>)>)
    ensures
        pairs_view(result@) == spec_parse(cmdline@),
{
    let ghost s = cmdline@;
    let mut tokens: Vec<Token> = Vec::new();
    let mut pos: usize = 0;
    let mut in_value: bool = false;

    proof {
        assert(toks_view(tokens@) + rem_tokens(s, 0, false) =~= spec_tokens_from(s, 0));
    }
    loop
        invariant
            s == cmdline@,
            pos <= s.len(),
            toks_view(tokens@) + rem_tokens(s, pos as int, in_value) == spec_tokens_from(s, 0),
        ensures
            toks_view(tokens@) == spec_tokens_from(s, 0),
        decreases s.len() - pos, (if in_value { 1int } else { 0int }),
    {
        if in_value {
            let ghost toks0 = tokens@;
            let ghost v = scan(s, pos as int, false, false);
            pos = parse_value(cmdline, pos, &mut tokens);
            in_value = false;
            proof {
                assert(rem_tokens(s, pos as int, false) == spec_tokens_from(s, v.end));
                assert((toks_view(toks0) + (seq![SpecToken::Value(v.buf)] + spec_tokens_from(
                    s,
                    v.end,
                ))) =~= ((toks_view(toks0) + seq![SpecToken::Value(v.buf)]) + spec_tokens_from(
                    s,
                    v.end,
                )));
            }
        } else {
            let ghost toks0 = tokens@;
            let ghost n = scan(s, pos as int, false, true);
            let ghost named: Seq<SpecToken> = if n.buf.len() > 0 {
                seq![SpecToken::Name(n.buf)]
            } else {
                Seq::<SpecToken>::empty()
            };
            match parse_start(cmdline, pos, &mut tokens) {
                None => {
                    proof {
                        assert(rem_tokens(s, pos as int, false) =~= Seq::<SpecToken>::empty());
                        assert(toks_view(tokens@) + Seq::<SpecToken>::empty() =~= toks_view(
                            tokens@,
                        ));
                    }
                    break ;
                },
                Some(next) => {
                    proof {
                        // the scanned name accounts for the head of the
                        // remaining token sequence in either mode
                        if n.has_value {
                            let v = scan(s, n.end, false, false);
                            assert(spec_tokens_from(s, pos as int) =~= named + seq![
                                SpecToken::Value(v.buf),
                            ] + spec_tokens_from(s, v.end));
                            assert((toks_view(toks0) + (named + seq![SpecToken::Value(v.buf)]
                                + spec_tokens_from(s, v.end))) =~= ((toks_view(toks0) + named) + (
                            seq![SpecToken::Value(v.buf)] + spec_tokens_from(s, v.end))));
                        } else {
                            assert(spec_tokens_from(s, pos as int) =~= named + spec_tokens_from(
                                s,
                                n.end,
                            ));
                            assert((toks_view(toks0) + (named + spec_tokens_from(s, n.end)))
                                =~= ((toks_view(toks0) + named) + spec_tokens_from(s, n.end)));
                        }
                    }
                    pos = next.0;
                    in_value = next.1;
                },
            }
        }
    }

    let ghost full_toks = toks_view(tokens@);
    let mut result: Vec<(Vec<u8>, Option<Vec<u8>>)> = Vec::new();
    let mut pending: Option<Vec<u8>> = None;

    proof {
        assert(pairs_view(result@) + spec_pairs(full_toks, Option::None) =~= spec_pairs(
            full_toks,
            Option::None,
        ));
    }
    while tokens.len() > 0
        invariant
            pairs_view(result@) + spec_pairs(
                toks_view(tokens@),
                match pending {
                    Some(p) => Option::Some(p@),
                    None => Option::<Seq<u8>>::None,
                },
            ) == spec_pairs(full_toks, Option::None),
        decreases tokens@.len(),
    {
        let ghost ts0 = toks_view(tokens@);
        let ghost res0 = pairs_view(result@);
        let t = tokens.remove(0);
        proof {
            assert(toks_view(tokens@) =~= ts0.skip(1));
            assert(t@ == ts0[0]);
        }
        match t {
            Token::Name(p) => {
                match pending {
                    Some(prev) => {
                        result.push((prev, Option::None));
                        proof {
                            assert(pairs_view(result@) =~= res0 + seq![
                                (prev@, Option::<Seq<u8>>::None),
                            ]);
                            assert((res0 + seq![(prev@, Option::<Seq<u8>>::None)]) + spec_pairs(
                                ts0.skip(1),
                                Option::Some(p@),
                            ) =~= res0 + (seq![(prev@, Option::<Seq<u8>>::None)] + spec_pairs(
                                ts0.skip(1),
                                Option::Some(p@),
                            )));
                        }
                    },
                    None => {},
                }
                pending = Some(p);
            },
            Token::Value(v) => {
                match pending {
                    Some(prev) => {
                        result.push((prev, Option::Some(v)));
                        proof {
                            assert(pairs_view(result@) =~= res0 + seq![
                                (prev@, Option::Some(v@)),
                            ]);
                            assert((res0 + seq![(prev@, Option::Some(v@))]) + spec_pairs(
                                ts0.skip(1),
                                Option::<Seq<u8>>::None,
                            ) =~= res0 + (seq![(prev@, Option::Some(v@))] + spec_pairs(
                                ts0.skip(1),
                                Option::<Seq<u8>>::None,
                            )));
                        }
                        pending = None;
                    },
                    None => {
                        // a value token with no pending name arises only
                        // from a dropped empty name (a stray `=`); it can
                        // not form a pair, names being never empty
                        pending = None;
                    },
                }
            },
        }
    }

    let ghost res0 = pairs_view(result@);
    match pending {
        Some(prev) => {
            result.push((prev, Option::None));
            proof {
                assert(toks_view(tokens@) =~= Seq::<SpecToken>::empty());
                assert(pairs_view(result@) =~= res0 + seq![(prev@, Option::<Seq<u8>>::None)]);
            }
        },
        None => {
            proof {
                assert(toks_view(tokens@) =~= Seq::<SpecToken>::empty());
                assert(res0 + Seq::<(Seq<u8>, Option<Seq<u8>>)>::empty() =~= res0);
            }
        },
    }
    result
}

} // verus!
