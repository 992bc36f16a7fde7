//! General laws of the parsing model: parameter names are never empty, a
//! name followed directly by another name resolves without a value, and
//! separator bytes are absorbed without producing tokens.

use vstd::prelude::*;

verus! {

use crate::model::{
    is_space, scan, spec_tokens_from, spec_pairs, spec_parse, SpecToken, ScanResult,
    lemma_scan_bounds,
};

/// Every name token in `ts` carries non-empty content.
pub open spec fn name_tokens_nonempty(ts: Seq<SpecToken>) -> bool {
    forall|k: int|
        0 <= k < ts.len() ==> ((#[trigger] ts[k]) matches SpecToken::Name(b) ==> b.len() > 0)
}

/// The tokenizer only emits name tokens with non-empty content: an empty
/// name is dropped before it ever becomes a token.
pub proof fn lemma_tokens_names_nonempty(s: Seq<u8>, i: int)
    ensures
        name_tokens_nonempty(spec_tokens_from(s, i)),
    decreases s.len() - i,
{
    if 0 <= i < s.len() {
        let n = scan(s, i, false, true);
        lemma_scan_bounds(s, i, false, true);
        let named: Seq<SpecToken> = if n.buf.len() > 0 {
            seq![SpecToken::Name(n.buf)]
        } else {
            seq![]
        };
        if n.has_value {
            let v = scan(s, n.end, false, false);
            lemma_scan_bounds(s, n.end, false, false);
            lemma_tokens_names_nonempty(s, v.end);
            let toks = named + seq![SpecToken::Value(v.buf)] + spec_tokens_from(s, v.end);
            assert forall|k: int|
                0 <= k < toks.len() implies ((#[trigger] toks[k]) matches SpecToken::Name(b)
                ==> b.len() > 0) by {
                if k >= named.len() + 1 {
                    assert(toks[k] == spec_tokens_from(s, v.end)[k - named.len() - 1]);
                }
            }
        } else {
            lemma_tokens_names_nonempty(s, n.end);
            let toks = named + spec_tokens_from(s, n.end);
            assert forall|k: int|
                0 <= k < toks.len() implies ((#[trigger] toks[k]) matches SpecToken::Name(b)
                ==> b.len() > 0) by {
                if k >= named.len() {
                    assert(toks[k] == spec_tokens_from(s, n.end)[k - named.len()]);
                }
            }
        }
    }
}

/// Pair assembly keeps names non-empty: when every name token is non-empty
/// and the pending name (if any) is non-empty, so is every assembled name.
pub proof fn lemma_pairs_names_nonempty(ts: Seq<SpecToken>, pending: Option<Seq<u8>>)
    requires
        name_tokens_nonempty(ts),
        pending matches Some(p) ==> p.len() > 0,
    ensures
        forall|k: int|
            0 <= k < spec_pairs(ts, pending).len() ==> (#[trigger] spec_pairs(ts, pending)[
                k
            ]).0.len() > 0,
    decreases ts.len(),
{
    let ps = spec_pairs(ts, pending);
    if ts.len() > 0 {
        assert(name_tokens_nonempty(ts.skip(1))) by {
            assert forall|k: int|
                0 <= k < ts.skip(1).len() implies ((#[trigger] ts.skip(1)[k])
                matches SpecToken::Name(b) ==> b.len() > 0) by {
                assert(ts.skip(1)[k] == ts[k + 1]);
            }
        }
        assert(ts[0] matches SpecToken::Name(b) ==> b.len() > 0);
        match ts[0] {
            SpecToken::Name(p) => {
                lemma_pairs_names_nonempty(ts.skip(1), Some(p));
                let tail = spec_pairs(ts.skip(1), Some(p));
                assert forall|k: int| 0 <= k < ps.len() implies (#[trigger] ps[k]).0.len()
                    > 0 by {
                    match pending {
                        Some(q) => {
                            if k > 0 {
                                assert(ps[k] == tail[k - 1]);
                            }
                        },
                        None => {
                            assert(ps[k] == tail[k]);
                        },
                    }
                }
            },
            SpecToken::Value(v) => {
                lemma_pairs_names_nonempty(ts.skip(1), Option::None);
                let tail = spec_pairs(ts.skip(1), Option::<Seq<u8>>::None);
                assert forall|k: int| 0 <= k < ps.len() implies (#[trigger] ps[k]).0.len()
                    > 0 by {
                    match pending {
                        Some(q) => {
                            if k > 0 {
                                assert(ps[k] == tail[k - 1]);
                            }
                        },
                        None => {
                            assert(ps[k] == tail[k]);
                        },
                    }
                }
            },
        }
    }
}

/// For every input, the names of the resulting pairs are never empty.
pub proof fn lemma_parse_names_nonempty(s: Seq<u8>)
    ensures
        forall|k: int|
            0 <= k < spec_parse(s).len() ==> (#[trigger] spec_parse(s)[k]).0.len() > 0,
{
    lemma_tokens_names_nonempty(s, 0);
    lemma_pairs_names_nonempty(spec_tokens_from(s, 0), Option::None);
}

/// Parsing the empty byte sequence yields the empty pair list.
pub proof fn lemma_parse_empty()
    ensures
        spec_parse(Seq::<u8>::empty()) == Seq::<(Seq<u8>, Option<Seq<u8>>)>::empty(),
{
    assert(spec_tokens_from(Seq::<u8>::empty(), 0) =~= Seq::<SpecToken>::empty());
    assert(spec_parse(Seq::<u8>::empty()) =~= Seq::<(Seq<u8>, Option<Seq<u8>>)>::empty());
}

/// A name token directly followed by another name token resolves to a pair
/// without a value: the later name cannot supply one.
pub proof fn lemma_name_then_name(a: Seq<u8>, rest: Seq<SpecToken>)
    requires
        rest.len() > 0,
        rest[0] is Name,
    ensures
        spec_pairs(seq![SpecToken::Name(a)] + rest, Option::None) == seq![
            (a, Option::<Seq<u8>>::None),
        ] + spec_pairs(rest, Option::None),
{
    let toks = seq![SpecToken::Name(a)] + rest;
    assert(toks.skip(1) =~= rest);
    match rest[0] {
        SpecToken::Name(b) => {
            assert(spec_pairs(rest, Some(a)) =~= seq![(a, Option::<Seq<u8>>::None)] + spec_pairs(
                rest.skip(1),
                Some(b),
            ));
            assert(spec_pairs(rest, Option::None) =~= spec_pairs(rest.skip(1), Some(b)));
        },
        SpecToken::Value(v) => {},
    }
}

/// A separator byte at the scanning position is absorbed without producing
/// any token, so separator runs of any length - leading, trailing or
/// between tokens - never yield spurious empty names.
pub proof fn lemma_space_absorbed(s: Seq<u8>, i: int)
    requires
        0 <= i < s.len(),
        is_space(s[i]),
    ensures
        spec_tokens_from(s, i) == spec_tokens_from(s, i + 1),
{
    assert(scan(s, i, false, true) == (ScanResult { buf: seq![], has_value: false, end: i + 1 }));
    assert(spec_tokens_from(s, i) =~= Seq::<SpecToken>::empty() + spec_tokens_from(s, i + 1));
    assert(Seq::<SpecToken>::empty() + spec_tokens_from(s, i + 1) =~= spec_tokens_from(s, i + 1));
}

} // verus!
