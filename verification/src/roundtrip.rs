//! The serialize / re-parse round trip.
//!
//! A pair list can be written back as command line text: each pair becomes
//! `name` or `name=value`, a segment that contains separator bytes is
//! wrapped in quotes, and the pairs are joined by single spaces. Re-parsing
//! that text recovers the original list, for every list whose names are
//! non-empty, whose segments contain no literal quote bytes, and whose
//! unquoted names contain no `=` (an `=` in a name serialized without
//! quotes would re-scan as a name/value split).

use vstd::prelude::*;

verus! {

use crate::model::{is_space, scan, spec_tokens_from, spec_pairs, spec_parse, SpecToken};

/// True when `b` contains a separator byte, forcing quotes around its
/// serialized form.
pub open spec fn has_space(b: Seq<u8>) -> bool {
    exists|k: int| 0 <= k < b.len() && is_space(b[k])
}

/// True when `b` contains no literal quote byte.
pub open spec fn quote_free(b: Seq<u8>) -> bool {
    forall|k: int| 0 <= k < b.len() ==> b[k] != 34
}

/// True when `b` contains no `=` byte.
pub open spec fn equals_free(b: Seq<u8>) -> bool {
    forall|k: int| 0 <= k < b.len() ==> b[k] != 61
}

/// A segment as serialized: wrapped in quotes exactly when it contains a
/// separator byte.
pub open spec fn seg_bytes(b: Seq<u8>) -> Seq<u8> {
    if has_space(b) {
        seq![34u8] + b + seq![34u8]
    } else {
        b
    }
}

/// One pair as serialized: `name` or `name=value`.
pub open spec fn pair_bytes(p: (Seq<u8>, Option<Seq<u8>>)) -> Seq<u8> {
    match p.1 {
        Some(v) => seg_bytes(p.0) + seq![61u8] + seg_bytes(v),
        None => seg_bytes(p.0),
    }
}

/// A whole pair list as serialized: the pairs joined by single spaces.
pub open spec fn serialize_pairs(ps: Seq<(Seq<u8>, Option<Seq<u8>>)>) -> Seq<u8>
    decreases ps.len(),
{
    if ps.len() == 0 {
        seq![]
    } else if ps.len() == 1 {
        pair_bytes(ps[0])
    } else {
        pair_bytes(ps[0]) + seq![32u8] + serialize_pairs(ps.skip(1))
    }
}

/// The pairs that serialization carries faithfully: the name is non-empty,
/// no segment holds a literal quote byte, and a name without separators
/// (hence serialized without quotes) holds no `=`.
pub open spec fn round_trippable_pair(p: (Seq<u8>, Option<Seq<u8>>)) -> bool {
    &&& p.0.len() > 0
    &&& quote_free(p.0)
    &&& (!has_space(p.0) ==> equals_free(p.0))
    &&& (p.1 matches Some(v) ==> quote_free(v))
}

/// All pairs of the list are faithfully serializable.
pub open spec fn round_trippable(ps: Seq<(Seq<u8>, Option<Seq<u8>>)>) -> bool {
    forall|k: int| 0 <= k < ps.len() ==> round_trippable_pair(#[trigger] ps[k])
}

/// The token sequence that a serialized pair list scans back to.
spec fn tokens_of(ps: Seq<(Seq<u8>, Option<Seq<u8>>)>) -> Seq<SpecToken>
    decreases ps.len(),
{
    if ps.len() == 0 {
        seq![]
    } else {
        (match ps[0].1 {
            Some(v) => seq![SpecToken::Name(ps[0].0), SpecToken::Value(v)],
            None => seq![SpecToken::Name(ps[0].0)],
        }) + tokens_of(ps.skip(1))
    }
}

/// Scanning walks over a run of plain content bytes - no quotes, and (when
/// outside quotes) no separators and no `=` that could end a name scan -
/// appending the run to the buffer and continuing behind it.
proof fn lemma_scan_content(s: Seq<u8>, i: int, n: int, in_quote: bool, eq_ends: bool)
    requires
        0 <= i,
        0 <= n,
        i + n <= s.len(),
        forall|k: int| i <= k < i + n ==> s[k] != 34,
        !in_quote ==> (forall|k: int| i <= k < i + n ==> !is_space(s[k])),
        (!in_quote && eq_ends) ==> (forall|k: int| i <= k < i + n ==> s[k] != 61),
    ensures
        scan(s, i, in_quote, eq_ends).buf == s.subrange(i, i + n) + scan(
            s,
            i + n,
            in_quote,
            eq_ends,
        ).buf,
        scan(s, i, in_quote, eq_ends).has_value == scan(s, i + n, in_quote, eq_ends).has_value,
        scan(s, i, in_quote, eq_ends).end == scan(s, i + n, in_quote, eq_ends).end,
    decreases n,
{
    let tail = scan(s, i + n, in_quote, eq_ends);
    if n == 0 {
        assert(s.subrange(i, i) + tail.buf =~= tail.buf);
    } else {
        assert(s[i] != 34);
        lemma_scan_content(s, i + 1, n - 1, in_quote, eq_ends);
        assert(s.subrange(i, i + n) =~= seq![s[i]] + s.subrange(i + 1, i + n));
        assert(seq![s[i]] + (s.subrange(i + 1, i + n) + tail.buf) =~= (seq![s[i]] + s.subrange(
            i + 1,
            i + n,
        )) + tail.buf);
    }
}

/// Scanning a serialized segment that is followed by a terminator (the end
/// of the input, a separator, or - during a name scan - an `=`) yields
/// exactly the segment's content and consumes the terminator.
proof fn lemma_scan_segment(s: Seq<u8>, i: int, b: Seq<u8>, eq_ends: bool)
    requires
        0 <= i,
        i + seg_bytes(b).len() <= s.len(),
        s.subrange(i, i + seg_bytes(b).len()) == seg_bytes(b),
        quote_free(b),
        (!has_space(b) && eq_ends) ==> equals_free(b),
        ({
            let after = i + seg_bytes(b).len();
            after == s.len() || is_space(s[after]) || (eq_ends && s[after] == 61)
        }),
    ensures
        ({
            let after = i + seg_bytes(b).len();
            let sr = scan(s, i, false, eq_ends);
            &&& sr.buf == b
            &&& sr.has_value == (after < s.len() && eq_ends && s[after] == 61)
            &&& sr.end == if after < s.len() {
                after + 1
            } else {
                after
            }
        }),
{
    let seg = seg_bytes(b);
    let after = i + seg.len();
    let term = scan(s, after, false, eq_ends);
    assert(after < s.len() ==> !is_space(s[after]) ==> (eq_ends && s[after] == 61));
    if has_space(b) {
        assert(seg =~= seq![34u8] + b + seq![34u8]);
        assert(s[i] == seg[0]);
        assert(s[i + 1 + b.len()] == seg[b.len() as int + 1]);
        assert forall|k: int| i + 1 <= k < i + 1 + b.len() implies s[k] != 34 by {
            assert(s[k] == seg[k - i]);
            assert(seg[k - i] == b[k - i - 1]);
        }
        lemma_scan_content(s, i + 1, b.len() as int, true, eq_ends);
        assert(s.subrange(i + 1, i + 1 + b.len()) =~= b) by {
            assert forall|k: int| 0 <= k < b.len() implies s.subrange(i + 1, i + 1 + b.len())[k]
                == b[k] by {
                assert(s[i + 1 + k] == seg[k + 1]);
            }
        }
        // opening quote toggles in, the content is gathered, the closing
        // quote toggles out, and the terminator ends the scan
        assert(scan(s, i, false, eq_ends) == scan(s, i + 1, true, eq_ends));
        assert(scan(s, i + 1 + b.len(), true, eq_ends) == term);
        assert(b + term.buf =~= b);
    } else {
        assert(s.subrange(i, i + b.len()) =~= b);
        assert forall|k: int| i <= k < i + b.len() implies s[k] != 34 && !is_space(s[k]) && (
        eq_ends ==> s[k] != 61) by {
            assert(s[k] == b[k - i]);
            assert(b[k - i] != 34);
            if is_space(b[k - i]) {
                assert(has_space(b));
            }
        }
        lemma_scan_content(s, i, b.len() as int, false, eq_ends);
        assert(b + term.buf =~= b);
    }
}

/// Tokenizing the serialized form of `ps`, standing as the whole tail of
/// `s` from position `i`, yields exactly the tokens of `ps`.
proof fn lemma_tokens_of_serialized(s: Seq<u8>, i: int, ps: Seq<(Seq<u8>, Option<Seq<u8>>)>)
    requires
        0 <= i <= s.len(),
        s.subrange(i, s.len() as int) == serialize_pairs(ps),
        round_trippable(ps),
    ensures
        spec_tokens_from(s, i) == tokens_of(ps),
    decreases ps.len(),
{
    let ser = serialize_pairs(ps);
    assert(i + ser.len() == s.len());
    if ps.len() == 0 {
        assert(spec_tokens_from(s, i) =~= tokens_of(ps));
    } else {
        assert(round_trippable_pair(ps[0]));
        let name = ps[0].0;
        let nseg = seg_bytes(name);
        let pb = pair_bytes(ps[0]);
        let rest_ser: Seq<u8> = if ps.len() == 1 {
            seq![]
        } else {
            seq![32u8] + serialize_pairs(ps.skip(1))
        };
        assert(ser =~= pb + rest_ser);
        assert forall|j: int| 0 <= j < ser.len() implies s[i + j] == ser[j] by {
            assert(s.subrange(i, s.len() as int)[j] == s[i + j]);
        }
        assert(round_trippable(ps.skip(1))) by {
            assert forall|k: int|
                0 <= k < ps.skip(1).len() implies round_trippable_pair(
                #[trigger] ps.skip(1)[k]) by {
                assert(ps.skip(1)[k] == ps[k + 1]);
            }
        }
        let a1 = i + nseg.len();
        assert(s.subrange(i, a1) =~= nseg) by {
            assert forall|k: int| 0 <= k < nseg.len() implies s.subrange(i, a1)[k] == nseg[k] by {
                assert(s[i + k] == ser[k]);
                assert(ser[k] == pb[k]);
            }
        }
        match ps[0].1 {
            Some(v) => {
                let vseg = seg_bytes(v);
                assert(pb =~= nseg + seq![61u8] + vseg);
                let a2 = a1 + 1 + vseg.len();
                assert(a2 == i + pb.len());
                assert(s[a1] == 61) by {
                    assert(s[i + nseg.len() as int] == ser[nseg.len() as int]);
                    assert(ser[nseg.len() as int] == pb[nseg.len() as int]);
                }
                lemma_scan_segment(s, i, name, true);
                let n = scan(s, i, false, true);
                assert(n.buf == name && n.has_value && n.end == a1 + 1);
                assert(s.subrange(a1 + 1, a2) =~= vseg) by {
                    assert forall|k: int| 0 <= k < vseg.len() implies s.subrange(a1 + 1, a2)[k]
                        == vseg[k] by {
                        assert(s[a1 + 1 + k] == ser[nseg.len() + 1 + k]);
                        assert(ser[nseg.len() + 1 + k] == pb[nseg.len() + 1 + k]);
                    }
                }
                if ps.len() == 1 {
                    assert(a2 == s.len());
                } else {
                    assert(s[a2] == 32) by {
                        assert(s[i + pb.len() as int] == ser[pb.len() as int]);
                        assert(ser[pb.len() as int] == rest_ser[0]);
                    }
                    assert(is_space(32));
                }
                lemma_scan_segment(s, a1 + 1, v, false);
                let vr = scan(s, a1 + 1, false, false);
                assert(vr.buf == v && !vr.has_value);
                let next = if a2 < s.len() {
                    a2 + 1
                } else {
                    a2
                };
                assert(vr.end == next);
                assert(s.subrange(next, s.len() as int) =~= serialize_pairs(ps.skip(1))) by {
                    if ps.len() > 1 {
                        let tail_ser = serialize_pairs(ps.skip(1));
                        assert forall|k: int|
                            0 <= k < tail_ser.len() implies s.subrange(next, s.len() as int)[k]
                            == tail_ser[k] by {
                            assert(s[a2 + 1 + k] == ser[pb.len() + 1 + k]);
                            assert(ser[pb.len() + 1 + k] == rest_ser[1 + k]);
                            assert(rest_ser[1 + k] == tail_ser[k]);
                        }
                    }
                }
                lemma_tokens_of_serialized(s, next, ps.skip(1));
                assert(spec_tokens_from(s, i) =~= seq![
                    SpecToken::Name(name),
                    SpecToken::Value(v),
                ] + tokens_of(ps.skip(1))) by {
                    assert(name.len() > 0);
                    assert((seq![SpecToken::Name(name)] + seq![SpecToken::Value(v)]
                        + spec_tokens_from(s, next)) =~= seq![
                        SpecToken::Name(name),
                        SpecToken::Value(v),
                    ] + tokens_of(ps.skip(1)));
                }
                assert(tokens_of(ps) =~= seq![SpecToken::Name(name), SpecToken::Value(v)]
                    + tokens_of(ps.skip(1)));
            },
            None => {
                assert(pb =~= nseg);
                assert(a1 == i + pb.len());
                if ps.len() == 1 {
                    assert(a1 == s.len());
                } else {
                    assert(s[a1] == 32) by {
                        assert(s[i + pb.len() as int] == ser[pb.len() as int]);
                        assert(ser[pb.len() as int] == rest_ser[0]);
                    }
                    assert(is_space(32));
                }
                lemma_scan_segment(s, i, name, true);
                let n = scan(s, i, false, true);
                assert(n.buf == name && !n.has_value);
                let next = if a1 < s.len() {
                    a1 + 1
                } else {
                    a1
                };
                assert(n.end == next);
                assert(s.subrange(next, s.len() as int) =~= serialize_pairs(ps.skip(1))) by {
                    if ps.len() > 1 {
                        let tail_ser = serialize_pairs(ps.skip(1));
                        assert forall|k: int|
                            0 <= k < tail_ser.len() implies s.subrange(next, s.len() as int)[k]
                            == tail_ser[k] by {
                            assert(s[a1 + 1 + k] == ser[pb.len() + 1 + k]);
                            assert(ser[pb.len() + 1 + k] == rest_ser[1 + k]);
                            assert(rest_ser[1 + k] == tail_ser[k]);
                        }
                    }
                }
                lemma_tokens_of_serialized(s, next, ps.skip(1));
                assert(spec_tokens_from(s, i) =~= seq![SpecToken::Name(name)] + tokens_of(
                    ps.skip(1),
                )) by {
                    assert(name.len() > 0);
                }
                assert(tokens_of(ps) =~= seq![SpecToken::Name(name)] + tokens_of(ps.skip(1)));
            },
        }
    }
}

/// Assembling the tokens of a pair list with a pending name first flushes
/// that name as a pair without value: such a token sequence is empty or
/// starts with a name token, which can never resolve the pending name.
proof fn lemma_pending_flush(ps: Seq<(Seq<u8>, Option<Seq<u8>>)>, q: Seq<u8>)
    ensures
        spec_pairs(tokens_of(ps), Some(q)) == seq![(q, Option::<Seq<u8>>::None)] + spec_pairs(
            tokens_of(ps),
            Option::None,
        ),
{
    let toks = tokens_of(ps);
    if ps.len() == 0 {
        assert(toks =~= Seq::<SpecToken>::empty());
        assert(seq![(q, Option::<Seq<u8>>::None)] + spec_pairs(toks, Option::None) =~= seq![
            (q, Option::<Seq<u8>>::None),
        ]);
    } else {
        assert(toks[0] == SpecToken::Name(ps[0].0));
        assert(spec_pairs(toks, Some(q)) =~= seq![(q, Option::<Seq<u8>>::None)] + spec_pairs(
            toks.skip(1),
            Some(ps[0].0),
        ));
    }
}

/// Assembling the tokens of a pair list returns exactly that list.
proof fn lemma_assemble_tokens_of(ps: Seq<(Seq<u8>, Option<Seq<u8>>)>)
    ensures
        spec_pairs(tokens_of(ps), Option::None) == ps,
    decreases ps.len(),
{
    let toks = tokens_of(ps);
    if ps.len() == 0 {
        assert(ps =~= Seq::<(Seq<u8>, Option<Seq<u8>>)>::empty());
    } else {
        lemma_assemble_tokens_of(ps.skip(1));
        let name = ps[0].0;
        assert(toks[0] == SpecToken::Name(name));
        match ps[0].1 {
            Some(v) => {
                assert(toks.skip(1) =~= seq![SpecToken::Value(v)] + tokens_of(ps.skip(1)));
                assert(toks.skip(1)[0] == SpecToken::Value(v));
                assert(toks.skip(1).skip(1) =~= tokens_of(ps.skip(1)));
                assert(spec_pairs(toks, Option::None) == spec_pairs(toks.skip(1), Some(name)));
                assert(spec_pairs(toks.skip(1), Some(name)) =~= seq![(name, Option::Some(v))]
                    + spec_pairs(toks.skip(1).skip(1), Option::None));
                assert(ps[0] == (name, Option::Some(v)));
                assert(seq![(name, Option::Some(v))] + ps.skip(1) =~= ps);
            },
            None => {
                assert(toks.skip(1) =~= tokens_of(ps.skip(1)));
                lemma_pending_flush(ps.skip(1), name);
                assert(spec_pairs(toks, Option::None) == spec_pairs(
                    tokens_of(ps.skip(1)),
                    Some(name),
                ));
                assert(ps[0] == (name, Option::<Seq<u8>>::None));
                assert(seq![(name, Option::<Seq<u8>>::None)] + ps.skip(1) =~= ps);
            },
        }
    }
}

/// Round trip: re-serializing a parse result - each pair written back as
/// `name` or `name=value`, segments containing separators quoted - and
/// re-parsing it yields the original pair list, for every list of pairs
/// whose names and values hold no literal quote byte (and whose unquoted
/// names hold no `=`).
pub proof fn lemma_round_trip(ps: Seq<(Seq<u8>, Option<Seq<u8>>)>)
    requires
        round_trippable(ps),
    ensures
        spec_parse(serialize_pairs(ps)) == ps,
{
    let s = serialize_pairs(ps);
    assert(s.subrange(0, s.len() as int) =~= s);
    lemma_tokens_of_serialized(s, 0, ps);
    lemma_assemble_tokens_of(ps);
}

} // verus!
