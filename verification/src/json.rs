//! A JSON codec for flat objects of text fields.
//!
//! The wire form is the compact object syntax: `{"k":"v","k2":"v2"}`,
//! with `"` and `\` escaped by a backslash inside strings and no
//! whitespace between tokens. Encoding then decoding an object returns
//! it unchanged, for every object -- the round-trip law at the end of
//! this file states and proves exactly that.

use vstd::prelude::*;
use crate::bytes::subvec;

verus! {

pub const QUOTE: u8 = 34;

pub const BACKSLASH: u8 = 92;

pub const LBRACKET: u8 = 123;

pub const RBRACKET: u8 = 125;

pub const COLON: u8 = 58;

pub const COMMA: u8 = 44;

/// The escape of one byte inside a JSON string.
pub open spec fn esc_char(b: u8) -> Seq<u8> {
    if b == QUOTE || b == BACKSLASH {
        seq![BACKSLASH, b]
    } else {
        seq![b]
    }
}

/// The escaped form of `t` from position `k` on.
pub open spec fn spec_esc_from(t: Seq<u8>, k: int) -> Seq<u8>
    decreases t.len() - k when 0 <= k <= t.len()
{
    if k >= t.len() {
        Seq::empty()
    } else {
        esc_char(t[k]) + spec_esc_from(t, k + 1)
    }
}

/// The encoding of one string: quoted, with `"` and `\` escaped.
pub open spec fn spec_enc_str(t: Seq<u8>) -> Seq<u8> {
    seq![QUOTE] + spec_esc_from(t, 0) + seq![QUOTE]
}

/// The encoding of one `key:value` pair.
pub open spec fn spec_enc_pair(p: (Seq<u8>, Seq<u8>)) -> Seq<u8> {
    spec_enc_str(p.0) + seq![COLON] + spec_enc_str(p.1)
}

/// The encoding of pairs `k..`, comma-separated, closed by `}`.
pub open spec fn spec_enc_tail(pairs: Seq<(Seq<u8>, Seq<u8>)>, k: int) -> Seq<u8>
    decreases pairs.len() - k when 0 <= k < pairs.len()
{
    spec_enc_pair(pairs[k]) + if k + 1 == pairs.len() {
        seq![RBRACKET]
    } else {
        seq![COMMA] + spec_enc_tail(pairs, k + 1)
    }
}

/// The compact encoding of a whole object.
pub open spec fn spec_enc_obj(pairs: Seq<(Seq<u8>, Seq<u8>)>) -> Seq<u8> {
    if pairs.len() == 0 {
        seq![LBRACKET, RBRACKET]
    } else {
        seq![LBRACKET] + spec_enc_tail(pairs, 0)
    }
}

/// Parsing a string body (after its opening quote) from position `i`:
/// the decoded text and the position after the closing quote.
pub open spec fn spec_parse_str(s: Seq<u8>, i: int) -> Option<(Seq<u8>, int)>
    decreases s.len() - i when 0 <= i <= s.len()
{
    if i >= s.len() {
        None
    } else if s[i] == QUOTE {
        Some((Seq::empty(), i + 1))
    } else if s[i] == BACKSLASH {
        if i + 1 < s.len() && (s[i + 1] == QUOTE || s[i + 1] == BACKSLASH) {
            match spec_parse_str(s, i + 2) {
                None => None,
                Some((t, j)) => Some((seq![s[i + 1]] + t, j)),
            }
        } else {
            None
        }
    } else {
        match spec_parse_str(s, i + 1) {
            None => None,
            Some((t, j)) => Some((seq![s[i]] + t, j)),
        }
    }
}

/// A successful string parse always moves forward, and never past the
/// end.
pub proof fn lemma_parse_str_range(s: Seq<u8>, i: int)
    requires
        0 <= i <= s.len(),
        spec_parse_str(s, i) is Some,
    ensures
        i < (spec_parse_str(s, i)->0).1 <= s.len(),
    decreases s.len() - i,
{
    if s[i] == QUOTE {
    } else if s[i] == BACKSLASH {
        lemma_parse_str_range(s, i + 2);
    } else {
        lemma_parse_str_range(s, i + 1);
    }
}

/// Parsing `"k":"v"` pairs from position `i` (at an opening key quote)
/// up to and including the closing `}`.
pub open spec fn spec_parse_pairs(s: Seq<u8>, i: int) -> Option<(Seq<(Seq<u8>, Seq<u8>)>, int)>
    decreases s.len() - i when 0 <= i <= s.len() via spec_parse_pairs_decreases
{
    if i >= s.len() || s[i] != QUOTE {
        None
    } else {
        match spec_parse_str(s, i + 1) {
            None => None,
            Some((k, j)) => if j + 1 < s.len() && s[j] == COLON && s[j + 1] == QUOTE {
                match spec_parse_str(s, j + 2) {
                    None => None,
                    Some((v, j2)) => if j2 < s.len() && s[j2] == RBRACKET {
                        Some((seq![(k, v)], j2 + 1))
                    } else if j2 < s.len() && s[j2] == COMMA {
                        match spec_parse_pairs(s, j2 + 1) {
                            None => None,
                            Some((rest, j3)) => Some((seq![(k, v)] + rest, j3)),
                        }
                    } else {
                        None
                    },
                }
            } else {
                None
            },
        }
    }
}

#[via_fn]
proof fn spec_parse_pairs_decreases(s: Seq<u8>, i: int) {
    if 0 <= i <= s.len() && i < s.len() && s[i] == QUOTE {
        if spec_parse_str(s, i + 1) is Some {
            lemma_parse_str_range(s, i + 1);
            let j = (spec_parse_str(s, i + 1)->0).1;
            if j + 1 < s.len() && s[j] == COLON && s[j + 1] == QUOTE {
                if spec_parse_str(s, j + 2) is Some {
                    lemma_parse_str_range(s, j + 2);
                }
            }
        }
    }
}

/// Decoding a whole object: every byte of `s` must be consumed.
pub open spec fn spec_dec_obj(s: Seq<u8>) -> Option<Seq<(Seq<u8>, Seq<u8>)>> {
    if s.len() == 2 && s[0] == LBRACKET && s[1] == RBRACKET {
        Some(Seq::empty())
    } else if s.len() >= 1 && s[0] == LBRACKET {
        match spec_parse_pairs(s, 1) {
            None => None,
            Some((ps, j)) => if j == s.len() {
                Some(ps)
            } else {
                None
            },
        }
    } else {
        None
    }
}

/// Encodes one string: quote, escaped bytes, quote.
pub fn enc_str_into(out: &mut Vec<u8>, t: &Vec<u8>)
    ensures
        final(out)@ == old(out)@ + spec_enc_str(t@),
{
    let ghost o0 = out@;
    out.push(QUOTE);
    let mut k: usize = 0;
    while k < t.len()
        invariant
            k <= t@.len(),
            out@ == o0 + seq![QUOTE] + spec_esc_from(t@, 0).take(
                spec_esc_from(t@, 0).len() - spec_esc_from(t@, k as int).len(),
            ),
            spec_esc_from(t@, k as int).len() <= spec_esc_from(t@, 0).len(),
        decreases t.len() - k,
    {
        let ghost full = spec_esc_from(t@, 0);
        let ghost pre = full.take(full.len() - spec_esc_from(t@, k as int).len());
        proof {
            lemma_esc_split(t@, k as int);
            assert(full =~= pre + spec_esc_from(t@, k as int));
        }
        let b = t[k];
        if b == QUOTE || b == BACKSLASH {
            out.push(BACKSLASH);
            out.push(b);
            proof {
                assert(spec_esc_from(t@, k as int) == esc_char(t@[k as int]) + spec_esc_from(
                    t@,
                    k + 1,
                ));
                assert(out@ =~= o0 + seq![QUOTE] + (pre + seq![BACKSLASH, b]));
                assert(pre + seq![BACKSLASH, b] =~= full.take(
                    full.len() - spec_esc_from(t@, k + 1).len(),
                ));
            }
        } else {
            out.push(b);
            proof {
                assert(spec_esc_from(t@, k as int) == esc_char(t@[k as int]) + spec_esc_from(
                    t@,
                    k + 1,
                ));
                assert(out@ =~= o0 + seq![QUOTE] + (pre + seq![b]));
                assert(pre + seq![b] =~= full.take(full.len() - spec_esc_from(t@, k + 1).len()));
            }
        }
        k += 1;
    }
    proof {
        assert(spec_esc_from(t@, t@.len() as int) =~= Seq::<u8>::empty());
        assert(spec_esc_from(t@, 0).take(spec_esc_from(t@, 0).len() as int) =~= spec_esc_from(
            t@,
            0,
        ));
    }
    out.push(QUOTE);
    proof {
        assert(out@ =~= o0 + spec_enc_str(t@));
    }
}

/// The escaped suffix at `k` splits off the head escape.
proof fn lemma_esc_split(t: Seq<u8>, k: int)
    requires
        0 <= k <= t.len(),
    ensures
        spec_esc_from(t, 0) == spec_esc_from(t, 0).take(
            spec_esc_from(t, 0).len() - spec_esc_from(t, k).len(),
        ) + spec_esc_from(t, k),
        spec_esc_from(t, k).len() <= spec_esc_from(t, 0).len(),
    decreases k,
{
    if k == 0 {
        assert(spec_esc_from(t, 0).take(0) =~= Seq::<u8>::empty());
        assert(spec_esc_from(t, 0) =~= Seq::<u8>::empty() + spec_esc_from(t, 0));
    } else {
        lemma_esc_suffix(t, 0, k);
        assert(spec_esc_from(t, 0).take(
            spec_esc_from(t, 0).len() - spec_esc_from(t, k).len(),
        ) + spec_esc_from(t, k) =~= spec_esc_from(t, 0));
    }
}

/// Escaping from `a` is a prefix plus escaping from `b`, for `a <= b`.
proof fn lemma_esc_suffix(t: Seq<u8>, a: int, b: int)
    requires
        0 <= a <= b <= t.len(),
    ensures
        spec_esc_from(t, a).len() >= spec_esc_from(t, b).len(),
        spec_esc_from(t, a).skip(spec_esc_from(t, a).len() - spec_esc_from(t, b).len())
            =~= spec_esc_from(t, b),
        spec_esc_from(t, a).take(spec_esc_from(t, a).len() - spec_esc_from(t, b).len())
            + spec_esc_from(t, b) =~= spec_esc_from(t, a),
    decreases b - a,
{
    if a < b {
        lemma_esc_suffix(t, a + 1, b);
        assert(spec_esc_from(t, a) == esc_char(t[a]) + spec_esc_from(t, a + 1));
        assert(spec_esc_from(t, a).skip(
            spec_esc_from(t, a).len() - spec_esc_from(t, b).len(),
        ) =~= spec_esc_from(t, a + 1).skip(
            spec_esc_from(t, a + 1).len() - spec_esc_from(t, b).len(),
        ));
        assert(spec_esc_from(t, a).take(spec_esc_from(t, a).len() - spec_esc_from(t, b).len())
            + spec_esc_from(t, b) =~= spec_esc_from(t, a));
    }
}

/// Encodes an object of text fields to its compact JSON bytes.
pub fn encode_obj(pairs: &Vec<(Vec<u8>, Vec<u8>)>) -> (r: Vec<u8>)
    ensures
        r@ == spec_enc_obj(pairs.deep_view()),
{
    let ghost pv = pairs.deep_view();
    let mut out: Vec<u8> = Vec::new();
    out.push(LBRACKET);
    if pairs.len() == 0 {
        out.push(RBRACKET);
        assert(out@ =~= spec_enc_obj(pv));
        return out;
    }
    let mut k: usize = 0;
    while k < pairs.len()
        invariant
            k <= pairs@.len(),
            pv == pairs.deep_view(),
            pv.len() == pairs@.len() > 0,
            spec_enc_obj(pv) == out@ + (if k < pv.len() {
                spec_enc_tail(pv, k as int)
            } else {
                Seq::<u8>::empty()
            }),
        decreases pairs.len() - k,
    {
        proof {
            assert(pv[k as int].0 =~= pairs@[k as int].0@);
            assert(pv[k as int].1 =~= pairs@[k as int].1@);
        }
        let ghost o0 = out@;
        enc_str_into(&mut out, &pairs[k].0);
        out.push(COLON);
        enc_str_into(&mut out, &pairs[k].1);
        proof {
            assert(out@ =~= o0 + spec_enc_pair(pv[k as int]));
        }
        if k + 1 == pairs.len() {
            out.push(RBRACKET);
            proof {
                assert(spec_enc_tail(pv, k as int) == spec_enc_pair(pv[k as int]) + seq![RBRACKET]);
                assert(out@ =~= o0 + spec_enc_tail(pv, k as int));
                assert(spec_enc_obj(pv) =~= out@);
            }
        } else {
            out.push(COMMA);
            proof {
                assert(spec_enc_tail(pv, k as int) == spec_enc_pair(pv[k as int]) + (seq![COMMA]
                    + spec_enc_tail(pv, k + 1)));
                assert(out@ + spec_enc_tail(pv, k + 1) =~= o0 + spec_enc_tail(pv, k as int));
            }
        }
        k += 1;
    }
    proof {
        assert(out@ + Seq::<u8>::empty() =~= out@);
    }
    out
}

/// Parses a string body (the position starts after the opening quote);
/// on success the decoded text and the position after the closing quote.
pub fn parse_str(s: &Vec<u8>, i: usize) -> (r: Option<(Vec<u8>, usize)>)
    requires
        i <= s@.len(),
    ensures
        r is Some <==> spec_parse_str(s@, i as int) is Some,
        r is Some ==> ((r->0).0@, (r->0).1 as int) == spec_parse_str(s@, i as int)->0,
{
    let mut out: Vec<u8> = Vec::new();
    let mut j: usize = i;
    while j < s.len()
        invariant
            i <= j <= s@.len(),
            spec_parse_str(s@, i as int) == (match spec_parse_str(s@, j as int) {
                None => None::<(Seq<u8>, int)>,
                Some((t, e)) => Some((out@ + t, e)),
            }),
        decreases s.len() - j,
    {
        let b = s[j];
        if b == QUOTE {
            proof {
                assert(out@ + Seq::<u8>::empty() =~= out@);
            }
            return Some((out, j + 1));
        } else if b == BACKSLASH {
            if j + 1 < s.len() && (s[j + 1] == QUOTE || s[j + 1] == BACKSLASH) {
                let ghost o0 = out@;
                out.push(s[j + 1]);
                proof {
                    if spec_parse_str(s@, j + 2) is Some {
                        let (t, e) = spec_parse_str(s@, j + 2)->0;
                        assert(o0 + (seq![s@[j + 1]] + t) =~= out@ + t);
                    }
                }
                j += 2;
            } else {
                return None;
            }
        } else {
            let ghost o0 = out@;
            out.push(b);
            proof {
                if spec_parse_str(s@, j + 1) is Some {
                    let (t, e) = spec_parse_str(s@, j + 1)->0;
                    assert(o0 + (seq![s@[j as int]] + t) =~= out@ + t);
                }
            }
            j += 1;
        }
    }
    None
}

/// Decodes compact JSON bytes into an object of text fields; `None` when
/// the bytes do not conform to the grammar.
pub fn decode_obj(s: &Vec<u8>) -> (r: Option<Vec<(Vec<u8>, Vec<u8>)>>)
    ensures
        r is Some <==> spec_dec_obj(s@) is Some,
        r is Some ==> r->0.deep_view() == spec_dec_obj(s@)->0,
{
    if s.len() == 2 && s[0] == LBRACKET && s[1] == RBRACKET {
        let out: Vec<(Vec<u8>, Vec<u8>)> = Vec::new();
        assert(out.deep_view() =~~= Seq::<(Seq<u8>, Seq<u8>)>::empty());
        return Some(out);
    }
    if s.len() == 0 || s[0] != LBRACKET {
        return None;
    }
    let mut out: Vec<(Vec<u8>, Vec<u8>)> = Vec::new();
    let mut i: usize = 1;
    loop
        invariant
            1 <= i <= s@.len(),
            !(s@.len() == 2 && s@[0] == LBRACKET && s@[1] == RBRACKET),
            s@.len() >= 1 && s@[0] == LBRACKET,
            (match spec_parse_pairs(s@, 1) {
                None => spec_parse_pairs(s@, i as int) is None,
                Some((ps, e)) => spec_parse_pairs(s@, i as int) matches Some(pr) && ps
                    == out.deep_view() + pr.0 && e == pr.1,
            }),
        decreases s@.len() - i,
    {
        if i >= s.len() || s[i] != QUOTE {
            assert(spec_parse_pairs(s@, i as int) is None);
            return None;
        }
        let kparse = parse_str(s, i + 1);
        let (key, j) = match kparse {
            None => {
                assert(spec_parse_pairs(s@, i as int) is None);
                return None;
            },
            Some(kj) => kj,
        };
        proof {
            lemma_parse_str_range(s@, i + 1);
        }
        if !(j < s.len() && j + 1 < s.len() && s[j] == COLON && s[j + 1] == QUOTE) {
            assert(spec_parse_pairs(s@, i as int) is None);
            return None;
        }
        let vparse = parse_str(s, j + 2);
        let (value, j2) = match vparse {
            None => {
                assert(spec_parse_pairs(s@, i as int) is None);
                return None;
            },
            Some(vj) => vj,
        };
        proof {
            lemma_parse_str_range(s@, j + 2);
        }
        let ghost o0 = out.deep_view();
        if j2 < s.len() && s[j2] == RBRACKET {
            out.push((key, value));
            proof {
                assert(out.deep_view() =~~= o0.push((key@, value@)));
                assert(spec_parse_pairs(s@, i as int) matches Some(pr) && pr.0 == seq![
                    (key@, value@),
                ] && pr.1 == j2 + 1);
                if spec_parse_pairs(s@, 1) is None {
                    assert(spec_parse_pairs(s@, i as int) is None);
                    assert(false);
                }
                let (ps, e) = spec_parse_pairs(s@, 1)->0;
                assert(ps == o0 + seq![(key@, value@)]);
                assert(ps =~~= out.deep_view());
                assert(e == j2 + 1);
            }
            if j2 + 1 == s.len() {
                return Some(out);
            } else {
                assert(spec_dec_obj(s@) is None);
                return None;
            }
        } else if j2 < s.len() && s[j2] == COMMA {
            out.push((key, value));
            proof {
                assert(out.deep_view() =~~= o0.push((key@, value@)));
                if spec_parse_pairs(s@, 1) is Some {
                    let (ps, e) = spec_parse_pairs(s@, 1)->0;
                    if spec_parse_pairs(s@, j2 + 1) is Some {
                        let (pr, e2) = spec_parse_pairs(s@, j2 + 1)->0;
                        assert(spec_parse_pairs(s@, i as int) matches Some(q) && q.0 == seq![
                            (key@, value@),
                        ] + pr && q.1 == e2);
                        assert(o0 + (seq![(key@, value@)] + pr) =~~= out.deep_view() + pr);
                    } else {
                        assert(spec_parse_pairs(s@, i as int) is None);
                    }
                } else {
                    match spec_parse_pairs(s@, j2 + 1) {
                        None => {},
                        Some((pr, e2)) => {
                            assert(spec_parse_pairs(s@, i as int) is Some);
                            assert(false);
                        },
                    }
                }
            }
            i = j2 + 1;
        } else {
            assert(spec_parse_pairs(s@, i as int) is None);
            return None;
        }
    }
}

/// Parsing a window that holds the escape of `t` from `k` on, closed by
/// a quote, recovers exactly `t.skip(k)` and stops right after the quote.
proof fn lemma_parse_escaped(s: Seq<u8>, t: Seq<u8>, k: int, i: int)
    requires
        0 <= k <= t.len(),
        0 <= i,
        i + spec_esc_from(t, k).len() + 1 <= s.len(),
        s.subrange(i, i + spec_esc_from(t, k).len() + 1) == spec_esc_from(t, k) + seq![QUOTE],
    ensures
        spec_parse_str(s, i) == Some((t.skip(k), i + spec_esc_from(t, k).len() + 1)),
    decreases t.len() - k,
{
    let w = spec_esc_from(t, k);
    let win = s.subrange(i, i + w.len() + 1);
    if k == t.len() {
        assert(w =~= Seq::<u8>::empty());
        assert(s[i] == win[0]);
        assert(s[i] == QUOTE);
        assert(t.skip(k) =~= Seq::<u8>::empty());
    } else {
        let c = t[k];
        let w2 = spec_esc_from(t, k + 1);
        assert(w == esc_char(c) + w2);
        if c == QUOTE || c == BACKSLASH {
            assert(w.len() == 2 + w2.len());
            assert(s[i] == win[0] && win[0] == BACKSLASH);
            assert(s[i + 1] == win[1] && win[1] == c);
            assert(s.subrange(i + 2, i + 2 + w2.len() + 1) =~= w2 + seq![QUOTE]) by {
                assert forall|m: int| 0 <= m < w2.len() + 1 implies s.subrange(
                    i + 2,
                    i + 2 + w2.len() + 1,
                )[m] == (w2 + seq![QUOTE])[m] by {
                    assert(s[i + 2 + m] == win[2 + m]);
                    assert(win[2 + m] == (w + seq![QUOTE])[2 + m]);
                }
            }
            lemma_parse_escaped(s, t, k + 1, i + 2);
            assert(seq![c] + t.skip(k + 1) =~= t.skip(k));
            assert(spec_parse_str(s, i) == Some((t.skip(k), i + w.len() + 1)));
        } else {
            assert(w.len() == 1 + w2.len());
            assert(s[i] == win[0] && win[0] == c);
            assert(s.subrange(i + 1, i + 1 + w2.len() + 1) =~= w2 + seq![QUOTE]) by {
                assert forall|m: int| 0 <= m < w2.len() + 1 implies s.subrange(
                    i + 1,
                    i + 1 + w2.len() + 1,
                )[m] == (w2 + seq![QUOTE])[m] by {
                    assert(s[i + 1 + m] == win[1 + m]);
                    assert(win[1 + m] == (w + seq![QUOTE])[1 + m]);
                }
            }
            lemma_parse_escaped(s, t, k + 1, i + 1);
            assert(seq![c] + t.skip(k + 1) =~= t.skip(k));
            assert(spec_parse_str(s, i) == Some((t.skip(k), i + w.len() + 1)));
        }
    }
}

/// Parsing a window that holds the encoded tail of `pairs` from `k` on
/// recovers exactly `pairs.skip(k)` and consumes the whole tail.
proof fn lemma_parse_pairs_enc(s: Seq<u8>, pairs: Seq<(Seq<u8>, Seq<u8>)>, k: int, i: int)
    requires
        0 <= k < pairs.len(),
        0 <= i,
        i + spec_enc_tail(pairs, k).len() <= s.len(),
        s.subrange(i, i + spec_enc_tail(pairs, k).len()) == spec_enc_tail(pairs, k),
    ensures
        spec_parse_pairs(s, i) == Some((pairs.skip(k), i + spec_enc_tail(pairs, k).len())),
    decreases pairs.len() - k,
{
    let tail = spec_enc_tail(pairs, k);
    let win = s.subrange(i, i + tail.len());
    let kk = pairs[k].0;
    let vv = pairs[k].1;
    let ek = spec_esc_from(kk, 0);
    let ev = spec_esc_from(vv, 0);
    let a = spec_enc_str(kk);
    let b = spec_enc_str(vv);
    let rest = if k + 1 == pairs.len() {
        seq![RBRACKET]
    } else {
        seq![COMMA] + spec_enc_tail(pairs, k + 1)
    };
    assert(tail == (a + seq![COLON] + b) + rest);
    assert(a.len() == ek.len() + 2 && b.len() == ev.len() + 2);
    assert(s[i] == win[0]);
    assert(win[0] == a[0] && a[0] == QUOTE);
    // the key string
    assert(s.subrange(i + 1, i + 1 + ek.len() + 1) =~= ek + seq![QUOTE]) by {
        assert forall|m: int| 0 <= m < ek.len() + 1 implies s.subrange(
            i + 1,
            i + 1 + ek.len() + 1,
        )[m] == (ek + seq![QUOTE])[m] by {
            assert(s[i + 1 + m] == win[1 + m]);
            assert(win[1 + m] == a[1 + m]);
            assert(a == seq![QUOTE] + ek + seq![QUOTE]);
        }
    }
    lemma_parse_escaped(s, kk, 0, i + 1);
    let j = i + 1 + ek.len() + 1;
    assert(kk.skip(0) =~= kk);
    assert(spec_parse_str(s, i + 1) == Some((kk, j)));
    // the colon and the value's opening quote
    assert(s[j] == win[a.len() as int]);
    assert(win[a.len() as int] == COLON);
    assert(s[j + 1] == win[a.len() + 1 as int]);
    assert(win[a.len() + 1 as int] == b[0] && b[0] == QUOTE);
    // the value string
    assert(s.subrange(j + 2, j + 2 + ev.len() + 1) =~= ev + seq![QUOTE]) by {
        assert forall|m: int| 0 <= m < ev.len() + 1 implies s.subrange(
            j + 2,
            j + 2 + ev.len() + 1,
        )[m] == (ev + seq![QUOTE])[m] by {
            assert(s[j + 2 + m] == win[a.len() + 1 + 1 + m as int]);
            assert(win[a.len() + 1 + 1 + m as int] == b[1 + m]);
            assert(b == seq![QUOTE] + ev + seq![QUOTE]);
        }
    }
    lemma_parse_escaped(s, vv, 0, j + 2);
    let j2 = j + 2 + ev.len() + 1;
    assert(vv.skip(0) =~= vv);
    assert(spec_parse_str(s, j + 2) == Some((vv, j2)));
    assert((kk, vv) == pairs[k]);
    // what follows the pair
    assert(s[j2] == win[(a.len() + 1 + b.len()) as int]);
    assert(win[(a.len() + 1 + b.len()) as int] == rest[0]);
    if k + 1 == pairs.len() {
        assert(rest[0] == RBRACKET);
        assert(s[j2] != COMMA);
        assert(pairs.skip(k) =~= seq![pairs[k]]);
        assert(j2 + 1 == i + tail.len());
        assert(spec_parse_pairs(s, i) == Some((pairs.skip(k), i + tail.len())));
    } else {
        assert(rest[0] == COMMA);
        assert(s[j2] != RBRACKET);
        let tail2 = spec_enc_tail(pairs, k + 1);
        assert(s.subrange(j2 + 1, j2 + 1 + tail2.len()) =~= tail2) by {
            assert forall|m: int| 0 <= m < tail2.len() implies s.subrange(
                j2 + 1,
                j2 + 1 + tail2.len(),
            )[m] == tail2[m] by {
                assert(s[j2 + 1 + m] == win[(a.len() + 1 + b.len()) as int + 1 + m]);
                assert(win[(a.len() + 1 + b.len()) as int + 1 + m] == rest[1 + m]);
                assert(rest[1 + m] == tail2[m]);
            }
        }
        lemma_parse_pairs_enc(s, pairs, k + 1, j2 + 1);
        assert(seq![pairs[k]] + pairs.skip(k + 1) =~= pairs.skip(k));
        assert(j2 + 1 + tail2.len() == i + tail.len());
        assert(spec_parse_pairs(s, i) == Some((pairs.skip(k), i + tail.len())));
    }
}

/// Round trip: decoding the encoding of any object of text fields gives
/// back exactly that object.
pub proof fn lemma_json_round_trip(pairs: Seq<(Seq<u8>, Seq<u8>)>)
    ensures
        spec_dec_obj(spec_enc_obj(pairs)) == Some(pairs),
{
    let s = spec_enc_obj(pairs);
    if pairs.len() == 0 {
        assert(s == seq![LBRACKET, RBRACKET]);
        assert(s.len() == 2 && s[0] == LBRACKET && s[1] == RBRACKET);
        assert(Seq::<(Seq<u8>, Seq<u8>)>::empty() =~= pairs);
    } else {
        let tail = spec_enc_tail(pairs, 0);
        assert(s == seq![LBRACKET] + tail);
        assert(tail.len() >= 6) by {
            let a = spec_enc_str(pairs[0].0);
            let b = spec_enc_str(pairs[0].1);
            assert(a.len() >= 2 && b.len() >= 2);
            assert(spec_enc_pair(pairs[0]).len() == a.len() + 1 + b.len());
        }
        assert(s.len() == 1 + tail.len());
        assert(s[0] == LBRACKET);
        assert(s.subrange(1, 1 + tail.len() as int) =~= tail);
        lemma_parse_pairs_enc(s, pairs, 0, 1);
        assert(pairs.skip(0) =~= pairs);
        assert(spec_parse_pairs(s, 1) == Some((pairs, s.len() as int)));
    }
}

} // verus!

