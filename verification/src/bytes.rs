//! Byte-level text utilities: ASCII case folding, comparisons, conversion of
//! string literals to byte vectors, and separator-based splitting.
//!
//! All wire-level text in this crate (paths, header names and values, bodies)
//! is carried as `Vec<u8>`; the specifications speak of `Seq<u8>`.

use vstd::prelude::*;
use vstd::string::StrSliceExecFns;
use vstd::string::StringSliceAdditionalSpecFns;

verus! {

pub const SLASH: u8 = 47;

/// Lower-cases one ASCII byte; every other byte is unchanged.
pub open spec fn spec_lower(b: u8) -> u8 {
    if 65 <= b && b <= 90 {
        (b + 32) as u8
    } else {
        b
    }
}

/// Lower-cases a byte sequence, ASCII-wise.
pub open spec fn spec_lower_seq(s: Seq<u8>) -> Seq<u8> {
    Seq::new(s.len(), |i: int| spec_lower(s[i]))
}

/// Two byte sequences are equal up to ASCII case.
pub open spec fn eq_ignore_case(a: Seq<u8>, b: Seq<u8>) -> bool {
    spec_lower_seq(a) == spec_lower_seq(b)
}

pub fn lower_byte(b: u8) -> (r: u8)
    ensures
        r == spec_lower(b),
{
    if 65 <= b && b <= 90 {
        b + 32
    } else {
        b
    }
}

/// Byte-for-byte equality of two byte vectors.
pub fn bytes_eq(a: &Vec<u8>, b: &Vec<u8>) -> (r: bool)
    ensures
        r == (a@ == b@),
{
    if a.len() != b.len() {
        assert(a@ != b@) by {
            assert(a@.len() != b@.len());
        }
        return false;
    }
    let mut i: usize = 0;
    while i < a.len()
        invariant
            i <= a.len(),
            a.len() == b.len(),
            forall|j: int| 0 <= j < i ==> a@[j] == b@[j],
        decreases a.len() - i,
    {
        if a[i] != b[i] {
            return false;
        }
        i += 1;
    }
    proof {
        assert(a@ =~= b@);
    }
    true
}

/// Equality of two byte vectors up to ASCII case.
pub fn bytes_eq_ignore_case(a: &Vec<u8>, b: &Vec<u8>) -> (r: bool)
    ensures
        r == eq_ignore_case(a@, b@),
{
    if a.len() != b.len() {
        assert(spec_lower_seq(a@).len() != spec_lower_seq(b@).len());
        return false;
    }
    let mut i: usize = 0;
    while i < a.len()
        invariant
            i <= a.len(),
            a.len() == b.len(),
            forall|j: int| 0 <= j < i ==> spec_lower(a@[j]) == spec_lower(b@[j]),
        decreases a.len() - i,
    {
        if lower_byte(a[i]) != lower_byte(b[i]) {
            assert(spec_lower_seq(a@)[i as int] != spec_lower_seq(b@)[i as int]);
            return false;
        }
        i += 1;
    }
    proof {
        assert(spec_lower_seq(a@) =~= spec_lower_seq(b@));
    }
    true
}

/// The byte sequence a `&str` encodes to (UTF-8); literals used by callers
/// are ASCII, but the definition does not depend on that.
pub open spec fn lit(s: &str) -> Seq<u8> {
    s.spec_bytes()
}

/// Turns a string (in practice: a literal) into its byte vector.
pub fn text(s: &str) -> (v: Vec<u8>)
    ensures
        v@ == lit(s),
{
    s.as_bytes_vec()
}

/// Concatenation of two byte vectors, leaving both intact.
pub fn concat_bytes(a: &Vec<u8>, b: &Vec<u8>) -> (r: Vec<u8>)
    ensures
        r@ == a@ + b@,
{
    let mut r: Vec<u8> = Vec::new();
    let mut i: usize = 0;
    while i < a.len()
        invariant
            i <= a.len(),
            r@ == a@.take(i as int),
        decreases a.len() - i,
    {
        r.push(a[i]);
        assert(r@ =~= a@.take(i + 1 as int));
        i += 1;
    }
    assert(r@ =~= a@);
    let mut j: usize = 0;
    while j < b.len()
        invariant
            j <= b.len(),
            r@ == a@ + b@.take(j as int),
        decreases b.len() - j,
    {
        r.push(b[j]);
        assert(r@ =~= a@ + b@.take(j + 1 as int));
        j += 1;
    }
    assert(r@ =~= a@ + b@);
    r
}

/// A copy of `v[from..to]`.
pub fn subvec(v: &Vec<u8>, from: usize, to: usize) -> (r: Vec<u8>)
    requires
        from <= to <= v@.len(),
    ensures
        r@ == v@.subrange(from as int, to as int),
{
    let mut r: Vec<u8> = Vec::new();
    let mut i: usize = from;
    while i < to
        invariant
            from <= i <= to <= v@.len(),
            r@ == v@.subrange(from as int, i as int),
        decreases to - i,
    {
        r.push(v[i]);
        assert(r@ =~= v@.subrange(from as int, i + 1 as int));
        i += 1;
    }
    r
}

/// The first position at or after `i` where `pat` occurs in `s`; the
/// length of `s` when it occurs nowhere.
pub open spec fn spec_find_seq(s: Seq<u8>, pat: Seq<u8>, i: int) -> int
    decreases s.len() - i when 0 <= i <= s.len() via spec_find_seq_decreases
{
    if i + pat.len() > s.len() {
        s.len() as int
    } else if s.subrange(i, i + pat.len() as int) == pat {
        i
    } else {
        spec_find_seq(s, pat, i + 1)
    }
}

#[via_fn]
proof fn spec_find_seq_decreases(s: Seq<u8>, pat: Seq<u8>, i: int) {
    if 0 <= i <= s.len() && i + pat.len() <= s.len() && s.subrange(i, i + pat.len() as int)
        != pat {
        assert(pat.len() > 0) by {
            if pat.len() == 0 {
                assert(s.subrange(i, i) =~= pat);
            }
        }
    }
}

pub proof fn lemma_find_seq_range(s: Seq<u8>, pat: Seq<u8>, i: int)
    requires
        0 <= i <= s.len(),
    ensures
        i <= spec_find_seq(s, pat, i) <= s.len(),
    decreases s.len() - i,
{
    if i + pat.len() <= s.len() && s.subrange(i, i + pat.len() as int) != pat {
        assert(pat.len() > 0) by {
            if pat.len() == 0 {
                assert(s.subrange(i, i) =~= pat);
            }
        }
        lemma_find_seq_range(s, pat, i + 1);
    }
}

/// The first position at or after `from` where `pat` occurs in `v`, or
/// the length of `v`.
pub fn find_seq(v: &Vec<u8>, pat: &Vec<u8>, from: usize) -> (r: usize)
    requires
        from <= v@.len(),
    ensures
        r == spec_find_seq(v@, pat@, from as int),
        from <= r <= v@.len(),
{
    proof {
        lemma_find_seq_range(v@, pat@, from as int);
    }
    let mut i: usize = from;
    while v.len() - i >= pat.len()
        invariant
            from <= i <= v@.len(),
            spec_find_seq(v@, pat@, from as int) == spec_find_seq(v@, pat@, i as int),
        decreases v.len() - i,
    {
        let window = subvec(v, i, i + pat.len());
        assert(window@ =~= v@.subrange(i as int, i + pat@.len() as int));
        if bytes_eq(&window, pat) {
            return i;
        }
        assert(pat@.len() > 0) by {
            if pat@.len() == 0 {
                assert(v@.subrange(i as int, i as int) =~= pat@);
            }
        }
        i += 1;
    }
    assert(i + pat@.len() > v@.len());
    v.len()
}

/// Splitting a byte sequence at every occurrence of `sep`, starting at
/// position `i`. The result always holds at least one piece; separators are
/// not kept, and empty pieces are kept (so a trailing separator yields a
/// trailing empty piece).
pub open spec fn spec_split_from(s: Seq<u8>, sep: u8, i: int) -> Seq<Seq<u8>>
    decreases s.len() - i when 0 <= i <= s.len()
{
    if i >= s.len() {
        seq![Seq::<u8>::empty()]
    } else {
        let r = spec_split_from(s, sep, i + 1);
        if s[i] == sep {
            seq![Seq::<u8>::empty()] + r
        } else {
            seq![seq![s[i]] + r[0]] + r.drop_first()
        }
    }
}

/// Splitting a whole byte sequence at `sep`.
pub open spec fn spec_split(s: Seq<u8>, sep: u8) -> Seq<Seq<u8>> {
    spec_split_from(s, sep, 0)
}

pub proof fn lemma_split_from_len(s: Seq<u8>, sep: u8, i: int)
    requires
        0 <= i <= s.len(),
    ensures
        spec_split_from(s, sep, i).len() >= 1,
    decreases s.len() - i,
{
    if i < s.len() {
        lemma_split_from_len(s, sep, i + 1);
    }
}

/// Splits `s` at every occurrence of `sep`.
pub fn split_bytes(s: &Vec<u8>, sep: u8) -> (r: Vec<Vec<u8>>)
    ensures
        r.deep_view() == spec_split(s@, sep),
        r@.len() >= 1,
{
    let mut done: Vec<Vec<u8>> = Vec::new();
    let mut cur: Vec<u8> = Vec::new();
    let mut i: usize = 0;
    while i < s.len()
        invariant
            i <= s@.len(),
            spec_split(s@, sep) =~~= done.deep_view() + seq![
                cur@ + spec_split_from(s@, sep, i as int)[0],
            ] + spec_split_from(s@, sep, i as int).drop_first(),
        decreases s.len() - i,
    {
        proof {
            lemma_split_from_len(s@, sep, i + 1);
        }
        let ghost r = spec_split_from(s@, sep, i + 1);
        let ghost fi = spec_split_from(s@, sep, i as int);
        let ghost dv0 = done.deep_view();
        let ghost cur0 = cur@;
        if s[i] == sep {
            proof {
                assert(fi == seq![Seq::<u8>::empty()] + r);
                assert(fi[0] == Seq::<u8>::empty());
                assert(fi.drop_first() =~~= r);
                assert(cur0 + fi[0] =~= cur0);
            }
            done.push(cur);
            cur = Vec::new();
            proof {
                assert(done.deep_view() =~~= dv0 + seq![cur0]);
                assert(cur@ + r[0] =~= r[0]);
                assert(seq![cur@ + r[0]] + r.drop_first() =~~= r);
                assert(dv0 + seq![cur0 + fi[0]] + fi.drop_first() =~~= (dv0 + seq![cur0]) + (seq![
                    cur@ + r[0],
                ] + r.drop_first()));
                assert(spec_split(s@, sep) =~~= done.deep_view() + seq![cur@ + r[0]]
                    + r.drop_first());
            }
        } else {
            let b = s[i];
            proof {
                assert(fi == seq![seq![s@[i as int]] + r[0]] + r.drop_first());
            }
            cur.push(b);
            proof {
                assert(cur@ =~= cur0 + seq![s@[i as int]]);
                assert(cur@ + r[0] =~= cur0 + (seq![s@[i as int]] + r[0]));
                assert(cur0 + fi[0] =~= cur@ + r[0]);
                assert(fi.drop_first() =~~= r.drop_first());
                assert(spec_split(s@, sep) =~~= done.deep_view() + seq![cur@ + r[0]]
                    + r.drop_first());
            }
        }
        i += 1;
    }
    proof {
        assert(spec_split_from(s@, sep, i as int) == seq![Seq::<u8>::empty()]);
        assert(cur@ + spec_split_from(s@, sep, i as int)[0] =~= cur@);
    }
    let ghost dv0 = done.deep_view();
    let ghost cur0 = cur@;
    done.push(cur);
    proof {
        assert(done.deep_view() =~~= dv0 + seq![cur0]);
        assert(done.deep_view() =~~= spec_split(s@, sep));
    }
    done
}

} // verus!
