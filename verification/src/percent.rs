//! Percent-decoding of URL text.
//!
//! A `%` followed by two hex digits decodes to the byte they spell; any
//! other byte passes through unchanged (a malformed `%` escape is kept
//! literally). In form mode, used for query strings and form bodies, a `+`
//! additionally decodes to a space.

use vstd::prelude::*;

verus! {

pub const PERCENT: u8 = 37;

pub const PLUS: u8 = 43;

pub const SPACE: u8 = 32;

/// The value of an ASCII hex digit, if `b` is one.
pub open spec fn spec_hex_val(b: u8) -> Option<u8> {
    if 48 <= b && b <= 57 {
        Some((b - 48) as u8)
    } else if 65 <= b && b <= 70 {
        Some((b - 55) as u8)
    } else if 97 <= b && b <= 102 {
        Some((b - 87) as u8)
    } else {
        None
    }
}

pub fn hex_val(b: u8) -> (r: Option<u8>)
    ensures
        r == spec_hex_val(b),
        r is Some ==> r->0 <= 15,
{
    if 48 <= b && b <= 57 {
        Some(b - 48)
    } else if 65 <= b && b <= 70 {
        Some(b - 55)
    } else if 97 <= b && b <= 102 {
        Some(b - 87)
    } else {
        None
    }
}

/// Whether position `i` of `s` starts a well-formed `%xx` escape.
pub open spec fn starts_escape(s: Seq<u8>, i: int) -> bool {
    &&& s[i] == PERCENT
    &&& i + 3 <= s.len()
    &&& spec_hex_val(s[i + 1]) is Some
    &&& spec_hex_val(s[i + 2]) is Some
}

/// The decoding of `s` from position `i` on. `form` turns `+` into a space.
pub open spec fn spec_decode_from(s: Seq<u8>, i: int, form: bool) -> Seq<u8>
    decreases s.len() - i when 0 <= i <= s.len()
{
    if i >= s.len() {
        Seq::empty()
    } else if starts_escape(s, i) {
        seq![(spec_hex_val(s[i + 1])->0 * 16 + spec_hex_val(s[i + 2])->0) as u8]
            + spec_decode_from(s, i + 3, form)
    } else if form && s[i] == PLUS {
        seq![SPACE] + spec_decode_from(s, i + 1, form)
    } else {
        seq![s[i]] + spec_decode_from(s, i + 1, form)
    }
}

/// Percent-decoding of a whole path segment.
pub open spec fn spec_pct_decode(s: Seq<u8>) -> Seq<u8> {
    spec_decode_from(s, 0, false)
}

/// Form decoding (`%xx` escapes, and `+` as space) of a query or form value.
pub open spec fn spec_form_decode(s: Seq<u8>) -> Seq<u8> {
    spec_decode_from(s, 0, true)
}

/// Decodes `%xx` escapes, and in form mode also `+` as space.
pub fn decode_bytes(s: &Vec<u8>, form: bool) -> (r: Vec<u8>)
    ensures
        r@ == spec_decode_from(s@, 0, form),
{
    let mut out: Vec<u8> = Vec::new();
    let mut i: usize = 0;
    while i < s.len()
        invariant
            i <= s@.len(),
            spec_decode_from(s@, 0, form) == out@ + spec_decode_from(s@, i as int, form),
        decreases s.len() - i,
    {
        let ghost out0 = out@;
        if s[i] == PERCENT && s.len() - i >= 3 {
            let h1 = hex_val(s[i + 1]);
            let h2 = hex_val(s[i + 2]);
            match (h1, h2) {
                (Some(v1), Some(v2)) => {
                    out.push(v1 * 16 + v2);
                    proof {
                        assert(starts_escape(s@, i as int));
                        assert(out@ =~= out0 + seq![(v1 * 16 + v2) as u8]);
                        assert(out0 + spec_decode_from(s@, i as int, form) =~= out@
                            + spec_decode_from(s@, i + 3, form));
                    }
                    i += 3;
                },
                _ => {
                    out.push(s[i]);
                    proof {
                        assert(!starts_escape(s@, i as int));
                        assert(!(form && s@[i as int] == PLUS));
                        assert(out0 + spec_decode_from(s@, i as int, form) =~= out@
                            + spec_decode_from(s@, i + 1, form));
                    }
                    i += 1;
                },
            }
        } else if form && s[i] == PLUS {
            out.push(SPACE);
            proof {
                assert(!starts_escape(s@, i as int));
                assert(out0 + spec_decode_from(s@, i as int, form) =~= out@ + spec_decode_from(
                    s@,
                    i + 1,
                    form,
                ));
            }
            i += 1;
        } else {
            out.push(s[i]);
            proof {
                assert(!starts_escape(s@, i as int));
                assert(out0 + spec_decode_from(s@, i as int, form) =~= out@ + spec_decode_from(
                    s@,
                    i + 1,
                    form,
                ));
            }
            i += 1;
        }
    }
    assert(out@ =~= out@ + spec_decode_from(s@, i as int, form));
    out
}

} // verus!
