//! Byte-string helpers shared by the segmentation models: whitespace
//! classification, the `##` continuation marker convention, slicing and
//! concatenation, and a UTF-8 well-formedness check.

use vstd::prelude::*;

verus! {

/// The first byte of the `##` continuation marker.
pub const MARKER_BYTE: u8 = 35;

/// Whitespace for the purpose of splitting text into words.
pub open spec fn is_ws_byte(b: u8) -> bool {
    b == 32 || b == 9 || b == 10 || b == 13
}

/// Executable mirror of [`is_ws_byte`].
pub fn ws_byte(b: u8) -> (r: bool)
    ensures
        r == is_ws_byte(b),
{
    b == 32 || b == 9 || b == 10 || b == 13
}

/// A token form carrying the continuation marker in front.
pub open spec fn cont_marked(t: Seq<u8>) -> Seq<u8> {
    seq![MARKER_BYTE, MARKER_BYTE] + t
}

/// Whether a token form begins with the continuation marker.
pub open spec fn has_marker(t: Seq<u8>) -> bool {
    t.len() >= 2 && t[0] == MARKER_BYTE && t[1] == MARKER_BYTE
}

/// Executable mirror of [`has_marker`].
pub fn bytes_have_marker(t: &Vec<u8>) -> (r: bool)
    ensures
        r == has_marker(t@),
{
    t.len() >= 2 && t[0] == MARKER_BYTE && t[1] == MARKER_BYTE
}

/// Prepend the continuation marker to a token form.
pub fn mark_bytes(t: &Vec<u8>) -> (r: Vec<u8>)
    ensures
        r@ == cont_marked(t@),
{
    let mut out: Vec<u8> = Vec::new();
    out.push(MARKER_BYTE);
    out.push(MARKER_BYTE);
    let mut i: usize = 0;
    while i < t.len()
        invariant
            i <= t.len(),
            out@ == seq![MARKER_BYTE, MARKER_BYTE] + t@.take(i as int),
        decreases t.len() - i,
    {
        out.push(t[i]);
        i = i + 1;
        proof {
            assert(seq![MARKER_BYTE, MARKER_BYTE] + t@.take(i - 1) + seq![t@[i - 1]]
                =~= seq![MARKER_BYTE, MARKER_BYTE] + t@.take(i as int));
        }
    }
    proof {
        assert(t@.take(t@.len() as int) =~= t@);
    }
    out
}

/// Copy of `v[i..j]` as an owned byte string.
pub fn subvec(v: &Vec<u8>, i: usize, j: usize) -> (r: Vec<u8>)
    requires
        i <= j <= v@.len(),
    ensures
        r@ == v@.subrange(i as int, j as int),
{
    let mut out: Vec<u8> = Vec::new();
    let mut k: usize = i;
    while k < j
        invariant
            i <= k <= j <= v@.len(),
            out@ == v@.subrange(i as int, k as int),
        decreases j - k,
    {
        out.push(v[k]);
        k = k + 1;
        proof {
            assert(v@.subrange(i as int, k - 1).push(v@[k - 1])
                =~= v@.subrange(i as int, k as int));
        }
    }
    out
}

/// Concatenation of two byte strings.
pub fn concat_bytes(a: &Vec<u8>, b: &Vec<u8>) -> (r: Vec<u8>)
    ensures
        r@ == a@ + b@,
{
    let mut out: Vec<u8> = Vec::new();
    let mut k: usize = 0;
    while k < a.len()
        invariant
            k <= a@.len(),
            out@ == a@.take(k as int),
        decreases a.len() - k,
    {
        out.push(a[k]);
        k = k + 1;
        proof {
            assert(a@.take(k - 1).push(a@[k - 1]) =~= a@.take(k as int));
        }
    }
    let mut k: usize = 0;
    while k < b.len()
        invariant
            k <= b@.len(),
            out@ == a@ + b@.take(k as int),
        decreases b.len() - k,
    {
        out.push(b[k]);
        k = k + 1;
        proof {
            assert((a@ + b@.take(k - 1)).push(b@[k - 1]) =~= a@ + b@.take(k as int));
        }
    }
    proof {
        assert(a@.take(a@.len() as int) =~= a@);
        assert(a@ + b@.take(b@.len() as int) =~= a@ + b@);
    }
    out
}

/// Whether two byte strings hold the same bytes.
pub fn bytes_eq(a: &Vec<u8>, b: &Vec<u8>) -> (r: bool)
    ensures
        r == (a@ == b@),
{
    if a.len() != b.len() {
        proof {
            assert(a@ != b@);
        }
        return false;
    }
    let mut k: usize = 0;
    while k < a.len()
        invariant
            k <= a@.len(),
            a@.len() == b@.len(),
            forall|m: int| 0 <= m < k ==> a@[m] == b@[m],
        decreases a.len() - k,
    {
        if a[k] != b[k] {
            proof {
                assert(a@ != b@);
            }
            return false;
        }
        k = k + 1;
    }
    proof {
        assert(a@ =~= b@);
    }
    true
}

/// A UTF-8 continuation byte.
pub open spec fn is_cont_byte(b: u8) -> bool {
    128 <= b && b < 192
}

/// Well-formed UTF-8 from position `i` on: every scalar value is encoded in
/// its shortest form and surrogate values are excluded.
pub open spec fn utf8_from(s: Seq<u8>, i: int) -> bool
    decreases s.len() - i,
{
    if i >= s.len() {
        true
    } else {
        let b = s[i];
        if b < 128 {
            utf8_from(s, i + 1)
        } else if 194 <= b && b <= 223 {
            i + 2 <= s.len() && is_cont_byte(s[i + 1]) && utf8_from(s, i + 2)
        } else if b == 224 {
            i + 3 <= s.len() && 160 <= s[i + 1] && s[i + 1] < 192 && is_cont_byte(s[i + 2])
                && utf8_from(s, i + 3)
        } else if 225 <= b && b <= 236 || b == 238 || b == 239 {
            i + 3 <= s.len() && is_cont_byte(s[i + 1]) && is_cont_byte(s[i + 2])
                && utf8_from(s, i + 3)
        } else if b == 237 {
            i + 3 <= s.len() && 128 <= s[i + 1] && s[i + 1] < 160 && is_cont_byte(s[i + 2])
                && utf8_from(s, i + 3)
        } else if b == 240 {
            i + 4 <= s.len() && 144 <= s[i + 1] && s[i + 1] < 192 && is_cont_byte(s[i + 2])
                && is_cont_byte(s[i + 3]) && utf8_from(s, i + 4)
        } else if 241 <= b && b <= 243 {
            i + 4 <= s.len() && is_cont_byte(s[i + 1]) && is_cont_byte(s[i + 2])
                && is_cont_byte(s[i + 3]) && utf8_from(s, i + 4)
        } else if b == 244 {
            i + 4 <= s.len() && 128 <= s[i + 1] && s[i + 1] < 144 && is_cont_byte(s[i + 2])
                && is_cont_byte(s[i + 3]) && utf8_from(s, i + 4)
        } else {
            false
        }
    }
}

/// Well-formed UTF-8 over the whole byte string.
pub open spec fn is_utf8(s: Seq<u8>) -> bool {
    utf8_from(s, 0)
}

fn cont_at(v: &Vec<u8>, k: usize) -> (r: bool)
    requires
        k < v@.len(),
    ensures
        r == is_cont_byte(v@[k as int]),
{
    128 <= v[k] && v[k] < 192
}

fn utf8_check_from(v: &Vec<u8>, i: usize) -> (r: bool)
    requires
        i <= v@.len(),
    ensures
        r == utf8_from(v@, i as int),
    decreases v@.len() - i,
{
    if i >= v.len() {
        true
    } else {
        let b = v[i];
        if b < 128 {
            utf8_check_from(v, i + 1)
        } else if 194 <= b && b <= 223 {
            v.len() - i >= 2 && cont_at(v, i + 1) && utf8_check_from(v, i + 2)
        } else if b == 224 {
            v.len() - i >= 3 && 160 <= v[i + 1] && v[i + 1] < 192 && cont_at(v, i + 2)
                && utf8_check_from(v, i + 3)
        } else if 225 <= b && b <= 236 || b == 238 || b == 239 {
            v.len() - i >= 3 && cont_at(v, i + 1) && cont_at(v, i + 2)
                && utf8_check_from(v, i + 3)
        } else if b == 237 {
            v.len() - i >= 3 && 128 <= v[i + 1] && v[i + 1] < 160 && cont_at(v, i + 2)
                && utf8_check_from(v, i + 3)
        } else if b == 240 {
            v.len() - i >= 4 && 144 <= v[i + 1] && v[i + 1] < 192 && cont_at(v, i + 2)
                && cont_at(v, i + 3) && utf8_check_from(v, i + 4)
        } else if 241 <= b && b <= 243 {
            v.len() - i >= 4 && cont_at(v, i + 1) && cont_at(v, i + 2) && cont_at(v, i + 3)
                && utf8_check_from(v, i + 4)
        } else if b == 244 {
            v.len() - i >= 4 && 128 <= v[i + 1] && v[i + 1] < 144 && cont_at(v, i + 2)
                && cont_at(v, i + 3) && utf8_check_from(v, i + 4)
        } else {
            false
        }
    }
}

/// Whether a byte string is well-formed UTF-8.
pub fn check_utf8(v: &Vec<u8>) -> (r: bool)
    ensures
        r == is_utf8(v@),
{
    utf8_check_from(v, 0)
}

} // verus!
