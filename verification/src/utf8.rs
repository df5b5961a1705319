//! UTF-8 validation of string content, with the error positions std reports.
use vstd::prelude::*;
use vstd::utf8::*;
use vstd::string::*;

verus! {

/// A continuation byte, `10xxxxxx`.
pub open spec fn is_cont(b: u8) -> bool {
    0x80 <= b <= 0xBF
}

/// The well-formedness of the scalar whose first byte is at `p` (Unicode's table of well-formed
/// byte sequences): its width if it is complete and well formed, 0 if a byte is wrong, -1 if
/// the input ends before the scalar does while every byte present is right.
pub open spec fn scalar_status(s: Seq<u8>, p: int) -> int {
    let n = s.len();
    let b0 = s[p];
    if b0 < 0x80 {
        1
    } else if 0xC2 <= b0 <= 0xDF {
        if p + 1 >= n {
            -1
        } else if is_cont(s[p + 1]) {
            2
        } else {
            0
        }
    } else if 0xE0 <= b0 <= 0xEF {
        let lo: u8 = if b0 == 0xE0 {
            0xA0
        } else {
            0x80
        };
        let hi: u8 = if b0 == 0xED {
            0x9F
        } else {
            0xBF
        };
        if p + 1 >= n {
            -1
        } else if !(lo <= s[p + 1] <= hi) {
            0
        } else if p + 2 >= n {
            -1
        } else if is_cont(s[p + 2]) {
            3
        } else {
            0
        }
    } else if 0xF0 <= b0 <= 0xF4 {
        let lo: u8 = if b0 == 0xF0 {
            0x90
        } else {
            0x80
        };
        let hi: u8 = if b0 == 0xF4 {
            0x8F
        } else {
            0xBF
        };
        if p + 1 >= n {
            -1
        } else if !(lo <= s[p + 1] <= hi) {
            0
        } else if p + 2 >= n {
            -1
        } else if !is_cont(s[p + 2]) {
            0
        } else if p + 3 >= n {
            -1
        } else if is_cont(s[p + 3]) {
            4
        } else {
            0
        }
    } else {
        0
    }
}

/// Where the scalar at `p` is malformed, the length of the longest start of a well-formed
/// scalar there, the first byte counted even where it can start none.
pub open spec fn error_len_at(s: Seq<u8>, p: int) -> int {
    let b0 = s[p];
    if 0xE0 <= b0 <= 0xEF {
        let lo: u8 = if b0 == 0xE0 {
            0xA0
        } else {
            0x80
        };
        let hi: u8 = if b0 == 0xED {
            0x9F
        } else {
            0xBF
        };
        if lo <= s[p + 1] <= hi {
            2
        } else {
            1
        }
    } else if 0xF0 <= b0 <= 0xF4 {
        let lo: u8 = if b0 == 0xF0 {
            0x90
        } else {
            0x80
        };
        let hi: u8 = if b0 == 0xF4 {
            0x8F
        } else {
            0xBF
        };
        if !(lo <= s[p + 1] <= hi) {
            1
        } else if !is_cont(s[p + 2]) {
            2
        } else {
            3
        }
    } else {
        1
    }
}

/// The outcome of validating UTF-8.
#[derive(Debug, Clone, Copy, PartialEq, Eq)]
pub enum Utf8Check {
    /// Every byte is part of a well-formed scalar.
    Valid,
    /// A malformed scalar starts at `valid_up_to`; its first `error_len` bytes are the longest
    /// start of a well-formed scalar there (at least one byte), which a reader skips.
    Invalid { valid_up_to: usize, error_len: u8 },
    /// The input ends inside a scalar that starts at `valid_up_to` and is well formed so far.
    Incomplete { valid_up_to: usize },
}

/// Validating `s` from index `p` on, scalar by scalar.
pub open spec fn utf8_scan(s: Seq<u8>, p: int) -> Utf8Check
    decreases s.len() - p,
{
    if p < 0 || p >= s.len() {
        Utf8Check::Valid
    } else {
        let w = scalar_status(s, p);
        if w > 0 {
            utf8_scan(s, p + w)
        } else if w == 0 {
            Utf8Check::Invalid { valid_up_to: p as usize, error_len: error_len_at(s, p) as u8 }
        } else {
            Utf8Check::Incomplete { valid_up_to: p as usize }
        }
    }
}

/// Validating all of `s`.
pub open spec fn utf8_check_spec(s: Seq<u8>) -> Utf8Check {
    utf8_scan(s, 0)
}

proof fn lemma_scalar_status_range(s: Seq<u8>, p: int)
    requires
        0 <= p < s.len(),
    ensures
        -1 <= scalar_status(s, p) <= 4,
        scalar_status(s, p) > 0 ==> p + scalar_status(s, p) <= s.len(),
{
}

/// Unicode's table of well-formed sequences agrees with vstd's definition of a valid first scalar.
proof fn lemma_scalar_status_valid(t: Seq<u8>)
    requires
        t.len() > 0,
    ensures
        (scalar_status(t, 0) > 0) == valid_first_scalar(t),
        scalar_status(t, 0) > 0 ==> length_of_first_scalar(t) == scalar_status(t, 0),
{
    let b0 = t[0];
    if b0 < 0x80 {
        assert(((b0 & 0x7F) as u32) < 0xD800) by (bit_vector)
            requires
                b0 < 0x80,
        ;
    } else if 0xC0 <= b0 <= 0xDF {
        if t.len() >= 2 && is_cont(t[1]) {
            let b1 = t[1];
            assert(((((b0 & 0x1F) as u32) << 6u32) | ((b1 & 0x3F) as u32) >= 0x80) == (b0 >= 0xC2)
                && ((((b0 & 0x1F) as u32) << 6u32) | ((b1 & 0x3F) as u32)) < 0xD800) by (bit_vector)
                requires
                    0xC0 <= b0 <= 0xDF,
                    0x80 <= b1 <= 0xBF,
            ;
        }
    } else if 0xE0 <= b0 <= 0xEF {
        if t.len() >= 3 && is_cont(t[1]) && is_cont(t[2]) {
            let b1 = t[1];
            let b2 = t[2];
            assert({
                let cp = (((b0 & 0x0F) as u32) << 12u32) | (((b1 & 0x3F) as u32) << 6u32) | ((b2
                    & 0x3F) as u32);
                &&& (cp >= 0x800) == !(b0 == 0xE0 && b1 < 0xA0)
                &&& (0xD800 <= cp <= 0xDFFF) == (b0 == 0xED && b1 >= 0xA0)
            }) by (bit_vector)
                requires
                    0xE0 <= b0 <= 0xEF,
                    0x80 <= b1 <= 0xBF,
                    0x80 <= b2 <= 0xBF,
            ;
        }
    } else if 0xF0 <= b0 <= 0xF7 {
        if t.len() >= 4 && is_cont(t[1]) && is_cont(t[2]) && is_cont(t[3]) {
            let b1 = t[1];
            let b2 = t[2];
            let b3 = t[3];
            assert({
                let cp = (((b0 & 0x07) as u32) << 18u32) | (((b1 & 0x3F) as u32) << 12u32) | (((b2
                    & 0x3F) as u32) << 6u32) | ((b3 & 0x3F) as u32);
                (0x10000 <= cp <= 0x10ffff) == (b0 <= 0xF4 && !(b0 == 0xF0 && b1 < 0x90) && !(b0
                    == 0xF4 && b1 > 0x8F))
            }) by (bit_vector)
                requires
                    0xF0 <= b0 <= 0xF7,
                    0x80 <= b1 <= 0xBF,
                    0x80 <= b2 <= 0xBF,
                    0x80 <= b3 <= 0xBF,
            ;
        }
    }
}

/// Validating from `p` on finds no fault exactly when the rest of `s` is valid UTF-8.
pub proof fn lemma_utf8_scan_valid(s: Seq<u8>, p: int)
    requires
        0 <= p <= s.len(),
    ensures
        (utf8_scan(s, p) == Utf8Check::Valid) == valid_utf8(s.subrange(p, s.len() as int)),
    decreases s.len() - p,
{
    let t = s.subrange(p, s.len() as int);
    if p < s.len() {
        assert(t.len() > 0);
        lemma_scalar_status_valid(t);
        assert forall|k: int| 0 <= k < t.len() implies t[k] == s[p + k] by {}
        assert(scalar_status(t, 0) == scalar_status(s, p));
        let w = scalar_status(s, p);
        if w > 0 {
            lemma_scalar_status_range(s, p);
            lemma_utf8_scan_valid(s, p + w);
            assert(pop_first_scalar(t) =~= s.subrange(p + w, s.len() as int));
        }
    }
}

/// Where the scan of `s` from `p` stops, it stops inside `s`.
pub proof fn lemma_utf8_scan_bounds(s: Seq<u8>, p: int)
    requires
        0 <= p <= s.len() <= usize::MAX,
    ensures
        utf8_scan(s, p) matches Utf8Check::Invalid { valid_up_to, .. } ==> p <= valid_up_to < s.len(),
        utf8_scan(s, p) matches Utf8Check::Incomplete { valid_up_to } ==> p <= valid_up_to < s.len(),
        utf8_scan(s, p) matches Utf8Check::Invalid { valid_up_to, .. } ==> valid_utf8(
            s.subrange(p, valid_up_to as int),
        ),
        utf8_scan(s, p) matches Utf8Check::Incomplete { valid_up_to } ==> valid_utf8(
            s.subrange(p, valid_up_to as int),
        ),
    decreases s.len() - p,
{
    if p < s.len() {
        let w = scalar_status(s, p);
        lemma_scalar_status_range(s, p);
        if w > 0 {
            lemma_utf8_scan_bounds(s, p + w);
            let t = s.subrange(p, s.len() as int);
            lemma_scalar_status_valid(t);
            assert forall|k: int| 0 <= k < t.len() implies t[k] == s[p + k] by {}
            assert(scalar_status(t, 0) == w);
            match utf8_scan(s, p + w) {
                Utf8Check::Invalid { valid_up_to, .. } => {
                    let u = s.subrange(p, valid_up_to as int);
                    lemma_prefix_valid(s, p, w, valid_up_to as int);
                },
                Utf8Check::Incomplete { valid_up_to } => {
                    lemma_prefix_valid(s, p, w, valid_up_to as int);
                },
                _ => {},
            }
        } else {
            assert(s.subrange(p, p).len() == 0);
        }
    }
}

/// Where validating stopped: the start of the bad scalar, or the end of the input if all of it
/// is valid.
pub open spec fn stop_of(c: Utf8Check, n: int) -> int {
    match c {
        Utf8Check::Valid => n,
        Utf8Check::Invalid { valid_up_to, .. } => valid_up_to as int,
        Utf8Check::Incomplete { valid_up_to } => valid_up_to as int,
    }
}

/// Validating from `p` stops where the longest valid UTF-8 run from `p` ends: the bytes from
/// `p` up to the stop are valid, and no run from `p` that goes past the stop is. This is the
/// index std's `Utf8Error::valid_up_to` documents, the largest one up to which the input is
/// valid.
pub proof fn lemma_utf8_scan_longest(s: Seq<u8>, p: int, k: int)
    requires
        0 <= p <= s.len() <= usize::MAX,
        stop_of(utf8_scan(s, p), s.len() as int) < k <= s.len(),
    ensures
        valid_utf8(s.subrange(p, stop_of(utf8_scan(s, p), s.len() as int))),
        !valid_utf8(s.subrange(p, k)),
    decreases s.len() - p,
{
    lemma_utf8_scan_bounds(s, p);
    lemma_utf8_scan_valid(s, p);
    let w = scalar_status(s, p);
    lemma_scalar_status_range(s, p);
    let u = s.subrange(p, k);
    assert forall|j: int| 0 <= j < u.len() implies u[j] == s[p + j] by {}
    lemma_scalar_status_valid(u);
    if w > 0 {
        lemma_utf8_scan_bounds(s, p + w);
        lemma_utf8_scan_valid(s, p + w);
        assert(scalar_status(u, 0) == w);
        lemma_utf8_scan_longest(s, p + w, k);
        if valid_utf8(u) {
            assert(pop_first_scalar(u) =~= s.subrange(p + w, k));
        }
    } else {
        assert(scalar_status(u, 0) <= 0);
    }
}

/// A valid scalar of width `w` at `p` followed by valid UTF-8 up to `e` is valid UTF-8 from `p`.
proof fn lemma_prefix_valid(s: Seq<u8>, p: int, w: int, e: int)
    requires
        0 <= p < p + w <= e <= s.len(),
        scalar_status(s, p) == w,
        valid_utf8(s.subrange(p + w, e)),
    ensures
        valid_utf8(s.subrange(p, e)),
{
    let u = s.subrange(p, e);
    let t = s.subrange(p, s.len() as int);
    lemma_scalar_status_valid(t);
    assert forall|k: int| 0 <= k < t.len() implies t[k] == s[p + k] by {}
    assert(scalar_status(t, 0) == w);
    lemma_scalar_status_valid(u);
    assert forall|k: int| 0 <= k < u.len() implies u[k] == s[p + k] by {}
    // the first scalar of `u` is the one of `t`: it lies within the first `w` bytes
    assert(scalar_status(u, 0) == w);
    assert(pop_first_scalar(u) =~= s.subrange(p + w, e));
}

/// Validate `bytes` as UTF-8, reporting where the first bad scalar starts and whether the input
/// merely ends inside it.
pub fn utf8_check(bytes: &[u8]) -> (r: Utf8Check)
    ensures
        r == utf8_check_spec(bytes@),
{
    let n = bytes.len();
    let mut p: usize = 0;
    while p < n
        invariant
            n == bytes@.len(),
            p <= n,
            utf8_scan(bytes@, p as int) == utf8_scan(bytes@, 0),
        decreases n - p,
    {
        let b0 = bytes[p];
        let w: usize;
        if b0 < 0x80 {
            w = 1;
        } else if 0xC2 <= b0 && b0 <= 0xDF {
            if p + 1 >= n {
                return Utf8Check::Incomplete { valid_up_to: p };
            } else if 0x80 <= bytes[p + 1] && bytes[p + 1] <= 0xBF {
                w = 2;
            } else {
                return Utf8Check::Invalid { valid_up_to: p, error_len: 1 };
            }
        } else if 0xE0 <= b0 && b0 <= 0xEF {
            let lo: u8 = if b0 == 0xE0 {
                0xA0
            } else {
                0x80
            };
            let hi: u8 = if b0 == 0xED {
                0x9F
            } else {
                0xBF
            };
            if p + 1 >= n {
                return Utf8Check::Incomplete { valid_up_to: p };
            } else if !(lo <= bytes[p + 1] && bytes[p + 1] <= hi) {
                return Utf8Check::Invalid { valid_up_to: p, error_len: 1 };
            } else if p + 2 >= n {
                return Utf8Check::Incomplete { valid_up_to: p };
            } else if 0x80 <= bytes[p + 2] && bytes[p + 2] <= 0xBF {
                w = 3;
            } else {
                return Utf8Check::Invalid { valid_up_to: p, error_len: 2 };
            }
        } else if 0xF0 <= b0 && b0 <= 0xF4 {
            let lo: u8 = if b0 == 0xF0 {
                0x90
            } else {
                0x80
            };
            let hi: u8 = if b0 == 0xF4 {
                0x8F
            } else {
                0xBF
            };
            if p + 1 >= n {
                return Utf8Check::Incomplete { valid_up_to: p };
            } else if !(lo <= bytes[p + 1] && bytes[p + 1] <= hi) {
                return Utf8Check::Invalid { valid_up_to: p, error_len: 1 };
            } else if p + 2 >= n {
                return Utf8Check::Incomplete { valid_up_to: p };
            } else if !(0x80 <= bytes[p + 2] && bytes[p + 2] <= 0xBF) {
                return Utf8Check::Invalid { valid_up_to: p, error_len: 2 };
            } else if p + 3 >= n {
                return Utf8Check::Incomplete { valid_up_to: p };
            } else if 0x80 <= bytes[p + 3] && bytes[p + 3] <= 0xBF {
                w = 4;
            } else {
                return Utf8Check::Invalid { valid_up_to: p, error_len: 3 };
            }
        } else {
            return Utf8Check::Invalid { valid_up_to: p, error_len: 1 };
        }
        assert(scalar_status(bytes@, p as int) == w);
        p = p + w;
    }
    Utf8Check::Valid
}

/// The declaration of std's UTF-8 error type, which only passes through.
#[verifier::external_type_specification]
#[verifier::external_body]
pub struct ExUtf8Error(core::str::Utf8Error);

/// std's `core::str::from_utf8`: `Ok` exactly for valid UTF-8, and then the string holds the
/// same bytes. What the error says of an invalid input is not stated here; this crate finds the
/// position of the fault itself.
pub assume_specification[ core::str::from_utf8 ](v: &[u8]) -> (r: Result<&str, core::str::Utf8Error>)
    ensures
        r is Ok <==> valid_utf8(v@),
        r matches Ok(s) ==> s.spec_bytes() == v@,
;

/// The string that `bytes` hold, which are known to be valid UTF-8.
pub fn str_from_valid_utf8(bytes: &[u8]) -> (r: &str)
    requires
        valid_utf8(bytes@),
    ensures
        r.spec_bytes() == bytes@,
{
    match core::str::from_utf8(bytes) {
        Ok(s) => s,
        Err(_) => {
            assert(false);
            ""
        },
    }
}

/// Whether all bytes are ASCII.
pub open spec fn all_ascii(s: Seq<u8>) -> bool {
    forall|k: int| 0 <= k < s.len() ==> s[k] < 0x80
}

pub proof fn lemma_ascii_valid(s: Seq<u8>)
    requires
        all_ascii(s),
    ensures
        valid_utf8(s),
        utf8_check_spec(s) == Utf8Check::Valid,
    decreases s.len(),
{
    lemma_ascii_scan(s, 0);
    lemma_utf8_scan_valid(s, 0);
    assert(s.subrange(0, s.len() as int) =~= s);
}

proof fn lemma_ascii_scan(s: Seq<u8>, p: int)
    requires
        all_ascii(s),
        0 <= p <= s.len(),
    ensures
        utf8_scan(s, p) == Utf8Check::Valid,
    decreases s.len() - p,
{
    if p < s.len() {
        lemma_ascii_scan(s, p + 1);
    }
}

} // verus!
