//! Byte-level ASCII helpers shared by the request parser, the path sandbox
//! and the response writers: case folding, whitespace trimming, token
//! splitting, substring search, and decimal/hex numerals.

use vstd::prelude::*;

verus! {

/// ASCII whitespace, the separator set for request-line tokens and
/// header-value trimming.
pub open spec fn is_ws(b: u8) -> bool {
    b == 0x20 || b == 0x09 || b == 0x0a || b == 0x0b || b == 0x0c || b == 0x0d
}

pub fn is_ws_byte(b: u8) -> (r: bool)
    ensures
        r == is_ws(b),
{
    b == 0x20 || b == 0x09 || b == 0x0a || b == 0x0b || b == 0x0c || b == 0x0d
}

/// ASCII lower-casing of a single byte: `A`..`Z` map to `a`..`z`.
pub open spec fn lower_byte(b: u8) -> u8 {
    if 0x41 <= b && b <= 0x5a {
        (b + 0x20) as u8
    } else {
        b
    }
}

pub fn byte_to_lower(b: u8) -> (r: u8)
    ensures
        r == lower_byte(b),
{
    if 0x41 <= b && b <= 0x5a {
        b + 0x20
    } else {
        b
    }
}

/// Pointwise ASCII lower-casing of a byte string.
pub open spec fn lower_seq(s: Seq<u8>) -> Seq<u8> {
    Seq::new(s.len(), |i: int| lower_byte(s[i]))
}

/// Case-insensitive equality of byte strings, folding ASCII letters only.
pub open spec fn eq_ci(a: Seq<u8>, b: Seq<u8>) -> bool {
    a.len() == b.len() && forall|i: int| 0 <= i < a.len() ==> lower_byte(a[i]) == lower_byte(b[i])
}

pub proof fn lemma_eq_ci_is_lower_eq(a: Seq<u8>, b: Seq<u8>)
    ensures
        eq_ci(a, b) <==> lower_seq(a) == lower_seq(b),
{
    let la = lower_seq(a);
    let lb = lower_seq(b);
    if eq_ci(a, b) {
        assert forall|i: int| 0 <= i < la.len() implies la[i] == lb[i] by {
            assert(lower_byte(a[i]) == lower_byte(b[i]));
        }
        assert(la =~= lb);
    }
    if la == lb {
        assert(a.len() == la.len() && b.len() == lb.len());
        assert forall|i: int| 0 <= i < a.len() implies lower_byte(a[i]) == lower_byte(b[i]) by {
            assert(la[i] == lower_byte(a[i]));
            assert(lb[i] == lower_byte(b[i]));
        }
    }
}

/// Exact equality of two byte slices.
pub fn bytes_eq(a: &[u8], b: &[u8]) -> (r: bool)
    ensures
        r == (a@ == b@),
{
    if a.len() != b.len() {
        assert(a@ != b@);
        return false;
    }
    let mut i: usize = 0;
    while i < a.len()
        invariant
            0 <= i <= a.len(),
            a@.len() == b@.len(),
            forall|j: int| 0 <= j < i ==> a@[j] == b@[j],
        decreases a.len() - i,
    {
        if a[i] != b[i] {
            assert(a@ != b@);
            return false;
        }
        i += 1;
    }
    assert(a@ =~= b@);
    true
}

/// Case-insensitive equality of two byte slices.
pub fn bytes_eq_ci(a: &[u8], b: &[u8]) -> (r: bool)
    ensures
        r == eq_ci(a@, b@),
{
    if a.len() != b.len() {
        return false;
    }
    let mut i: usize = 0;
    while i < a.len()
        invariant
            0 <= i <= a.len(),
            a@.len() == b@.len(),
            forall|j: int| 0 <= j < i ==> lower_byte(a@[j]) == lower_byte(b@[j]),
        decreases a.len() - i,
    {
        if byte_to_lower(a[i]) != byte_to_lower(b[i]) {
            return false;
        }
        i += 1;
    }
    true
}

/// The pattern `pat` occurs in `s` at offset `i`.
pub open spec fn match_at(s: Seq<u8>, pat: Seq<u8>, i: int) -> bool {
    0 <= i && i + pat.len() <= s.len() && s.subrange(i, i + pat.len() as int) == pat
}

/// Offset of the first occurrence of `pat` in `s` at or after `i`.
pub open spec fn find_sub_from(s: Seq<u8>, pat: Seq<u8>, i: int) -> Option<int>
    recommends
        0 <= i,
    decreases s.len() - i,
{
    if pat.len() < 1 || i + pat.len() > s.len() || i > s.len() {
        None
    } else if match_at(s, pat, i) {
        Some(i)
    } else {
        find_sub_from(s, pat, i + 1)
    }
}

/// Offset of the first occurrence of `pat` in `s`.
pub open spec fn find_sub(s: Seq<u8>, pat: Seq<u8>) -> Option<int> {
    find_sub_from(s, pat, 0)
}

pub proof fn lemma_find_sub_from_spec(s: Seq<u8>, pat: Seq<u8>, i: int)
    requires
        0 <= i,
        pat.len() >= 1,
    ensures
        match find_sub_from(s, pat, i) {
            Some(j) => i <= j && match_at(s, pat, j) && forall|k: int|
                i <= k < j ==> !match_at(s, pat, k),
            None => forall|k: int| i <= k ==> !match_at(s, pat, k),
        },
    decreases s.len() - i,
{
    if i + pat.len() > s.len() || i > s.len() {
        assert forall|k: int| i <= k implies !match_at(s, pat, k) by {}
    } else if match_at(s, pat, i) {
    } else {
        lemma_find_sub_from_spec(s, pat, i + 1);
    }
}

/// Whether `pat` occurs at offset `i` of the slice `s`, checked byte by byte.
fn slice_match_at(s: &[u8], pat: &[u8], i: usize) -> (r: bool)
    requires
        i + pat@.len() <= s@.len(),
    ensures
        r == match_at(s@, pat@, i as int),
{
    let slen = s.len();
    let mut k: usize = 0;
    while k < pat.len()
        invariant
            0 <= k <= pat@.len(),
            i + pat@.len() <= slen,
            slen == s@.len(),
            forall|j: int| 0 <= j < k ==> s@[i + j] == pat@[j],
        decreases pat@.len() - k,
    {
        if s[i + k] != pat[k] {
            assert(s@.subrange(i as int, i + pat@.len() as int)[k as int] != pat@[k as int]);
            return false;
        }
        k += 1;
    }
    assert(s@.subrange(i as int, i + pat@.len() as int) =~= pat@);
    true
}

/// First occurrence of `pat` in `s`, as `find_sub` gives it.
pub fn find_subsequence(s: &[u8], pat: &[u8]) -> (r: Option<usize>)
    requires
        pat@.len() >= 1,
    ensures
        match r {
            Some(j) => find_sub(s@, pat@) == Some(j as int),
            None => find_sub(s@, pat@) is None,
        },
{
    if pat.len() > s.len() {
        return None;
    }
    let n = s.len();
    let last_start = n - pat.len();
    let mut i: usize = 0;
    while i <= last_start
        invariant
            0 <= i,
            n == s@.len(),
            last_start == n - pat@.len(),
            i <= last_start + 1,
            pat@.len() >= 1,
            find_sub(s@, pat@) == find_sub_from(s@, pat@, i as int),
        decreases last_start + 1 - i,
    {
        if slice_match_at(s, pat, i) {
            return Some(i);
        }
        i += 1;
    }
    None
}

/// The numeric value of an ASCII decimal digit.
pub open spec fn is_dec_digit(b: u8) -> bool {
    0x30 <= b && b <= 0x39
}

pub open spec fn all_dec_digits(s: Seq<u8>) -> bool {
    forall|i: int| 0 <= i < s.len() ==> is_dec_digit(s[i])
}

/// The integer a string of decimal digits denotes.
pub open spec fn dec_val(s: Seq<u8>) -> int
    decreases s.len(),
{
    if s.len() == 0 {
        0
    } else {
        dec_val(s.drop_last()) * 10 + (s.last() - 0x30)
    }
}

pub proof fn lemma_dec_val_nonneg(s: Seq<u8>)
    requires
        all_dec_digits(s),
    ensures
        dec_val(s) >= 0,
    decreases s.len(),
{
    if s.len() > 0 {
        assert(all_dec_digits(s.drop_last()));
        lemma_dec_val_nonneg(s.drop_last());
    }
}

pub proof fn lemma_dec_val_prefix_le(s: Seq<u8>, i: int)
    requires
        all_dec_digits(s),
        0 <= i <= s.len(),
    ensures
        dec_val(s.take(i)) <= dec_val(s),
    decreases s.len() - i,
{
    if i < s.len() {
        lemma_dec_val_prefix_le(s, i + 1);
        let t = s.take(i + 1);
        assert(t.drop_last() =~= s.take(i));
        assert(all_dec_digits(t.drop_last()));
        lemma_dec_val_nonneg(t.drop_last());
        assert(dec_val(t) == dec_val(s.take(i)) * 10 + (t.last() - 0x30));
        assert(dec_val(s.take(i)) <= dec_val(t));
    } else {
        assert(s.take(i) =~= s);
    }
}

/// Decimal parse of a byte string: defined exactly when the string is
/// nonempty, all digits, and the value fits in `usize`.
pub open spec fn parse_dec(s: Seq<u8>) -> Option<int> {
    if s.len() >= 1 && all_dec_digits(s) && dec_val(s) <= usize::MAX {
        Some(dec_val(s))
    } else {
        None
    }
}

/// Parses a nonempty all-digit byte string into a `usize`; `None` on a
/// non-digit, an empty string, or overflow.
pub fn parse_usize(s: &[u8]) -> (r: Option<usize>)
    ensures
        match r {
            Some(n) => parse_dec(s@) == Some(n as int),
            None => parse_dec(s@) is None,
        },
{
    if s.len() == 0 {
        return None;
    }
    let mut acc: usize = 0;
    let mut i: usize = 0;
    while i < s.len()
        invariant
            0 <= i <= s@.len(),
            all_dec_digits(s@.take(i as int)),
            acc as int == dec_val(s@.take(i as int)),
        decreases s.len() - i,
    {
        let b = s[i];
        if !(0x30 <= b && b <= 0x39) {
            assert(!is_dec_digit(s@[i as int]));
            return None;
        }
        let d = (b - 0x30) as usize;
        if acc > usize::MAX / 10 || (acc == usize::MAX / 10 && d > usize::MAX % 10) {
            // a longer digit string only grows the value
            proof {
                assert(s@.take(i as int + 1).drop_last() =~= s@.take(i as int));
                assert(dec_val(s@.take(i as int + 1)) == acc * 10 + d > usize::MAX);
                if all_dec_digits(s@) {
                    lemma_dec_val_prefix_le(s@, i as int + 1);
                }
            }
            return None;
        }
        proof {
            assert(s@.take(i as int + 1).drop_last() =~= s@.take(i as int));
            assert(acc * 10 + d <= usize::MAX) by (nonlinear_arith)
                requires
                    acc <= usize::MAX / 10,
                    d <= 9,
                    !(acc == usize::MAX / 10 && d > usize::MAX % 10),
                    acc >= 0,
            {
                assert(usize::MAX == (usize::MAX / 10) * 10 + usize::MAX % 10);
            }
        }
        acc = acc * 10 + d;
        i += 1;
    }
    proof {
        assert(s@.take(i as int) =~= s@);
    }
    Some(acc)
}

/// Decimal parse into a `u64`: defined exactly when the string is
/// nonempty, all digits, and the value fits.
pub open spec fn parse_dec_u64(s: Seq<u8>) -> Option<int> {
    if s.len() >= 1 && all_dec_digits(s) && dec_val(s) <= u64::MAX {
        Some(dec_val(s))
    } else {
        None
    }
}

/// Parses a nonempty all-digit byte string into a `u64`; `None` on a
/// non-digit, an empty string, or overflow.
pub fn parse_u64(s: &[u8]) -> (r: Option<u64>)
    ensures
        match r {
            Some(n) => parse_dec_u64(s@) == Some(n as int),
            None => parse_dec_u64(s@) is None,
        },
{
    if s.len() == 0 {
        return None;
    }
    let mut acc: u64 = 0;
    let mut i: usize = 0;
    while i < s.len()
        invariant
            0 <= i <= s@.len(),
            all_dec_digits(s@.take(i as int)),
            acc as int == dec_val(s@.take(i as int)),
        decreases s.len() - i,
    {
        let b = s[i];
        if !(0x30 <= b && b <= 0x39) {
            assert(!is_dec_digit(s@[i as int]));
            return None;
        }
        let d = (b - 0x30) as u64;
        if acc > u64::MAX / 10 || (acc == u64::MAX / 10 && d > u64::MAX % 10) {
            proof {
                assert(s@.take(i as int + 1).drop_last() =~= s@.take(i as int));
                assert(dec_val(s@.take(i as int + 1)) == acc * 10 + d > u64::MAX);
                if all_dec_digits(s@) {
                    lemma_dec_val_prefix_le(s@, i as int + 1);
                }
            }
            return None;
        }
        proof {
            assert(s@.take(i as int + 1).drop_last() =~= s@.take(i as int));
            assert(acc * 10 + d <= u64::MAX) by (nonlinear_arith)
                requires
                    acc <= u64::MAX / 10,
                    d <= 9,
                    !(acc == u64::MAX / 10 && d > u64::MAX % 10),
                    acc >= 0,
            {
                assert(u64::MAX == (u64::MAX / 10) * 10 + u64::MAX % 10);
            }
        }
        acc = acc * 10 + d;
        i += 1;
    }
    proof {
        assert(s@.take(i as int) =~= s@);
    }
    Some(acc)
}

/// The ASCII byte for a decimal digit value.
pub open spec fn dec_digit(d: int) -> u8 {
    (0x30 + d) as u8
}

/// The decimal numeral of a nonnegative integer, most significant digit
/// first, with no leading zeroes (a single `0` for zero).
pub open spec fn dec_of(n: int) -> Seq<u8>
    recommends
        n >= 0,
    decreases n,
{
    if n < 10 {
        seq![dec_digit(n)]
    } else {
        dec_of(n / 10) + seq![dec_digit(n % 10)]
    }
}

/// Appends the decimal numeral of `n` to `out`.
pub fn push_dec(n: usize, out: &mut Vec<u8>)
    ensures
        final(out)@ == old(out)@ + dec_of(n as int),
    decreases n,
{
    if n < 10 {
        out.push(0x30 + n as u8);
        assert(out@ =~= old(out)@ + dec_of(n as int));
    } else {
        let ghost mid = out@ + dec_of(n as int / 10);
        push_dec(n / 10, out);
        out.push(0x30 + (n % 10) as u8);
        assert(out@ =~= old(out)@ + dec_of(n as int));
    }
}

/// The decimal numeral of `n`, as a fresh byte vector.
pub fn usize_to_dec(n: usize) -> (r: Vec<u8>)
    ensures
        r@ == dec_of(n as int),
{
    let mut out: Vec<u8> = Vec::new();
    push_dec(n, &mut out);
    assert(out@ =~= dec_of(n as int));
    out
}

/// The ASCII byte for a hex digit value, lower case.
pub open spec fn hex_digit(d: int) -> u8 {
    if d < 10 {
        (0x30 + d) as u8
    } else {
        (0x57 + d) as u8
    }
}

/// The lower-case hex numeral of a nonnegative integer, no leading zeroes.
pub open spec fn hex_of(n: int) -> Seq<u8>
    recommends
        n >= 0,
    decreases n,
{
    if n < 16 {
        seq![hex_digit(n)]
    } else {
        hex_of(n / 16) + seq![hex_digit(n % 16)]
    }
}

fn hex_digit_byte(d: usize) -> (r: u8)
    requires
        d < 16,
    ensures
        r == hex_digit(d as int),
{
    if d < 10 {
        0x30 + d as u8
    } else {
        0x57 + d as u8
    }
}

/// Appends the lower-case hex numeral of `n` to `out`.
pub fn push_hex(n: usize, out: &mut Vec<u8>)
    ensures
        final(out)@ == old(out)@ + hex_of(n as int),
    decreases n,
{
    if n < 16 {
        let b = hex_digit_byte(n);
        out.push(b);
        assert(out@ =~= old(out)@ + hex_of(n as int));
    } else {
        push_hex(n / 16, out);
        let b = hex_digit_byte(n % 16);
        out.push(b);
        assert(out@ =~= old(out)@ + hex_of(n as int));
    }
}

/// The value of an ASCII hex digit (either case), if it is one.
pub open spec fn hex_nibble(b: u8) -> Option<u8> {
    if 0x30 <= b && b <= 0x39 {
        Some((b - 0x30) as u8)
    } else if 0x41 <= b && b <= 0x46 {
        Some((b - 0x41 + 10) as u8)
    } else if 0x61 <= b && b <= 0x66 {
        Some((b - 0x61 + 10) as u8)
    } else {
        None
    }
}

pub fn hex_nibble_of(b: u8) -> (r: Option<u8>)
    ensures
        r == hex_nibble(b),
{
    if 0x30 <= b && b <= 0x39 {
        Some(b - 0x30)
    } else if 0x41 <= b && b <= 0x46 {
        Some(b - 0x41 + 10)
    } else if 0x61 <= b && b <= 0x66 {
        Some(b - 0x61 + 10)
    } else {
        None
    }
}

/// A UTF-8 continuation byte.
pub open spec fn is_utf8_cont(b: u8) -> bool {
    0x80 <= b && b <= 0xbf
}

/// Well-formed UTF-8: the byte sequences RFC 3629 admits, with the
/// surrogate range and values above U+10FFFF excluded by the bounds on the
/// byte after each leading byte.
pub open spec fn is_utf8(s: Seq<u8>) -> bool
    decreases s.len(),
{
    if s.len() == 0 {
        true
    } else {
        let b0 = s[0];
        if b0 <= 0x7f {
            is_utf8(s.skip(1))
        } else if 0xc2 <= b0 && b0 <= 0xdf {
            if s.len() < 2 {
                false
            } else {
                is_utf8_cont(s[1]) && is_utf8(s.skip(2))
            }
        } else if b0 == 0xe0 {
            if s.len() < 3 {
                false
            } else {
                0xa0 <= s[1] && s[1] <= 0xbf && is_utf8_cont(s[2]) && is_utf8(s.skip(3))
            }
        } else if 0xe1 <= b0 && b0 <= 0xec {
            if s.len() < 3 {
                false
            } else {
                is_utf8_cont(s[1]) && is_utf8_cont(s[2]) && is_utf8(s.skip(3))
            }
        } else if b0 == 0xed {
            if s.len() < 3 {
                false
            } else {
                0x80 <= s[1] && s[1] <= 0x9f && is_utf8_cont(s[2]) && is_utf8(s.skip(3))
            }
        } else if 0xee <= b0 && b0 <= 0xef {
            if s.len() < 3 {
                false
            } else {
                is_utf8_cont(s[1]) && is_utf8_cont(s[2]) && is_utf8(s.skip(3))
            }
        } else if b0 == 0xf0 {
            if s.len() < 4 {
                false
            } else {
                0x90 <= s[1] && s[1] <= 0xbf && is_utf8_cont(s[2]) && is_utf8_cont(s[3])
                    && is_utf8(s.skip(4))
            }
        } else if 0xf1 <= b0 && b0 <= 0xf3 {
            if s.len() < 4 {
                false
            } else {
                is_utf8_cont(s[1]) && is_utf8_cont(s[2]) && is_utf8_cont(s[3]) && is_utf8(
                    s.skip(4),
                )
            }
        } else if b0 == 0xf4 {
            if s.len() < 4 {
                false
            } else {
                0x80 <= s[1] && s[1] <= 0x8f && is_utf8_cont(s[2]) && is_utf8_cont(s[3])
                    && is_utf8(s.skip(4))
            }
        } else {
            false
        }
    }
}

fn utf8_cont_byte(b: u8) -> (r: bool)
    ensures
        r == is_utf8_cont(b),
{
    0x80 <= b && b <= 0xbf
}

/// Checks that `s` is well-formed UTF-8.
pub fn is_utf8_bytes(s: &[u8]) -> (r: bool)
    ensures
        r == is_utf8(s@),
{
    let n = s.len();
    let mut i: usize = 0;
    proof {
        assert(s@.skip(0) =~= s@);
    }
    while i < n
        invariant
            0 <= i <= n,
            n == s@.len(),
            is_utf8(s@) == is_utf8(s@.skip(i as int)),
        decreases n - i,
    {
        let ghost u = s@.skip(i as int);
        let b0 = s[i];
        proof {
            assert(u[0] == s@[i as int]);
        }
        if b0 <= 0x7f {
            proof {
                assert(u.skip(1) =~= s@.skip(i as int + 1));
            }
            i += 1;
        } else if 0xc2 <= b0 && b0 <= 0xdf {
            if n - i < 2 {
                return false;
            }
            let ok = utf8_cont_byte(s[i + 1]);
            proof {
                assert(u[1] == s@[i as int + 1]);
                assert(u.skip(2) =~= s@.skip(i as int + 2));
            }
            if !ok {
                return false;
            }
            i += 2;
        } else if b0 == 0xe0 || (0xe1 <= b0 && b0 <= 0xec) || b0 == 0xed || (0xee <= b0 && b0
            <= 0xef) {
            if n - i < 3 {
                return false;
            }
            let b1 = s[i + 1];
            let b2 = s[i + 2];
            let ok1 = if b0 == 0xe0 {
                0xa0 <= b1 && b1 <= 0xbf
            } else if b0 == 0xed {
                0x80 <= b1 && b1 <= 0x9f
            } else {
                utf8_cont_byte(b1)
            };
            let ok2 = utf8_cont_byte(b2);
            proof {
                assert(u[1] == s@[i as int + 1]);
                assert(u[2] == s@[i as int + 2]);
                assert(u.skip(3) =~= s@.skip(i as int + 3));
            }
            if !(ok1 && ok2) {
                return false;
            }
            i += 3;
        } else if 0xf0 <= b0 && b0 <= 0xf4 {
            if n - i < 4 {
                return false;
            }
            let b1 = s[i + 1];
            let b2 = s[i + 2];
            let b3 = s[i + 3];
            let ok1 = if b0 == 0xf0 {
                0x90 <= b1 && b1 <= 0xbf
            } else if b0 == 0xf4 {
                0x80 <= b1 && b1 <= 0x8f
            } else {
                utf8_cont_byte(b1)
            };
            let ok2 = utf8_cont_byte(b2);
            let ok3 = utf8_cont_byte(b3);
            proof {
                assert(u[1] == s@[i as int + 1]);
                assert(u[2] == s@[i as int + 2]);
                assert(u[3] == s@[i as int + 3]);
                assert(u.skip(4) =~= s@.skip(i as int + 4));
            }
            if !(ok1 && ok2 && ok3) {
                return false;
            }
            i += 4;
        } else {
            return false;
        }
    }
    proof {
        assert(s@.skip(n as int) =~= Seq::<u8>::empty());
    }
    true
}

/// `s` with leading ASCII whitespace removed.
pub open spec fn trim_front(s: Seq<u8>) -> Seq<u8>
    decreases s.len(),
{
    if s.len() > 0 && is_ws(s.first()) {
        trim_front(s.drop_first())
    } else {
        s
    }
}

/// `s` with trailing ASCII whitespace removed.
pub open spec fn trim_back(s: Seq<u8>) -> Seq<u8>
    decreases s.len(),
{
    if s.len() > 0 && is_ws(s.last()) {
        trim_back(s.drop_last())
    } else {
        s
    }
}

/// `s` with surrounding ASCII whitespace removed.
pub open spec fn trim(s: Seq<u8>) -> Seq<u8> {
    trim_back(trim_front(s))
}

proof fn lemma_trim_front_skip(s: Seq<u8>, i: int)
    requires
        0 <= i <= s.len(),
        forall|j: int| 0 <= j < i ==> is_ws(s[j]),
    ensures
        trim_front(s) == trim_front(s.skip(i)),
    decreases i,
{
    if i > 0 {
        assert(is_ws(s.first()));
        assert(s.drop_first() =~= s.skip(1));
        lemma_trim_front_skip(s.skip(1), i - 1);
        assert(s.skip(1).skip(i - 1) =~= s.skip(i));
    } else {
        assert(s.skip(0) =~= s);
    }
}

proof fn lemma_trim_back_take(s: Seq<u8>, i: int)
    requires
        0 <= i <= s.len(),
        forall|j: int| i <= j < s.len() ==> is_ws(s[j]),
    ensures
        trim_back(s) == trim_back(s.take(i)),
    decreases s.len() - i,
{
    if i < s.len() {
        assert(is_ws(s.last()));
        assert(s.drop_last() =~= s.take(s.len() - 1));
        lemma_trim_back_take(s.take(s.len() - 1), i);
        assert(s.take(s.len() - 1).take(i) =~= s.take(i));
    } else {
        assert(s.take(i) =~= s);
    }
}

/// Copies `s[lo..hi]` into a fresh vector.
pub fn subrange_to_vec(s: &[u8], lo: usize, hi: usize) -> (r: Vec<u8>)
    requires
        0 <= lo <= hi <= s@.len(),
    ensures
        r@ == s@.subrange(lo as int, hi as int),
{
    let mut out: Vec<u8> = Vec::new();
    let mut i: usize = lo;
    while i < hi
        invariant
            lo <= i <= hi <= s@.len(),
            out@ == s@.subrange(lo as int, i as int),
        decreases hi - i,
    {
        out.push(s[i]);
        assert(out@ =~= s@.subrange(lo as int, i + 1));
        i += 1;
    }
    out
}

/// The segments of `s` between occurrences of the byte `sep`, in order.
pub open spec fn split_byte(s: Seq<u8>, sep: u8) -> Seq<Seq<u8>>
    decreases s.len(),
    via split_byte_decreases
{
    match find_sub(s, seq![sep]) {
        None => seq![s],
        Some(i) => seq![s.take(i)] + split_byte(s.skip(i + 1), sep),
    }
}

#[via_fn]
proof fn split_byte_decreases(s: Seq<u8>, sep: u8) {
    lemma_find_sub_from_spec(s, seq![sep], 0);
    match find_sub(s, seq![sep]) {
        None => {},
        Some(i) => {
            assert(match_at(s, seq![sep], i));
        },
    }
}

/// The byte strings a sequence of byte vectors holds.
pub open spec fn seqs_view(v: Seq<Vec<u8>>) -> Seq<Seq<u8>> {
    Seq::new(v.len(), |i: int| v[i]@)
}

/// Splits a byte slice at every occurrence of `sep`.
pub fn split_on_byte(s: &[u8], sep: u8) -> (r: Vec<Vec<u8>>)
    ensures
        seqs_view(r@) == split_byte(s@, sep),
{
    let mut out: Vec<Vec<u8>> = Vec::new();
    let mut rest: Vec<u8> = subrange_to_vec(s, 0, s.len());
    proof {
        assert(rest@ =~= s@);
        assert(seqs_view(out@) + split_byte(rest@, sep) =~= split_byte(s@, sep));
    }
    loop
        invariant_except_break
            seqs_view(out@) + split_byte(rest@, sep) == split_byte(s@, sep),
        ensures
            seqs_view(out@) == split_byte(s@, sep),
        decreases rest@.len(),
    {
        let mut pat: Vec<u8> = Vec::new();
        pat.push(sep);
        proof {
            assert(pat@ =~= seq![sep]);
        }
        let found = find_subsequence(rest.as_slice(), pat.as_slice());
        match found {
            Some(i) => {
                proof {
                    lemma_find_sub_from_spec(rest@, seq![sep], 0);
                    assert(match_at(rest@, seq![sep], i as int));
                }
                let seg = subrange_to_vec(rest.as_slice(), 0, i);
                let ghost before = seqs_view(out@);
                let ghost old_rest = rest@;
                out.push(seg);
                let n = rest.len();
                rest = subrange_to_vec(rest.as_slice(), i + 1, n);
                proof {
                    assert(seqs_view(out@) =~= before + seq![old_rest.take(i as int)]);
                    assert(rest@ =~= old_rest.skip(i + 1));
                    assert(before + seq![old_rest.take(i as int)] + split_byte(
                        old_rest.skip(i + 1),
                        sep,
                    ) =~= before + (seq![old_rest.take(i as int)] + split_byte(
                        old_rest.skip(i + 1),
                        sep,
                    )));
                }
            },
            None => {
                let ghost before = seqs_view(out@);
                let ghost last = rest@;
                out.push(rest);
                proof {
                    assert(split_byte(last, sep) == seq![last]);
                    assert(seqs_view(out@) =~= before + seq![last]);
                }
                break ;
            },
        }
    }
    out
}

/// Case-insensitive equality is symmetric.
pub proof fn lemma_eq_ci_sym(a: Seq<u8>, b: Seq<u8>)
    ensures
        eq_ci(a, b) == eq_ci(b, a),
{
}

/// Case-insensitive equality is transitive.
pub proof fn lemma_eq_ci_trans(a: Seq<u8>, b: Seq<u8>, c: Seq<u8>)
    requires
        eq_ci(a, b),
        eq_ci(b, c),
    ensures
        eq_ci(a, c),
{
    assert forall|i: int| 0 <= i < a.len() implies lower_byte(a[i]) == lower_byte(c[i]) by {
        assert(lower_byte(a[i]) == lower_byte(b[i]));
        assert(lower_byte(b[i]) == lower_byte(c[i]));
    }
}

/// Pins the first occurrence: a match at `k` with none before it.
pub proof fn lemma_find_sub_pin(s: Seq<u8>, pat: Seq<u8>, k: int)
    requires
        pat.len() >= 1,
        match_at(s, pat, k),
        forall|j: int| 0 <= j < k ==> !match_at(s, pat, j),
    ensures
        find_sub(s, pat) == Some(k),
{
    lemma_find_sub_from_spec(s, pat, 0);
    match find_sub(s, pat) {
        Some(j) => {
            if j < k {
                assert(match_at(s, pat, j));
            }
            if j > k {
                assert(!match_at(s, pat, k));
            }
        },
        None => {
            assert(!match_at(s, pat, k));
        },
    }
}

/// Splitting distributes over joining with one separator between.
pub proof fn lemma_split_byte_join(a: Seq<u8>, b: Seq<u8>, sep: u8)
    ensures
        split_byte(a + seq![sep] + b, sep) == split_byte(a, sep) + split_byte(b, sep),
    decreases a.len(),
{
    let joined = a + seq![sep] + b;
    lemma_find_sub_from_spec(a, seq![sep], 0);
    match find_sub(a, seq![sep]) {
        None => {
            // the separator after `a` is the first one in the joined path
            assert(joined.subrange(a.len() as int, a.len() as int + 1) =~= seq![sep]);
            assert(match_at(joined, seq![sep], a.len() as int));
            assert forall|j: int| 0 <= j < a.len() implies !match_at(joined, seq![sep], j) by {
                if 0 <= j < a.len() {
                    assert(!match_at(a, seq![sep], j));
                    assert(joined.subrange(j, j + 1) =~= a.subrange(j, j + 1));
                }
            }
            lemma_find_sub_pin(joined, seq![sep], a.len() as int);
            assert(joined.take(a.len() as int) =~= a);
            assert(joined.skip(a.len() as int + 1) =~= b);
            assert(split_byte(joined, sep) == seq![a] + split_byte(b, sep));
            assert(seq![a] + split_byte(b, sep) =~= split_byte(a, sep) + split_byte(b, sep));
        },
        Some(i) => {
            assert(match_at(a, seq![sep], i));
            assert(joined.subrange(i, i + 1) =~= a.subrange(i, i + 1));
            assert(match_at(joined, seq![sep], i));
            assert forall|j: int| 0 <= j < i implies !match_at(joined, seq![sep], j) by {
                if 0 <= j < i {
                    assert(!match_at(a, seq![sep], j));
                    assert(joined.subrange(j, j + 1) =~= a.subrange(j, j + 1));
                }
            }
            lemma_find_sub_pin(joined, seq![sep], i);
            assert(joined.take(i) =~= a.take(i));
            assert(joined.skip(i + 1) =~= a.skip(i + 1) + seq![sep] + b);
            lemma_split_byte_join(a.skip(i + 1), b, sep);
            assert(split_byte(joined, sep) == seq![a.take(i)] + (split_byte(a.skip(i + 1), sep)
                + split_byte(b, sep)));
            assert(seq![a.take(i)] + (split_byte(a.skip(i + 1), sep) + split_byte(b, sep)) =~= (
            seq![a.take(i)] + split_byte(a.skip(i + 1), sep)) + split_byte(b, sep));
        },
    }
}

/// No segment of a split holds the separator.
pub proof fn lemma_split_segments_free(s: Seq<u8>, sep: u8)
    ensures
        forall|si: int|
            0 <= si < split_byte(s, sep).len() ==> !contains_byte(
                #[trigger] split_byte(s, sep)[si],
                sep,
            ),
    decreases s.len(),
{
    lemma_find_sub_from_spec(s, seq![sep], 0);
    match find_sub(s, seq![sep]) {
        None => {
            assert forall|j: int| 0 <= j < s.len() implies s[j] != sep by {
                if s[j] == sep {
                    assert(s.subrange(j, j + 1) =~= seq![sep]);
                    assert(match_at(s, seq![sep], j));
                }
            }
            assert(!contains_byte(s, sep));
        },
        Some(i) => {
            assert(match_at(s, seq![sep], i));
            let head = s.take(i);
            assert forall|j: int| 0 <= j < head.len() implies head[j] != sep by {
                if head[j] == sep {
                    assert(s.subrange(j, j + 1) =~= seq![sep]);
                    assert(match_at(s, seq![sep], j));
                }
            }
            assert(!contains_byte(head, sep));
            lemma_split_segments_free(s.skip(i + 1), sep);
            assert forall|si: int|
                0 <= si < split_byte(s, sep).len() implies !contains_byte(
                    split_byte(s, sep)[si],
                    sep,
                ) by {
                if si == 0 {
                } else {
                    assert(split_byte(s, sep)[si] == split_byte(s.skip(i + 1), sep)[si - 1]);
                }
            }
        },
    }
}

/// Trimming never introduces a byte.
pub proof fn lemma_trim_front_no_byte(s: Seq<u8>, b: u8)
    requires
        !contains_byte(s, b),
    ensures
        !contains_byte(trim_front(s), b),
    decreases s.len(),
{
    if s.len() > 0 && is_ws(s.first()) {
        assert forall|j: int| 0 <= j < s.drop_first().len() implies s.drop_first()[j] != b by {
            assert(s.drop_first()[j] == s[j + 1]);
        }
        lemma_trim_front_no_byte(s.drop_first(), b);
    }
}

pub proof fn lemma_trim_back_no_byte(s: Seq<u8>, b: u8)
    requires
        !contains_byte(s, b),
    ensures
        !contains_byte(trim_back(s), b),
    decreases s.len(),
{
    if s.len() > 0 && is_ws(s.last()) {
        assert forall|j: int| 0 <= j < s.drop_last().len() implies s.drop_last()[j] != b by {
            assert(s.drop_last()[j] == s[j]);
        }
        lemma_trim_back_no_byte(s.drop_last(), b);
    }
}

pub proof fn lemma_trim_no_byte(s: Seq<u8>, b: u8)
    requires
        !contains_byte(s, b),
    ensures
        !contains_byte(trim(s), b),
{
    lemma_trim_front_no_byte(s, b);
    lemma_trim_back_no_byte(trim_front(s), b);
}

/// Whether `s` holds the byte `b`.
pub open spec fn contains_byte(s: Seq<u8>, b: u8) -> bool {
    exists|i: int| 0 <= i < s.len() && s[i] == b
}

pub fn scan_for_byte(s: &[u8], b: u8) -> (r: bool)
    ensures
        r == contains_byte(s@, b),
{
    let mut i: usize = 0;
    while i < s.len()
        invariant
            0 <= i <= s@.len(),
            forall|j: int| 0 <= j < i ==> s@[j] != b,
        decreases s@.len() - i,
    {
        if s[i] == b {
            return true;
        }
        i += 1;
    }
    false
}

/// Appends all of `s` to `out`.
pub fn push_bytes(out: &mut Vec<u8>, s: &[u8])
    ensures
        final(out)@ == old(out)@ + s@,
{
    let ghost base = out@;
    let mut i: usize = 0;
    while i < s.len()
        invariant
            0 <= i <= s@.len(),
            out@ == base + s@.take(i as int),
        decreases s@.len() - i,
    {
        out.push(s[i]);
        proof {
            assert(out@ =~= base + s@.take(i + 1));
        }
        i += 1;
    }
    proof {
        assert(base + s@.take(s@.len() as int) =~= base + s@);
    }
}

/// Copies `s` with surrounding ASCII whitespace removed.
pub fn trim_bytes(s: &[u8]) -> (r: Vec<u8>)
    ensures
        r@ == trim(s@),
{
    let mut lo: usize = 0;
    while lo < s.len() && is_ws_byte(s[lo])
        invariant
            0 <= lo <= s@.len(),
            forall|j: int| 0 <= j < lo ==> is_ws(s@[j]),
        decreases s.len() - lo,
    {
        lo += 1;
    }
    proof {
        lemma_trim_front_skip(s@, lo as int);
        // the remaining head byte, if any, is not whitespace
        assert(trim_front(s@.skip(lo as int)) == s@.skip(lo as int));
    }
    let mut hi: usize = s.len();
    while hi > lo && is_ws_byte(s[hi - 1])
        invariant
            lo <= hi <= s@.len(),
            forall|j: int| hi <= j < s@.len() ==> is_ws(s@[j]),
        decreases hi,
    {
        hi -= 1;
    }
    proof {
        let t = s@.skip(lo as int);
        assert forall|j: int| (hi - lo) <= j < t.len() implies is_ws(t[j]) by {
            assert(t[j] == s@[j + lo]);
        }
        lemma_trim_back_take(t, hi - lo);
        assert(trim_back(t.take(hi - lo)) == t.take(hi - lo)) by {
            if hi > lo {
                assert(t.take(hi - lo).last() == s@[hi - 1]);
            }
        }
        assert(t.take(hi - lo) =~= s@.subrange(lo as int, hi as int));
    }
    subrange_to_vec(s, lo, hi)
}

} // verus!
