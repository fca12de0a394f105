//! Response compression: Accept-Encoding parsing with q-values sorted
//! descending, selection of the first recognized coding, and a middleware
//! that swaps the body for its compressed form and redeclares the length.
//!
//! Quality values are held in thousandths: every q-value HTTP allows has at
//! most three decimals, so this loses nothing.

use vstd::prelude::*;

use crate::ascii::{
    all_dec_digits, dec_val, eq_ci, find_sub, parse_dec, split_byte, trim,
};
use crate::headers::{spec_get_ci, spec_remove_ci, HeaderMap};
use crate::writer::{HttpBody, HttpWritable};

verus! {

/// Supported content codings.
#[derive(Debug, Clone, Copy, PartialEq, Eq, Structural)]
pub enum HttpEncoding {
    Gzip,
    Deflate,
    Brotli,
    Identity,
}

/// The name of a coding as it stands in Content-Encoding.
pub open spec fn encoding_bytes(e: HttpEncoding) -> Seq<u8> {
    match e {
        HttpEncoding::Gzip => seq![103u8, 122, 105, 112],
        HttpEncoding::Deflate => seq![100u8, 101, 102, 108, 97, 116, 101],
        HttpEncoding::Brotli => seq![98u8, 114, 111, 116, 108, 105],
        HttpEncoding::Identity => seq![105u8, 100, 101, 110, 116, 105, 116, 121],
    }
}

/// The coding an Accept-Encoding token names, compared case-insensitively;
/// `br` and `brotli` both name brotli.
pub open spec fn encoding_of_token(t: Seq<u8>) -> Option<HttpEncoding> {
    if eq_ci(t, seq![103u8, 122, 105, 112]) {
        Some(HttpEncoding::Gzip)
    } else if eq_ci(t, seq![100u8, 101, 102, 108, 97, 116, 101]) {
        Some(HttpEncoding::Deflate)
    } else if eq_ci(t, seq![98u8, 114]) || eq_ci(t, seq![98u8, 114, 111, 116, 108, 105]) {
        Some(HttpEncoding::Brotli)
    } else {
        None
    }
}

/// The first three fraction digits, scaled to thousandths.
pub open spec fn frac3_of(fs: Seq<u8>) -> int {
    if fs.len() >= 3 {
        dec_val(fs.take(3))
    } else if fs.len() == 2 {
        dec_val(fs) * 10
    } else if fs.len() == 1 {
        dec_val(fs) * 100
    } else {
        0
    }
}

/// A q-value in thousandths: integer part and up to three fraction digits;
/// a malformed value counts as 1.0, and anything at or above 1000 clamps.
pub open spec fn q_milli_of(v: Seq<u8>) -> int {
    let dot = find_sub(v, seq![46u8]);
    let ip_s = match dot {
        None => v,
        Some(i) => v.take(i),
    };
    let fr_s = match dot {
        None => Seq::<u8>::empty(),
        Some(i) => v.skip(i + 1),
    };
    match parse_dec(ip_s) {
        None => 1000,
        Some(ip) => if !all_dec_digits(fr_s) {
            1000
        } else if ip >= 1000 {
            1000000
        } else {
            ip * 1000 + frac3_of(fr_s)
        },
    }
}

/// The name and q-value of one Accept-Encoding item: the part before any
/// `;`, trimmed, and the value of a trimmed `q=` parameter; no parameter
/// means 1.0, an empty name counts as q zero.
pub open spec fn token_q(item: Seq<u8>) -> (Seq<u8>, int) {
    let parts = split_byte(item, 59);
    let name = trim(parts[0]);
    if name.len() == 0 {
        (name, 0)
    } else if parts.len() > 1 {
        let p1 = trim(parts[1]);
        if p1.len() >= 2 && p1.take(2) == seq![113u8, 61u8] {
            (name, q_milli_of(p1.skip(2)))
        } else {
            (name, 1000)
        }
    } else {
        (name, 1000)
    }
}

/// The items with positive quality, in header order.
pub open spec fn pos_items(segs: Seq<Seq<u8>>) -> Seq<(Seq<u8>, int)>
    decreases segs.len(),
{
    if segs.len() == 0 {
        Seq::empty()
    } else {
        let it = token_q(segs.first());
        (if it.1 > 0 {
            seq![it]
        } else {
            Seq::<(Seq<u8>, int)>::empty()
        }) + pos_items(segs.drop_first())
    }
}

/// Stable descending insertion: `x` lands after every at-least-as-good item.
pub open spec fn insert_desc(xs: Seq<(Seq<u8>, int)>, x: (Seq<u8>, int)) -> Seq<(Seq<u8>, int)>
    decreases xs.len(),
{
    if xs.len() == 0 {
        seq![x]
    } else if xs.first().1 >= x.1 {
        seq![xs.first()] + insert_desc(xs.drop_first(), x)
    } else {
        seq![x] + xs
    }
}

/// Stable descending sort by quality.
pub open spec fn sort_desc(xs: Seq<(Seq<u8>, int)>) -> Seq<(Seq<u8>, int)>
    decreases xs.len(),
{
    if xs.len() == 0 {
        Seq::empty()
    } else {
        insert_desc(sort_desc(xs.drop_last()), xs.last())
    }
}

/// The recognized codings of a sorted item list, qualities kept.
pub open spec fn encodings_of(xs: Seq<(Seq<u8>, int)>) -> Seq<(HttpEncoding, int)>
    decreases xs.len(),
{
    if xs.len() == 0 {
        Seq::empty()
    } else {
        (match encoding_of_token(xs.first().0) {
            Some(e) => seq![(e, xs.first().1)],
            None => Seq::<(HttpEncoding, int)>::empty(),
        }) + encodings_of(xs.drop_first())
    }
}

/// What parsing an Accept-Encoding header yields: the recognized codings
/// with positive quality, best first, ties in header order.
pub open spec fn accept_encoding_spec(h: Seq<u8>) -> Seq<(HttpEncoding, int)> {
    encodings_of(sort_desc(pos_items(split_byte(h, 44))))
}

/// The views of a parsed item list.
pub open spec fn q_items_view(v: Seq<(Vec<u8>, usize)>) -> Seq<(Seq<u8>, int)> {
    Seq::new(v.len(), |i: int| (v[i].0@, v[i].1 as int))
}

/// The views of an encoding list.
pub open spec fn enc_view(v: Seq<(HttpEncoding, usize)>) -> Seq<(HttpEncoding, int)> {
    Seq::new(v.len(), |i: int| (v[i].0, v[i].1 as int))
}

impl HttpEncoding {
    /// The coding name as bytes.
    pub fn name(&self) -> (r: Vec<u8>)
        ensures
            r@ == encoding_bytes(*self),
    {
        let m: &[u8] = match self {
            HttpEncoding::Gzip => &[103u8, 122, 105, 112],
            HttpEncoding::Deflate => &[100u8, 101, 102, 108, 97, 116, 101],
            HttpEncoding::Brotli => &[98u8, 114, 111, 116, 108, 105],
            HttpEncoding::Identity => &[105u8, 100, 101, 110, 116, 105, 116, 121],
        };
        let r = crate::ascii::subrange_to_vec(m, 0, m.len());
        proof {
            assert(r@ =~= encoding_bytes(*self));
        }
        r
    }

    /// Translates an encoding token to a coding.
    pub fn from_encoding_string(s: &[u8]) -> (r: Option<HttpEncoding>)
        ensures
            r == encoding_of_token(s@),
    {
        let gz: &[u8] = &[103u8, 122, 105, 112];
        let df: &[u8] = &[100u8, 101, 102, 108, 97, 116, 101];
        let br: &[u8] = &[98u8, 114];
        let brotli: &[u8] = &[98u8, 114, 111, 116, 108, 105];
        proof {
            assert(gz@ =~= seq![103u8, 122, 105, 112]);
            assert(df@ =~= seq![100u8, 101, 102, 108, 97, 116, 101]);
            assert(br@ =~= seq![98u8, 114]);
            assert(brotli@ =~= seq![98u8, 114, 111, 116, 108, 105]);
        }
        if crate::ascii::bytes_eq_ci(s, gz) {
            Some(HttpEncoding::Gzip)
        } else if crate::ascii::bytes_eq_ci(s, df) {
            Some(HttpEncoding::Deflate)
        } else if crate::ascii::bytes_eq_ci(s, br) || crate::ascii::bytes_eq_ci(s, brotli) {
            Some(HttpEncoding::Brotli)
        } else {
            None
        }
    }

    /// Parses an Accept-Encoding header into recognized codings with their
    /// qualities in thousandths, sorted best first, ties in header order.
    pub fn parse_accept_encoding(header: &[u8]) -> (r: Vec<(HttpEncoding, usize)>)
        ensures
            enc_view(r@) == accept_encoding_spec(header@),
    {
        let segs = crate::ascii::split_on_byte(header, 44);
        let n = segs.len();

        // collect the items with positive quality, in order
        let mut items: Vec<(Vec<u8>, usize)> = Vec::new();
        let mut i: usize = 0;
        proof {
            assert(crate::ascii::seqs_view(segs@).skip(0) =~= crate::ascii::seqs_view(segs@));
            assert(q_items_view(items@) + pos_items(crate::ascii::seqs_view(segs@)) =~= pos_items(
                crate::ascii::seqs_view(segs@),
            ));
        }
        while i < n
            invariant
                0 <= i <= n,
                n == segs@.len(),
                crate::ascii::seqs_view(segs@) == split_byte(header@, 44),
                pos_items(crate::ascii::seqs_view(segs@)) == q_items_view(items@) + pos_items(
                    crate::ascii::seqs_view(segs@).skip(i as int),
                ),
            decreases n - i,
        {
            let ghost rem = crate::ascii::seqs_view(segs@).skip(i as int);
            proof {
                assert(rem.first() == segs@[i as int]@);
                assert(rem.drop_first() =~= crate::ascii::seqs_view(segs@).skip(i as int + 1));
            }
            let (name, q) = parse_encoding_item(segs[i].as_slice());
            if q > 0 {
                let ghost before = q_items_view(items@);
                let ghost nv = name@;
                let ghost qv = q as int;
                items.push((name, q));
                proof {
                    assert(q_items_view(items@) =~= before + seq![(nv, qv)]);
                    assert(before + seq![(nv, qv)] + pos_items(rem.drop_first()) =~= before + (seq![
                        (nv, qv),
                    ] + pos_items(rem.drop_first())));
                }
            } else {
                proof {
                    assert(Seq::<(Seq<u8>, int)>::empty() + pos_items(rem.drop_first()) =~=
                        pos_items(rem.drop_first()));
                }
            }
            i += 1;
        }
        proof {
            assert(crate::ascii::seqs_view(segs@).skip(n as int) =~= Seq::<Seq<u8>>::empty());
            assert(q_items_view(items@) + pos_items(Seq::<Seq<u8>>::empty()) =~= q_items_view(
                items@,
            ));
        }
        let ghost item_seq = q_items_view(items@);

        // stable insertion sort, best quality first
        let m = items.len();
        let mut sorted: Vec<(Vec<u8>, usize)> = Vec::new();
        let mut k: usize = 0;
        proof {
            assert(item_seq.take(0) =~= Seq::<(Seq<u8>, int)>::empty());
            assert(q_items_view(sorted@) =~= sort_desc(item_seq.take(0)));
        }
        while k < m
            invariant
                0 <= k <= m,
                m == items@.len(),
                q_items_view(items@) == item_seq,
                q_items_view(sorted@) == sort_desc(item_seq.take(k as int)),
            decreases m - k,
        {
            proof {
                assert(item_seq.take(k as int + 1).last() == item_seq[k as int]);
                assert(item_seq.take(k as int + 1).drop_last() =~= item_seq.take(k as int));
            }
            let name = crate::ascii::subrange_to_vec(
                items[k].0.as_slice(),
                0,
                items[k].0.len(),
            );
            proof {
                assert(name@ =~= item_seq[k as int].0);
            }
            insert_by_quality(&mut sorted, (name, items[k].1));
            k += 1;
        }
        proof {
            assert(item_seq.take(m as int) =~= item_seq);
        }

        // keep the recognized codings
        let s = sorted.len();
        let mut out: Vec<(HttpEncoding, usize)> = Vec::new();
        let mut j: usize = 0;
        proof {
            assert(q_items_view(sorted@).skip(0) =~= q_items_view(sorted@));
            assert(enc_view(out@) + encodings_of(q_items_view(sorted@)) =~= encodings_of(
                q_items_view(sorted@),
            ));
        }
        while j < s
            invariant
                0 <= j <= s,
                s == sorted@.len(),
                q_items_view(sorted@) == sort_desc(item_seq),
                encodings_of(sort_desc(item_seq)) == enc_view(out@) + encodings_of(
                    q_items_view(sorted@).skip(j as int),
                ),
            decreases s - j,
        {
            let ghost rem = q_items_view(sorted@).skip(j as int);
            proof {
                assert(rem.first() == q_items_view(sorted@)[j as int]);
                assert(rem.drop_first() =~= q_items_view(sorted@).skip(j as int + 1));
            }
            match Self::from_encoding_string(sorted[j].0.as_slice()) {
                Some(e) => {
                    let ghost before = enc_view(out@);
                    out.push((e, sorted[j].1));
                    proof {
                        assert(enc_view(out@) =~= before + seq![(e, rem.first().1)]);
                        assert(before + seq![(e, rem.first().1)] + encodings_of(rem.drop_first())
                            =~= before + (seq![(e, rem.first().1)] + encodings_of(
                            rem.drop_first(),
                        )));
                    }
                },
                None => {
                    proof {
                        assert(Seq::<(HttpEncoding, int)>::empty() + encodings_of(
                            rem.drop_first(),
                        ) =~= encodings_of(rem.drop_first()));
                    }
                },
            }
            j += 1;
        }
        proof {
            assert(q_items_view(sorted@).skip(s as int) =~= Seq::<(Seq<u8>, int)>::empty());
            assert(enc_view(out@) + encodings_of(Seq::<(Seq<u8>, int)>::empty()) =~= enc_view(
                out@,
            ));
        }
        out
    }
}

/// Splits one Accept-Encoding item into its trimmed name and its quality
/// in thousandths.
fn parse_encoding_item(item: &[u8]) -> (r: (Vec<u8>, usize))
    ensures
        (r.0@, r.1 as int) == token_q(item@),
        r.1 <= 1000000,
{
    let parts = crate::ascii::split_on_byte(item, 59);
    proof {
        lemma_split_nonempty(item@, 59);
        assert(parts@[0]@ == split_byte(item@, 59)[0]);
    }
    let name = crate::ascii::trim_bytes(parts[0].as_slice());
    if name.len() == 0 {
        return (name, 0);
    }
    if parts.len() > 1 {
        proof {
            assert(parts@[1]@ == split_byte(item@, 59)[1]);
        }
        let p1 = crate::ascii::trim_bytes(parts[1].as_slice());
        let qeq: &[u8] = &[113u8, 61];
        proof {
            assert(qeq@ =~= seq![113u8, 61u8]);
        }
        if p1.len() >= 2 {
            let head = crate::ascii::subrange_to_vec(p1.as_slice(), 0, 2);
            proof {
                assert(head@ =~= p1@.take(2));
            }
            if crate::ascii::bytes_eq(head.as_slice(), qeq) {
                let plen = p1.len();
                let v = crate::ascii::subrange_to_vec(p1.as_slice(), 2, plen);
                proof {
                    assert(v@ =~= p1@.skip(2));
                }
                let q = q_milli(v.as_slice());
                return (name, q);
            }
        }
        (name, 1000)
    } else {
        (name, 1000)
    }
}

/// A split has at least one segment.
proof fn lemma_split_nonempty(s: Seq<u8>, sep: u8)
    ensures
        split_byte(s, sep).len() >= 1,
{
    match find_sub(s, seq![sep]) {
        None => {},
        Some(_) => {},
    }
}

/// The q-value of a parameter, in thousandths.
fn q_milli(v: &[u8]) -> (r: usize)
    ensures
        r as int == q_milli_of(v@),
        r <= 1000000,
{
    let mut dotv: Vec<u8> = Vec::new();
    dotv.push(46);
    proof {
        assert(dotv@ =~= seq![46u8]);
    }
    let dot = crate::ascii::find_subsequence(v, dotv.as_slice());
    let vlen = v.len();
    let (ip_vec, fr_vec): (Vec<u8>, Vec<u8>) = match dot {
        None => (
            crate::ascii::subrange_to_vec(v, 0, vlen),
            Vec::new(),
        ),
        Some(i) => {
            proof {
                crate::ascii::lemma_find_sub_from_spec(v@, seq![46u8], 0);
                assert(crate::ascii::match_at(v@, seq![46u8], i as int));
            }
            (
                crate::ascii::subrange_to_vec(v, 0, i),
                crate::ascii::subrange_to_vec(v, i + 1, vlen),
            )
        },
    };
    proof {
        match find_sub(v@, seq![46u8]) {
            None => {
                assert(ip_vec@ =~= v@);
                assert(fr_vec@ =~= Seq::<u8>::empty());
            },
            Some(i) => {
                assert(ip_vec@ =~= v@.take(i));
                assert(fr_vec@ =~= v@.skip(i + 1));
            },
        }
    }
    let ip = match crate::ascii::parse_usize(ip_vec.as_slice()) {
        Some(ip) => ip,
        None => {
            return 1000;
        },
    };
    // the whole fraction must be digits; only the first three count
    if !all_digits_check(fr_vec.as_slice()) {
        return 1000;
    }
    if ip >= 1000 {
        return 1000000;
    }
    let frlen = fr_vec.len();
    let frac: usize = if frlen >= 3 {
        let three = crate::ascii::subrange_to_vec(fr_vec.as_slice(), 0, 3);
        proof {
            assert(three@ =~= fr_vec@.take(3));
            assert(all_dec_digits(three@));
            crate::ascii::lemma_dec_val_nonneg(three@);
            lemma_dec_val_small(three@);
        }
        match crate::ascii::parse_usize(three.as_slice()) {
            Some(f) => f,
            None => 0,
        }
    } else if frlen == 2 {
        proof {
            assert(all_dec_digits(fr_vec@));
            crate::ascii::lemma_dec_val_nonneg(fr_vec@);
            lemma_dec_val_len2(fr_vec@);
        }
        match crate::ascii::parse_usize(fr_vec.as_slice()) {
            Some(f) => f * 10,
            None => 0,
        }
    } else if frlen == 1 {
        proof {
            assert(all_dec_digits(fr_vec@));
            crate::ascii::lemma_dec_val_nonneg(fr_vec@);
            lemma_dec_val_tiny(fr_vec@);
        }
        match crate::ascii::parse_usize(fr_vec.as_slice()) {
            Some(f) => f * 100,
            None => 0,
        }
    } else {
        0
    };
    ip * 1000 + frac
}

/// Whether every byte is a decimal digit.
fn all_digits_check(s: &[u8]) -> (r: bool)
    ensures
        r == all_dec_digits(s@),
{
    let mut i: usize = 0;
    while i < s.len()
        invariant
            0 <= i <= s@.len(),
            forall|x: int| 0 <= x < i ==> crate::ascii::is_dec_digit(s@[x]),
        decreases s@.len() - i,
    {
        let b = s[i];
        if !(0x30 <= b && b <= 0x39) {
            assert(!crate::ascii::is_dec_digit(s@[i as int]));
            return false;
        }
        i += 1;
    }
    true
}

/// A digit string of length at most three denotes less than a thousand.
proof fn lemma_dec_val_small(s: Seq<u8>)
    requires
        all_dec_digits(s),
        s.len() <= 3,
    ensures
        dec_val(s) < 1000,
    decreases s.len(),
{
    if s.len() > 0 {
        assert(all_dec_digits(s.drop_last()));
        lemma_dec_val_small(s.drop_last());
        crate::ascii::lemma_dec_val_nonneg(s.drop_last());
        if s.len() == 1 {
            assert(dec_val(s.drop_last()) == 0);
        } else if s.len() == 2 {
            assert(dec_val(s.drop_last()) < 10) by {
                lemma_dec_val_tiny(s.drop_last());
            }
        } else {
            assert(dec_val(s.drop_last()) < 100) by {
                lemma_dec_val_len2(s.drop_last());
            }
        }
    }
}

proof fn lemma_dec_val_tiny(s: Seq<u8>)
    requires
        all_dec_digits(s),
        s.len() <= 1,
    ensures
        0 <= dec_val(s) < 10,
{
    if s.len() == 1 {
        assert(s.drop_last() =~= Seq::<u8>::empty());
        assert(dec_val(Seq::<u8>::empty()) == 0);
        assert(crate::ascii::is_dec_digit(s[0]));
        assert(s.last() == s[0]);
    }
}

proof fn lemma_dec_val_len2(s: Seq<u8>)
    requires
        all_dec_digits(s),
        s.len() <= 2,
    ensures
        0 <= dec_val(s) < 100,
{
    crate::ascii::lemma_dec_val_nonneg(s);
    if s.len() > 0 {
        assert(all_dec_digits(s.drop_last()));
        lemma_dec_val_tiny(s.drop_last());
        crate::ascii::lemma_dec_val_nonneg(s.drop_last());
    }
}

/// Insertion at the stable descending position.
fn insert_by_quality(out: &mut Vec<(Vec<u8>, usize)>, x: (Vec<u8>, usize))
    ensures
        q_items_view(final(out)@) == insert_desc(q_items_view(old(out)@), (x.0@, x.1 as int)),
{
    let ghost orig = q_items_view(out@);
    let ghost xv = (x.0@, x.1 as int);
    let n = out.len();
    let mut j: usize = 0;
    while j < n && out[j].1 >= x.1
        invariant
            0 <= j <= n,
            n == out@.len(),
            q_items_view(out@) == orig,
            xv.1 == x.1 as int,
            forall|k: int| 0 <= k < j ==> orig[k].1 >= xv.1,
        decreases n - j,
    {
        proof {
            assert(orig[j as int].1 == out@[j as int].1 as int);
        }
        j += 1;
    }
    proof {
        if j < n {
            assert(orig[j as int].1 == out@[j as int].1 as int);
        }
        lemma_insert_desc_at(orig, xv, j as int);
    }
    out.insert(j, x);
    proof {
        assert(q_items_view(out@) =~= orig.take(j as int) + seq![xv] + orig.skip(j as int));
    }
}

/// The stable position: after the leading at-least-as-good items.
proof fn lemma_insert_desc_at(xs: Seq<(Seq<u8>, int)>, x: (Seq<u8>, int), j: int)
    requires
        0 <= j <= xs.len(),
        forall|k: int| 0 <= k < j ==> xs[k].1 >= x.1,
        j == xs.len() || xs[j].1 < x.1,
    ensures
        insert_desc(xs, x) == xs.take(j) + seq![x] + xs.skip(j),
    decreases j,
{
    if j == 0 {
        if xs.len() == 0 {
            assert(insert_desc(xs, x) =~= xs.take(0) + seq![x] + xs.skip(0));
        } else {
            assert(xs[0].1 < x.1);
            assert(seq![x] + xs =~= xs.take(0) + seq![x] + xs.skip(0));
        }
    } else {
        assert(xs.first().1 >= x.1);
        assert forall|k: int| 0 <= k < j - 1 implies xs.drop_first()[k].1 >= x.1 by {
            assert(xs.drop_first()[k] == xs[k + 1]);
        }
        if j < xs.len() {
            assert(xs.drop_first()[j - 1] == xs[j]);
        }
        lemma_insert_desc_at(xs.drop_first(), x, j - 1);
        assert(seq![xs.first()] + (xs.drop_first().take(j - 1) + seq![x] + xs.drop_first().skip(
            j - 1,
        )) =~= xs.take(j) + seq![x] + xs.skip(j));
    }
}

/// The byte length below which a body goes out uncompressed.
pub open spec fn minimum_body_size() -> int {
    1024
}

/// What the bytes `Content-Encoding` name.
pub open spec fn content_encoding_key() -> Seq<u8> {
    seq![67u8, 111, 110, 116, 101, 110, 116, 45, 69, 110, 99, 111, 100, 105, 110, 103]
}

pub fn content_encoding_key_bytes() -> (r: Vec<u8>)
    ensures
        r@ == content_encoding_key(),
{
    let m: &[u8] = &[67u8, 111, 110, 116, 101, 110, 116, 45, 69, 110, 99, 111, 100, 105, 110, 103];
    let r = crate::ascii::subrange_to_vec(m, 0, m.len());
    proof {
        assert(r@ =~= content_encoding_key());
    }
    r
}

/// The compressed form the deflate coder produces for given bytes; raw
/// DEFLATE with default options depends on the input alone.
pub uninterp spec fn deflate_of(s: Seq<u8>) -> Seq<u8>;

/// The compressed form the brotli coder produces for given bytes at the
/// fixed buffer size, quality and window; it depends on the input alone.
pub uninterp spec fn brotli_of(s: Seq<u8>) -> Seq<u8>;

/// The compressed form the gzip coder produces for given bytes under a
/// header with a fixed modification time; it depends on the input alone.
pub uninterp spec fn gzip_of(s: Seq<u8>) -> Seq<u8>;

/// Compression middleware: wraps a writable response and compresses its
/// body by the client's Accept-Encoding.
pub struct CompressionMiddleware;

/// A writable response whose body has been replaced by its compressed
/// form, with the length redeclared.
pub struct CompressedResponse<T: HttpWritable> {
    original: T,
    encoding: HttpEncoding,
    compressed_body: Vec<u8>,
}

impl<T: HttpWritable> CompressedResponse<T> {
    /// The coding that was applied.
    pub closed spec fn spec_encoding(&self) -> HttpEncoding {
        self.encoding
    }

    /// The bytes the body was replaced with.
    pub closed spec fn spec_compressed(&self) -> Seq<u8> {
        self.compressed_body@
    }
}

impl<T: HttpWritable> HttpWritable for CompressedResponse<T> {
    closed spec fn spec_status(&self) -> (crate::request::HttpVersion, crate::response::HttpStatusCode) {
        self.original.spec_status()
    }

    closed spec fn spec_headers(&self) -> Seq<(Seq<u8>, Seq<u8>)> {
        spec_remove_ci(self.original.spec_headers(), crate::request::content_length_key()) + (
        if self.encoding is Identity {
            Seq::<(Seq<u8>, Seq<u8>)>::empty()
        } else {
            seq![(content_encoding_key(), encoding_bytes(self.encoding))]
        }) + seq![
            (
                crate::request::content_length_key(),
                crate::ascii::dec_of(self.compressed_body@.len() as int),
            ),
        ]
    }

    closed spec fn spec_body(&self) -> Seq<u8> {
        self.compressed_body@
    }

    fn status_line(&self) -> (r: &crate::response::ResponseStatusLine)
        ensures
            (r.version, r.status) == self.spec_status(),
    {
        self.original.status_line()
    }

    fn headers(&self) -> (r: HeaderMap)
        ensures
            r@ == self.spec_headers(),
    {
        let mut headers = self.original.headers();
        let cl_key = crate::request::content_length_key_bytes();
        headers.remove_ci(cl_key.as_slice());
        let ghost h1 = headers@;
        if !matches!(self.encoding, HttpEncoding::Identity) {
            headers.append_entry(content_encoding_key_bytes(), self.encoding.name());
        }
        let ghost h2 = headers@;
        headers.append_entry(
            crate::request::content_length_key_bytes(),
            crate::ascii::usize_to_dec(self.compressed_body.len()),
        );
        proof {
            if self.encoding is Identity {
                assert(h2 =~= h1 + Seq::<(Seq<u8>, Seq<u8>)>::empty());
            }
            assert(headers@ =~= self.spec_headers());
        }
        headers
    }

    fn body(&self) -> (r: HttpBody)
        ensures
            r.spec_bytes() == self.spec_body(),
    {
        let b = crate::ascii::subrange_to_vec(
            self.compressed_body.as_slice(),
            0,
            self.compressed_body.len(),
        );
        proof {
            assert(b@ =~= self.compressed_body@);
        }
        HttpBody::Binary(b)
    }
}

/// The coding the middleware picks for a body and an Accept-Encoding
/// header: identity below the size floor, else the best recognized coding.
pub open spec fn chosen_encoding(body_len: int, accept: Option<Seq<u8>>) -> HttpEncoding {
    if body_len < minimum_body_size() {
        HttpEncoding::Identity
    } else {
        match accept {
            Some(h) => if accept_encoding_spec(h).len() > 0 {
                accept_encoding_spec(h)[0].0
            } else {
                HttpEncoding::Identity
            },
            None => HttpEncoding::Identity,
        }
    }
}

impl CompressionMiddleware {
    /// Applies compression by the Accept-Encoding header: bodies under the
    /// floor stay as they are; otherwise the best recognized coding
    /// compresses the body, and the new length is declared.
    pub fn apply<T: HttpWritable>(response: T, accept_encoding: Option<&Vec<u8>>) -> (r:
        CompressedResponse<T>)
        ensures
            ({
                let body = response.spec_body();
                let accept = match accept_encoding {
                    Some(h) => Some(h@),
                    None => None,
                };
                let enc = chosen_encoding(body.len() as int, accept);
                &&& r.spec_status() == response.spec_status()
                &&& r.spec_encoding() == enc
                &&& (enc is Identity ==> r.spec_compressed() == body)
                &&& (enc is Gzip ==> r.spec_compressed() == gzip_of(body))
                &&& (enc is Deflate ==> r.spec_compressed() == deflate_of(body))
                &&& (enc is Brotli ==> r.spec_compressed() == brotli_of(body))
                &&& r.spec_body() == r.spec_compressed()
                &&& r.spec_headers() == spec_remove_ci(
                    response.spec_headers(),
                    crate::request::content_length_key(),
                ) + (if enc is Identity {
                    Seq::<(Seq<u8>, Seq<u8>)>::empty()
                } else {
                    seq![(content_encoding_key(), encoding_bytes(enc))]
                }) + seq![
                    (
                        crate::request::content_length_key(),
                        crate::ascii::dec_of(r.spec_compressed().len() as int),
                    ),
                ]
            }),
    {
        let body = response.body().into_bytes();
        if body.len() < 1024 {
            return CompressedResponse {
                original: response,
                encoding: HttpEncoding::Identity,
                compressed_body: body,
            };
        }
        let encoding = match accept_encoding {
            Some(header) => {
                let types = HttpEncoding::parse_accept_encoding(header.as_slice());
                if types.len() > 0 {
                    proof {
                        assert(enc_view(types@)[0] == (types@[0].0, types@[0].1 as int));
                    }
                    types[0].0
                } else {
                    HttpEncoding::Identity
                }
            },
            None => HttpEncoding::Identity,
        };
        let compressed_body = match encoding {
            HttpEncoding::Gzip => Self::compress_gzip(body.as_slice()),
            HttpEncoding::Deflate => Self::compress_deflate(body.as_slice()),
            HttpEncoding::Brotli => Self::compress_brotli(body.as_slice()),
            HttpEncoding::Identity => body,
        };
        CompressedResponse { original: response, encoding, compressed_body }
    }

    /// Relies on brotli::CompressorWriter over an in-memory buffer with a
    /// fixed buffer size, quality and window: the bytes are a function of
    /// the input alone.
    #[verifier::external_body]
    fn compress_brotli(body: &[u8]) -> (r: Vec<u8>)
        ensures
            r@ == brotli_of(body@),
    {
        let mut encoder = brotli::CompressorWriter::new(Vec::new(), 4096, 5, 22);
        std::io::copy(&mut &body[..], &mut encoder).unwrap();
        encoder.into_inner()
    }

    /// Relies on libflate::deflate::Encoder over an in-memory buffer with
    /// the default options: raw DEFLATE, a function of the input alone.
    #[verifier::external_body]
    fn compress_deflate(body: &[u8]) -> (r: Vec<u8>)
        ensures
            r@ == deflate_of(body@),
    {
        let mut encoder = libflate::deflate::Encoder::new(Vec::new());
        std::io::copy(&mut &body[..], &mut encoder).unwrap();
        encoder.finish().into_result().unwrap()
    }

    /// Relies on libflate::gzip::Encoder over an in-memory buffer, with the
    /// header's modification time pinned to zero: the other header fields
    /// are constants and the DEFLATE body uses the default deterministic
    /// coder, so the bytes are a function of the input alone.
    #[verifier::external_body]
    fn compress_gzip(body: &[u8]) -> (r: Vec<u8>)
        ensures
            r@ == gzip_of(body@),
    {
        let header = libflate::gzip::HeaderBuilder::new().modification_time(0).finish();
        let options = libflate::gzip::EncodeOptions::new().header(header);
        let mut encoder = libflate::gzip::Encoder::with_options(Vec::new(), options).unwrap();
        std::io::copy(&mut &body[..], &mut encoder).unwrap();
        encoder.finish().into_result().unwrap()
    }
}

} // verus!
