//! The laws the library states of itself: an accepted path never walks up,
//! and a parsed request written back in wire form parses to the same
//! request, while a parse failure always carries a definite status.

use vstd::prelude::*;

use crate::ascii::{
    contains_byte, find_sub, is_ws, lemma_find_sub_from_spec, lemma_find_sub_pin, match_at, trim,
    trim_back, trim_front,
};
use crate::request::{
    crlf, crlf_crlf, first_ws_from, fold_headers, header_line_split, method_bytes, method_of,
    parse_spec, serialize_headers, serialize_spec, split_crlf, tokens_of, version_bytes,
    version_of, ReqView,
};
use crate::server::{
    has_dot_segment, percent_decode_spec, validate_path_spec, ResolveError,
};

verus! {

/// The primary traversal defense: no path the sandbox accepts contains a
/// `.` or `..` segment after percent-decoding, and a decodable path that
/// does — and passes the character checks before it — is turned away as
/// Forbidden, never resolved.
pub proof fn lemma_dot_segments_rejected(raw: Seq<u8>)
    ensures
        validate_path_spec(raw) matches Ok(decoded) ==> !has_dot_segment(decoded),
        (match percent_decode_spec(raw) {
            Some(d) => d.len() > 0 && !crate::server::has_control(d)
                && !crate::server::has_portability_hostile(d) && d[0] != 47 && has_dot_segment(d),
            None => false,
        }) ==> validate_path_spec(raw) == Err::<Seq<u8>, ResolveError>(ResolveError::Forbidden),
{
}

/// Trimming is idempotent; a trimmed string starts and ends off whitespace.
proof fn lemma_trim_front_first(s: Seq<u8>)
    ensures
        trim_front(s).len() > 0 ==> !is_ws(trim_front(s).first()),
    decreases s.len(),
{
    if s.len() > 0 && is_ws(s.first()) {
        lemma_trim_front_first(s.drop_first());
    }
}

proof fn lemma_trim_back_last(s: Seq<u8>)
    ensures
        trim_back(s).len() > 0 ==> !is_ws(trim_back(s).last()),
        trim_back(s).len() > 0 ==> trim_back(s).first() == s.first(),
    decreases s.len(),
{
    if s.len() > 0 && is_ws(s.last()) {
        lemma_trim_back_last(s.drop_last());
        if trim_back(s).len() > 0 {
            assert(s.drop_last().first() == s.first());
        }
    }
}

/// A trimmed string trims to itself.
proof fn lemma_trim_idempotent(s: Seq<u8>)
    ensures
        trim(trim(s)) == trim(s),
{
    let t = trim(s);
    lemma_trim_front_first(s);
    lemma_trim_back_last(trim_front(s));
    if t.len() > 0 {
        assert(!is_ws(t.first()));
        assert(!is_ws(t.last()));
        assert(trim_front(t) == t);
        assert(trim_back(t) == t);
    } else {
        assert(trim_front(t) == t);
        assert(trim_back(t) == t);
    }
}

/// Every token is nonempty and free of whitespace.
proof fn lemma_first_ws_all_before(s: Seq<u8>, i: int, k: int)
    requires
        0 <= i <= k < first_ws_from(s, i),
    ensures
        k < s.len() && !is_ws(s[k]),
    decreases k - i,
{
    if i < s.len() && !is_ws(s[i]) {
        if k > i {
            lemma_first_ws_all_before(s, i + 1, k);
        }
    }
}

proof fn lemma_tokens_wf(s: Seq<u8>)
    ensures
        forall|t: int|
            0 <= t < tokens_of(s).len() ==> (#[trigger] tokens_of(s)[t]).len() > 0 && (forall|
                j: int,
            |
                0 <= j < tokens_of(s)[t].len() ==> !is_ws(#[trigger] tokens_of(s)[t][j])),
    decreases s.len(),
{
    if s.len() == 0 {
    } else if is_ws(s.first()) {
        lemma_tokens_wf(s.drop_first());
        assert(tokens_of(s) == tokens_of(s.drop_first()));
        assert forall|t: int|
            0 <= t < tokens_of(s).len() implies (#[trigger] tokens_of(s)[t]).len() > 0 && (forall|
            j: int,
        |
            0 <= j < tokens_of(s)[t].len() ==> !is_ws(#[trigger] tokens_of(s)[t][j])) by {
            assert(tokens_of(s)[t] == tokens_of(s.drop_first())[t]);
        }
    } else {
        let w = first_ws_from(s, 0);
        crate::request::lemma_first_ws_from_bounds_pub(s, 0);
        let tok = s.take(w);
        assert(!is_ws(s[0]));
        assert(first_ws_from(s, 0) == first_ws_from(s, 1));
        crate::request::lemma_first_ws_from_bounds_pub(s, 1);
        assert(w >= 1);
        assert forall|j: int| 0 <= j < tok.len() implies !is_ws(#[trigger] tok[j]) by {
            if j == 0 {
            } else {
                lemma_first_ws_all_before(s, 0, j);
            }
        }
        lemma_tokens_wf(s.skip(w));
        let whole = tokens_of(s);
        let rest = tokens_of(s.skip(w));
        assert(whole == seq![tok] + rest);
        assert forall|t: int|
            0 <= t < whole.len() implies (#[trigger] whole[t]).len() > 0 && (forall|j: int|
            0 <= j < whole[t].len() ==> !is_ws(#[trigger] whole[t][j])) by {
            if t == 0 {
                assert(whole[0] == tok);
            } else {
                assert(whole[t] == rest[t - 1]);
            }
        }
    }
}

/// No CRLF pair stands anywhere in `s`.
pub open spec fn crlf_free(s: Seq<u8>) -> bool {
    forall|j: int| !match_at(s, crlf(), j)
}

/// A match in a subrange is a match in the whole.
proof fn lemma_submatch(s: Seq<u8>, a: int, b: int, pat: Seq<u8>, j: int)
    requires
        0 <= a <= b <= s.len(),
        match_at(s.subrange(a, b), pat, j),
    ensures
        match_at(s, pat, a + j),
{
    let sub = s.subrange(a, b);
    assert(sub.subrange(j, j + pat.len() as int) =~= s.subrange(a + j, a + j + pat.len() as int));
}

/// A two-byte window is just two bytes.
proof fn lemma_match_crlf_bytes(s: Seq<u8>, j: int)
    requires
        0 <= j,
        j + 2 <= s.len(),
    ensures
        match_at(s, crlf(), j) <==> (s[j] == 13 && s[j + 1] == 10),
{
    if s[j] == 13 && s[j + 1] == 10 {
        assert(s.subrange(j, j + 2) =~= crlf());
    }
    if match_at(s, crlf(), j) {
        assert(s.subrange(j, j + 2)[0] == s[j]);
        assert(s.subrange(j, j + 2)[1] == s[j + 1]);
    }
}

/// Trimming keeps a string CRLF-free.
proof fn lemma_trim_front_crlf_free(s: Seq<u8>)
    requires
        crlf_free(s),
    ensures
        crlf_free(trim_front(s)),
    decreases s.len(),
{
    if s.len() > 0 && is_ws(s.first()) {
        assert forall|j: int| !match_at(s.drop_first(), crlf(), j) by {
            if match_at(s.drop_first(), crlf(), j) {
                assert(s.drop_first() =~= s.subrange(1, s.len() as int));
                lemma_submatch(s, 1, s.len() as int, crlf(), j);
            }
        }
        lemma_trim_front_crlf_free(s.drop_first());
    }
}

proof fn lemma_trim_back_crlf_free(s: Seq<u8>)
    requires
        crlf_free(s),
    ensures
        crlf_free(trim_back(s)),
    decreases s.len(),
{
    if s.len() > 0 && is_ws(s.last()) {
        assert forall|j: int| !match_at(s.drop_last(), crlf(), j) by {
            if match_at(s.drop_last(), crlf(), j) {
                assert(s.drop_last() =~= s.subrange(0, s.len() - 1));
                lemma_submatch(s, 0, s.len() - 1, crlf(), j);
            }
        }
        lemma_trim_back_crlf_free(s.drop_last());
    }
}

proof fn lemma_trim_crlf_free(s: Seq<u8>)
    requires
        crlf_free(s),
    ensures
        crlf_free(trim(s)),
{
    lemma_trim_front_crlf_free(s);
    lemma_trim_back_crlf_free(trim_front(s));
}

/// Every segment the CRLF split yields is CRLF-free.
proof fn lemma_split_crlf_segments_free(s: Seq<u8>)
    ensures
        forall|si: int|
            0 <= si < split_crlf(s).len() ==> crlf_free(#[trigger] split_crlf(s)[si]),
    decreases s.len(),
{
    lemma_find_sub_from_spec(s, crlf(), 0);
    match find_sub(s, crlf()) {
        None => {
            assert forall|si: int|
                0 <= si < split_crlf(s).len() implies crlf_free(
                #[trigger] split_crlf(s)[si],
            ) by {
                assert(split_crlf(s)[si] == s);
            }
        },
        Some(i) => {
            assert(match_at(s, crlf(), i));
            let head = s.take(i);
            assert(crlf_free(head)) by {
                assert forall|j: int| !match_at(head, crlf(), j) by {
                    if match_at(head, crlf(), j) {
                        assert(head =~= s.subrange(0, i));
                        lemma_submatch(s, 0, i, crlf(), j);
                    }
                }
            }
            lemma_split_crlf_segments_free(s.skip(i + 2));
            assert forall|si: int|
                0 <= si < split_crlf(s).len() implies crlf_free(
                #[trigger] split_crlf(s)[si],
            ) by {
                if si == 0 {
                    assert(split_crlf(s)[0] == head);
                } else {
                    assert(split_crlf(s)[si] == split_crlf(s.skip(i + 2))[si - 1]);
                }
            }
        },
    }
}

/// Splitting at CRLF peels a CRLF-free line off the front.
proof fn lemma_split_crlf_join(x: Seq<u8>, y: Seq<u8>)
    requires
        crlf_free(x),
    ensures
        split_crlf(x + crlf() + y) == seq![x] + split_crlf(y),
{
    let joined = x + crlf() + y;
    assert(joined.subrange(x.len() as int, x.len() as int + 2) =~= crlf());
    assert(match_at(joined, crlf(), x.len() as int));
    assert forall|j: int| 0 <= j < x.len() implies !match_at(joined, crlf(), j) by {
        if match_at(joined, crlf(), j) {
            lemma_match_crlf_bytes(joined, j);
            if j + 2 <= x.len() {
                lemma_match_crlf_bytes(x, j);
                assert(x[j] == joined[j] && x[j + 1] == joined[j + 1]);
                assert(match_at(x, crlf(), j));
            } else {
                // the window straddles the separator: its second byte is CR
                assert(j == x.len() - 1);
                assert(joined[j + 1] == 13);
            }
        }
    }
    lemma_find_sub_pin(joined, crlf(), x.len() as int);
    assert(joined.take(x.len() as int) =~= x);
    assert(joined.skip(x.len() as int + 2) =~= y);
}

/// Tokenizing peels a whitespace-free word off the front at a space.
proof fn lemma_tokens_join(a: Seq<u8>, y: Seq<u8>)
    requires
        a.len() > 0,
        forall|j: int| 0 <= j < a.len() ==> !is_ws(#[trigger] a[j]),
    ensures
        tokens_of(a + seq![32u8] + y) == seq![a] + tokens_of(y),
{
    let s = a + seq![32u8] + y;
    assert(!is_ws(s.first()));
    assert forall|k: int| 0 <= k < a.len() implies !is_ws(s[k]) by {
        assert(s[k] == a[k]);
    }
    assert(is_ws(s[a.len() as int]));
    crate::request::lemma_first_ws_from_pin(s, 0, a.len() as int);
    assert(tokens_of(s) == seq![s.take(a.len() as int)] + tokens_of(s.skip(a.len() as int)));
    assert(s.take(a.len() as int) =~= a);
    let tail = s.skip(a.len() as int);
    assert(tail.first() == 32);
    assert(is_ws(tail.first()));
    assert(tokens_of(tail) == tokens_of(tail.drop_first()));
    assert(tail.drop_first() =~= y);
}

/// A whitespace-free word is one whole token.
proof fn lemma_tokens_single(a: Seq<u8>)
    requires
        a.len() > 0,
        forall|j: int| 0 <= j < a.len() ==> !is_ws(#[trigger] a[j]),
    ensures
        tokens_of(a) == seq![a],
{
    assert(!is_ws(a.first()));
    crate::request::lemma_first_ws_from_pin(a, 0, a.len() as int);
    assert(tokens_of(a) == seq![a.take(a.len() as int)] + tokens_of(a.skip(a.len() as int)));
    assert(a.take(a.len() as int) =~= a);
    assert(a.skip(a.len() as int) =~= Seq::<u8>::empty());
    assert(tokens_of(Seq::<u8>::empty()) =~= Seq::<Seq<u8>>::empty());
    assert(seq![a.take(a.len() as int)] + Seq::<Seq<u8>>::empty() =~= seq![a]);
}

/// One header line on the wire: name, colon, space, value.
pub open spec fn hline(k: Seq<u8>, v: Seq<u8>) -> Seq<u8> {
    k + seq![58u8, 32u8] + v
}

/// The wire lines of a header mapping, in order.
pub open spec fn hlines(hs: Seq<(Seq<u8>, Seq<u8>)>) -> Seq<Seq<u8>>
    decreases hs.len(),
{
    if hs.len() == 0 {
        Seq::empty()
    } else {
        seq![hline(hs.first().0, hs.first().1)] + hlines(hs.drop_first())
    }
}

/// A header entry as the parser leaves it: both sides trimmed, the name
/// free of colons, both free of CRLF.
pub open spec fn wf_entry(k: Seq<u8>, v: Seq<u8>) -> bool {
    &&& trim(k) == k
    &&& trim(v) == v
    &&& !contains_byte(k, 58)
    &&& crlf_free(k)
    &&& crlf_free(v)
}

pub open spec fn wf_entries(hs: Seq<(Seq<u8>, Seq<u8>)>) -> bool {
    forall|i: int| 0 <= i < hs.len() ==> wf_entry((#[trigger] hs[i]).0, hs[i].1)
}

/// Header names stay pairwise distinct through parsing: inserts replace.
pub open spec fn keys_unique(hs: Seq<(Seq<u8>, Seq<u8>)>) -> bool {
    forall|i: int, j: int| 0 <= i < j < hs.len() ==> hs[i].0 != hs[j].0
}

/// Splitting a CRLF-free line leaves a well-formed entry.
proof fn lemma_header_line_entry(line: Seq<u8>)
    requires
        crlf_free(line),
    ensures
        match header_line_split(line) {
            Some(kv) => wf_entry(kv.0, kv.1),
            None => true,
        },
{
    lemma_find_sub_from_spec(line, seq![58u8], 0);
    match find_sub(line, seq![58u8]) {
        None => {},
        Some(i) => {
            assert(match_at(line, seq![58u8], i));
            let head = line.take(i);
            let tail = line.skip(i + 1);
            assert(!contains_byte(head, 58)) by {
                if contains_byte(head, 58) {
                    let j = choose|j: int| 0 <= j < head.len() && head[j] == 58;
                    assert(line[j] == 58);
                    assert(line.subrange(j, j + 1) =~= seq![58u8]);
                    assert(match_at(line, seq![58u8], j));
                }
            }
            assert(crlf_free(head)) by {
                assert forall|j: int| !match_at(head, crlf(), j) by {
                    if match_at(head, crlf(), j) {
                        assert(head =~= line.subrange(0, i));
                        lemma_submatch(line, 0, i, crlf(), j);
                    }
                }
            }
            assert(crlf_free(tail)) by {
                assert forall|j: int| !match_at(tail, crlf(), j) by {
                    if match_at(tail, crlf(), j) {
                        assert(tail =~= line.subrange(i + 1, line.len() as int));
                        lemma_submatch(line, i + 1, line.len() as int, crlf(), j);
                    }
                }
            }
            crate::ascii::lemma_trim_no_byte(head, 58);
            lemma_trim_crlf_free(head);
            lemma_trim_crlf_free(tail);
            lemma_trim_idempotent(head);
            lemma_trim_idempotent(tail);
        },
    }
}

/// Inserting a well-formed entry keeps the mapping well-formed and its
/// names distinct.
proof fn lemma_insert_preserves(hs: Seq<(Seq<u8>, Seq<u8>)>, k: Seq<u8>, v: Seq<u8>)
    requires
        wf_entries(hs),
        keys_unique(hs),
        wf_entry(k, v),
    ensures
        wf_entries(crate::headers::spec_insert(hs, k, v)),
        keys_unique(crate::headers::spec_insert(hs, k, v)),
    decreases hs.len(),
{
    let out = crate::headers::spec_insert(hs, k, v);
    if hs.len() == 0 {
        assert(out == seq![(k, v)]);
        assert(wf_entries(out)) by {
            assert(out[0] == (k, v));
        }
    } else if hs.first().0 == k {
        assert(out == seq![(k, v)] + hs.drop_first());
        assert forall|i: int| 0 <= i < out.len() implies wf_entry(
            (#[trigger] out[i]).0,
            out[i].1,
        ) by {
            if i == 0 {
            } else {
                assert(out[i] == hs[i]);
            }
        }
        assert forall|i: int, j: int| 0 <= i < j < out.len() implies out[i].0 != out[j].0 by {
            if i == 0 {
                assert(out[j] == hs[j]);
                assert(hs[0].0 != hs[j].0);
            } else {
                assert(out[i] == hs[i] && out[j] == hs[j]);
            }
        }
    } else {
        let rest0 = hs.drop_first();
        assert forall|i: int| 0 <= i < rest0.len() implies wf_entry(
            (#[trigger] rest0[i]).0,
            rest0[i].1,
        ) by {
            assert(rest0[i] == hs[i + 1]);
        }
        assert forall|i: int, j: int| 0 <= i < j < rest0.len() implies rest0[i].0 != rest0[j].0 by {
            assert(rest0[i] == hs[i + 1] && rest0[j] == hs[j + 1]);
        }
        lemma_insert_preserves(rest0, k, v);
        let rest = crate::headers::spec_insert(rest0, k, v);
        assert(out == seq![hs.first()] + rest);
        // the head name differs from every name below, including `k`
        lemma_insert_names(rest0, k, v);
        assert forall|i: int| 0 <= i < out.len() implies wf_entry(
            (#[trigger] out[i]).0,
            out[i].1,
        ) by {
            if i == 0 {
                assert(out[0] == hs[0]);
            } else {
                assert(out[i] == rest[i - 1]);
            }
        }
        assert forall|i: int, j: int| 0 <= i < j < out.len() implies out[i].0 != out[j].0 by {
            if i == 0 {
                assert(out[j] == rest[j - 1]);
                let w = choose|w: int|
                    0 <= w < rest0.len() && rest[j - 1].0 == rest0[w].0 || rest[j - 1].0 == k;
                if rest[j - 1].0 == k {
                } else {
                    assert(exists|w: int| 0 <= w < rest0.len() && rest[j - 1].0 == rest0[w].0
                        || rest[j - 1].0 == k);
                    let w2 = choose|w2: int|
                        0 <= w2 < rest0.len() && rest[j - 1].0 == rest0[w2].0;
                    assert(rest0[w2] == hs[w2 + 1]);
                    assert(hs[0].0 != hs[w2 + 1].0);
                }
            } else {
                assert(out[i] == rest[i - 1] && out[j] == rest[j - 1]);
            }
        }
    }
}

/// Every name after an insert is an old name or the inserted one.
proof fn lemma_insert_names(hs: Seq<(Seq<u8>, Seq<u8>)>, k: Seq<u8>, v: Seq<u8>)
    ensures
        forall|i: int|
            0 <= i < crate::headers::spec_insert(hs, k, v).len() ==> ((exists|w: int|
                0 <= w < hs.len() && (#[trigger] crate::headers::spec_insert(hs, k, v)[i]).0
                    == hs[w].0) || crate::headers::spec_insert(hs, k, v)[i].0 == k),
    decreases hs.len(),
{
    let out = crate::headers::spec_insert(hs, k, v);
    if hs.len() == 0 {
    } else if hs.first().0 == k {
        assert forall|i: int| 0 <= i < out.len() implies ((exists|w: int|
            0 <= w < hs.len() && (#[trigger] out[i]).0 == hs[w].0) || out[i].0 == k) by {
            if i > 0 {
                assert(out[i] == hs[i]);
                assert(out[i].0 == hs[i].0);
            }
        }
    } else {
        lemma_insert_names(hs.drop_first(), k, v);
        let rest = crate::headers::spec_insert(hs.drop_first(), k, v);
        assert(out == seq![hs.first()] + rest);
        assert forall|i: int| 0 <= i < out.len() implies ((exists|w: int|
            0 <= w < hs.len() && (#[trigger] out[i]).0 == hs[w].0) || out[i].0 == k) by {
            if i == 0 {
                assert(out[0].0 == hs[0].0);
            } else {
                assert(out[i] == rest[i - 1]);
                if rest[i - 1].0 == k {
                } else {
                    let w = choose|w: int|
                        0 <= w < hs.drop_first().len() && rest[i - 1].0 == hs.drop_first()[w].0;
                    assert(hs.drop_first()[w].0 == hs[w + 1].0);
                }
            }
        }
    }
}

/// A successful header fold leaves well-formed entries with distinct names.
proof fn lemma_fold_wf(lines: Seq<Seq<u8>>, acc: Seq<(Seq<u8>, Seq<u8>)>)
    requires
        forall|i: int| 0 <= i < lines.len() ==> crlf_free(#[trigger] lines[i]),
        wf_entries(acc),
        keys_unique(acc),
    ensures
        fold_headers(lines, acc).0 ==> wf_entries(fold_headers(lines, acc).1) && keys_unique(
            fold_headers(lines, acc).1,
        ),
    decreases lines.len(),
{
    if lines.len() == 0 {
    } else {
        let rest0 = lines.drop_first();
        assert forall|i: int| 0 <= i < rest0.len() implies crlf_free(#[trigger] rest0[i]) by {
            assert(rest0[i] == lines[i + 1]);
        }
        if lines.first().len() == 0 {
            lemma_fold_wf(rest0, acc);
        } else {
            assert(crlf_free(lines[0]));
            lemma_header_line_entry(lines.first());
            match header_line_split(lines.first()) {
                None => {},
                Some(kv) => {
                    lemma_insert_preserves(acc, kv.0, kv.1);
                    lemma_fold_wf(rest0, crate::headers::spec_insert(acc, kv.0, kv.1));
                },
            }
        }
    }
}

/// Trimming never grows a string.
proof fn lemma_trim_front_len(s: Seq<u8>)
    ensures
        trim_front(s).len() <= s.len(),
    decreases s.len(),
{
    if s.len() > 0 && is_ws(s.first()) {
        lemma_trim_front_len(s.drop_first());
    }
}

proof fn lemma_trim_back_len(s: Seq<u8>)
    ensures
        trim_back(s).len() <= s.len(),
    decreases s.len(),
{
    if s.len() > 0 && is_ws(s.last()) {
        lemma_trim_back_len(s.drop_last());
    }
}

/// A string equal to its own trim starts and ends off whitespace.
proof fn lemma_trimmed_ends(x: Seq<u8>)
    requires
        trim(x) == x,
        x.len() > 0,
    ensures
        !is_ws(x.first()),
        !is_ws(x.last()),
{
    if is_ws(x.first()) {
        assert(trim_front(x) == trim_front(x.drop_first()));
        lemma_trim_front_len(x.drop_first());
        lemma_trim_back_len(trim_front(x));
        assert(trim(x).len() < x.len());
    }
    assert(trim_front(x) == x);
    if is_ws(x.last()) {
        assert(trim_back(x) == trim_back(x.drop_last()));
        lemma_trim_back_len(x.drop_last());
        assert(trim(x).len() < x.len());
    }
}

/// Splitting a wire header line back apart recovers its entry.
proof fn lemma_hline_split(k: Seq<u8>, v: Seq<u8>)
    requires
        wf_entry(k, v),
    ensures
        header_line_split(hline(k, v)) == Some((k, v)),
        crlf_free(hline(k, v)),
        hline(k, v).len() >= 2,
        hline(k, v).last() != 13,
{
    let line = hline(k, v);
    assert(line.subrange(k.len() as int, k.len() as int + 1) =~= seq![58u8]);
    assert(match_at(line, seq![58u8], k.len() as int));
    assert forall|j: int| 0 <= j < k.len() implies !match_at(line, seq![58u8], j) by {
        if match_at(line, seq![58u8], j) {
            assert(line.subrange(j, j + 1)[0] == line[j]);
            assert(line[j] == k[j]);
            assert(contains_byte(k, 58));
        }
    }
    lemma_find_sub_pin(line, seq![58u8], k.len() as int);
    assert(line.take(k.len() as int) =~= k);
    assert(line.skip(k.len() as int + 1) =~= seq![32u8] + v);
    // trimming gives back the stored name and value
    assert(trim(k) == k);
    let sv = seq![32u8] + v;
    assert(is_ws(sv.first()));
    assert(sv.drop_first() =~= v);
    if v.len() > 0 {
        lemma_trimmed_ends(v);
        assert(trim_front(v) == v);
        assert(trim_back(v) == v);
    } else {
        assert(trim_front(v) == v);
        assert(trim_back(v) == v);
    }
    assert(trim_front(sv) == v);
    assert(trim(sv) == v);
    // the line holds no CRLF: each junction breaks the pair
    assert(crlf_free(line)) by {
        assert forall|j: int| !match_at(line, crlf(), j) by {
            if match_at(line, crlf(), j) {
                lemma_match_crlf_bytes(line, j);
                if j + 2 <= k.len() {
                    lemma_match_crlf_bytes(k, j);
                    assert(k[j] == line[j] && k[j + 1] == line[j + 1]);
                } else if j == k.len() - 1 {
                    assert(line[j + 1] == 58);
                } else if j == k.len() {
                    assert(line[j] == 58);
                } else if j == k.len() + 1 {
                    assert(line[j] == 32);
                } else {
                    let jv = j - (k.len() + 2);
                    lemma_match_crlf_bytes(v, jv);
                    assert(v[jv] == line[j] && v[jv + 1] == line[j + 1]);
                }
            }
        }
    }
    if v.len() > 0 {
        assert(line.last() == v.last());
        lemma_trimmed_ends(v);
    } else {
        assert(line.last() == 32);
    }
}

/// Folding the wire lines of a parsed mapping rebuilds it exactly.
proof fn lemma_refold(entries: Seq<(Seq<u8>, Seq<u8>)>, acc: Seq<(Seq<u8>, Seq<u8>)>)
    requires
        wf_entries(entries),
        keys_unique(entries),
        forall|i: int, j: int|
            0 <= i < acc.len() && 0 <= j < entries.len() ==> (#[trigger] acc[i]).0 != (
            #[trigger] entries[j]).0,
    ensures
        fold_headers(hlines(entries), acc) == (true, acc + entries),
    decreases entries.len(),
{
    if entries.len() == 0 {
        assert(hlines(entries) =~= Seq::<Seq<u8>>::empty());
        assert(acc + entries =~= acc);
    } else {
        let e = entries.first();
        assert(wf_entry(entries[0].0, entries[0].1));
        lemma_hline_split(e.0, e.1);
        let ls = hlines(entries);
        assert(ls.first() == hline(e.0, e.1));
        assert(ls.drop_first() =~= hlines(entries.drop_first()));
        assert(ls.first().len() >= 2);
        // the new name is fresh in the accumulator, so the insert appends
        assert forall|i: int| 0 <= i < acc.len() implies (#[trigger] acc[i]).0 != e.0 by {
            assert(entries[0].0 == e.0);
        }
        crate::headers::lemma_spec_insert_append(acc, e.0, e.1);
        let acc2 = acc + seq![(e.0, e.1)];
        let rest = entries.drop_first();
        assert forall|i: int| 0 <= i < rest.len() implies wf_entry(
            (#[trigger] rest[i]).0,
            rest[i].1,
        ) by {
            assert(rest[i] == entries[i + 1]);
        }
        assert forall|i: int, j: int| 0 <= i < j < rest.len() implies rest[i].0 != rest[j].0 by {
            assert(rest[i] == entries[i + 1] && rest[j] == entries[j + 1]);
        }
        assert forall|i: int, j: int|
            0 <= i < acc2.len() && 0 <= j < rest.len() implies (#[trigger] acc2[i]).0 != (
            #[trigger] rest[j]).0 by {
            assert(rest[j] == entries[j + 1]);
            if i < acc.len() {
                assert(acc2[i] == acc[i]);
            } else {
                assert(acc2[i] == (e.0, e.1));
                assert(entries[0].0 != entries[j + 1].0);
            }
        }
        lemma_refold(rest, acc2);
        assert(acc2 + rest =~= acc + entries);
        assert((e.0, e.1) =~= e);
    }
}

/// Four bytes at `j`, spelled out.
proof fn lemma_match_crlfcrlf_bytes(s: Seq<u8>, j: int)
    requires
        0 <= j,
        j + 4 <= s.len(),
    ensures
        match_at(s, crlf_crlf(), j) <==> (s[j] == 13 && s[j + 1] == 10 && s[j + 2] == 13 && s[j
            + 3] == 10),
{
    if s[j] == 13 && s[j + 1] == 10 && s[j + 2] == 13 && s[j + 3] == 10 {
        assert(s.subrange(j, j + 4) =~= crlf_crlf());
    }
    if match_at(s, crlf_crlf(), j) {
        assert(s.subrange(j, j + 4)[0] == s[j]);
        assert(s.subrange(j, j + 4)[1] == s[j + 1]);
        assert(s.subrange(j, j + 4)[2] == s[j + 2]);
        assert(s.subrange(j, j + 4)[3] == s[j + 3]);
    }
}

/// The head region of the wire form: the request line, then each header
/// line, CRLF-separated, with no terminator.
pub open spec fn head_of(l0: Seq<u8>, entries: Seq<(Seq<u8>, Seq<u8>)>) -> Seq<u8>
    decreases entries.len(),
{
    if entries.len() == 0 {
        l0
    } else {
        l0 + crlf() + head_of(hline(entries.first().0, entries.first().1), entries.drop_first())
    }
}

/// The wire form regrouped: head region, blank line, body.
proof fn lemma_wire_shape(l0: Seq<u8>, entries: Seq<(Seq<u8>, Seq<u8>)>, body: Seq<u8>)
    ensures
        head_of(l0, entries) + crlf_crlf() + body =~= l0 + crlf() + serialize_headers(entries)
            + crlf() + body,
        head_of(l0, entries).len() == l0.len() + serialize_headers(entries).len(),
    decreases entries.len(),
{
    if entries.len() == 0 {
        assert(serialize_headers(entries) =~= Seq::<u8>::empty());
        assert(head_of(l0, entries) + crlf_crlf() + body =~= l0 + crlf() + Seq::<u8>::empty()
            + crlf() + body);
    } else {
        let e = entries.first();
        let l1 = hline(e.0, e.1);
        lemma_wire_shape(l1, entries.drop_first(), body);
        assert(serialize_headers(entries) =~= l1 + crlf() + serialize_headers(
            entries.drop_first(),
        ));
        assert(head_of(l0, entries) + crlf_crlf() + body =~= l0 + crlf() + (head_of(
            l1,
            entries.drop_first(),
        ) + crlf_crlf() + body));
        assert(l0 + crlf() + (l1 + crlf() + serialize_headers(entries.drop_first()) + crlf()
            + body) =~= l0 + crlf() + serialize_headers(entries) + crlf() + body);
    }
}

/// The blank line after the head region is the first one on the wire.
proof fn lemma_wire_boundary(l0: Seq<u8>, entries: Seq<(Seq<u8>, Seq<u8>)>, body: Seq<u8>)
    requires
        crlf_free(l0),
        l0.len() >= 1,
        l0.last() != 13,
        wf_entries(entries),
    ensures
        find_sub(l0 + crlf() + serialize_headers(entries) + crlf() + body, crlf_crlf()) == Some(
            l0.len() + serialize_headers(entries).len() as int,
        ),
    decreases entries.len(),
{
    let w = l0 + crlf() + serialize_headers(entries) + crlf() + body;
    if entries.len() == 0 {
        assert(w =~= l0 + crlf_crlf() + body);
        assert(w.subrange(l0.len() as int, l0.len() as int + 4) =~= crlf_crlf());
        assert(match_at(w, crlf_crlf(), l0.len() as int));
        assert forall|j: int| 0 <= j < l0.len() implies !match_at(w, crlf_crlf(), j) by {
            if match_at(w, crlf_crlf(), j) {
                lemma_match_crlfcrlf_bytes(w, j);
                if j + 2 <= l0.len() {
                    assert(w[j] == l0[j] && w[j + 1] == l0[j + 1]);
                    lemma_match_crlf_bytes(l0, j);
                } else {
                    assert(j == l0.len() - 1);
                    assert(w[j + 1] == 13);
                }
            }
        }
        lemma_find_sub_pin(w, crlf_crlf(), l0.len() as int);
    } else {
        let e = entries.first();
        let l1 = hline(e.0, e.1);
        assert(wf_entry(entries[0].0, entries[0].1));
        lemma_hline_split(e.0, e.1);
        let rest = entries.drop_first();
        assert forall|i: int| 0 <= i < rest.len() implies wf_entry(
            (#[trigger] rest[i]).0,
            rest[i].1,
        ) by {
            assert(rest[i] == entries[i + 1]);
        }
        lemma_wire_boundary(l1, rest, body);
        let w2 = l1 + crlf() + serialize_headers(rest) + crlf() + body;
        let m = l1.len() + serialize_headers(rest).len() as int;
        lemma_find_sub_from_spec(w2, crlf_crlf(), 0);
        assert(match_at(w2, crlf_crlf(), m));
        assert(serialize_headers(entries) =~= l1 + crlf() + serialize_headers(rest));
        assert(w =~= l0 + crlf() + w2);
        let target = l0.len() + 2 + m;
        assert(w.subrange(target, target + 4) =~= w2.subrange(m, m + 4));
        assert(match_at(w, crlf_crlf(), target));
        assert forall|j: int| 0 <= j < target implies !match_at(w, crlf_crlf(), j) by {
            if match_at(w, crlf_crlf(), j) {
                lemma_match_crlfcrlf_bytes(w, j);
                if j + 2 <= l0.len() {
                    assert(w[j] == l0[j] && w[j + 1] == l0[j + 1]);
                    lemma_match_crlf_bytes(l0, j);
                } else if j == l0.len() - 1 {
                    assert(w[j + 1] == 13);
                } else if j == l0.len() {
                    assert(w[j + 2] == w2[0] && w[j + 3] == w2[1]);
                    assert(w2[0] == l1[0] && w2[1] == l1[1]);
                    lemma_match_crlf_bytes(l1, 0);
                } else if j == l0.len() + 1 {
                    assert(w[j] == 10);
                } else {
                    let j2 = j - (l0.len() + 2);
                    assert(w.subrange(j, j + 4) =~= w2.subrange(j2, j2 + 4));
                    assert(match_at(w2, crlf_crlf(), j2));
                }
            }
        }
        lemma_find_sub_pin(w, crlf_crlf(), target);
        assert(target == l0.len() + serialize_headers(entries).len() as int);
    }
}

/// Splitting the head region yields the request line, then the header lines.
proof fn lemma_head_lines(l0: Seq<u8>, entries: Seq<(Seq<u8>, Seq<u8>)>)
    requires
        crlf_free(l0),
        wf_entries(entries),
    ensures
        split_crlf(head_of(l0, entries)) == seq![l0] + hlines(entries),
    decreases entries.len(),
{
    if entries.len() == 0 {
        lemma_find_sub_from_spec(l0, crlf(), 0);
        match find_sub(l0, crlf()) {
            Some(i) => {
                assert(match_at(l0, crlf(), i));
                assert(false);
            },
            None => {},
        }
        assert(split_crlf(l0) == seq![l0]);
        assert(seq![l0] + hlines(entries) =~= seq![l0]);
    } else {
        let e = entries.first();
        let l1 = hline(e.0, e.1);
        assert(wf_entry(entries[0].0, entries[0].1));
        lemma_hline_split(e.0, e.1);
        let rest = entries.drop_first();
        assert forall|i: int| 0 <= i < rest.len() implies wf_entry(
            (#[trigger] rest[i]).0,
            rest[i].1,
        ) by {
            assert(rest[i] == entries[i + 1]);
        }
        lemma_head_lines(l1, rest);
        lemma_split_crlf_join(l0, head_of(l1, rest));
        assert(split_crlf(head_of(l0, entries)) == seq![l0] + (seq![l1] + hlines(rest)));
        assert(seq![l0] + (seq![l1] + hlines(rest)) =~= seq![l0] + hlines(entries));
    }
}

/// The request-parse round trip: a parsed request written back in wire form
/// parses to the very same request, and a parse failure always answers with
/// 400 or 405.
pub proof fn lemma_parse_roundtrip(input: Seq<u8>)
    ensures
        match parse_spec(input) {
            Ok(q) => parse_spec(serialize_spec(q)) == Ok::<
                ReqView,
                crate::request::ParseErrView,
            >(q),
            Err(e) => e.status == crate::response::HttpStatusCode::BadRequest || e.status
                == crate::response::HttpStatusCode::MethodNotAllowed,
        },
{
    match parse_spec(input) {
        Err(_) => {},
        Ok(q) => {
            // take the successful parse apart
            let b = find_sub(input, crlf_crlf()).unwrap();
            let head = input.take(b);
            let rest = input.skip(b + 4);
            let lines = split_crlf(head);
            let folded = fold_headers(lines.drop_first(), Seq::empty());
            let headers = folded.1;
            let toks = tokens_of(lines.first());
            assert(toks.len() == 3);
            assert(q.headers == headers);
            assert(method_of(toks[0]) == Some(q.method));
            assert(version_of(toks[2]) == Some(q.version));
            assert(q.path == toks[1]);

            // the parsed header entries are trimmed, colon-free and
            // CRLF-free, with pairwise distinct names
            lemma_split_crlf_segments_free(head);
            let hdr_lines = lines.drop_first();
            assert forall|i: int| 0 <= i < hdr_lines.len() implies crlf_free(
                #[trigger] hdr_lines[i],
            ) by {
                assert(hdr_lines[i] == lines[i + 1]);
            }
            lemma_fold_wf(hdr_lines, Seq::empty());
            assert(wf_entries(headers));
            assert(keys_unique(headers));

            // the request-line tokens hold no whitespace, hence no CR or LF
            lemma_tokens_wf(lines.first());
            let mb = method_bytes(q.method);
            let vb = version_bytes(q.version);
            assert(toks[0] == mb && toks[2] == vb) by {
                lemma_method_version_tokens(toks[0], toks[2], q.method, q.version);
            }
            let l0 = mb + seq![32u8] + q.path + seq![32u8] + vb;
            let bodybytes: Seq<u8> = match q.body {
                Some(bs) => bs,
                None => Seq::empty(),
            };
            let w = serialize_spec(q);
            assert(w =~= l0 + crlf() + serialize_headers(headers) + crlf() + bodybytes);

            // the request line is CRLF-free and does not end in CR
            assert(mb.len() > 0 && q.path.len() > 0 && vb.len() > 0);
            assert(crlf_free(l0)) by {
                assert forall|j: int| !match_at(l0, crlf(), j) by {
                    if match_at(l0, crlf(), j) {
                        lemma_match_crlf_bytes(l0, j);
                        assert(l0[j] == 13);
                        lemma_reqline_no_cr(mb, q.path, vb, j);
                    }
                }
            }
            assert(l0.last() == vb.last());
            assert(!is_ws(vb[vb.len() - 1]));
            assert(l0.last() != 13);

            // the boundary of the written form is right after the head region
            lemma_wire_boundary(l0, headers, bodybytes);
            lemma_wire_shape(l0, headers, bodybytes);
            let b2 = l0.len() + serialize_headers(headers).len() as int;
            assert(find_sub(w, crlf_crlf()) == Some(b2));
            assert(w.len() > 0);
            let head2 = w.take(b2);
            let rest2 = w.skip(b2 + 4);
            assert(head2 =~= head_of(l0, headers));
            assert(rest2 =~= bodybytes);

            // the head region splits back into the same lines,
            // and the lines fold back into the same headers
            lemma_head_lines(l0, headers);
            let lines2 = split_crlf(head2);
            assert(lines2 == seq![l0] + hlines(headers));
            assert(lines2.first() == l0);
            assert(lines2.drop_first() =~= hlines(headers));
            lemma_refold(headers, Seq::empty());
            assert(fold_headers(lines2.drop_first(), Seq::empty()) == (
            true,
            Seq::<(Seq<u8>, Seq<u8>)>::empty() + headers,
            ));
            assert(Seq::<(Seq<u8>, Seq<u8>)>::empty() + headers =~= headers);

            // the request line splits back into the same three tokens
            assert forall|j: int| 0 <= j < mb.len() implies !is_ws(#[trigger] mb[j]) by {
                assert(toks[0][j] == mb[j]);
            }
            assert forall|j: int| 0 <= j < q.path.len() implies !is_ws(#[trigger] q.path[j]) by {
                assert(toks[1][j] == q.path[j]);
            }
            assert forall|j: int| 0 <= j < vb.len() implies !is_ws(#[trigger] vb[j]) by {
                assert(toks[2][j] == vb[j]);
            }
            lemma_tokens_join(mb, q.path + seq![32u8] + vb);
            lemma_tokens_join(q.path, vb);
            lemma_tokens_single(vb);
            assert(l0 =~= mb + seq![32u8] + (q.path + seq![32u8] + vb));
            let toks2 = tokens_of(l0);
            assert(toks2 =~= seq![mb, q.path, vb]);
            assert(toks2.len() == 3);
            lemma_method_of_bytes(q.method);
            lemma_version_of_bytes(q.version);
            assert(method_of(toks2[0]) == Some(q.method));
            assert(version_of(toks2[2]) == Some(q.version));

            // the same headers declare the same length, framing the body
            let cl = crate::request::content_length_of(headers);
            match q.body {
                Some(bs) => {
                    assert(cl > 0 && rest.len() >= cl && bs == rest.take(cl));
                    assert(rest2.len() == cl);
                    assert(rest2.take(cl) =~= bodybytes);
                },
                None => {
                    assert(cl <= 0);
                },
            }

            match parse_spec(w) {
                Ok(q2) => {
                    assert(q2 =~~= q);
                },
                Err(_) => {
                    assert(false);
                },
            }
        },
    }
}

/// A token equal to a method's or version's bytes is that method's or
/// version's token.
proof fn lemma_method_version_tokens(
    t0: Seq<u8>,
    t2: Seq<u8>,
    m: crate::request::HttpMethod,
    v: crate::request::HttpVersion,
)
    requires
        method_of(t0) == Some(m),
        version_of(t2) == Some(v),
    ensures
        t0 == method_bytes(m),
        t2 == version_bytes(v),
{
}

/// The request line holds no CR byte at all.
proof fn lemma_reqline_no_cr(mb: Seq<u8>, path: Seq<u8>, vb: Seq<u8>, j: int)
    requires
        forall|k: int| 0 <= k < mb.len() ==> !is_ws(#[trigger] mb[k]),
        forall|k: int| 0 <= k < path.len() ==> !is_ws(#[trigger] path[k]),
        forall|k: int| 0 <= k < vb.len() ==> !is_ws(#[trigger] vb[k]),
        0 <= j < (mb + seq![32u8] + path + seq![32u8] + vb).len(),
    ensures
        (mb + seq![32u8] + path + seq![32u8] + vb)[j] != 13,
{
    let l0 = mb + seq![32u8] + path + seq![32u8] + vb;
    if j < mb.len() {
        assert(l0[j] == mb[j]);
    } else if j == mb.len() {
        assert(l0[j] == 32);
    } else if j < mb.len() + 1 + path.len() {
        assert(l0[j] == path[j - (mb.len() + 1)]);
    } else if j == mb.len() + 1 + path.len() {
        assert(l0[j] == 32);
    } else {
        assert(l0[j] == vb[j - (mb.len() + path.len() + 2)]);
    }
}

/// Method and version tokens read back as themselves.
proof fn lemma_method_of_bytes(m: crate::request::HttpMethod)
    ensures
        method_of(method_bytes(m)) == Some(m),
{
    let g = method_bytes(crate::request::HttpMethod::Get);
    let po = method_bytes(crate::request::HttpMethod::Post);
    let pu = method_bytes(crate::request::HttpMethod::Put);
    let d = method_bytes(crate::request::HttpMethod::Delete);
    assert(g.len() == 3 && po.len() == 4 && pu.len() == 3 && d.len() == 6);
    assert(g[0] == 71 && pu[0] == 80);
    match m {
        crate::request::HttpMethod::Get => {},
        crate::request::HttpMethod::Post => {
            assert(po != g);
        },
        crate::request::HttpMethod::Put => {
            assert(pu != g) by {
                if pu == g {
                    assert(pu[0] == g[0]);
                }
            }
            assert(pu != po);
        },
        crate::request::HttpMethod::Delete => {
            assert(d != g && d != po && d != pu);
        },
    }
}

proof fn lemma_version_of_bytes(v: crate::request::HttpVersion)
    ensures
        version_of(version_bytes(v)) == Some(v),
{
    let v0 = version_bytes(crate::request::HttpVersion::Http1_0);
    let v1 = version_bytes(crate::request::HttpVersion::Http1_1);
    assert(v0[7] == 48 && v1[7] == 49);
    match v {
        crate::request::HttpVersion::Http1_1 => {},
        crate::request::HttpVersion::Http1_0 => {
            assert(v0 != v1) by {
                if v0 == v1 {
                    assert(v0[7] == v1[7]);
                }
            }
        },
    }
}

} // verus!
