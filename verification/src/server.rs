//! The path sandbox and server context: percent-decoding, syntactic
//! rejection of hostile paths, and the containment check that keeps every
//! resolved path at or below the canonical root.
//!
//! Canonicalization itself is filesystem work and happens outside the
//! library; the functions here validate the client path before it, and
//! check containment after it.

use vstd::prelude::*;

use crate::ascii::{
    contains_byte, eq_ci, find_sub, hex_nibble, match_at, seqs_view, split_byte,
};

verus! {

/// Access intent for path resolution.
#[derive(Debug, Clone, Copy, PartialEq, Eq, Structural)]
pub enum AccessIntent {
    Read,
    Write,
}

/// Why a path failed to resolve.
#[derive(Debug, Clone, Copy, PartialEq, Eq, Structural)]
pub enum ResolveError {
    Forbidden,
    NotFound,
    Invalid,
    Io,
}

/// Why the server context could not be built.
#[derive(Debug, Clone, Copy, PartialEq, Eq, Structural)]
pub enum InitError {
    RootUnavailable,
    MissingOrNotDir,
}

/// Percent-decoding: each `%XY` with two hex digits becomes one byte;
/// `None` on a malformed or truncated escape.
pub open spec fn percent_decode_spec(s: Seq<u8>) -> Option<Seq<u8>>
    decreases s.len(),
{
    if s.len() == 0 {
        Some(Seq::empty())
    } else if s.first() == 37 {
        if s.len() < 3 {
            None
        } else {
            match (hex_nibble(s[1]), hex_nibble(s[2])) {
                (Some(h), Some(l)) => match percent_decode_spec(s.skip(3)) {
                    Some(rest) => Some(seq![(h * 16 + l) as u8] + rest),
                    None => None,
                },
                _ => None,
            }
        }
    } else {
        match percent_decode_spec(s.drop_first()) {
            Some(rest) => Some(seq![s.first()] + rest),
            None => None,
        }
    }
}

/// Percent-decodes a path. `None` on a malformed escape sequence.
pub fn percent_decode(input: &[u8]) -> (r: Option<Vec<u8>>)
    ensures
        match r {
            Some(v) => percent_decode_spec(input@) == Some(v@),
            None => percent_decode_spec(input@) is None,
        },
{
    let n = input.len();
    let mut out: Vec<u8> = Vec::new();
    let mut i: usize = 0;
    proof {
        assert(input@.skip(0) =~= input@);
        assert(out@ =~= Seq::<u8>::empty());
    }
    while i < n
        invariant
            0 <= i <= n,
            n == input@.len(),
            forall|rest: Seq<u8>|
                percent_decode_spec(input@.skip(i as int)) == Some(rest) ==> percent_decode_spec(
                    input@,
                ) == Some(out@ + rest),
            percent_decode_spec(input@.skip(i as int)) is None ==> percent_decode_spec(input@)
                is None,
        decreases n - i,
    {
        let ghost u = input@.skip(i as int);
        let b = input[i];
        proof {
            assert(u.first() == input@[i as int]);
        }
        if b == 37 {
            if n - i < 3 {
                proof {
                    assert(u.len() < 3);
                    assert(percent_decode_spec(u) is None);
                }
                return None;
            }
            let h = match crate::ascii::hex_nibble_of(input[i + 1]) {
                Some(h) => h,
                None => {
                    proof {
                        assert(u[1] == input@[i as int + 1]);
                        assert(percent_decode_spec(u) is None);
                    }
                    return None;
                },
            };
            let l = match crate::ascii::hex_nibble_of(input[i + 2]) {
                Some(l) => l,
                None => {
                    proof {
                        assert(u[1] == input@[i as int + 1]);
                        assert(u[2] == input@[i as int + 2]);
                        assert(percent_decode_spec(u) is None);
                    }
                    return None;
                },
            };
            let ghost before = out@;
            out.push(h * 16 + l);
            proof {
                assert(u[1] == input@[i as int + 1]);
                assert(u[2] == input@[i as int + 2]);
                assert(u.skip(3) =~= input@.skip(i as int + 3));
                assert(out@ =~= before + seq![(h * 16 + l) as u8]);
                assert forall|rest: Seq<u8>|
                    percent_decode_spec(input@.skip(i as int + 3)) == Some(rest)
                        implies percent_decode_spec(input@) == Some(out@ + rest) by {
                    assert(percent_decode_spec(u) == Some(seq![(h * 16 + l) as u8] + rest));
                    assert(before + (seq![(h * 16 + l) as u8] + rest) =~= out@ + rest);
                }
            }
            i += 3;
        } else {
            let ghost before = out@;
            out.push(b);
            proof {
                assert(u.drop_first() =~= input@.skip(i as int + 1));
                assert(out@ =~= before + seq![b]);
                assert forall|rest: Seq<u8>|
                    percent_decode_spec(input@.skip(i as int + 1)) == Some(rest)
                        implies percent_decode_spec(input@) == Some(out@ + rest) by {
                    assert(percent_decode_spec(u) == Some(seq![b] + rest));
                    assert(before + (seq![b] + rest) =~= out@ + rest);
                }
            }
            i += 1;
        }
    }
    proof {
        assert(input@.skip(n as int) =~= Seq::<u8>::empty());
        assert(percent_decode_spec(Seq::<u8>::empty()) == Some(Seq::<u8>::empty()));
        assert(out@ + Seq::<u8>::empty() =~= out@);
    }
    Some(out)
}

/// An ASCII control byte, below space or DEL.
pub open spec fn is_control(b: u8) -> bool {
    b < 0x20 || b == 0x7f
}

pub open spec fn has_control(s: Seq<u8>) -> bool {
    exists|i: int| 0 <= i < s.len() && is_control(s[i])
}

/// Bytes rejected for portability across target filesystems.
pub open spec fn is_portability_hostile(b: u8) -> bool {
    b == 60 || b == 62 || b == 58 || b == 34 || b == 92 || b == 124 || b == 63 || b == 42
}

pub open spec fn has_portability_hostile(s: Seq<u8>) -> bool {
    exists|i: int| 0 <= i < s.len() && is_portability_hostile(s[i])
}

fn scan_control(s: &[u8]) -> (r: bool)
    ensures
        r == has_control(s@),
{
    let mut i: usize = 0;
    while i < s.len()
        invariant
            0 <= i <= s@.len(),
            forall|j: int| 0 <= j < i ==> !is_control(s@[j]),
        decreases s@.len() - i,
    {
        let b = s[i];
        if b < 0x20 || b == 0x7f {
            return true;
        }
        i += 1;
    }
    false
}

fn scan_portability_hostile(s: &[u8]) -> (r: bool)
    ensures
        r == has_portability_hostile(s@),
{
    let mut i: usize = 0;
    while i < s.len()
        invariant
            0 <= i <= s@.len(),
            forall|j: int| 0 <= j < i ==> !is_portability_hostile(s@[j]),
        decreases s@.len() - i,
    {
        let b = s[i];
        if b == 60 || b == 62 || b == 58 || b == 34 || b == 92 || b == 124 || b == 63 || b == 42 {
            return true;
        }
        i += 1;
    }
    false
}

/// A `.` or `..` segment between slashes.
pub open spec fn is_dot_segment(seg: Seq<u8>) -> bool {
    seg == seq![46u8] || seg == seq![46u8, 46u8]
}

/// The decoded path walks up or stays with `.`/`..` in some segment.
pub open spec fn has_dot_segment(decoded: Seq<u8>) -> bool {
    exists|i: int|
        0 <= i < split_byte(decoded, 47).len() && is_dot_segment(#[trigger] split_byte(
            decoded,
            47,
        )[i])
}

fn is_dot_segment_bytes(seg: &[u8]) -> (r: bool)
    ensures
        r == is_dot_segment(seg@),
{
    if seg.len() == 1 && seg[0] == 46 {
        proof {
            assert(seg@ =~= seq![46u8]);
        }
        true
    } else if seg.len() == 2 && seg[0] == 46 && seg[1] == 46 {
        proof {
            assert(seg@ =~= seq![46u8, 46u8]);
        }
        true
    } else {
        proof {
            assert(seq![46u8].len() == 1);
            assert(seq![46u8, 46u8].len() == 2);
            if seg@.len() == 1 {
                assert(seg@[0] != 46);
                assert(seg@ != seq![46u8]);
            }
            if seg@.len() == 2 {
                assert(!(seg@[0] == 46 && seg@[1] == 46));
                assert(seg@ != seq![46u8, 46u8]);
            }
        }
        false
    }
}

fn scan_dot_segments(decoded: &[u8]) -> (r: bool)
    ensures
        r == has_dot_segment(decoded@),
{
    let segs = crate::ascii::split_on_byte(decoded, 47);
    let n = segs.len();
    let mut i: usize = 0;
    while i < n
        invariant
            0 <= i <= n,
            n == segs@.len(),
            seqs_view(segs@) == split_byte(decoded@, 47),
            forall|j: int| 0 <= j < i ==> !is_dot_segment(split_byte(decoded@, 47)[j]),
        decreases n - i,
    {
        proof {
            assert(segs@[i as int]@ == split_byte(decoded@, 47)[i as int]);
        }
        if is_dot_segment_bytes(segs[i].as_slice()) {
            return true;
        }
        i += 1;
    }
    false
}

/// The percent escapes that hide a path separator in the raw path.
pub open spec fn has_encoded_separator(raw: Seq<u8>) -> bool {
    ||| find_sub(raw, seq![37u8, 50, 70]) is Some  // %2F
    ||| find_sub(raw, seq![37u8, 50, 102]) is Some  // %2f
    ||| find_sub(raw, seq![37u8, 53, 67]) is Some  // %5C
    ||| find_sub(raw, seq![37u8, 53, 99]) is Some  // %5c
}

fn scan_encoded_separator(raw: &[u8]) -> (r: bool)
    ensures
        r == has_encoded_separator(raw@),
{
    let mut p1: Vec<u8> = Vec::new();
    p1.push(37);
    p1.push(50);
    p1.push(70);
    let mut p2: Vec<u8> = Vec::new();
    p2.push(37);
    p2.push(50);
    p2.push(102);
    let mut p3: Vec<u8> = Vec::new();
    p3.push(37);
    p3.push(53);
    p3.push(67);
    let mut p4: Vec<u8> = Vec::new();
    p4.push(37);
    p4.push(53);
    p4.push(99);
    proof {
        assert(p1@ =~= seq![37u8, 50, 70]);
        assert(p2@ =~= seq![37u8, 50, 102]);
        assert(p3@ =~= seq![37u8, 53, 67]);
        assert(p4@ =~= seq![37u8, 53, 99]);
    }
    let r1 = crate::ascii::find_subsequence(raw, p1.as_slice());
    let r2 = crate::ascii::find_subsequence(raw, p2.as_slice());
    let r3 = crate::ascii::find_subsequence(raw, p3.as_slice());
    let r4 = crate::ascii::find_subsequence(raw, p4.as_slice());
    r1.is_some() || r2.is_some() || r3.is_some() || r4.is_some()
}

/// The last nonempty segment: the file name the path points at.
pub open spec fn last_nonempty(segs: Seq<Seq<u8>>) -> Option<Seq<u8>>
    decreases segs.len(),
{
    if segs.len() == 0 {
        None
    } else if segs.last().len() > 0 {
        Some(segs.last())
    } else {
        last_nonempty(segs.drop_last())
    }
}

/// The file name of a decoded path.
pub open spec fn file_name_of(decoded: Seq<u8>) -> Option<Seq<u8>> {
    last_nonempty(split_byte(decoded, 47))
}

pub(crate) fn last_nonempty_bytes(segs: &Vec<Vec<u8>>) -> (r: Option<Vec<u8>>)
    ensures
        match r {
            Some(v) => last_nonempty(seqs_view(segs@)) == Some(v@),
            None => last_nonempty(seqs_view(segs@)) is None,
        },
{
    let n = segs.len();
    let mut i: usize = n;
    proof {
        assert(seqs_view(segs@).take(n as int) =~= seqs_view(segs@));
    }
    while i > 0
        invariant
            0 <= i <= n,
            n == segs@.len(),
            last_nonempty(seqs_view(segs@)) == last_nonempty(seqs_view(segs@).take(i as int)),
            forall|j: int| i <= j < n ==> segs@[j]@.len() == 0,
        decreases i,
    {
        proof {
            let v = seqs_view(segs@).take(i as int);
            assert(v.last() == segs@[i as int - 1]@);
            assert(v.drop_last() =~= seqs_view(segs@).take(i as int - 1));
        }
        if segs[i - 1].len() > 0 {
            let name = crate::ascii::subrange_to_vec(
                segs[i - 1].as_slice(),
                0,
                segs[i - 1].len(),
            );
            proof {
                assert(name@ =~= segs@[i as int - 1]@);
            }
            return Some(name);
        }
        i -= 1;
    }
    proof {
        assert(seqs_view(segs@).take(0) =~= Seq::<Seq<u8>>::empty());
    }
    None
}

/// The stem of a file name: everything before the first `.`.
pub open spec fn stem_of(name: Seq<u8>) -> Seq<u8> {
    match find_sub(name, seq![46u8]) {
        None => name,
        Some(i) => name.take(i),
    }
}

/// Reserved platform device names, compared case-insensitively.
pub open spec fn is_reserved_name(stem: Seq<u8>) -> bool {
    ||| eq_ci(stem, seq![99u8, 111, 110])  // con
    ||| eq_ci(stem, seq![112u8, 114, 110])  // prn
    ||| eq_ci(stem, seq![97u8, 117, 120])  // aux
    ||| eq_ci(stem, seq![110u8, 117, 108])  // nul
    ||| (stem.len() == 4 && (eq_ci(stem.take(3), seq![99u8, 111, 109]) || eq_ci(
        stem.take(3),
        seq![108u8, 112, 116],
    )) && 49 <= stem[3] <= 57)
}

fn is_reserved_name_bytes(stem: &[u8]) -> (r: bool)
    ensures
        r == is_reserved_name(stem@),
{
    let mut con: Vec<u8> = Vec::new();
    con.push(99);
    con.push(111);
    con.push(110);
    let mut prn: Vec<u8> = Vec::new();
    prn.push(112);
    prn.push(114);
    prn.push(110);
    let mut aux: Vec<u8> = Vec::new();
    aux.push(97);
    aux.push(117);
    aux.push(120);
    let mut nul: Vec<u8> = Vec::new();
    nul.push(110);
    nul.push(117);
    nul.push(108);
    let mut com: Vec<u8> = Vec::new();
    com.push(99);
    com.push(111);
    com.push(109);
    let mut lpt: Vec<u8> = Vec::new();
    lpt.push(108);
    lpt.push(112);
    lpt.push(116);
    proof {
        assert(con@ =~= seq![99u8, 111, 110]);
        assert(prn@ =~= seq![112u8, 114, 110]);
        assert(aux@ =~= seq![97u8, 117, 120]);
        assert(nul@ =~= seq![110u8, 117, 108]);
        assert(com@ =~= seq![99u8, 111, 109]);
        assert(lpt@ =~= seq![108u8, 112, 116]);
    }
    if crate::ascii::bytes_eq_ci(stem, con.as_slice()) {
        return true;
    }
    if crate::ascii::bytes_eq_ci(stem, prn.as_slice()) {
        return true;
    }
    if crate::ascii::bytes_eq_ci(stem, aux.as_slice()) {
        return true;
    }
    if crate::ascii::bytes_eq_ci(stem, nul.as_slice()) {
        return true;
    }
    if stem.len() == 4 && 49 <= stem[3] && stem[3] <= 57 {
        let head = crate::ascii::subrange_to_vec(stem, 0, 3);
        proof {
            assert(head@ =~= stem@.take(3));
        }
        if crate::ascii::bytes_eq_ci(head.as_slice(), com.as_slice()) || crate::ascii::bytes_eq_ci(
            head.as_slice(),
            lpt.as_slice(),
        ) {
            return true;
        }
    }
    false
}

/// What the syntactic phase of path resolution yields: the decoded relative
/// path, or the rejection. The rules run in order; each is a hard reject.
pub open spec fn validate_path_spec(raw: Seq<u8>) -> Result<Seq<u8>, ResolveError> {
    match percent_decode_spec(raw) {
        None => Err(ResolveError::Invalid),
        Some(decoded) => if decoded.len() == 0 {
            Err(ResolveError::Invalid)
        } else if has_control(decoded) {
            Err(ResolveError::Invalid)
        } else if has_portability_hostile(decoded) {
            Err(ResolveError::Invalid)
        } else if decoded[0] == 47 {
            Err(ResolveError::Forbidden)
        } else if has_dot_segment(decoded) {
            Err(ResolveError::Forbidden)
        } else if contains_byte(raw, 92) {
            Err(ResolveError::Invalid)
        } else if has_encoded_separator(raw) {
            Err(ResolveError::Invalid)
        } else {
            match file_name_of(decoded) {
                None => Err(ResolveError::Invalid),
                Some(name) => if name.last() == 46 || name.last() == 32 {
                    Err(ResolveError::Invalid)
                } else if is_reserved_name(stem_of(name)) {
                    Err(ResolveError::Invalid)
                } else {
                    Ok(decoded)
                },
            }
        },
    }
}

/// Runs the syntactic phase of path resolution on a raw request path.
pub fn validate_request_path(raw: &[u8]) -> (r: Result<Vec<u8>, ResolveError>)
    ensures
        match r {
            Ok(decoded) => validate_path_spec(raw@) == Ok::<Seq<u8>, ResolveError>(decoded@),
            Err(e) => validate_path_spec(raw@) == Err::<Seq<u8>, ResolveError>(e),
        },
{
    let decoded = match percent_decode(raw) {
        Some(d) => d,
        None => {
            return Err(ResolveError::Invalid);
        },
    };
    if decoded.len() == 0 {
        return Err(ResolveError::Invalid);
    }
    if scan_control(decoded.as_slice()) {
        return Err(ResolveError::Invalid);
    }
    if scan_portability_hostile(decoded.as_slice()) {
        return Err(ResolveError::Invalid);
    }
    if decoded[0] == 47 {
        return Err(ResolveError::Forbidden);
    }
    if scan_dot_segments(decoded.as_slice()) {
        return Err(ResolveError::Forbidden);
    }
    if crate::ascii::scan_for_byte(raw, 92) {
        return Err(ResolveError::Invalid);
    }
    if scan_encoded_separator(raw) {
        return Err(ResolveError::Invalid);
    }
    let segs = crate::ascii::split_on_byte(decoded.as_slice(), 47);
    let name = match last_nonempty_bytes(&segs) {
        Some(n) => n,
        None => {
            return Err(ResolveError::Invalid);
        },
    };
    proof {
        lemma_last_nonempty_is_nonempty(split_byte(decoded@, 47));
    }
    if name[name.len() - 1] == 46 || name[name.len() - 1] == 32 {
        return Err(ResolveError::Invalid);
    }
    let mut dot: Vec<u8> = Vec::new();
    dot.push(46);
    proof {
        assert(dot@ =~= seq![46u8]);
        assert(dot@.len() == 1);
    }
    let stem = match crate::ascii::find_subsequence(name.as_slice(), dot.as_slice()) {
        Some(i) => {
            proof {
                crate::ascii::lemma_find_sub_from_spec(name@, seq![46u8], 0);
                assert(match_at(name@, seq![46u8], i as int));
            }
            crate::ascii::subrange_to_vec(name.as_slice(), 0, i)
        },
        None => crate::ascii::subrange_to_vec(name.as_slice(), 0, name.len()),
    };
    proof {
        assert(stem@ =~= stem_of(name@));
    }
    if is_reserved_name_bytes(stem.as_slice()) {
        return Err(ResolveError::Invalid);
    }
    Ok(decoded)
}

proof fn lemma_last_nonempty_is_nonempty(segs: Seq<Seq<u8>>)
    ensures
        match last_nonempty(segs) {
            Some(name) => name.len() > 0,
            None => true,
        },
    decreases segs.len(),
{
    if segs.len() > 0 && segs.last().len() == 0 {
        lemma_last_nonempty_is_nonempty(segs.drop_last());
    }
}

/// The nonempty segments, in order.
pub open spec fn nonempty_segs(segs: Seq<Seq<u8>>) -> Seq<Seq<u8>>
    decreases segs.len(),
{
    if segs.len() == 0 {
        Seq::empty()
    } else if segs.first().len() == 0 {
        nonempty_segs(segs.drop_first())
    } else {
        seq![segs.first()] + nonempty_segs(segs.drop_first())
    }
}

/// The path components of a canonical absolute path: its nonempty
/// slash-separated segments.
pub open spec fn components_of(p: Seq<u8>) -> Seq<Seq<u8>> {
    nonempty_segs(split_byte(p, 47))
}

/// `a` is a component-wise prefix of `b`.
pub open spec fn seqs_prefix_of(a: Seq<Seq<u8>>, b: Seq<Seq<u8>>) -> bool {
    a.len() <= b.len() && forall|i: int| 0 <= i < a.len() ==> a[i] == b[i]
}

/// The containment invariant of the sandbox: every component of the
/// canonical root leads the components of `p`.
pub open spec fn path_within_root(root: Seq<u8>, p: Seq<u8>) -> bool {
    seqs_prefix_of(components_of(root), components_of(p))
}

/// The nonempty slash-separated components of a path, as byte vectors.
pub fn components_vec(p: &[u8]) -> (r: Vec<Vec<u8>>)
    ensures
        seqs_view(r@) == components_of(p@),
{
    let segs = crate::ascii::split_on_byte(p, 47);
    let n = segs.len();
    let mut out: Vec<Vec<u8>> = Vec::new();
    let mut i: usize = 0;
    proof {
        assert(seqs_view(segs@).skip(0) =~= seqs_view(segs@));
        assert(seqs_view(out@) + nonempty_segs(seqs_view(segs@)) =~= nonempty_segs(
            seqs_view(segs@),
        ));
    }
    while i < n
        invariant
            0 <= i <= n,
            n == segs@.len(),
            seqs_view(segs@) == split_byte(p@, 47),
            components_of(p@) == seqs_view(out@) + nonempty_segs(seqs_view(segs@).skip(i as int)),
        decreases n - i,
    {
        let ghost remaining = seqs_view(segs@).skip(i as int);
        proof {
            assert(remaining.first() == segs@[i as int]@);
            assert(remaining.drop_first() =~= seqs_view(segs@).skip(i as int + 1));
        }
        if segs[i].len() > 0 {
            let seg = crate::ascii::subrange_to_vec(segs[i].as_slice(), 0, segs[i].len());
            let ghost before = seqs_view(out@);
            proof {
                assert(seg@ =~= segs@[i as int]@);
            }
            out.push(seg);
            proof {
                assert(seqs_view(out@) =~= before + seq![remaining.first()]);
                assert(before + seq![remaining.first()] + nonempty_segs(remaining.drop_first())
                    =~= before + (seq![remaining.first()] + nonempty_segs(
                    remaining.drop_first(),
                )));
            }
        }
        i += 1;
    }
    proof {
        assert(seqs_view(segs@).skip(n as int) =~= Seq::<Seq<u8>>::empty());
        assert(seqs_view(out@) + Seq::<Seq<u8>>::empty() =~= seqs_view(out@));
    }
    out
}

/// Checks that `p` lies at or below `root`, comparing canonical paths
/// component-wise.
pub fn path_within_root_check(root: &[u8], p: &[u8]) -> (r: bool)
    ensures
        r == path_within_root(root@, p@),
{
    let rc = components_vec(root);
    let pc = components_vec(p);
    if rc.len() > pc.len() {
        return false;
    }
    let n = rc.len();
    let mut i: usize = 0;
    while i < n
        invariant
            0 <= i <= n,
            n == rc@.len(),
            n <= pc@.len(),
            seqs_view(rc@) == components_of(root@),
            seqs_view(pc@) == components_of(p@),
            forall|j: int| 0 <= j < i ==> components_of(root@)[j] == components_of(p@)[j],
        decreases n - i,
    {
        if !crate::ascii::bytes_eq(rc[i].as_slice(), pc[i].as_slice()) {
            proof {
                assert(components_of(root@)[i as int] != components_of(p@)[i as int]);
            }
            return false;
        }
        i += 1;
    }
    true
}

/// The result of path resolution: an absolute path at or below the
/// canonical root, and whether the target currently exists.
#[derive(Debug)]
pub struct ResolvedPath {
    path: Vec<u8>,
    present: bool,
}

impl ResolvedPath {
    /// The resolved absolute path.
    pub closed spec fn spec_path(&self) -> Seq<u8> {
        self.path@
    }

    /// Whether the target existed at resolution time.
    pub closed spec fn spec_exists(&self) -> bool {
        self.present
    }

    /// Gets the resolved absolute path.
    pub fn path(&self) -> (r: &Vec<u8>)
        ensures
            r@ == self.spec_path(),
    {
        &self.path
    }

    /// Checks whether the resolved path existed at resolution time.
    pub fn exists_flag(&self) -> (r: bool)
        ensures
            r == self.spec_exists(),
    {
        self.present
    }
}

/// Server-wide state: the configured root, its canonical form, and the
/// request counter used for log correlation.
#[derive(Debug)]
pub struct ServerContext {
    root_path: Vec<u8>,
    canon_path: Vec<u8>,
    request_counter: u64,
}

impl ServerContext {
    pub closed spec fn spec_root(&self) -> Seq<u8> {
        self.root_path@
    }

    pub closed spec fn spec_canon(&self) -> Seq<u8> {
        self.canon_path@
    }

    pub closed spec fn spec_counter(&self) -> u64 {
        self.request_counter
    }

    /// Builds a context from the configured root and its canonical form,
    /// which the caller has resolved against the filesystem.
    pub fn new(root_path: Vec<u8>, canon_path: Vec<u8>) -> (r: ServerContext)
        ensures
            r.spec_root() == root_path@,
            r.spec_canon() == canon_path@,
            r.spec_counter() == 0,
    {
        ServerContext { root_path, canon_path, request_counter: 0 }
    }

    pub fn root_path(&self) -> (r: &Vec<u8>)
        ensures
            r@ == self.spec_root(),
    {
        &self.root_path
    }

    pub fn canon_path(&self) -> (r: &Vec<u8>)
        ensures
            r@ == self.spec_canon(),
    {
        &self.canon_path
    }

    /// Returns the next request id; the counter increases by one and wraps.
    pub fn next_request_id(&mut self) -> (r: u64)
        ensures
            r == old(self).spec_counter(),
            final(self).spec_counter() == if old(self).spec_counter() == u64::MAX {
                0u64
            } else {
                (old(self).spec_counter() + 1) as u64
            },
            final(self).spec_root() == old(self).spec_root(),
            final(self).spec_canon() == old(self).spec_canon(),
    {
        let id = self.request_counter;
        if self.request_counter == u64::MAX {
            self.request_counter = 0;
        } else {
            self.request_counter = self.request_counter + 1;
        }
        id
    }

    /// The candidate filesystem path for a validated relative path:
    /// the configured root, a separator, and the decoded path.
    pub fn candidate_path(&self, decoded: &[u8]) -> (r: Vec<u8>)
        ensures
            r@ == self.spec_root() + seq![47u8] + decoded@,
    {
        let mut out = crate::ascii::subrange_to_vec(self.root_path.as_slice(), 0, self.root_path.len());
        out.push(47);
        crate::ascii::push_bytes(&mut out, decoded);
        proof {
            assert(out@ =~= self.spec_root() + seq![47u8] + decoded@);
        }
        out
    }

    /// Finishes a Read resolution: the canonicalized candidate is accepted
    /// exactly when it lies at or below the canonical root.
    pub fn finish_resolve_read(&self, canon_candidate: Vec<u8>) -> (r: Result<
        ResolvedPath,
        ResolveError,
    >)
        ensures
            match r {
                Ok(rp) => path_within_root(self.spec_canon(), canon_candidate@)
                    && rp.spec_path() == canon_candidate@ && rp.spec_exists(),
                Err(e) => e == ResolveError::Forbidden && !path_within_root(
                    self.spec_canon(),
                    canon_candidate@,
                ),
            },
    {
        if !path_within_root_check(self.canon_path.as_slice(), canon_candidate.as_slice()) {
            return Err(ResolveError::Forbidden);
        }
        Ok(ResolvedPath { path: canon_candidate, present: true })
    }

    /// Finishes a Write resolution: the canonicalized parent is accepted
    /// exactly when it lies at or below the canonical root, and the file
    /// name is put back on.
    pub fn finish_resolve_write(
        &self,
        canon_parent: &[u8],
        file_name: &[u8],
        target_exists: bool,
    ) -> (r: Result<ResolvedPath, ResolveError>)
        requires
            file_name@.len() > 0,
            !contains_byte(file_name@, 47),
        ensures
            match r {
                Ok(rp) => path_within_root(self.spec_canon(), canon_parent@) && rp.spec_path()
                    == canon_parent@ + seq![47u8] + file_name@ && rp.spec_exists()
                    == target_exists && path_within_root(self.spec_canon(), rp.spec_path()),
                Err(e) => e == ResolveError::Forbidden && !path_within_root(
                    self.spec_canon(),
                    canon_parent@,
                ),
            },
    {
        if !path_within_root_check(self.canon_path.as_slice(), canon_parent) {
            return Err(ResolveError::Forbidden);
        }
        let mut joined = crate::ascii::subrange_to_vec(canon_parent, 0, canon_parent.len());
        joined.push(47);
        crate::ascii::push_bytes(&mut joined, file_name);
        proof {
            assert(joined@ =~= canon_parent@ + seq![47u8] + file_name@);
            lemma_join_components(canon_parent@, file_name@);
            assert(components_of(joined@) == components_of(canon_parent@) + seq![file_name@]);
        }
        Ok(ResolvedPath { path: joined, present: target_exists })
    }
}

/// Nonempty segments distribute over concatenation.
proof fn lemma_nonempty_segs_add(x: Seq<Seq<u8>>, y: Seq<Seq<u8>>)
    ensures
        nonempty_segs(x + y) == nonempty_segs(x) + nonempty_segs(y),
    decreases x.len(),
{
    if x.len() == 0 {
        assert(x + y =~= y);
        assert(nonempty_segs(x) + nonempty_segs(y) =~= nonempty_segs(y));
    } else {
        assert((x + y).first() == x.first());
        assert((x + y).drop_first() =~= x.drop_first() + y);
        lemma_nonempty_segs_add(x.drop_first(), y);
        if x.first().len() == 0 {
        } else {
            assert(seq![x.first()] + (nonempty_segs(x.drop_first()) + nonempty_segs(y)) =~= (
            seq![x.first()] + nonempty_segs(x.drop_first())) + nonempty_segs(y));
        }
    }
}

/// Appending one slash-free nonempty name adds exactly one component.
proof fn lemma_join_components(parent: Seq<u8>, name: Seq<u8>)
    requires
        name.len() > 0,
        !contains_byte(name, 47),
    ensures
        components_of(parent + seq![47u8] + name) == components_of(parent) + seq![name],
{
    crate::ascii::lemma_split_byte_join(parent, name, 47);
    crate::ascii::lemma_find_sub_from_spec(name, seq![47u8], 0);
    match find_sub(name, seq![47u8]) {
        Some(i) => {
            assert(match_at(name, seq![47u8], i));
            assert(name.subrange(i, i + 1)[0] == name[i]);
            assert(contains_byte(name, 47));
        },
        None => {},
    }
    assert(split_byte(name, 47) == seq![name]);
    assert(nonempty_segs(seq![name]) == seq![name] + nonempty_segs(
        seq![name].drop_first(),
    ));
    assert(seq![name].drop_first() =~= Seq::<Seq<u8>>::empty());
    assert(seq![name] + Seq::<Seq<u8>>::empty() =~= seq![name]);
    lemma_nonempty_segs_add(split_byte(parent, 47), seq![name]);
}

} // verus!
