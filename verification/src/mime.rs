//! MIME lookup: the content type a file extension stands for, and which
//! extensions carry text.

use vstd::prelude::*;

use crate::ascii::eq_ci;

verus! {

/// The MIME type for an extension, compared case-insensitively;
/// anything unknown is served as an octet stream.
pub open spec fn mime_for_ext(ext: Seq<u8>) -> Seq<u8> {
    if eq_ci(ext, seq![116u8, 120, 116]) {
        seq![116u8, 101, 120, 116, 47, 112, 108, 97, 105, 110]
    } else if eq_ci(ext, seq![104u8, 116, 109, 108]) {
        seq![116u8, 101, 120, 116, 47, 104, 116, 109, 108]
    } else if eq_ci(ext, seq![106u8, 115, 111, 110]) {
        seq![97u8, 112, 112, 108, 105, 99, 97, 116, 105, 111, 110, 47, 106, 115, 111, 110]
    } else if eq_ci(ext, seq![106u8, 115]) {
        seq![97u8, 112, 112, 108, 105, 99, 97, 116, 105, 111, 110, 47, 106, 97, 118, 97, 115, 99, 114, 105, 112, 116]
    } else if eq_ci(ext, seq![99u8, 115, 115]) {
        seq![116u8, 101, 120, 116, 47, 99, 115, 115]
    } else if eq_ci(ext, seq![120u8, 109, 108]) {
        seq![97u8, 112, 112, 108, 105, 99, 97, 116, 105, 111, 110, 47, 120, 109, 108]
    } else if eq_ci(ext, seq![109u8, 112, 52]) {
        seq![118u8, 105, 100, 101, 111, 47, 109, 112, 52]
    } else if eq_ci(ext, seq![119u8, 101, 98, 109]) {
        seq![118u8, 105, 100, 101, 111, 47, 119, 101, 98, 109]
    } else if eq_ci(ext, seq![106u8, 112, 103]) {
        seq![105u8, 109, 97, 103, 101, 47, 106, 112, 101, 103]
    } else if eq_ci(ext, seq![112u8, 110, 103]) {
        seq![105u8, 109, 97, 103, 101, 47, 112, 110, 103]
    } else if eq_ci(ext, seq![106u8, 112, 101, 103]) {
        seq![105u8, 109, 97, 103, 101, 47, 106, 112, 101, 103]
    } else if eq_ci(ext, seq![103u8, 105, 102]) {
        seq![105u8, 109, 97, 103, 101, 47, 103, 105, 102]
    } else {
        seq![97u8, 112, 112, 108, 105, 99, 97, 116, 105, 111, 110, 47, 111, 99, 116, 101, 116, 45, 115, 116, 114, 101, 97, 109]
    }
}

/// The extensions whose files are served as text.
pub open spec fn is_text_ext(ext: Seq<u8>) -> bool {
    eq_ci(ext, seq![116u8, 120, 116]) || eq_ci(ext, seq![104u8, 116, 109, 108]) || eq_ci(ext, seq![106u8, 115, 111, 110]) || eq_ci(ext, seq![106u8, 115]) || eq_ci(ext, seq![99u8, 115, 115]) || eq_ci(ext, seq![120u8, 109, 108])
}

/// Returns true if the given file extension is a text extension.
pub fn is_text_extension(extension: &[u8]) -> (r: bool)
    ensures
        r == is_text_ext(extension@),
{
    let c0: &[u8] = &[116u8, 120, 116];
    let c1: &[u8] = &[104u8, 116, 109, 108];
    let c2: &[u8] = &[106u8, 115, 111, 110];
    let c3: &[u8] = &[106u8, 115];
    let c4: &[u8] = &[99u8, 115, 115];
    let c5: &[u8] = &[120u8, 109, 108];
    proof {
        assert(c0@ =~= seq![116u8, 120, 116]);
        assert(c1@ =~= seq![104u8, 116, 109, 108]);
        assert(c2@ =~= seq![106u8, 115, 111, 110]);
        assert(c3@ =~= seq![106u8, 115]);
        assert(c4@ =~= seq![99u8, 115, 115]);
        assert(c5@ =~= seq![120u8, 109, 108]);
    }
    crate::ascii::bytes_eq_ci(extension, c0) || crate::ascii::bytes_eq_ci(extension, c1) || crate::ascii::bytes_eq_ci(extension, c2) || crate::ascii::bytes_eq_ci(extension, c3) || crate::ascii::bytes_eq_ci(extension, c4) || crate::ascii::bytes_eq_ci(extension, c5)
}

/// Returns the MIME type for a given file extension.
pub fn mime_type_from_extension(extension: &[u8]) -> (r: Vec<u8>)
    ensures
        r@ == mime_for_ext(extension@),
{
    let e0: &[u8] = &[116u8, 120, 116];
    let e1: &[u8] = &[104u8, 116, 109, 108];
    let e2: &[u8] = &[106u8, 115, 111, 110];
    let e3: &[u8] = &[106u8, 115];
    let e4: &[u8] = &[99u8, 115, 115];
    let e5: &[u8] = &[120u8, 109, 108];
    let e6: &[u8] = &[109u8, 112, 52];
    let e7: &[u8] = &[119u8, 101, 98, 109];
    let e8: &[u8] = &[106u8, 112, 103];
    let e9: &[u8] = &[112u8, 110, 103];
    let e10: &[u8] = &[106u8, 112, 101, 103];
    let e11: &[u8] = &[103u8, 105, 102];
    proof {
        assert(e0@ =~= seq![116u8, 120, 116]);
        assert(e1@ =~= seq![104u8, 116, 109, 108]);
        assert(e2@ =~= seq![106u8, 115, 111, 110]);
        assert(e3@ =~= seq![106u8, 115]);
        assert(e4@ =~= seq![99u8, 115, 115]);
        assert(e5@ =~= seq![120u8, 109, 108]);
        assert(e6@ =~= seq![109u8, 112, 52]);
        assert(e7@ =~= seq![119u8, 101, 98, 109]);
        assert(e8@ =~= seq![106u8, 112, 103]);
        assert(e9@ =~= seq![112u8, 110, 103]);
        assert(e10@ =~= seq![106u8, 112, 101, 103]);
        assert(e11@ =~= seq![103u8, 105, 102]);
    }
    let m: &[u8] = if crate::ascii::bytes_eq_ci(extension, e0) {
        &[116u8, 101, 120, 116, 47, 112, 108, 97, 105, 110]
    } else if crate::ascii::bytes_eq_ci(extension, e1) {
        &[116u8, 101, 120, 116, 47, 104, 116, 109, 108]
    } else if crate::ascii::bytes_eq_ci(extension, e2) {
        &[97u8, 112, 112, 108, 105, 99, 97, 116, 105, 111, 110, 47, 106, 115, 111, 110]
    } else if crate::ascii::bytes_eq_ci(extension, e3) {
        &[97u8, 112, 112, 108, 105, 99, 97, 116, 105, 111, 110, 47, 106, 97, 118, 97, 115, 99, 114, 105, 112, 116]
    } else if crate::ascii::bytes_eq_ci(extension, e4) {
        &[116u8, 101, 120, 116, 47, 99, 115, 115]
    } else if crate::ascii::bytes_eq_ci(extension, e5) {
        &[97u8, 112, 112, 108, 105, 99, 97, 116, 105, 111, 110, 47, 120, 109, 108]
    } else if crate::ascii::bytes_eq_ci(extension, e6) {
        &[118u8, 105, 100, 101, 111, 47, 109, 112, 52]
    } else if crate::ascii::bytes_eq_ci(extension, e7) {
        &[118u8, 105, 100, 101, 111, 47, 119, 101, 98, 109]
    } else if crate::ascii::bytes_eq_ci(extension, e8) {
        &[105u8, 109, 97, 103, 101, 47, 106, 112, 101, 103]
    } else if crate::ascii::bytes_eq_ci(extension, e9) {
        &[105u8, 109, 97, 103, 101, 47, 112, 110, 103]
    } else if crate::ascii::bytes_eq_ci(extension, e10) {
        &[105u8, 109, 97, 103, 101, 47, 106, 112, 101, 103]
    } else if crate::ascii::bytes_eq_ci(extension, e11) {
        &[105u8, 109, 97, 103, 101, 47, 103, 105, 102]
    } else {
        &[97u8, 112, 112, 108, 105, 99, 97, 116, 105, 111, 110, 47, 111, 99, 116, 101, 116, 45, 115, 116, 114, 101, 97, 109]
    };
    let r = crate::ascii::subrange_to_vec(m, 0, m.len());
    proof {
        assert(r@ =~= mime_for_ext(extension@));
    }
    r
}


/// Index of the last occurrence of `b` in `s`.
pub open spec fn rfind_byte(s: Seq<u8>, b: u8) -> Option<int>
    decreases s.len(),
{
    if s.len() == 0 {
        None
    } else if s.last() == b {
        Some(s.len() - 1)
    } else {
        rfind_byte(s.drop_last(), b)
    }
}

/// The extension of a path: what follows the last `.` of its file name,
/// none when the name has no `.` past its first byte.
pub open spec fn extension_of(p: Seq<u8>) -> Option<Seq<u8>> {
    match crate::server::file_name_of(p) {
        None => None,
        Some(name) => match rfind_byte(name, 46) {
            None => None,
            Some(k) => if k == 0 {
                None
            } else {
                Some(name.skip(k + 1))
            },
        },
    }
}

/// The MIME type a path is served with, from its extension.
pub open spec fn mime_of_path(p: Seq<u8>) -> Seq<u8> {
    match extension_of(p) {
        Some(e) => mime_for_ext(e),
        None => seq![97u8, 112, 112, 108, 105, 99, 97, 116, 105, 111, 110, 47, 111, 99, 116, 101, 116, 45, 115, 116, 114, 101, 97, 109],
    }
}

/// A found index lies inside the string.
proof fn lemma_rfind_bounds(s: Seq<u8>, b: u8)
    ensures
        match rfind_byte(s, b) {
            Some(k) => 0 <= k < s.len() && s[k] == b,
            None => true,
        },
    decreases s.len(),
{
    if s.len() > 0 && s.last() != b {
        lemma_rfind_bounds(s.drop_last(), b);
        match rfind_byte(s.drop_last(), b) {
            Some(k) => {
                assert(s.drop_last()[k] == s[k]);
            },
            None => {},
        }
    }
}

/// Index of the last occurrence of `b` in `s`.
fn rfind_byte_in(s: &[u8], b: u8) -> (r: Option<usize>)
    ensures
        match r {
            Some(k) => rfind_byte(s@, b) == Some(k as int),
            None => rfind_byte(s@, b) is None,
        },
{
    let n = s.len();
    let mut j: usize = n;
    proof {
        assert(s@.take(n as int) =~= s@);
    }
    while j > 0
        invariant
            0 <= j <= n,
            n == s@.len(),
            rfind_byte(s@, b) == rfind_byte(s@.take(j as int), b),
        decreases j,
    {
        proof {
            assert(s@.take(j as int).last() == s@[j - 1]);
            assert(s@.take(j as int).drop_last() =~= s@.take(j as int - 1));
        }
        if s[j - 1] == b {
            return Some(j - 1);
        }
        j -= 1;
    }
    proof {
        assert(s@.take(0) =~= Seq::<u8>::empty());
    }
    None
}

/// The extension of a path, as bytes.
pub fn path_extension(p: &[u8]) -> (r: Option<Vec<u8>>)
    ensures
        match r {
            Some(e) => extension_of(p@) == Some(e@),
            None => extension_of(p@) is None,
        },
{
    let segs = crate::ascii::split_on_byte(p, 47);
    let name = match crate::server::last_nonempty_bytes(&segs) {
        Some(n) => n,
        None => {
            return None;
        },
    };
    match rfind_byte_in(name.as_slice(), 46) {
        None => None,
        Some(k) => {
            if k == 0 {
                None
            } else {
                let nlen = name.len();
                proof {
                    lemma_rfind_bounds(name@, 46);
                    assert(k < nlen);
                }
                let e = crate::ascii::subrange_to_vec(name.as_slice(), k + 1, nlen);
                proof {
                    assert(e@ =~= name@.skip(k as int + 1));
                }
                Some(e)
            }
        },
    }
}

/// The MIME type a path is served with.
pub fn path_mime_type(p: &[u8]) -> (r: Vec<u8>)
    ensures
        r@ == mime_of_path(p@),
{
    match path_extension(p) {
        Some(e) => mime_type_from_extension(e.as_slice()),
        None => {
            let m: &[u8] = &[97u8, 112, 112, 108, 105, 99, 97, 116, 105, 111, 110, 47, 111, 99, 116, 101, 116, 45, 115, 116, 114, 101, 97, 109];
            let r = crate::ascii::subrange_to_vec(m, 0, m.len());
            proof {
                assert(r@ =~= mime_of_path(p@));
            }
            r
        },
    }
}

} // verus!
