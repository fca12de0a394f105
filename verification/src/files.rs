//! Byte-range reads: the range header value, the validation of a range
//! against a file size, and the slice of file content a read yields.

use vstd::prelude::*;

use crate::ascii::{find_sub, match_at, parse_dec_u64};
use crate::writer::HttpBody;

verus! {

/// A byte range asked for with `Range: bytes=S-[E]`; no end means to the
/// end of the file.
#[derive(Debug, Clone, PartialEq)]
pub struct ByteRange {
    pub start: u64,
    pub end: Option<u64>,
}

/// What a Range header value denotes: `bytes=S-E` or `bytes=S-`, split at
/// the first `-` after the prefix; anything else denotes nothing.
pub open spec fn range_of_header(s: Seq<u8>) -> Option<(int, Option<int>)> {
    if s.len() < 6 || s.take(6) != seq![98u8, 121, 116, 101, 115, 61] {
        None
    } else {
        let rest = s.skip(6);
        match find_sub(rest, seq![45u8]) {
            None => None,
            Some(i) => {
                let a = rest.take(i);
                let b = rest.skip(i + 1);
                match parse_dec_u64(a) {
                    None => None,
                    Some(st) => match parse_dec_u64(b) {
                        Some(e) => Some((st, Some(e))),
                        None => if b.len() == 0 {
                            Some((st, None))
                        } else {
                            None
                        },
                    },
                }
            },
        }
    }
}

impl ByteRange {
    /// Parses a Range header value like `bytes=0-999` or `bytes=1000-`.
    pub fn from_header(range_header: &[u8]) -> (r: Option<ByteRange>)
        ensures
            match r {
                Some(br) => range_of_header(range_header@) == Some(
                    (
                        br.start as int,
                        match br.end {
                            Some(e) => Some(e as int),
                            None => None,
                        },
                    ),
                ),
                None => range_of_header(range_header@) is None,
            },
    {
        let prefix: &[u8] = &[98u8, 121, 116, 101, 115, 61];
        proof {
            assert(prefix@ =~= seq![98u8, 121, 116, 101, 115, 61]);
        }
        if range_header.len() < 6 {
            return None;
        }
        let head = crate::ascii::subrange_to_vec(range_header, 0, 6);
        proof {
            assert(head@ =~= range_header@.take(6));
        }
        if !crate::ascii::bytes_eq(head.as_slice(), prefix) {
            return None;
        }
        let rest = crate::ascii::subrange_to_vec(range_header, 6, range_header.len());
        proof {
            assert(rest@ =~= range_header@.skip(6));
        }
        let mut dash: Vec<u8> = Vec::new();
        dash.push(45);
        proof {
            assert(dash@ =~= seq![45u8]);
        }
        let i = match crate::ascii::find_subsequence(rest.as_slice(), dash.as_slice()) {
            Some(i) => i,
            None => {
                return None;
            },
        };
        proof {
            crate::ascii::lemma_find_sub_from_spec(rest@, seq![45u8], 0);
            assert(match_at(rest@, seq![45u8], i as int));
        }
        let rlen = rest.len();
        let a = crate::ascii::subrange_to_vec(rest.as_slice(), 0, i);
        let b = crate::ascii::subrange_to_vec(rest.as_slice(), i + 1, rlen);
        proof {
            assert(a@ =~= rest@.take(i as int));
            assert(b@ =~= rest@.skip(i as int + 1));
        }
        let start = match crate::ascii::parse_u64(a.as_slice()) {
            Some(st) => st,
            None => {
                return None;
            },
        };
        match crate::ascii::parse_u64(b.as_slice()) {
            Some(e) => Some(ByteRange { start, end: Some(e) }),
            None => {
                if b.len() == 0 {
                    Some(ByteRange { start, end: None })
                } else {
                    None
                }
            },
        }
    }
}

/// A request to read a file: whole, or one byte range of it.
#[derive(Debug, Clone, PartialEq)]
pub enum FileReadRequest {
    Full(Vec<u8>),
    Range(Vec<u8>, ByteRange),
}

/// The outcome of a file read: the body, the file's total size, and the
/// range served when it was a range read.
#[derive(Debug, PartialEq)]
pub struct FileReadResult {
    pub body: HttpBody,
    pub total_size: u64,
    pub range: Option<(u64, u64)>,
}

/// Why a file read failed.
#[derive(Debug, Clone, Copy, PartialEq, Eq, Structural)]
pub enum FileReadError {
    NotFound,
    PermissionDenied,
    RangeNotImplemented,
    IoError,
    InvalidRange,
}

/// What validating a range against a file size yields: the resolved
/// inclusive bounds, or the rejection. An empty file takes no range; an
/// absent end resolves to the last byte; the range must satisfy
/// `start <= end < size`.
pub open spec fn resolve_range_spec(size: int, start: int, end_opt: Option<int>) -> Result<
    (int, int),
    FileReadError,
> {
    if size == 0 {
        Err(FileReadError::InvalidRange)
    } else {
        let end = match end_opt {
            Some(e) => e,
            None => size - 1,
        };
        if start > end || end >= size {
            Err(FileReadError::InvalidRange)
        } else {
            Ok((start, end))
        }
    }
}

/// A reader that serves a whole file body.
pub struct FullFileReader {
    pub path: Vec<u8>,
}

impl FullFileReader {
    /// Types file content: text exactly when the path's extension is
    /// textual and the bytes are well-formed UTF-8, binary otherwise.
    pub fn body_from_content(&self, content: Vec<u8>) -> (r: HttpBody)
        ensures
            r.spec_bytes() == content@,
            r is Text <==> ((match crate::mime::extension_of(self.path@) {
                Some(e) => crate::mime::is_text_ext(e),
                None => false,
            }) && crate::ascii::is_utf8(content@)),
    {
        let is_text = match crate::mime::path_extension(self.path.as_slice()) {
            Some(e) => crate::mime::is_text_extension(e.as_slice()),
            None => false,
        };
        if is_text && crate::ascii::is_utf8_bytes(content.as_slice()) {
            HttpBody::Text(content)
        } else {
            HttpBody::Binary(content)
        }
    }
}

/// Serves a read request against the file's content: the whole body typed
/// by extension and UTF-8 validity, or exactly the bytes of a validated
/// range.
pub fn read_file_content(request: &FileReadRequest, content: Vec<u8>) -> (r: Result<
    FileReadResult,
    FileReadError,
>)
    requires
        content@.len() <= u64::MAX,
    ensures
        match request {
            FileReadRequest::Full(path) => r matches Ok(fr) && fr.body.spec_bytes() == content@
                && fr.total_size == content@.len() && fr.range is None && (fr.body is Text <==> ((
            match crate::mime::extension_of(path@) {
                Some(e) => crate::mime::is_text_ext(e),
                None => false,
            }) && crate::ascii::is_utf8(content@))),
            FileReadRequest::Range(_, range) => {
                let end_opt = match range.end {
                    Some(e) => Some(e as int),
                    None => None,
                };
                match resolve_range_spec(content@.len() as int, range.start as int, end_opt) {
                    Ok((s, e)) => r matches Ok(fr) && fr.body.spec_bytes() == content@.subrange(
                        s,
                        e + 1,
                    ) && fr.body is Binary && fr.total_size == content@.len() && fr.range == Some(
                        ((s as u64, e as u64)),
                    ),
                    Err(err) => r matches Err(e2) && e2 == err,
                }
            },
        },
{
    match request {
        FileReadRequest::Full(path) => {
            let reader = FullFileReader {
                path: crate::ascii::subrange_to_vec(path.as_slice(), 0, path.len()),
            };
            proof {
                assert(reader.path@ =~= path@);
            }
            let total = content.len() as u64;
            let body = reader.body_from_content(content);
            Ok(FileReadResult { body, total_size: total, range: None })
        },
        FileReadRequest::Range(_, range) => {
            let size = content.len();
            if size == 0 {
                return Err(FileReadError::InvalidRange);
            }
            let start = range.start;
            let end: u64 = match range.end {
                Some(e) => e,
                None => (size as u64) - 1,
            };
            if start > end || end >= size as u64 {
                return Err(FileReadError::InvalidRange);
            }
            let s = start as usize;
            let e = end as usize;
            let body = crate::ascii::subrange_to_vec(content.as_slice(), s, e + 1);
            Ok(
                FileReadResult {
                    body: HttpBody::Binary(body),
                    total_size: size as u64,
                    range: Some((start, end)),
                },
            )
        },
    }
}

} // verus!
