//! The decisions of the HTTP front end: how core errors map to responses,
//! which request paths and parameters are served.
use vstd::prelude::*;
use vstd::utf8::*;
use vstd::string::StringSliceAdditionalSpecFns;
use crate::bytes_util::{bytes_at, has_at};
use crate::error::{Error, error_message, join_str};

verus! {

/// An error answered to an HTTP client.
#[derive(Debug)]
pub enum AppError {
    NotFound(String),
    BadRequest(String),
    Internal(String),
}

/// The query of an `info/refs` request.
pub struct InfoRefsQuery {
    pub service: String,
}

/// The status code, error code and message of the JSON error response.
pub open spec fn response_of(e: AppError) -> (u16, Seq<char>, Seq<char>) {
    match e {
        AppError::NotFound(m) => (404, "not_found"@, m@),
        AppError::BadRequest(m) => (400, "bad_request"@, m@),
        AppError::Internal(m) => (500, "internal_error"@, m@),
    }
}


impl AppError {
    /// The status code, error code and message of the response for this error.
    pub fn response_parts(self) -> (r: (u16, &'static str, String))
        ensures
            (r.0, r.1@, r.2@) == response_of(self),
    {
        match self {
            AppError::NotFound(m) => (404, "not_found", m),
            AppError::BadRequest(m) => (400, "bad_request", m),
            AppError::Internal(m) => (500, "internal_error", m),
        }
    }

    /// Map a core error to the error answered to the client.
    pub fn from(err: Error) -> (r: AppError)
        ensures
            match err {
                Error::RepoNotFound(_) => r matches AppError::NotFound(m) && m@ == error_message(err),
                Error::PathTraversal(_) | Error::Protocol(_) => r matches AppError::BadRequest(m) && m@ == error_message(err),
                _ => r matches AppError::Internal(m) && m@ == error_message(err),
            },
    {
        let message = err.to_string();
        match err {
            Error::RepoNotFound(_) => AppError::NotFound(message),
            Error::PathTraversal(_) | Error::Protocol(_) => AppError::BadRequest(message),
            _ => AppError::Internal(message),
        }
    }
}


/// `s` without its trailing `/` bytes.
pub open spec fn trim_slashes(s: Seq<u8>) -> Seq<u8>
    decreases s.len(),
{
    if s.len() > 0 && s.last() == 47u8 {
        trim_slashes(s.drop_last())
    } else {
        s
    }
}

/// `path.strip_suffix(suffix).map(|s| s.trim_end_matches('/'))` on texts.
pub open spec fn stripped_suffix(path: Seq<u8>, suffix: Seq<u8>) -> Option<Seq<u8>> {
    if suffix.len() <= path.len() && has_at(path, path.len() - suffix.len(), suffix) {
        Some(trim_slashes(path.subrange(0, path.len() - suffix.len())))
    } else {
        None
    }
}

/// Strip a known suffix from a path string, returning the repo path (with
/// trailing `/` removed). Returns `None` if the path does not end with `suffix`.
pub fn strip_path_suffix<'a>(path: &'a str, suffix: &str) -> (r: Option<&'a str>)
    ensures
        match stripped_suffix(path.spec_bytes(), suffix.spec_bytes()) {
            None => r is None,
            Some(t) => r matches Some(x) && x.spec_bytes() == t,
        },
{
    let pb = path.as_bytes();
    let sb = suffix.as_bytes();
    if sb.len() > pb.len() || !bytes_at(pb, pb.len() - sb.len(), sb) {
        return None;
    }
    let cut = pb.len() - sb.len();
    let mut t = cut;
    assert(pb@.subrange(0, t as int) =~= pb@.subrange(0, cut as int));
    while t > 0 && pb[t - 1] == 47u8
        invariant
            t <= cut <= pb@.len(),
            trim_slashes(pb@.subrange(0, cut as int)) == trim_slashes(pb@.subrange(0, t as int)),
            t < cut ==> pb@[t as int] == 47u8,
        decreases t,
    {
        assert(pb@.subrange(0, t as int).drop_last() =~= pb@.subrange(0, t - 1));
        t = t - 1;
    }
    proof {
        crate::text::lemma_str_decode(path);
        crate::text::lemma_str_decode(suffix);
        if t < cut {
            crate::text::lemma_utf8_cut(pb@, t as int);
        } else if cut < pb@.len() {
            // the suffix is well-formed UTF-8, so its first byte starts a character
            let sfx = pb@.subrange(cut as int, pb@.len() as int);
            assert(sfx =~= sb@);
            assert(valid_first_scalar(sfx));
            assert(sfx[0] == pb@[cut as int]);
            crate::text::lemma_utf8_cut(pb@, cut as int);
        } else {
            crate::text::lemma_utf8_cut(pb@, cut as int);
        }
    }
    let (head, _) = path.split_at(t);
    Some(head)
}

/// The only service served.
pub const UPLOAD_PACK_SERVICE: &'static str = "git-upload-pack";

/// The content type of an upload-pack request body.
pub const UPLOAD_PACK_REQUEST: &'static str = "application/x-git-upload-pack-request";

/// Only `git-upload-pack` is served; any other service is a bad request
/// naming it.
pub fn check_service(service: &str) -> (r: Result<(), AppError>)
    ensures
        service@ == UPLOAD_PACK_SERVICE@ ==> r is Ok,
        service@ != UPLOAD_PACK_SERVICE@ ==> (r matches Err(AppError::BadRequest(m))
            && m@ == "unsupported service: "@ + service@),
{
    let s = String::from_str(service);
    let expected = String::from_str(UPLOAD_PACK_SERVICE);
    if s == expected {
        Ok(())
    } else {
        Err(AppError::BadRequest(join_str("unsupported service: ", service)))
    }
}

/// An upload-pack request must carry the upload-pack request content type
/// (an absent or unreadable header counts as empty); otherwise it is a bad
/// request naming what was given.
pub fn check_content_type(content_type: &str) -> (r: Result<(), AppError>)
    ensures
        content_type@ == UPLOAD_PACK_REQUEST@ ==> r is Ok,
        content_type@ != UPLOAD_PACK_REQUEST@ ==> (r matches Err(AppError::BadRequest(m))
            && m@ == "invalid content type: expected application/x-git-upload-pack-request, got "@ + content_type@),
{
    let s = String::from_str(content_type);
    let expected = String::from_str(UPLOAD_PACK_REQUEST);
    if s == expected {
        Ok(())
    } else {
        Err(AppError::BadRequest(join_str("invalid content type: expected application/x-git-upload-pack-request, got ", content_type)))
    }
}


/// A request path that is neither an `info/refs` nor a `git-upload-pack`
/// path is not found.
pub fn not_found_path(path: &str) -> (r: AppError)
    ensures
        r matches AppError::NotFound(m) && m@ == "not found: /"@ + path@,
{
    AppError::NotFound(join_str("not found: /", path))
}

} // verus!
