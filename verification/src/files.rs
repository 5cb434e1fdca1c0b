//! File serving up to the point where bytes are read: decoding of the
//! requested path, the policy check, and the headers of the reply.
use vstd::prelude::*;
use crate::builder::text_of;
use crate::paths::{authorize, normalized, permitted, resolved, ResolvedPath};
use crate::text::owned;

verus! {

/// What `urlencoding::decode` makes of a percent-encoded text, or nothing
/// where the decoded bytes are no UTF-8.
pub uninterp spec fn percent_decoded(raw: Seq<char>) -> Option<Seq<char>>;

/// The media type that `mime_guess` assigns to a path by its extension,
/// `application/octet-stream` included for paths it does not know.
pub uninterp spec fn guessed_content_type(path: Seq<char>) -> Seq<char>;

/// Calls `urlencoding::decode`, which depends on the text alone; the result
/// is named by `percent_decoded`, an error becomes `None`.
#[verifier::external_body]
fn percent_decode(raw: &str) -> (out: Option<String>)
    ensures
        text_of(out) == percent_decoded(raw@),
{
    match urlencoding::decode(raw) {
        Ok(s) => Some(s.into_owned()),
        Err(_) => None,
    }
}

/// Calls `mime_guess::from_path` and takes its first guess, or the octet
/// stream type where it has none; only the text of the path is read. The
/// result is named by `guessed_content_type`.
#[verifier::external_body]
fn guess_content_type(path: &str) -> (out: String)
    ensures
        out@ == guessed_content_type(path@),
{
    mime_guess::from_path(path).first_or_octet_stream().as_ref().to_string()
}

/// The path that a raw query value stands for: its decoded form, or the raw
/// value where decoding fails.
pub open spec fn decoded_or_raw(decoded: Option<Seq<char>>, raw: Seq<char>) -> Seq<char> {
    match decoded {
        Some(d) => d,
        None => raw,
    }
}

/// Chooses between the decoded path and the raw one.
pub fn path_or_raw(decoded: Option<String>, raw: &str) -> (out: String)
    ensures
        out@ == decoded_or_raw(text_of(decoded), raw@),
{
    match decoded {
        Some(d) => d,
        None => owned(raw),
    }
}

/// The requested path of a file query, percent-decoded.
pub fn decode_request_path(raw: &str) -> (out: String)
    ensures
        out@ == decoded_or_raw(percent_decoded(raw@), raw@),
{
    path_or_raw(percent_decode(raw), raw)
}

/// Why a file is not served.
#[derive(Clone, Copy, PartialEq, Eq, Structural, Debug)]
pub enum FileError {
    /// The path leaves the root and the policy forbids that.
    Forbidden,
    /// No file exists at the path.
    NotFound,
}

/// The text that tells a client why access was refused.
pub fn forbidden_message() -> (out: String)
    ensures
        out@ == "Access outside ROOT_DIR is disabled"@,
{
    owned("Access outside ROOT_DIR is disabled")
}

/// Resolves the file that a query asks for and checks it against the
/// policy. This is done before the filesystem is touched.
pub fn locate_file(root_dir: &str, raw_path: &str, allow_parent: bool) -> (out: Result<
    ResolvedPath,
    FileError,
>)
    ensures
        out is Ok <==> permitted(
            root_dir@,
            resolved(root_dir@, normalized(decoded_or_raw(percent_decoded(raw_path@), raw_path@))),
            allow_parent,
        ),
        out matches Ok(p) ==> p.rel@ == normalized(
            decoded_or_raw(percent_decoded(raw_path@), raw_path@),
        ) && p.full@ == resolved(root_dir@, p.rel@),
        out matches Err(e) ==> e == FileError::Forbidden,
{
    let requested = decode_request_path(raw_path);
    match authorize(root_dir, requested.as_str(), allow_parent) {
        Ok(p) => Ok(p),
        Err(_) => Err(FileError::Forbidden),
    }
}

/// The headers that go with the bytes of a file.
#[derive(Clone, Debug)]
pub struct FileHeaders {
    pub content_type: String,
    pub cache_control: String,
}

/// The headers for a located file, or `NotFound` where the probe of the
/// filesystem found no regular file at its path. Files may be cached for an
/// hour.
pub fn file_headers(full_path: &str, is_file: bool) -> (out: Result<FileHeaders, FileError>)
    ensures
        out is Ok <==> is_file,
        out matches Ok(h) ==> h.content_type@ == guessed_content_type(full_path@)
            && h.cache_control@ == "public, max-age=3600"@,
        out matches Err(e) ==> e == FileError::NotFound,
{
    if !is_file {
        return Err(FileError::NotFound);
    }
    Ok(
        FileHeaders {
            content_type: guess_content_type(full_path),
            cache_control: owned("public, max-age=3600"),
        },
    )
}

} // verus!
