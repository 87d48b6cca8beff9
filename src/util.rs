//! Small helpers shared by the front end: navigation state, sort query
//! parameters, and content-type sniffing.
use vstd::prelude::*;

use crate::text::{same_text, text_ends_with, text_of, text_starts_with};

verus! {

/// Sort query parameters as they arrive.
#[derive(Debug, Clone)]
pub struct SortParams {
    /// Sort method name (title, modified, auto, progress).
    pub sort: Option<String>,
    /// `1` for ascending, `0` for descending.
    pub ascend: Option<String>,
}

/// Which page of the navigation menu is active.
#[derive(Debug, Clone, Copy, PartialEq, Eq, Structural)]
pub struct NavigationState {
    pub home_active: bool,
    pub library_active: bool,
    pub admin_active: bool,
}

impl NavigationState {
    pub fn home() -> (r: Self)
        ensures
            r.home_active && !r.library_active && !r.admin_active,
    {
        NavigationState { home_active: true, library_active: false, admin_active: false }
    }

    pub fn library() -> (r: Self)
        ensures
            !r.home_active && r.library_active && !r.admin_active,
    {
        NavigationState { home_active: false, library_active: true, admin_active: false }
    }

    pub fn admin() -> (r: Self)
        ensures
            !r.home_active && !r.library_active && r.admin_active,
    {
        NavigationState { home_active: false, library_active: false, admin_active: true }
    }
}

/// The content type that the first four bytes of an image announce.
pub open spec fn mime_of(data: Seq<u8>) -> Seq<char> {
    if data.len() < 4 {
        "application/octet-stream"@
    } else if data[0] == 0xFF && data[1] == 0xD8 && data[2] == 0xFF {
        "image/jpeg"@
    } else if data[0] == 0x89 && data[1] == 0x50 && data[2] == 0x4E && data[3] == 0x47 {
        "image/png"@
    } else if data[0] == 0x47 && data[1] == 0x49 && data[2] == 0x46 && data[3] == 0x38 {
        "image/gif"@
    } else if data[0] == 0x52 && data[1] == 0x49 && data[2] == 0x46 && data[3] == 0x46 {
        "image/webp"@
    } else if data[0] == 0x42 && data[1] == 0x4D {
        "image/bmp"@
    } else {
        "application/octet-stream"@
    }
}

/// Guess an image's content type from its magic bytes.
pub fn guess_mime_type(data: &[u8]) -> (r: &'static str)
    ensures
        r@ == mime_of(data@),
{
    if data.len() < 4 {
        "application/octet-stream"
    } else if data[0] == 0xFF && data[1] == 0xD8 && data[2] == 0xFF {
        "image/jpeg"
    } else if data[0] == 0x89 && data[1] == 0x50 && data[2] == 0x4E && data[3] == 0x47 {
        "image/png"
    } else if data[0] == 0x47 && data[1] == 0x49 && data[2] == 0x46 && data[3] == 0x38 {
        "image/gif"
    } else if data[0] == 0x52 && data[1] == 0x49 && data[2] == 0x46 && data[3] == 0x46 {
        "image/webp"
    } else if data[0] == 0x42 && data[1] == 0x4D {
        "image/bmp"
    } else {
        "application/octet-stream"
    }
}

/// Whether a path has the file extension `ext` (the text after a dot that
/// ends a non-empty file name).
pub open spec fn has_extension(path: Seq<char>, ext: Seq<char>) -> bool {
    let n = path.len();
    let k = ext.len();
    n > k + 1 && path.subrange(n - k, n as int) == ext && path[n - k - 1] == '.' && path[n - k - 2]
        != '/'
}

fn extension_is(path: &str, ext: &str) -> (r: bool)
    ensures
        r == has_extension(path@, ext@),
{
    let n = path.unicode_len();
    let k = ext.unicode_len();
    if n <= k || n - k <= 1 {
        return false;
    }
    if !text_ends_with(path, ext) {
        return false;
    }
    path.get_char(n - k - 1) == '.' && path.get_char(n - k - 2) != '/'
}

/// Content type of an archive by its file extension.
pub open spec fn archive_mime_of(path: Seq<char>) -> Seq<char> {
    if has_extension(path, "cbz"@) || has_extension(path, "zip"@) {
        "application/zip"@
    } else if has_extension(path, "cbr"@) || has_extension(path, "rar"@) {
        "application/x-rar-compressed"@
    } else {
        "application/octet-stream"@
    }
}

/// Content type of an archive by its file extension.
pub fn get_mime_type(path: &str) -> (r: String)
    ensures
        r@ == archive_mime_of(path@),
{
    if extension_is(path, "cbz") || extension_is(path, "zip") {
        text_of("application/zip")
    } else if extension_is(path, "cbr") || extension_is(path, "rar") {
        text_of("application/x-rar-compressed")
    } else {
        text_of("application/octet-stream")
    }
}

/// Paths served without authentication.
pub open spec fn public_path(path: Seq<char>) -> bool {
    ||| path == "/login"@
    ||| starts_with(path, "/api/login"@)
    ||| starts_with(path, "/static/"@)
    ||| starts_with(path, "/img/"@)
    ||| starts_with(path, "/css/"@)
    ||| starts_with(path, "/js/"@)
}

pub open spec fn starts_with(s: Seq<char>, p: Seq<char>) -> bool {
    p.len() <= s.len() && s.subrange(0, p.len() as int) == p
}

/// Whether a request path skips authentication.
pub fn is_public_path(path: &str) -> (r: bool)
    ensures
        r == public_path(path@),
{
    same_text(path, "/login") || text_starts_with(path, "/api/login") || text_starts_with(
        path,
        "/static/",
    ) || text_starts_with(path, "/img/") || text_starts_with(path, "/css/") || text_starts_with(
        path,
        "/js/",
    )
}

} // verus!
