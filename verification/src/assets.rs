//! Bundled static assets: which asset a request path names, and the media
//! type that an asset is served with.

use crate::text::{chars_of, find_last, last_index_of};
use vstd::prelude::*;

verus! {

/// What follows the last `.` of a path; the whole path where it has none.
pub open spec fn extension(path: Seq<char>) -> Seq<char> {
    path.skip(last_index_of(path, '.') + 1)
}

/// The media type of a path, by its extension. An extension that is not
/// listed gives `application/octet-stream`.
pub open spec fn media_type(path: Seq<char>) -> Seq<char> {
    let ext = extension(path);
    if ext == "html"@ {
        "text/html; charset=utf-8"@
    } else if ext == "js"@ {
        "text/javascript; charset=utf-8"@
    } else if ext == "css"@ {
        "text/css; charset=utf-8"@
    } else if ext == "svg"@ {
        "image/svg+xml"@
    } else if ext == "png"@ {
        "image/png"@
    } else if ext == "jpg"@ || ext == "jpeg"@ {
        "image/jpeg"@
    } else if ext == "woff2"@ {
        "font/woff2"@
    } else {
        "application/octet-stream"@
    }
}

/// The asset that a request path names: the path itself, and the index page
/// for the empty path.
pub open spec fn asset_name(path: Seq<char>) -> Seq<char> {
    if path.len() == 0 {
        "index.html"@
    } else {
        path
    }
}

/// Whether `v[start..]` is the text `word`.
fn tail_is(v: &Vec<char>, start: usize, word: &str) -> (b: bool)
    requires
        start <= v.len(),
    ensures
        b == (v@.skip(start as int) == word@),
{
    let w = chars_of(word);
    if v.len() - start != w.len() {
        return false;
    }
    let mut i: usize = 0;
    while i < w.len()
        invariant
            start + w.len() == v.len(),
            w@ == word@,
            i <= w.len(),
            forall|j: int| 0 <= j < i ==> v@[start + j] == w@[j],
        decreases w.len() - i,
    {
        if v[start + i] != w[i] {
            assert(v@.skip(start as int)[i as int] != w@[i as int]);
            return false;
        }
        i += 1;
    }
    assert(v@.skip(start as int) =~= w@);
    true
}

/// The media type that the asset at `path` is served with.
pub fn content_type(path: &str) -> (r: &'static str)
    ensures
        r@ == media_type(path@),
{
    let v = chars_of(path);
    let start: usize = match find_last(&v, '.') {
        Some(k) => k + 1,
        None => 0,
    };
    if tail_is(&v, start, "html") {
        "text/html; charset=utf-8"
    } else if tail_is(&v, start, "js") {
        "text/javascript; charset=utf-8"
    } else if tail_is(&v, start, "css") {
        "text/css; charset=utf-8"
    } else if tail_is(&v, start, "svg") {
        "image/svg+xml"
    } else if tail_is(&v, start, "png") {
        "image/png"
    } else if tail_is(&v, start, "jpg") || tail_is(&v, start, "jpeg") {
        "image/jpeg"
    } else if tail_is(&v, start, "woff2") {
        "font/woff2"
    } else {
        "application/octet-stream"
    }
}

/// The asset that a request for `path` is answered with.
pub fn asset_path<'a>(path: &'a str) -> (r: &'a str)
    ensures
        r@ == asset_name(path@),
{
    if path.is_empty() {
        "index.html"
    } else {
        path
    }
}

} // verus!
