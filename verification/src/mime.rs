//! Content-type inference for the development file server: a MIME type
//! guessed from the file extension alone.

use vstd::prelude::*;
use vstd::string::StrSliceExecFns;

verus! {

/// `suf` is a suffix of `s`.
pub open spec fn is_suffix(s: Seq<char>, suf: Seq<char>) -> bool {
    suf.len() <= s.len() && s.subrange(s.len() - suf.len(), s.len() as int) == suf
}

/// The MIME type for a path, by extension; unknown extensions are served
/// as raw bytes.
pub open spec fn mime_of(s: Seq<char>) -> Seq<char> {
    if is_suffix(s, ".html"@) {
        "text/html; charset=utf-8"@
    } else if is_suffix(s, ".css"@) {
        "text/css; charset=utf-8"@
    } else if is_suffix(s, ".js"@) || is_suffix(s, ".mjs"@) {
        "application/javascript; charset=utf-8"@
    } else if is_suffix(s, ".wasm"@) {
        "application/wasm"@
    } else if is_suffix(s, ".png"@) {
        "image/png"@
    } else if is_suffix(s, ".jpg"@) || is_suffix(s, ".jpeg"@) {
        "image/jpeg"@
    } else if is_suffix(s, ".svg"@) {
        "image/svg+xml"@
    } else if is_suffix(s, ".ico"@) {
        "image/x-icon"@
    } else {
        "application/octet-stream"@
    }
}

/// Whether `s` ends with `suf`, comparing characters.
fn ends_with_str(s: &str, suf: &str) -> (r: bool)
    ensures
        r == is_suffix(s@, suf@),
{
    let ls = s.unicode_len();
    let lu = suf.unicode_len();
    if lu > ls {
        return false;
    }
    let mut i: usize = 0;
    while i < lu
        invariant
            i <= lu,
            lu == suf@.len(),
            ls == s@.len(),
            lu <= ls,
            forall|k: int| 0 <= k < i ==> s@[s@.len() - suf@.len() + k] == suf@[k],
        decreases lu - i,
    {
        if s.get_char(ls - lu + i) != suf.get_char(i) {
            return false;
        }
        i = i + 1;
    }
    proof {
        assert(s@.subrange(s@.len() - suf@.len(), s@.len() as int) =~= suf@);
    }
    true
}

/// Guess a MIME type from the file extension.
pub fn mime_from_path(path: &str) -> (r: &'static str)
    ensures
        r@ == mime_of(path@),
{
    if ends_with_str(path, ".html") {
        "text/html; charset=utf-8"
    } else if ends_with_str(path, ".css") {
        "text/css; charset=utf-8"
    } else if ends_with_str(path, ".js") || ends_with_str(path, ".mjs") {
        "application/javascript; charset=utf-8"
    } else if ends_with_str(path, ".wasm") {
        "application/wasm"
    } else if ends_with_str(path, ".png") {
        "image/png"
    } else if ends_with_str(path, ".jpg") || ends_with_str(path, ".jpeg") {
        "image/jpeg"
    } else if ends_with_str(path, ".svg") {
        "image/svg+xml"
    } else if ends_with_str(path, ".ico") {
        "image/x-icon"
    } else {
        "application/octet-stream"
    }
}

} // verus!
