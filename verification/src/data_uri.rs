//! Pictures as text: base64 and data URIs.
use crate::text::{
    ascii_lower, chars_of, parts, str_ascii_lower, str_eq, str_parts, strip_start, text_starts,
};
use crate::winpath::{is_sep, sep};
use base64::engine::general_purpose::STANDARD;
use base64::Engine;
use vstd::prelude::*;

verus! {

/// The text that the standard base64 engine makes of bytes.
pub uninterp spec fn base64_text(bytes: Seq<u8>) -> Seq<char>;

/// The bytes that the standard base64 engine reads from a text, if it is
/// base64.
pub uninterp spec fn base64_bytes(text: Seq<char>) -> Option<Seq<u8>>;

/// `base64::Engine::encode` with the standard engine: the base64 text of bytes,
/// from which the same engine reads the bytes back.
#[verifier::external_body]
pub(crate) fn encode_base64(bytes: &[u8]) -> (r: String)
    ensures
        r@ == base64_text(bytes@),
        base64_bytes(r@) == Some(bytes@),
{
    STANDARD.encode(bytes)
}

/// `base64::Engine::decode` with the standard engine: the bytes of a base64
/// text.
#[verifier::external_body]
pub(crate) fn decode_base64(text: &str) -> (r: Option<Vec<u8>>)
    ensures
        r is Some <==> base64_bytes(text@) is Some,
        r is Some ==> r->0@ == base64_bytes(text@)->0,
{
    STANDARD.decode(text).ok()
}

/// The data URI of a PNG file.
pub open spec fn png_uri(png: Seq<u8>) -> Seq<char> {
    "data:image/png;base64,"@ + base64_text(png)
}

/// The data URI of a PNG file. `uri_png_bytes` gives the file back.
pub fn png_to_uri(png: &[u8]) -> (r: String)
    ensures
        r@ == png_uri(png@),
        uri_bytes(r@) == Some(png@),
{
    let text = encode_base64(png);
    let mut out = "data:image/png;base64,".to_owned();
    out.push_str(text.as_str());
    proof {
        let p = "data:image/png;base64,"@;
        assert(out@.subrange(0, p.len() as int) =~= p);
        assert(out@.skip(p.len() as int) =~= text@);
    }
    out
}

/// The file of a data URI of a PNG file.
pub open spec fn uri_bytes(uri: Seq<char>) -> Option<Seq<u8>> {
    let p = "data:image/png;base64,"@;
    if text_starts(uri, p) {
        base64_bytes(uri.skip(p.len() as int))
    } else {
        None
    }
}

/// The file of a data URI of a PNG file.
pub fn uri_png_bytes(uri: &str) -> (r: Option<Vec<u8>>)
    ensures
        r is Some <==> uri_bytes(uri@) is Some,
        r is Some ==> r->0@ == uri_bytes(uri@)->0,
{
    match strip_start(uri, "data:image/png;base64,") {
        Some(text) => decode_base64(text.as_str()),
        None => None,
    }
}

/// The type of a picture by its extension.
pub open spec fn mime_by_ext(ext: Seq<char>) -> Option<Seq<char>> {
    if ext == "png"@ {
        Some("image/png"@)
    } else if ext == "jpg"@ || ext == "jpeg"@ {
        Some("image/jpeg"@)
    } else if ext == "gif"@ {
        Some("image/gif"@)
    } else if ext == "webp"@ {
        Some("image/webp"@)
    } else if ext == "bmp"@ {
        Some("image/bmp"@)
    } else if ext == "ico"@ {
        Some("image/x-icon"@)
    } else {
        None
    }
}

/// The last component of a path holds a colon.
pub open spec fn colon_in_name(path: Seq<char>) -> bool
    decreases path.len(),
{
    if path.len() == 0 || is_sep(path.last()) {
        false
    } else {
        path.last() == ':' || colon_in_name(path.drop_last())
    }
}

/// The type of the picture at a path. A path whose last component holds a colon
/// names no plain file.
pub open spec fn picture_type(path: Seq<char>) -> Option<Seq<char>> {
    if colon_in_name(path) {
        None
    } else {
        mime_by_ext(ascii_lower(parts(path, '.').last()))
    }
}

/// The type of a picture by its extension.
fn mime(ext: &str) -> (r: Option<&'static str>)
    ensures
        r is Some <==> mime_by_ext(ext@) is Some,
        r is Some ==> r->0@ == mime_by_ext(ext@)->0,
{
    if str_eq(ext, "png") {
        Some("image/png")
    } else if str_eq(ext, "jpg") || str_eq(ext, "jpeg") {
        Some("image/jpeg")
    } else if str_eq(ext, "gif") {
        Some("image/gif")
    } else if str_eq(ext, "webp") {
        Some("image/webp")
    } else if str_eq(ext, "bmp") {
        Some("image/bmp")
    } else if str_eq(ext, "ico") {
        Some("image/x-icon")
    } else {
        None
    }
}

/// The type of the picture at a path, before anything is opened.
pub fn image_type(path: &str) -> (r: Option<&'static str>)
    ensures
        r is Some <==> picture_type(path@) is Some,
        r is Some ==> r->0@ == picture_type(path@)->0,
{
    let c = chars_of(path);
    let mut end: usize = c.len();
    assert(c@.take(end as int) =~= c@);
    while end > 0 && !sep(c[end - 1])
        invariant
            end <= c.len(),
            c@ == path@,
            colon_in_name(c@.take(end as int)) == colon_in_name(path@),
        decreases end,
    {
        assert(c@.take(end as int).last() == c@[end - 1]);
        assert(c@.take(end as int).drop_last() =~= c@.take(end - 1));
        if c[end - 1] == ':' {
            return None;
        }
        end = end - 1;
    }
    proof {
        if end > 0 {
            assert(c@.take(end as int).last() == c@[end - 1]);
        }
        assert(!colon_in_name(path@));
    }
    let p = str_parts(path, '.');
    assert(parts(path@, '.').last() == p@[p@.len() - 1]@) by {
        assert(parts(path@, '.').len() == p@.len());
    }
    mime(str_ascii_lower(p[p.len() - 1].as_str()).as_str())
}

/// The largest picture that is shown, in bytes.
pub const MAX_IMAGE_BYTES: usize = 16_777_216;

/// The data URI of a picture file of a type, unless the file is too large.
pub fn image_data(mime: &str, bytes: &[u8]) -> (r: Option<String>)
    ensures
        r is Some <==> bytes@.len() <= MAX_IMAGE_BYTES,
        r is Some <==> bytes@.len() <= 16 * 1024 * 1024,
        r is Some ==> r->0@ == "data:"@ + mime@ + ";base64,"@ + base64_text(bytes@),
{
    if bytes.len() > MAX_IMAGE_BYTES {
        return None;
    }
    let text = encode_base64(bytes);
    let mut out = "data:".to_owned();
    out.push_str(mime);
    out.push_str(";base64,");
    out.push_str(text.as_str());
    Some(out)
}

} // verus!
