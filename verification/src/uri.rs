//! File URIs for local paths: every byte of the path outside a small safe
//! set is percent-encoded, so the conversion loses nothing.

use vstd::prelude::*;
use vstd::string::StringSliceAdditionalSpecFns;
use vstd::utf8::encode_utf8;
use crate::text::push_char;

verus! {

/// The bytes a file URI carries as they are.
pub open spec fn keeps_byte(b: u8) -> bool {
    (0x41 <= b <= 0x5A) || (0x61 <= b <= 0x7A) || (0x30 <= b <= 0x39) || b == 0x2D || b == 0x2E
        || b == 0x5F || b == 0x7E || b == 0x2F || b == 0x3A || b == 0x40
}

/// The upper-case hexadecimal digit for `n`, below sixteen.
pub open spec fn hex_digit(n: u8) -> char {
    if n < 10 {
        (0x30 + n) as char
    } else {
        (0x41 + n - 10) as char
    }
}

/// How one byte of a path is written in a URI.
pub open spec fn encoded_byte(b: u8) -> Seq<char> {
    if keeps_byte(b) {
        seq![b as char]
    } else {
        seq!['%', hex_digit(b / 16), hex_digit(b % 16)]
    }
}

/// How the bytes of a path are written in a URI.
pub open spec fn encoded(bs: Seq<u8>) -> Seq<char>
    decreases bs.len(),
{
    if bs.len() == 0 {
        Seq::empty()
    } else {
        encoded(bs.drop_last()) + encoded_byte(bs.last())
    }
}

/// The text of the file URI for the path `path`.
pub open spec fn spec_file_uri(path: Seq<char>) -> Seq<char> {
    "file://"@ + encoded(encode_utf8(path))
}

fn hex(n: u8) -> (c: char)
    requires
        n < 16,
    ensures
        c == hex_digit(n),
{
    if n < 10 {
        (0x30 + n) as char
    } else {
        (0x41 + n - 10) as char
    }
}

/// The text of the file URI for `path`.
pub fn file_uri_text(path: &str) -> (uri: String)
    ensures
        uri@ == spec_file_uri(path@),
{
    let bytes = path.as_bytes();
    let mut uri = "file://".to_owned();
    let mut i: usize = 0;
    while i < bytes.len()
        invariant
            i <= bytes@.len(),
            bytes@ == path.spec_bytes(),
            uri@ == "file://"@ + encoded(bytes@.take(i as int)),
        decreases bytes.len() - i,
    {
        let b = bytes[i];
        assert(bytes@.take(i + 1).drop_last() =~= bytes@.take(i as int));
        let ghost before = uri@;
        if (0x41 <= b && b <= 0x5A) || (0x61 <= b && b <= 0x7A) || (0x30 <= b && b <= 0x39) || b == 0x2D
            || b == 0x2E || b == 0x5F || b == 0x7E || b == 0x2F || b == 0x3A || b == 0x40 {
            push_char(&mut uri, b as char);
            assert(uri@ =~= before + encoded_byte(b));
        } else {
            push_char(&mut uri, '%');
            push_char(&mut uri, hex(b / 16));
            push_char(&mut uri, hex(b % 16));
            assert(uri@ =~= before + encoded_byte(b));
        }
        i = i + 1;
    }
    assert(bytes@.take(bytes@.len() as int) =~= bytes@);
    uri
}

/// A URI as LSP carries it.
#[verifier::external_type_specification]
#[verifier::external_body]
pub struct ExUri(lsp_types::Uri);

/// Whether `text` parses as a URI, as `lsp_types::Uri::from_str` decides.
pub uninterp spec fn parses_as_uri(text: Seq<char>) -> bool;

/// The text of a URI, as `Uri::as_str` gives it back.
pub uninterp spec fn uri_text(uri: lsp_types::Uri) -> Seq<char>;

/// `lsp_types::Uri::from_str`: the URI `text` spells, where it parses as
/// one. Whether the parse succeeds is stated by name; a URI that parsed
/// keeps `text` unchanged, which `as_str` gives back. The parse panics on a
/// text longer than `i32::MAX` bytes, which callers rule out first.
#[verifier::external_body]
fn parse_uri(text: &str) -> (uri: Option<lsp_types::Uri>)
    requires
        text.spec_bytes().len() <= i32::MAX,
    ensures
        uri is Some == parses_as_uri(text@),
        uri matches Some(u) ==> uri_text(u) == text@,
{
    match text.parse::<lsp_types::Uri>() {
        Ok(uri) => Some(uri),
        Err(_) => None,
    }
}

/// Whether the file URI for `path` is one a URI parse takes: no longer than
/// `i32::MAX` bytes, and parsing as a URI.
pub open spec fn file_uri_ok(path: Seq<char>) -> bool {
    encode_utf8(spec_file_uri(path)).len() <= i32::MAX && parses_as_uri(spec_file_uri(path))
}

/// The file URI for `path`, where it is one a URI parse takes.
pub fn file_uri(path: &str) -> (uri: Option<lsp_types::Uri>)
    ensures
        uri is Some == file_uri_ok(path@),
        uri matches Some(u) ==> uri_text(u) == spec_file_uri(path@),
{
    let text = file_uri_text(path);
    let bytes = text.as_str().as_bytes();
    if bytes.len() > 0x7fff_ffffusize {
        return None;
    }
    parse_uri(text.as_str())
}

/// The text of the file URI for `path`, where it parses as a URI.
pub fn checked_file_uri(path: &str) -> (uri: Option<String>)
    ensures
        (match uri {
            Some(u) => file_uri_ok(path@) && u@ == spec_file_uri(path@),
            None => !file_uri_ok(path@),
        }),
{
    let text = file_uri_text(path);
    let bytes = text.as_str().as_bytes();
    if bytes.len() > 0x7fff_ffffusize {
        return None;
    }
    match parse_uri(text.as_str()) {
        Some(_) => Some(text),
        None => None,
    }
}

} // verus!
