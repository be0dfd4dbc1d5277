//! Text/binary detection of file contents: a UTF-16 BOM means
//! decode-and-strip, NUL bytes mean binary, anything else is loaded as UTF-8.

use vstd::prelude::*;
use vstd::utf8::{
    char_is_scalar, char_u32_cast, decode_utf8, encode_scalar, encode_utf8, encode_utf8_decode_utf8,
    encode_utf8_valid_utf8, has_width_1_encoding, has_width_2_encoding, has_width_3_encoding,
    valid_utf8,
};

verus! {

/// Outcome of reading a file with text/binary detection.
#[derive(Debug)]
pub enum FileContent {
    Text(String),
    Binary,
}

/// What `encoding_rs_io` hands out for `raw` when it sniffs a BOM, strips it
/// and transcodes UTF-16 to UTF-8 (UTF-8 passes through).
pub uninterp spec fn bom_decoded(raw: Seq<u8>) -> Option<Seq<u8>>;

/// Whether `raw` starts with a UTF-8 or UTF-16 byte order mark.
pub open spec fn has_bom(raw: Seq<u8>) -> bool {
    ||| (raw.len() >= 3 && raw[0] == 0xEFu8 && raw[1] == 0xBBu8 && raw[2] == 0xBFu8)
    ||| (raw.len() >= 2 && raw[0] == 0xFFu8 && raw[1] == 0xFEu8)
    ||| (raw.len() >= 2 && raw[0] == 0xFEu8 && raw[1] == 0xFFu8)
}

/// The 16-bit code units of UTF-16 text `body`, two bytes each, in
/// little-endian order when `little`, else big-endian.
pub open spec fn utf16_units(body: Seq<u8>, little: bool) -> Seq<int> {
    Seq::new(
        body.len() / 2,
        |k: int|
            if little {
                body[2 * k] + 256 * body[2 * k + 1]
            } else {
                256 * body[2 * k] + body[2 * k + 1]
            },
    )
}

/// The characters of `raw` when it is a UTF-16 byte order mark followed by
/// whole code units of the Basic Multilingual Plane (no surrogates), the
/// first of which is no second byte order mark.
pub open spec fn utf16_text(raw: Seq<u8>) -> Option<Seq<char>> {
    let little = raw.len() >= 2 && raw[0] == 0xFFu8 && raw[1] == 0xFEu8;
    let big = raw.len() >= 2 && raw[0] == 0xFEu8 && raw[1] == 0xFFu8;
    let body = raw.skip(2);
    let units = utf16_units(body, little);
    if (little || big) && body.len() % 2 == 0 && (forall|k: int|
        0 <= k < units.len() ==> !(0xD800 <= #[trigger] units[k] <= 0xDFFF)) && (units.len() == 0
        || units[0] != 0xFEFF) {
        Some(units.map_values(|u: int| u as char))
    } else {
        None
    }
}

/// Reads `raw` through `encoding_rs_io::DecodeReaderBytesBuilder` configured
/// with UTF-8 passthru, BOM stripping, BOM override and BOM sniffing. The
/// result is `bom_decoded(raw)`. Reading from a slice cannot fail: the
/// decoder only passes on errors of the reader beneath it, and of a buffer
/// under 4 bytes, and the default buffer is larger. As the crate documents,
/// bytes without a BOM pass through unchanged and a UTF-8 BOM is only
/// stripped; after a UTF-16 BOM the BOM is stripped and the code units are
/// transcoded to UTF-8, which for units of the Basic Multilingual Plane is
/// the UTF-8 encoding of those characters (a leading U+FEFF unit would be
/// dropped as a second BOM, so it is left out). What other UTF-16 input
/// (surrogates, an odd byte) gives is left to the name.
#[verifier::external_body]
fn decode_bom(raw: &[u8]) -> (r: Option<Vec<u8>>)
    ensures
        r is Some,
        bom_decoded(raw@) == Some(r->0@),
        !has_bom(raw@) ==> r->0@ == raw@,
        raw.len() >= 3 && raw[0] == 0xEFu8 && raw[1] == 0xBBu8 && raw[2] == 0xBFu8
            ==> r->0@ == raw@.skip(3),
        utf16_text(raw@) matches Some(cs) ==> r->0@ == encode_utf8(cs),
{
    let mut decoder = encoding_rs_io::DecodeReaderBytesBuilder::new()
        .utf8_passthru(true)
        .strip_bom(true)
        .bom_override(true)
        .bom_sniffing(true)
        .build(raw);
    let mut out = Vec::new();
    match std::io::Read::read_to_end(&mut decoder, &mut out) {
        Ok(_) => Some(out),
        Err(_) => None,
    }
}

/// Calls `memchr::memchr`: the index of the first occurrence of `needle` in
/// `haystack`, or none when it does not occur.
#[verifier::external_body]
fn find_byte(needle: u8, haystack: &[u8]) -> (r: Option<usize>)
    ensures
        match r {
            Some(i) => i < haystack@.len() && haystack@[i as int] == needle && forall|j: int|
                0 <= j < i ==> haystack@[j] != needle,
            None => forall|j: int| 0 <= j < haystack@.len() ==> haystack@[j] != needle,
        },
{
    memchr::memchr(needle, haystack)
}

/// The text `String::from_utf8_lossy` makes of `bytes` (invalid sequences
/// become U+FFFD).
pub uninterp spec fn utf8_lossy(bytes: Seq<u8>) -> Seq<char>;

/// Calls `String::from_utf8_lossy`; valid UTF-8 decodes as itself.
#[verifier::external_body]
pub(crate) fn lossy_text(bytes: &[u8]) -> (s: String)
    ensures
        s@ == utf8_lossy(bytes@),
        valid_utf8(bytes@) ==> s@ == decode_utf8(bytes@),
{
    String::from_utf8_lossy(bytes).into_owned()
}

/// What decoded bytes are taken as: binary when they hold a NUL, else
/// their text.
pub open spec fn classified(decoded: Seq<u8>) -> (bool, Seq<char>) {
    if decoded.contains(0u8) {
        (false, Seq::empty())
    } else {
        (true, utf8_lossy(decoded))
    }
}

/// The text-or-binary view of a file's content: `(true, text)` or
/// `(false, empty)`.
pub open spec fn content_view(c: FileContent) -> (bool, Seq<char>) {
    match c {
        FileContent::Text(s) => (true, s@),
        FileContent::Binary => (false, Seq::empty()),
    }
}

proof fn lemma_nonzero_bytes(x: u8)
    by (bit_vector)
    ensures
        (0xC0u8 | x) != 0u8,
        (0xE0u8 | x) != 0u8,
        (0xF0u8 | x) != 0u8,
        (0x80u8 | x) != 0u8,
{
}

proof fn lemma_low_byte(c: u32)
    by (bit_vector)
    requires
        c <= 0x7F,
    ensures
        ((c & 0x7F) as u8 == 0u8) == (c == 0u32),
{
}

/// The UTF-8 encoding of a scalar holds a NUL byte only for U+0000.
proof fn lemma_scalar_nul(c: u32)
    ensures
        encode_scalar(c).contains(0u8) <==> c == 0,
{
    let e = encode_scalar(c);
    lemma_nonzero_bytes(((c >> 6) & 0x1F) as u8);
    lemma_nonzero_bytes(((c >> 12) & 0x0F) as u8);
    lemma_nonzero_bytes(((c >> 18) & 0x7) as u8);
    lemma_nonzero_bytes((c & 0x3F) as u8);
    lemma_nonzero_bytes(((c >> 6) & 0x3F) as u8);
    lemma_nonzero_bytes(((c >> 12) & 0x3F) as u8);
    if has_width_1_encoding(c) {
        lemma_low_byte(c);
        if c == 0 {
            assert(e[0] == 0u8);
        }
    } else if e.contains(0u8) {
        let i = choose|i: int| 0 <= i < e.len() && e[i] == 0u8;
        if has_width_2_encoding(c) {
            assert(e[i] != 0u8);
        } else if has_width_3_encoding(c) {
            assert(e[i] != 0u8);
        } else {
            assert(e[i] != 0u8);
        }
    }
}

/// The UTF-8 encoding of a text holds a NUL byte just when the text holds
/// a NUL character.
proof fn lemma_encoded_nul(cs: Seq<char>)
    ensures
        encode_utf8(cs).contains(0u8) <==> cs.contains('\0'),
    decreases cs.len(),
{
    if cs.len() > 0 {
        let head = encode_scalar(cs[0] as u32);
        let tail = encode_utf8(cs.drop_first());
        lemma_encoded_nul(cs.drop_first());
        lemma_scalar_nul(cs[0] as u32);
        char_is_scalar(cs[0]);
        assert(encode_utf8(cs) == head + tail);
        if (head + tail).contains(0u8) {
            let i = choose|i: int| 0 <= i < (head + tail).len() && (head + tail)[i] == 0u8;
            if i < head.len() {
                assert(head[i] == 0u8);
                assert(('\0' as u32) == 0u32);
                char_u32_cast(cs[0], 0u32);
                char_u32_cast('\0', 0u32);
                assert(cs[0] == '\0');
            } else {
                assert(tail[i - head.len()] == 0u8);
                let j = choose|j: int| 0 <= j < cs.drop_first().len() && cs.drop_first()[j] == '\0';
                assert(cs[j + 1] == '\0');
            }
        }
        if cs.contains('\0') {
            let j = choose|j: int| 0 <= j < cs.len() && cs[j] == '\0';
            if j == 0 {
                let i = choose|i: int| 0 <= i < head.len() && head[i] == 0u8;
                assert((head + tail)[i] == 0u8);
            } else {
                assert(cs.drop_first()[j - 1] == '\0');
                let i = choose|i: int| 0 <= i < tail.len() && tail[i] == 0u8;
                assert((head + tail)[head.len() + i] == 0u8);
            }
        }
    }
}

/// What a text is taken as: binary when it holds a NUL character, else
/// itself.
pub open spec fn text_content(cs: Seq<char>) -> (bool, Seq<char>) {
    if cs.contains('\0') {
        (false, Seq::empty())
    } else {
        (true, cs)
    }
}

/// Classify a file's raw bytes, BOM-sniffing/transcoding first (so
/// UTF-16-with-BOM arrives as text); a NUL byte after decoding means binary.
/// Without a BOM the bytes are classified as they are; a UTF-8 BOM is
/// dropped first.
pub fn content_from_bytes(raw: &[u8]) -> (r: FileContent)
    ensures
        bom_decoded(raw@) is Some,
        content_view(r) == classified(bom_decoded(raw@)->0),
        !has_bom(raw@) ==> content_view(r) == classified(raw@),
        raw@.len() >= 3 && raw@[0] == 0xEFu8 && raw@[1] == 0xBBu8 && raw@[2] == 0xBFu8
            ==> content_view(r) == classified(raw@.skip(3)),
        utf16_text(raw@) matches Some(cs) ==> content_view(r) == text_content(cs),
        valid_utf8(bom_decoded(raw@)->0) && !bom_decoded(raw@)->0.contains(0u8) ==> content_view(r)
            == (true, decode_utf8(bom_decoded(raw@)->0)),
        !has_bom(raw@) && valid_utf8(raw@) && !raw@.contains(0u8) ==> content_view(r) == (
            true,
            decode_utf8(raw@),
        ),
{
    match decode_bom(raw) {
        None => FileContent::Binary,
        Some(decoded) => match find_byte(0, decoded.as_slice()) {
            Some(i) => {
                assert(decoded@[i as int] == 0u8);
                proof {
                    if let Some(cs) = utf16_text(raw@) {
                        lemma_encoded_nul(cs);
                    }
                }
                FileContent::Binary
            },
            None => {
                assert(!decoded@.contains(0u8));
                proof {
                    if let Some(cs) = utf16_text(raw@) {
                        lemma_encoded_nul(cs);
                        encode_utf8_valid_utf8(cs);
                        encode_utf8_decode_utf8(cs);
                    }
                }
                FileContent::Text(lossy_text(decoded.as_slice()))
            },
        },
    }
}

} // verus!
