//! A whole picture: from its tokens to the lookup tables, their source text
//! and the byte encoding, and back.

use vstd::prelude::*;
use vstd::utf8::encode_utf8;

use crate::ansi::Ansi;
use crate::dedupe::{dedupe_colors, lemma_restore_dedupe, restore, spec_dedupe};
use crate::encode::{
    decode_all, encodable, encode_all, encode_data, lemma_decode_encode, lemma_encode_ok,
    EncodeError,
};
use crate::mapping::{
    char_mapping, char_table, color_mapping, color_table, is_char_table, is_color_table,
    mapping_source, mapping_text,
};
use crate::parse::{lemma_tokens_colored, parses, spec_tokens};

verus! {

/// The encoding of a picture: its tables, the source text that declares
/// them, and the bytes of its tokens.
pub struct EncodedImage {
    /// The distinct color pairs, in increasing order.
    pub colors: Vec<(u8, u8)>,
    /// The distinct characters, in increasing order.
    pub chars: Vec<char>,
    /// The UTF-8 Rust source that declares the two tables.
    pub mapping: Vec<u8>,
    /// The bytes of the tokens.
    pub data: Vec<u8>,
}

/// Encodes a picture: removes its repeated colors, builds the tables of the
/// result and encodes it with them.
pub fn encode_image(items: &[Ansi]) -> (r: Result<EncodedImage, EncodeError>)
    ensures
        match r {
            Ok(image) => {
                let d = spec_dedupe(items@);
                &&& image.colors@ == color_table(d)
                &&& image.chars@ == char_table(d)
                &&& is_color_table(d, image.colors@)
                &&& is_char_table(d, image.chars@)
                &&& image.mapping@ == encode_utf8(mapping_text(color_table(d), char_table(d)))
                &&& encode_all(d, color_table(d), char_table(d)) == Ok::<Seq<u8>, EncodeError>(
                    image.data@,
                )
            },
            Err(e) => encode_all(
                spec_dedupe(items@),
                color_table(spec_dedupe(items@)),
                char_table(spec_dedupe(items@)),
            ) == Err::<Seq<u8>, EncodeError>(e),
        },
{
    let deduped = dedupe_colors(items);
    let colors = color_mapping(deduped.as_slice());
    let chars = char_mapping(deduped.as_slice());
    let mapping = mapping_source(colors.as_slice(), chars.as_slice());
    match encode_data(deduped.as_slice(), colors.as_slice(), chars.as_slice()) {
        Ok(data) => Ok(EncodedImage { colors, chars, mapping, data }),
        Err(e) => Err(e),
    }
}

/// A picture survives its encoding: when the whole of `text` is a picture
/// and each of its tokens without repeated colors fits the encoding with its
/// tables, those tokens can be encoded, decoding their bytes gives them back,
/// and a terminal draws every character of them in the colors it had in the
/// picture.
pub proof fn lemma_picture_roundtrip(text: Seq<char>, colors: Seq<(u8, u8)>, chars: Seq<char>)
    requires
        parses(text),
        is_color_table(spec_dedupe(spec_tokens(text).0), colors),
        is_char_table(spec_dedupe(spec_tokens(text).0), chars),
        forall|i: int|
            0 <= i < spec_dedupe(spec_tokens(text).0).len() ==> encodable(
                #[trigger] spec_dedupe(spec_tokens(text).0)[i],
                colors,
                chars,
            ),
    ensures
        encode_all(spec_dedupe(spec_tokens(text).0), colors, chars) is Ok,
        decode_all(encode_all(spec_dedupe(spec_tokens(text).0), colors, chars).unwrap(), colors, chars)
            == Some(spec_dedupe(spec_tokens(text).0)),
        restore(spec_dedupe(spec_tokens(text).0)) == spec_tokens(text).0,
{
    let items = spec_tokens(text).0;
    let d = spec_dedupe(items);
    lemma_encode_ok(d, colors, chars);
    lemma_decode_encode(d, colors, chars);
    lemma_tokens_colored(text);
    lemma_restore_dedupe(items);
}

} // verus!
