//! The default reading of a character.

use pinyin::ToPinyin;
use vstd::prelude::*;

verus! {

/// The reading of a character with its tone as a trailing digit, or `None`
/// for a character that has no reading.
pub uninterp spec fn tone_numbered_reading(glyph: char) -> Option<Seq<char>>;

/// `ToPinyin::to_pinyin` on a character and `Pinyin::with_tone_num_end`.
#[verifier::external_body]
pub(crate) fn reading_of(glyph: char) -> (reading: Option<String>)
    ensures
        reading.is_some() == tone_numbered_reading(glyph).is_some(),
        reading.is_some() ==> reading.unwrap()@ == tone_numbered_reading(glyph).unwrap(),
{
    glyph.to_pinyin().map(|p| p.with_tone_num_end().to_string())
}

} // verus!
