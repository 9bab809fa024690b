//! From an idiom to its four syllables, each split into initial, final and
//! tone.

use crate::feedback::{
    code, digits, features, feedback_code, lemma_code_round_trip, lemma_self_comparison, ternary,
    unpack, well_shaped, ALL_EXACT, FEATURES, FIELDS, POSITIONS,
};
use crate::pattern::{captures, group_texts, regex_captured, regex_replaced, replace_all};
use crate::reading::{reading_of, tone_numbered_reading};
use crate::text::{join, join_with_spaces, piece, split, split_at_spaces, texts};
use vstd::prelude::*;

verus! {

/// Matches a `u` that follows one of the initials y, j, q, x at the start of
/// a final, with the rest of the syllable.
pub const VOWEL_RULE: &'static str = "(y|j|q|x)u([a-z]*[0-9]?)( |$)";

/// Puts `v` in place of the `u` that `VOWEL_RULE` found.
pub const VOWEL_REPLACEMENT: &'static str = "${1}v${2}${3}";

/// A syllable: an optional initial, a final and an optional tone digit.
pub const SYLLABLE_RULE: &'static str =
    "(b|p|m|f|d|t|n|l|g|k|h|j|q|r|x|w|y|zh|ch|sh|z|c|s)?(a|ai|an|ang|ao|e|ei|en|eng|er|i|ia|ian|iang|iao|ie|in|ing|io|iong|iu|o|ong|ou|u|ua|uai|uan|uang|ui|un|uo|v|van|ve|vn|ue)(\\d)?(?: |$)";

/// The letter that stands for `u` with a diaeresis.
pub const PLAIN_VOWEL: char = 'v';

/// `u` with a diaeresis.
pub const MARKED_VOWEL: char = '\u{fc}';

/// Resolves the pronunciation of idioms: a table of readings fixed by hand for
/// idioms with an ambiguous character, and the default reading of each
/// character for all others.
pub struct HandlePinyin {
    polyphones_dict: Vec<(String, String)>,
}

/// A table of idioms with their readings, as plain text.
pub open spec fn table_of(entries: Vec<(String, String)>) -> Seq<(Seq<char>, Seq<char>)> {
    Seq::new(entries.len() as nat, |i: int| (entries[i].0@, entries[i].1@))
}

/// The reading that the table's first entry for `phrase` gives.
pub open spec fn listed(table: Seq<(Seq<char>, Seq<char>)>, phrase: Seq<char>) -> Option<
    Seq<char>,
>
    decreases table.len(),
{
    if table.len() == 0 {
        None
    } else if table[0].0 == phrase {
        Some(table[0].1)
    } else {
        listed(table.skip(1), phrase)
    }
}

/// The reading with `v` for each `u` with a diaeresis.
pub open spec fn plain_vowels(reading: Seq<char>) -> Seq<char> {
    Seq::new(
        reading.len(),
        |i: int|
            if reading[i] == MARKED_VOWEL {
                PLAIN_VOWEL
            } else {
                reading[i]
            },
    )
}

/// The default syllable of a character: its reading with the tone as a
/// trailing digit and plain vowels, or nothing for a character without a
/// reading.
pub open spec fn default_syllable(glyph: char) -> Seq<char> {
    match tone_numbered_reading(glyph) {
        Some(reading) => plain_vowels(reading),
        None => Seq::empty(),
    }
}

/// The default syllables of the characters of `phrase`, joined by spaces.
pub open spec fn default_text(phrase: Seq<char>) -> Seq<char> {
    join_with_spaces(Seq::new(phrase.len(), |i: int| default_syllable(phrase[i])))
}

/// The text with `VOWEL_RULE` applied throughout.
pub open spec fn normalized(text: Seq<char>) -> Seq<char> {
    match regex_replaced(VOWEL_RULE@, text, VOWEL_REPLACEMENT@) {
        Some(replaced) => replaced,
        None => text,
    }
}

/// The pronunciation of `phrase`: the table's reading where it lists the
/// phrase, the default reading otherwise, normalized.
pub open spec fn pinyin_text(table: Seq<(Seq<char>, Seq<char>)>, phrase: Seq<char>) -> Seq<char> {
    normalized(
        match listed(table, phrase) {
            Some(reading) => reading,
            None => default_text(phrase),
        },
    )
}

/// Three empty fields.
pub open spec fn blank_fields() -> Seq<Seq<char>> {
    seq![Seq::<char>::empty(), Seq::<char>::empty(), Seq::<char>::empty()]
}

/// The text of a capture group, empty for one that matched nothing.
pub open spec fn group_text(group: Option<Seq<char>>) -> Seq<char> {
    match group {
        Some(text) => text,
        None => Seq::empty(),
    }
}

/// Initial, final and tone from the groups of a match of `SYLLABLE_RULE`;
/// three empty fields where there was no match.
pub open spec fn fields_of_groups(groups: Option<Seq<Option<Seq<char>>>>) -> Seq<Seq<char>> {
    match groups {
        Some(found) => if found.len() == 4 {
            seq![group_text(found[1]), group_text(found[2]), group_text(found[3])]
        } else {
            blank_fields()
        },
        None => blank_fields(),
    }
}

/// Initial, final and tone of syllable `i` of a text of syllables separated by
/// spaces; three empty fields where the text has no such syllable or it is
/// not one that `SYLLABLE_RULE` matches.
pub open spec fn syllable_fields(text: Seq<char>, i: int) -> Seq<Seq<char>> {
    let syllables = split_at_spaces(text);
    if 0 <= i < syllables.len() {
        fields_of_groups(regex_captured(SYLLABLE_RULE@, syllables[i]))
    } else {
        blank_fields()
    }
}

/// For each character of `phrase`, in order: initial, final and tone of its
/// syllable, and the character itself.
pub open spec fn parsed(table: Seq<(Seq<char>, Seq<char>)>, phrase: Seq<char>) -> Seq<
    Seq<Seq<char>>,
> {
    Seq::new(
        phrase.len(),
        |i: int| syllable_fields(pinyin_text(table, phrase), i).push(seq![phrase[i]]),
    )
}

/// The code that comparing the guess `phrase_s` with the answer `phrase_t`
/// gives.
pub open spec fn diff_code(
    table: Seq<(Seq<char>, Seq<char>)>,
    phrase_s: Seq<char>,
    phrase_t: Seq<char>,
) -> nat {
    code(parsed(table, phrase_s), parsed(table, phrase_t))
}

impl View for HandlePinyin {
    type V = Seq<(Seq<char>, Seq<char>)>;

    closed spec fn view(&self) -> Seq<(Seq<char>, Seq<char>)> {
        table_of(self.polyphones_dict)
    }
}

/// The reading with `v` for each `u` with a diaeresis.
pub fn with_plain_vowels(reading: &str) -> (plain: String)
    ensures
        plain@ == plain_vowels(reading@),
{
    let len = reading.unicode_len();
    let mut plain = String::new();
    let mut i: usize = 0;
    while i < len
        invariant
            i <= len,
            len == reading@.len(),
            plain@ == plain_vowels(reading@).take(i as int),
        decreases len - i,
    {
        proof {
            reveal_strlit("v");
        }
        if reading.get_char(i) == MARKED_VOWEL {
            plain.append("v");
        } else {
            plain.append(reading.substring_char(i, i + 1));
        }
        i += 1;
    }
    plain
}

/// Initial, final and tone from the groups of a match of `SYLLABLE_RULE`.
pub fn fields_from_groups(groups: &Option<Vec<Option<String>>>) -> (fields: Vec<String>)
    ensures
        texts(fields) == fields_of_groups(
            match *groups {
                Some(found) => Some(group_texts(found)),
                None => None,
            },
        ),
{
    let mut fields: Vec<String> = Vec::new();
    match groups {
        Some(found) => {
            if found.len() == 4 {
                let mut k: usize = 1;
                while k < 4
                    invariant
                        1 <= k <= 4,
                        found.len() == 4,
                        fields.len() == k - 1,
                        forall|q: int|
                            0 <= q < k - 1 ==> (#[trigger] fields[q])@ == group_text(
                                group_texts(*found)[q + 1],
                            ),
                    decreases 4 - k,
                {
                    let text = match &found[k] {
                        Some(text) => text.clone(),
                        None => String::new(),
                    };
                    fields.push(text);
                    k += 1;
                }
                return fields;
            }
        },
        None => {},
    }
    fields.push(String::new());
    fields.push(String::new());
    fields.push(String::new());
    fields
}

impl HandlePinyin {
    /// A resolver with the given table: pairs of an idiom and its reading, a
    /// text of syllables separated by spaces.
    pub fn new(polyphones: Vec<(String, String)>) -> (resolver: HandlePinyin)
        ensures
            resolver@ == table_of(polyphones),
    {
        HandlePinyin { polyphones_dict: polyphones }
    }

    /// The table: pairs of an idiom and its reading.
    pub fn polyphones(&self) -> (entries: &Vec<(String, String)>)
        ensures
            table_of(*entries) == self@,
    {
        &self.polyphones_dict
    }

    /// The reading that the table lists for `phrase`.
    pub fn lookup(&self, phrase: &String) -> (reading: Option<String>)
        ensures
            reading.is_some() == listed(self@, phrase@).is_some(),
            reading.is_some() ==> reading.unwrap()@ == listed(self@, phrase@).unwrap(),
    {
        let ghost table = self@;
        let mut i: usize = 0;
        assert(table.skip(0) =~= table);
        while i < self.polyphones_dict.len()
            invariant
                i <= self.polyphones_dict.len(),
                table == self@,
                table.len() == self.polyphones_dict.len(),
                listed(table, phrase@) == listed(table.skip(i as int), phrase@),
            decreases self.polyphones_dict.len() - i,
        {
            let entry = &self.polyphones_dict[i];
            assert(table.skip(i as int).skip(1) =~= table.skip(i + 1));
            if *phrase == entry.0 {
                return Some(entry.1.clone());
            }
            i += 1;
        }
        None
    }

    /// The pronunciation of `phrase` as syllables separated by spaces, each
    /// with its tone as a trailing digit.
    pub fn get_pinyin(&self, phrase: String) -> (pinyin: String)
        ensures
            pinyin@ == pinyin_text(self@, phrase@),
    {
        let raw = match self.lookup(&phrase) {
            Some(reading) => reading,
            None => {
                let len = phrase.as_str().unicode_len();
                let mut syllables: Vec<String> = Vec::new();
                let mut i: usize = 0;
                while i < len
                    invariant
                        i <= len,
                        len == phrase@.len(),
                        syllables.len() == i,
                        forall|q: int|
                            0 <= q < i ==> (#[trigger] syllables[q])@ == default_syllable(
                                phrase@[q],
                            ),
                    decreases len - i,
                {
                    let syllable = match reading_of(phrase.as_str().get_char(i)) {
                        Some(reading) => with_plain_vowels(reading.as_str()),
                        None => String::new(),
                    };
                    syllables.push(syllable);
                    i += 1;
                }
                assert(texts(syllables) =~= Seq::new(
                    phrase@.len(),
                    |i: int| default_syllable(phrase@[i]),
                ));
                join(&syllables)
            },
        };
        match replace_all(VOWEL_RULE, raw.as_str(), VOWEL_REPLACEMENT) {
            Some(replaced) => replaced,
            None => raw,
        }
    }

    /// The syllables of `phrase`: for each of its characters the initial, the
    /// final, the tone and the character itself.
    pub fn parse(&self, phrase: String) -> (syllables: Vec<Vec<String>>)
        ensures
            features(syllables) == parsed(self@, phrase@),
    {
        let pinyin = self.get_pinyin(phrase.clone());
        let pieces = split(pinyin.as_str());
        let len = phrase.as_str().unicode_len();
        let mut syllables: Vec<Vec<String>> = Vec::new();
        let mut i: usize = 0;
        while i < len
            invariant
                i <= len,
                len == phrase@.len(),
                pinyin@ == pinyin_text(self@, phrase@),
                texts(pieces) == split_at_spaces(pinyin@),
                syllables.len() == i,
                forall|q: int|
                    0 <= q < i ==> texts(#[trigger] syllables[q]) == syllable_fields(
                        pinyin@,
                        q,
                    ).push(seq![phrase@[q]]),
            decreases len - i,
        {
            let mut fields = if i < pieces.len() {
                let groups = captures(SYLLABLE_RULE, pieces[i].as_str());
                fields_from_groups(&groups)
            } else {
                fields_from_groups(&None)
            };
            let glyph = piece(phrase.as_str(), i, i + 1);
            assert(glyph@ =~= seq![phrase@[i as int]]);
            fields.push(glyph);
            syllables.push(fields);
            i += 1;
        }
        syllables
    }

    /// Compares the guess `phrase_s` with the answer `phrase_t`, both of four
    /// characters, and gives the feedback code.
    pub fn diff(&self, phrase_s: String, phrase_t: String) -> (packed: u32)
        requires
            phrase_s@.len() == POSITIONS,
            phrase_t@.len() == POSITIONS,
        ensures
            packed == diff_code(self@, phrase_s@, phrase_t@),
            packed <= ALL_EXACT,
    {
        let parsed_s = self.parse(phrase_s);
        let parsed_t = self.parse(phrase_t);
        proof {
            lemma_parsed_shape(self@, phrase_s@);
            lemma_parsed_shape(self@, phrase_t@);
        }
        feedback_code(&parsed_s, &parsed_t)
    }
}

/// The syllables of a phrase are as many as its characters, each with four
/// fields, the last of them the character.
pub proof fn lemma_parsed_shape(table: Seq<(Seq<char>, Seq<char>)>, phrase: Seq<char>)
    ensures
        parsed(table, phrase).len() == phrase.len(),
        forall|i: int|
            0 <= i < phrase.len() ==> (#[trigger] parsed(table, phrase)[i]).len() == FEATURES,
        forall|i: int|
            0 <= i < phrase.len() ==> (#[trigger] parsed(table, phrase)[i])[3] == seq![phrase[i]],
        phrase.len() == POSITIONS ==> well_shaped(parsed(table, phrase)),
{
}

/// An idiom whose syllables all have an initial, a final and a tone, compared
/// with itself, gives the code `3^16 - 1`.
pub proof fn lemma_diff_self(table: Seq<(Seq<char>, Seq<char>)>, phrase: Seq<char>)
    requires
        phrase.len() == POSITIONS,
        forall|i: int, k: int|
            0 <= i < POSITIONS && 0 <= k < FEATURES ==> (#[trigger] parsed(
                table,
                phrase,
            )[i][k]).len() > 0,
    ensures
        diff_code(table, phrase, phrase) == ALL_EXACT,
{
    lemma_self_comparison(parsed(table, phrase));
}

/// The code of a guess against an answer is below `3^16`; its sixteen base-3
/// digits are the digits of the comparison, each 0, 1 or 2.
pub proof fn lemma_diff_round_trip(
    table: Seq<(Seq<char>, Seq<char>)>,
    phrase_s: Seq<char>,
    phrase_t: Seq<char>,
)
    ensures
        diff_code(table, phrase_s, phrase_t) <= ALL_EXACT,
        ternary(digits(parsed(table, phrase_s), parsed(table, phrase_t))),
        unpack(diff_code(table, phrase_s, phrase_t), FIELDS as nat) == digits(
            parsed(table, phrase_s),
            parsed(table, phrase_t),
        ),
{
    lemma_code_round_trip(parsed(table, phrase_s), parsed(table, phrase_t));
}

} // verus!
