//! The feedback code: sixteen base-3 digits, one for each of the four features
//! (initial, final, tone, character) at each of the four positions of a guess.

use vstd::prelude::*;

verus! {

/// Number of characters in an idiom.
pub const POSITIONS: usize = 4;

/// Number of features compared at each position.
pub const FEATURES: usize = 4;

/// Number of digits in a feedback code.
pub const FIELDS: usize = 16;

/// The code whose sixteen digits are all 2: every feature matches in place.
pub const ALL_EXACT: u32 = 43046720;

/// `3^n`.
pub open spec fn pow3(n: nat) -> nat
    decreases n,
{
    if n == 0 {
        1
    } else {
        3 * pow3((n - 1) as nat)
    }
}

/// The number that a sequence of base-3 digits writes, most significant digit
/// first.
pub open spec fn pack(digits: Seq<nat>) -> nat
    decreases digits.len(),
{
    if digits.len() == 0 {
        0
    } else {
        pack(digits.drop_last()) * 3 + digits.last()
    }
}

/// The `len` low base-3 digits of `code`, most significant first.
pub open spec fn unpack(code: nat, len: nat) -> Seq<nat>
    decreases len,
{
    if len == 0 {
        Seq::empty()
    } else {
        unpack(code / 3, (len - 1) as nat).push(code % 3)
    }
}

/// Every digit is 0, 1 or 2.
pub open spec fn ternary(digits: Seq<nat>) -> bool {
    forall|p: int| 0 <= p < digits.len() ==> #[trigger] digits[p] < 3
}

/// A sequence of `n` ternary digits packs into a number below `3^n`.
pub proof fn lemma_pack_bound(digits: Seq<nat>)
    requires
        ternary(digits),
    ensures
        pack(digits) < pow3(digits.len()),
    decreases digits.len(),
{
    if digits.len() > 0 {
        lemma_pack_bound(digits.drop_last());
    }
}

/// Decoding the packed number gives the digits back.
pub proof fn lemma_unpack_pack(digits: Seq<nat>)
    requires
        ternary(digits),
    ensures
        unpack(pack(digits), digits.len()) == digits,
    decreases digits.len(),
{
    if digits.len() > 0 {
        lemma_unpack_pack(digits.drop_last());
    }
}

/// The features of an idiom as plain text: for each position the initial, the
/// final, the tone and the character itself.
pub open spec fn features(idiom: Vec<Vec<String>>) -> Seq<Seq<Seq<char>>> {
    Seq::new(idiom.len() as nat, |i: int| Seq::new(idiom[i].len() as nat, |k: int| idiom[i][k]@))
}

/// Four positions with four features each.
pub open spec fn well_shaped(idiom: Seq<Seq<Seq<char>>>) -> bool {
    &&& idiom.len() == POSITIONS
    &&& forall|i: int| 0 <= i < POSITIONS ==> (#[trigger] idiom[i]).len() == FEATURES
}

/// The guess's feature `k` at position `i` occurs as feature `k` of the answer
/// at some other position.
pub open spec fn occurs_elsewhere(
    guess: Seq<Seq<Seq<char>>>,
    answer: Seq<Seq<Seq<char>>>,
    i: int,
    k: int,
) -> bool {
    exists|j: int| 0 <= j < POSITIONS && j != i && guess[i][k] == (#[trigger] answer[j])[k]
}

/// The digit for feature `k` at position `i` of the guess: 0 where the guess
/// has no value there; 2 where the answer has the same value in the same
/// place; 1 where it has it at another position only; 0 otherwise.
pub open spec fn field_digit(
    guess: Seq<Seq<Seq<char>>>,
    answer: Seq<Seq<Seq<char>>>,
    i: int,
    k: int,
) -> nat {
    if guess[i][k].len() == 0 {
        0
    } else if guess[i][k] == answer[i][k] {
        2
    } else if occurs_elsewhere(guess, answer, i, k) {
        1
    } else {
        0
    }
}

/// The sixteen digits of a comparison, position by position and feature by
/// feature within a position.
pub open spec fn digits(guess: Seq<Seq<Seq<char>>>, answer: Seq<Seq<Seq<char>>>) -> Seq<nat> {
    Seq::new(
        FIELDS as nat,
        |p: int| field_digit(guess, answer, p / (FEATURES as int), p % (FEATURES as int)),
    )
}

/// The feedback code of a guess against an answer.
pub open spec fn code(guess: Seq<Seq<Seq<char>>>, answer: Seq<Seq<Seq<char>>>) -> nat {
    pack(digits(guess, answer))
}

/// The digit for one feature of the guess.
fn compare_field(guess: &Vec<Vec<String>>, answer: &Vec<Vec<String>>, i: usize, k: usize) -> (digit:
    u32)
    requires
        well_shaped(features(*guess)),
        well_shaped(features(*answer)),
        i < POSITIONS,
        k < FEATURES,
    ensures
        digit == field_digit(features(*guess), features(*answer), i as int, k as int),
{
    let ghost g = features(*guess);
    let ghost a = features(*answer);
    assert(g[i as int].len() == FEATURES);
    assert(a[i as int].len() == FEATURES);
    let value = &guess[i][k];
    if value.as_str().is_empty() {
        return 0;
    }
    if *value == answer[i][k] {
        return 2;
    }
    let mut j: usize = 0;
    while j < POSITIONS
        invariant
            j <= POSITIONS,
            i < POSITIONS,
            k < FEATURES,
            g == features(*guess),
            a == features(*answer),
            well_shaped(g),
            well_shaped(a),
            value@ == g[i as int][k as int],
            g[i as int][k as int].len() != 0,
            g[i as int][k as int] != a[i as int][k as int],
            forall|q: int|
                0 <= q < j && q != i ==> g[i as int][k as int] != (#[trigger] a[q])[k as int],
        decreases POSITIONS - j,
    {
        assert(a[j as int].len() == FEATURES);
        if j != i && *value == answer[j][k] {
            return 1;
        }
        j += 1;
    }
    0
}

/// Compares a guess with an answer, feature by feature, and packs the sixteen
/// digits into one number.
pub fn feedback_code(guess: &Vec<Vec<String>>, answer: &Vec<Vec<String>>) -> (packed: u32)
    requires
        well_shaped(features(*guess)),
        well_shaped(features(*answer)),
    ensures
        packed == code(features(*guess), features(*answer)),
        packed <= ALL_EXACT,
{
    let ghost all = digits(features(*guess), features(*answer));
    let mut packed: u32 = 0;
    let mut p: usize = 0;
    proof {
        lemma_pow3_monotonic(0, 16);
    }
    while p < FIELDS
        invariant
            p <= FIELDS,
            well_shaped(features(*guess)),
            well_shaped(features(*answer)),
            all == digits(features(*guess), features(*answer)),
            packed == pack(all.take(p as int)),
            packed < pow3(p as nat),
            pow3(p as nat) <= pow3(16),
        decreases FIELDS - p,
    {
        let digit = compare_field(guess, answer, p / FEATURES, p % FEATURES);
        proof {
            let next = all.take(p + 1);
            assert(next.drop_last() =~= all.take(p as int));
            lemma_pow3_value();
            lemma_pow3_monotonic((p + 1) as nat, 16);
        }
        packed = packed * 3 + digit;
        p += 1;
    }
    proof {
        assert(all.take(FIELDS as int) =~= all);
        lemma_pow3_value();
    }
    packed
}

/// `3^16` is 43046721.
pub proof fn lemma_pow3_value()
    ensures
        pow3(16) == 43046721,
{
    reveal_with_fuel(pow3, 17);
}

/// `pow3` grows with its argument.
pub proof fn lemma_pow3_monotonic(m: nat, n: nat)
    requires
        m <= n,
    ensures
        pow3(m) <= pow3(n),
        pow3(m) >= 1,
    decreases n,
{
    if m < n {
        lemma_pow3_monotonic(m, (n - 1) as nat);
    } else if m > 0 {
        lemma_pow3_monotonic((m - 1) as nat, (n - 1) as nat);
    }
}

/// Digits that are all 2 pack into `3^n - 1`.
pub proof fn lemma_pack_all_exact(all: Seq<nat>)
    requires
        forall|p: int| 0 <= p < all.len() ==> #[trigger] all[p] == 2,
    ensures
        pack(all) + 1 == pow3(all.len()),
    decreases all.len(),
{
    if all.len() > 0 {
        lemma_pack_all_exact(all.drop_last());
    }
}

/// Every comparison gives sixteen digits, each 0, 1 or 2; its code is below
/// `3^16`, and the digits are read back from the code without loss.
pub proof fn lemma_code_round_trip(guess: Seq<Seq<Seq<char>>>, answer: Seq<Seq<Seq<char>>>)
    ensures
        digits(guess, answer).len() == FIELDS,
        ternary(digits(guess, answer)),
        code(guess, answer) <= ALL_EXACT,
        unpack(code(guess, answer), FIELDS as nat) == digits(guess, answer),
{
    let all = digits(guess, answer);
    lemma_pack_bound(all);
    lemma_pow3_value();
    lemma_unpack_pack(all);
}

/// An idiom compared with itself gives 2 for each feature that has a value
/// and 0 for each that has none.
pub proof fn lemma_self_comparison_digits(idiom: Seq<Seq<Seq<char>>>, p: int)
    requires
        0 <= p < FIELDS,
    ensures
        digits(idiom, idiom)[p] == if idiom[p / (FEATURES as int)][p % (FEATURES as int)].len()
            == 0 {
            0nat
        } else {
            2nat
        },
{
}

/// An idiom whose sixteen features all have a value, compared with itself,
/// gives the code `3^16 - 1`.
pub proof fn lemma_self_comparison(idiom: Seq<Seq<Seq<char>>>)
    requires
        forall|i: int, k: int|
            0 <= i < POSITIONS && 0 <= k < FEATURES ==> (#[trigger] idiom[i][k]).len() > 0,
    ensures
        code(idiom, idiom) == ALL_EXACT,
{
    let all = digits(idiom, idiom);
    assert forall|p: int| 0 <= p < all.len() implies #[trigger] all[p] == 2 by {
        assert(idiom[p / (FEATURES as int)][p % (FEATURES as int)].len() > 0);
    }
    lemma_pack_all_exact(all);
    lemma_pow3_value();
}

/// Unpacking gives as many digits as are asked for, each 0, 1 or 2.
pub proof fn lemma_unpack_ternary(code: nat, len: nat)
    ensures
        unpack(code, len).len() == len,
        ternary(unpack(code, len)),
    decreases len,
{
    if len > 0 {
        lemma_unpack_ternary(code / 3, (len - 1) as nat);
    }
}

/// The `len` low base-3 digits of `packed`, most significant first.
fn low_digits(packed: u32, len: usize) -> (fields: Vec<u32>)
    ensures
        fields.len() == len,
        forall|p: int|
            0 <= p < len ==> (#[trigger] fields[p]) == unpack(packed as nat, len as nat)[p],
    decreases len,
{
    if len == 0 {
        Vec::new()
    } else {
        let mut fields = low_digits(packed / 3, len - 1);
        fields.push(packed % 3);
        proof {
            lemma_unpack_ternary((packed / 3) as nat, (len - 1) as nat);
        }
        fields
    }
}

/// The sixteen digits of a feedback code, in the order of its fields.
pub fn decode(packed: u32) -> (fields: Vec<u32>)
    ensures
        fields.len() == FIELDS,
        forall|p: int|
            0 <= p < FIELDS ==> (#[trigger] fields[p]) == unpack(packed as nat, FIELDS as nat)[p],
        forall|p: int| 0 <= p < FIELDS ==> (#[trigger] fields[p]) <= 2,
{
    proof {
        lemma_unpack_ternary(packed as nat, FIELDS as nat);
    }
    low_digits(packed, FIELDS)
}

/// Why a feedback text was refused.
#[derive(Debug, Clone, Copy, PartialEq, Eq, Structural)]
pub enum FeedbackError {
    /// The text has more than sixteen characters.
    TooLong,
    /// The text holds a character other than `0`, `1`, `2` and the space.
    BadDigit,
}

/// The digit that a character of a feedback text stands for; a space stands
/// for 0.
pub open spec fn mark_digit(mark: char) -> Option<nat> {
    if mark == ' ' || mark == '0' {
        Some(0)
    } else if mark == '1' {
        Some(1)
    } else if mark == '2' {
        Some(2)
    } else {
        None
    }
}

/// Every character of the text stands for a digit.
pub open spec fn well_marked(text: Seq<char>) -> bool {
    forall|i: int| 0 <= i < text.len() ==> (#[trigger] mark_digit(text[i])).is_some()
}

/// The digits that the characters of a feedback text stand for.
pub open spec fn marks(text: Seq<char>) -> Seq<nat> {
    Seq::new(
        text.len(),
        |i: int|
            match mark_digit(text[i]) {
                Some(digit) => digit,
                None => 0,
            },
    )
}

/// The code that a feedback text of at most sixteen characters writes: its
/// digits, followed by 0 for each field that the text leaves out.
pub open spec fn feedback_value(text: Seq<char>) -> nat {
    pack(marks(text)) * pow3((FIELDS - text.len()) as nat)
}

/// Reads a feedback text: up to sixteen characters, each `0`, `1`, `2` or a
/// space, which counts as `0`; a shorter text is completed with zeros at its
/// end.
pub fn parse_feedback(text: &str) -> (parsed: Result<u32, FeedbackError>)
    ensures
        match parsed {
            Ok(value) => {
                &&& text@.len() <= FIELDS
                &&& well_marked(text@)
                &&& value == feedback_value(text@)
                &&& value <= ALL_EXACT
            },
            Err(FeedbackError::TooLong) => text@.len() > FIELDS,
            Err(FeedbackError::BadDigit) => text@.len() <= FIELDS && !well_marked(text@),
        },
{
    let len = text.unicode_len();
    if len > FIELDS {
        return Err(FeedbackError::TooLong);
    }
    let ghost all = marks(text@);
    let mut value: u32 = 0;
    let mut i: usize = 0;
    proof {
        lemma_pow3_monotonic(0, 16);
    }
    while i < len
        invariant
            i <= len <= FIELDS,
            len == text@.len(),
            all == marks(text@),
            forall|q: int| 0 <= q < i ==> (#[trigger] mark_digit(text@[q])).is_some(),
            value == pack(all.take(i as int)),
            value < pow3(i as nat),
            pow3(i as nat) <= pow3(16),
        decreases len - i,
    {
        let mark = text.get_char(i);
        let digit: u32 = if mark == ' ' || mark == '0' {
            0
        } else if mark == '1' {
            1
        } else if mark == '2' {
            2
        } else {
            return Err(FeedbackError::BadDigit);
        };
        proof {
            let next = all.take(i + 1);
            assert(next.drop_last() =~= all.take(i as int));
            lemma_pow3_value();
            lemma_pow3_monotonic((i + 1) as nat, 16);
        }
        value = value * 3 + digit;
        i += 1;
    }
    assert(all.take(len as int) =~= all);
    assert(value == pack(all) * pow3(0)) by (nonlinear_arith)
        requires
            value == pack(all),
            pow3(0) == 1,
    ;
    let mut filled: usize = len;
    while filled < FIELDS
        invariant
            len <= filled <= FIELDS,
            value == pack(all) * pow3((filled - len) as nat),
            pack(all) < pow3(len as nat),
            value < pow3(filled as nat),
        decreases FIELDS - filled,
    {
        proof {
            lemma_pow3_value();
            lemma_pow3_monotonic((filled + 1) as nat, 16);
            lemma_pow3_monotonic(filled as nat, 16);
            let base = pack(all);
            let scale = pow3((filled - len) as nat);
            assert(base * scale * 3 == base * (3 * scale)) by (nonlinear_arith);
        }
        value = value * 3;
        filled += 1;
    }
    proof {
        lemma_pow3_value();
    }
    Ok(value)
}

} // verus!
