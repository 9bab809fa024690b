use handle_bot_rust::feedback::{decode, feedback_code, parse_feedback, FeedbackError, ALL_EXACT};
use handle_bot_rust::format_radix;

fn idiom(rows: [[&str; 4]; 4]) -> Vec<Vec<String>> {
    rows.iter()
        .map(|row| row.iter().map(|field| field.to_string()).collect())
        .collect()
}

fn pack(digits: &[u32]) -> u32 {
    digits.iter().fold(0, |acc, d| acc * 3 + d)
}

#[test]
fn exact_partial_and_absent_features() {
    let guess = idiom([
        ["l", "i", "3", "A"],
        ["b", "eng", "1", "B"],
        ["y", "ve", "4", "C"],
        ["h", "uai", "4", "D"],
    ]);
    let answer = idiom([
        ["k", "uai", "4", "E"],
        ["k", "uai", "4", "E"],
        ["l", "e", "4", "C"],
        ["l", "e", "4", "C"],
    ]);
    let code = feedback_code(&guess, &answer);
    assert_eq!(
        decode(code),
        vec![1, 0, 0, 0, 0, 0, 0, 0, 0, 0, 2, 2, 0, 1, 2, 0]
    );
    assert_eq!(code, 14349570);
}

#[test]
fn exact_match_wins_over_a_match_elsewhere() {
    let guess = idiom([
        ["b", "a", "1", "X"],
        ["b", "a", "1", "X"],
        ["b", "a", "1", "X"],
        ["b", "a", "1", "X"],
    ]);
    let answer = idiom([
        ["b", "o", "2", "Y"],
        ["p", "a", "2", "Y"],
        ["p", "o", "1", "Y"],
        ["p", "o", "2", "X"],
    ]);
    assert_eq!(
        decode(feedback_code(&guess, &answer)),
        vec![2, 1, 1, 1, 1, 2, 1, 1, 1, 1, 2, 1, 1, 1, 1, 2]
    );
}

#[test]
fn own_position_does_not_count_as_elsewhere() {
    let guess = idiom([
        ["b", "a", "1", "X"],
        ["p", "o", "2", "Y"],
        ["m", "e", "3", "Z"],
        ["f", "i", "4", "W"],
    ]);
    let answer = idiom([
        ["p", "o", "2", "Y"],
        ["m", "e", "3", "Z"],
        ["f", "i", "4", "W"],
        ["b", "a", "1", "X"],
    ]);
    assert_eq!(decode(feedback_code(&guess, &answer)), vec![1; 16]);
    assert_eq!(feedback_code(&guess, &answer), (ALL_EXACT) / 2);
}

#[test]
fn empty_guess_feature_scores_nothing() {
    let guess = idiom([
        ["", "an", "", "X"],
        ["", "an", "", "X"],
        ["", "an", "", "X"],
        ["", "an", "", "X"],
    ]);
    let code = feedback_code(&guess, &guess);
    assert_eq!(
        decode(code),
        vec![0, 2, 0, 2, 0, 2, 0, 2, 0, 2, 0, 2, 0, 2, 0, 2]
    );
    let blank = idiom([["", "", "", ""]; 4]);
    assert_eq!(feedback_code(&blank, &blank), 0);
    assert_eq!(feedback_code(&blank, &guess), 0);
}

#[test]
fn full_features_against_themselves_give_all_exact() {
    let guess = idiom([
        ["j", "i", "1", "A"],
        ["q", "van", "3", "B"],
        ["b", "u", "4", "C"],
        ["n", "ing", "2", "D"],
    ]);
    assert_eq!(feedback_code(&guess, &guess), 43046720);
    assert_eq!(decode(43046720), vec![2; 16]);
}

#[test]
fn digits_round_trip_through_the_code() {
    let guess = idiom([
        ["b", "u", "4", "A"],
        ["zh", "i", "1", "B"],
        ["s", "uo", "3", "C"],
        ["y", "vn", "2", "D"],
    ]);
    let answer = idiom([
        ["j", "i", "1", "E"],
        ["q", "van", "3", "F"],
        ["b", "u", "4", "A"],
        ["n", "ing", "2", "G"],
    ]);
    let code = feedback_code(&guess, &answer);
    assert_eq!(code, 21336621);
    let digits = decode(code);
    assert!(digits.iter().all(|d| *d <= 2));
    assert_eq!(digits, vec![1, 1, 1, 1, 0, 1, 1, 0, 0, 0, 1, 0, 0, 0, 2, 0]);
    assert_eq!(pack(&digits), code);
}

#[test]
fn feedback_text_of_sixteen_digits() {
    assert_eq!(parse_feedback("0010111100200010"), Ok(1857252));
    assert_eq!(
        parse_feedback("0010111100200010"),
        Ok(pack(&[0, 0, 1, 0, 1, 1, 1, 1, 0, 0, 2, 0, 0, 0, 1, 0]))
    );
    assert_eq!(parse_feedback("2222222222222222"), Ok(43046720));
    assert_eq!(parse_feedback("0000000000000000"), Ok(0));
    assert_eq!(parse_feedback("0000000000000001"), Ok(1));
}

#[test]
fn space_counts_as_zero() {
    assert_eq!(
        parse_feedback("  1 1111  2   1 "),
        parse_feedback("0010111100200010")
    );
    assert_eq!(parse_feedback("                "), Ok(0));
}

#[test]
fn short_feedback_is_completed_with_zeros() {
    assert_eq!(parse_feedback(""), Ok(0));
    assert_eq!(parse_feedback("1"), Ok(14348907));
    assert_eq!(parse_feedback("2"), Ok(28697814));
    assert_eq!(parse_feedback("12"), Ok(14348907 + 2 * 4782969));
    assert_eq!(parse_feedback("001011110020001"), parse_feedback("0010111100200010"));
    assert_eq!(parse_feedback("222222222222222"), Ok(43046720 - 2));
}

#[test]
fn long_feedback_is_refused() {
    assert_eq!(parse_feedback("00101111002000100"), Err(FeedbackError::TooLong));
    assert_eq!(parse_feedback("00000000000000003"), Err(FeedbackError::TooLong));
    assert_eq!(parse_feedback("                 "), Err(FeedbackError::TooLong));
}

#[test]
fn other_characters_are_refused() {
    assert_eq!(parse_feedback("3"), Err(FeedbackError::BadDigit));
    assert_eq!(parse_feedback("001011110020001x"), Err(FeedbackError::BadDigit));
    assert_eq!(parse_feedback("0010-11100200010"), Err(FeedbackError::BadDigit));
    assert_eq!(parse_feedback("９"), Err(FeedbackError::BadDigit));
}

#[test]
fn radix_three_writes_the_digits() {
    assert_eq!(format_radix(21336621, 3), "1111011000100020");
    assert_eq!(format_radix(43046720, 3), "2222222222222222");
    assert_eq!(format_radix(14349570, 3), "1000000000220120");
    assert_eq!(format_radix(0, 3), "0");
    assert_eq!(format_radix(2, 3), "2");
    assert_eq!(format_radix(3, 3), "10");
}

#[test]
fn radix_bounds_and_letters() {
    assert_eq!(format_radix(5, 2), "101");
    assert_eq!(format_radix(u32::MAX, 2), "11111111111111111111111111111111");
    assert_eq!(format_radix(255, 16), "ff");
    assert_eq!(format_radix(u32::MAX, 16), "ffffffff");
    assert_eq!(format_radix(35, 36), "z");
    assert_eq!(format_radix(36, 36), "10");
    assert_eq!(format_radix(u32::MAX, 36), "1z141z3");
    assert_eq!(format_radix(1234567890, 10), "1234567890");
}

#[test]
fn radix_text_reads_back_as_feedback() {
    let code = 21336621;
    assert_eq!(parse_feedback(format_radix(code, 3).as_str()), Ok(code));
}

#[test]
fn code_is_decoded_into_sixteen_digits() {
    assert_eq!(decode(0), vec![0; 16]);
    assert_eq!(decode(1), vec![0, 0, 0, 0, 0, 0, 0, 0, 0, 0, 0, 0, 0, 0, 0, 1]);
    assert_eq!(decode(14348907), vec![1, 0, 0, 0, 0, 0, 0, 0, 0, 0, 0, 0, 0, 0, 0, 0]);
    assert_eq!(
        decode(1857252),
        vec![0, 0, 1, 0, 1, 1, 1, 1, 0, 0, 2, 0, 0, 0, 1, 0]
    );
    assert_eq!(decode(43046720), vec![2; 16]);
    assert_eq!(decode(43046721), vec![0; 16]);
    for code in [0, 5, 21336621, 14349570, 43046720] {
        assert_eq!(pack(&decode(code)), code);
    }
}
