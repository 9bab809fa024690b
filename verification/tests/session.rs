use handle_bot_rust::bot::{Bot, GuessError, TOP};
use handle_bot_rust::handle_pinyin::HandlePinyin;

fn lexicon() -> Vec<String> {
    [
        "不知所云",
        "礼崩乐坏",
        "鸡犬不宁",
        "快快乐乐",
        "雄鸡断尾",
        "鸡犬不留",
        "不三不四",
        "颜丹鬓绿",
        "安居乐业",
        "一心一意",
        "半斤八两",
        "我行我素",
    ]
    .iter()
    .map(|idiom| idiom.to_string())
    .collect()
}

fn resolver() -> HandlePinyin {
    HandlePinyin::new(vec![(
        "礼崩乐坏".to_string(),
        "li3 beng1 yue4 huai4".to_string(),
    )])
}

fn entropy(counts: &[(u32, u32)], total: u32) -> f64 {
    let mut e = 0.0;
    for (_, count) in counts {
        let p = *count as f64 / total as f64;
        e += p * (-f64::log2(p));
    }
    e
}

fn scores(bot: &Bot) -> Vec<u64> {
    let (_, remaining) = bot.status();
    (0..bot.all_idioms().len())
        .map(|i| {
            let mut e = entropy(&bot.feedback_counts(i), remaining as u32);
            if bot.is_possible_answer(i) {
                e += 1.0 + 1e-5;
            }
            e.to_bits()
        })
        .collect()
}

#[test]
pub fn test_bot() {
    let mut bot = Bot::new(lexicon(), resolver());
    bot.user_hint("不".to_string());
    bot.user_guess("雄鸡断尾".to_string(), "0010111100200010".to_string())
        .unwrap();
    let answer_candidates: Vec<String> = bot.answer_candidates();

    assert_eq!(answer_candidates, vec!["鸡犬不宁", "鸡犬不留"]);

    assert_eq!(
        bot.bot_candidates(&scores(&bot))
            .into_iter()
            .take(2)
            .map(|(s, _)| s)
            .collect::<Vec<_>>(),
        vec!["鸡犬不宁", "鸡犬不留"]
    );
}

#[test]
fn new_session_holds_every_idiom() {
    let bot = Bot::new(lexicon(), resolver());
    assert_eq!(bot.status(), (0, 12));
    assert_eq!(bot.round(), 0);
    assert_eq!(bot.answer_candidates(), lexicon());
    assert_eq!(*bot.all_idioms(), lexicon());
    assert!((0..12).all(|i| bot.is_possible_answer(i)));
    assert!(!bot.is_possible_answer(12));
}

#[test]
fn table_holds_the_code_of_each_pair() {
    let bot = Bot::new(lexicon(), resolver());
    let cells = bot.feedback_cells();
    let idioms = lexicon();
    assert_eq!(cells.len(), 144);
    assert_eq!(cells[0 * 12 + 2], 21336621);
    assert_eq!(cells[1 * 12 + 3], 14349570);
    assert_eq!(cells[2 * 12 + 2], 43046720);
    for i in 0..12 {
        for j in 0..12 {
            assert_eq!(
                cells[i * 12 + j],
                bot.pinyin().diff(idioms[i].clone(), idioms[j].clone())
            );
        }
    }
}

#[test]
fn hint_keeps_idioms_with_the_character() {
    let mut bot = Bot::new(lexicon(), resolver());
    bot.user_hint("不".to_string());
    assert_eq!(
        bot.answer_candidates(),
        vec!["不知所云", "鸡犬不宁", "鸡犬不留", "不三不四"]
    );
    assert_eq!(bot.status(), (0, 4));
    bot.user_hint("鸡".to_string());
    assert_eq!(bot.answer_candidates(), vec!["鸡犬不宁", "鸡犬不留"]);
    bot.user_hint("鸡犬".to_string());
    assert_eq!(bot.status(), (0, 2));
    bot.user_hint("犬鸡".to_string());
    assert_eq!(bot.status(), (0, 0));
}

#[test]
fn guess_from_the_lexicon_narrows_by_the_table() {
    let mut bot = Bot::new(lexicon(), resolver());
    assert_eq!(
        bot.user_guess("雄鸡断尾".to_string(), "0010111100200010".to_string()),
        Ok(())
    );
    assert_eq!(bot.answer_candidates(), vec!["鸡犬不宁", "鸡犬不留"]);
    assert_eq!(bot.status(), (1, 2));
    assert_eq!(
        bot.user_guess("鸡犬不留".to_string(), "2222222222220020".to_string()),
        Ok(())
    );
    assert_eq!(bot.answer_candidates(), vec!["鸡犬不宁"]);
    assert_eq!(bot.status(), (2, 1));
}

#[test]
fn guess_outside_the_lexicon_is_compared_afresh() {
    let mut bot = Bot::new(lexicon(), resolver());
    assert!(!lexicon().contains(&"鸡飞狗跳".to_string()));
    assert_eq!(
        bot.pinyin()
            .diff("鸡飞狗跳".to_string(), "鸡犬不宁".to_string()),
        42535209
    );
    assert_eq!(
        bot.user_guess("鸡飞狗跳".to_string(), "2222  1   1   1 ".to_string()),
        Ok(())
    );
    assert_eq!(bot.answer_candidates(), vec!["鸡犬不宁", "鸡犬不留"]);
    assert_eq!(bot.status(), (1, 2));
    assert_eq!(
        bot.user_guess("鸡飞狗跳".to_string(), "2222001000100011".to_string()),
        Ok(())
    );
    assert_eq!(bot.status(), (2, 0));
}

#[test]
fn narrowing_never_adds_a_candidate() {
    let mut bot = Bot::new(lexicon(), resolver());
    let mut before = bot.answer_candidates();
    let steps = [
        ("不知所云", "0000000000000000"),
        ("一心一意", "0100"),
        ("快快乐乐", ""),
        ("半斤八两", "2222222222222222"),
    ];
    for (guess, feedback) in steps {
        assert_eq!(bot.user_guess(guess.to_string(), feedback.to_string()), Ok(()));
        let after = bot.answer_candidates();
        assert!(after.len() <= before.len());
        assert!(after.iter().all(|idiom| before.contains(idiom)));
        before = after;
    }
    assert_eq!(bot.status(), (4, 0));
}

#[test]
fn restart_brings_every_idiom_back() {
    let mut bot = Bot::new(lexicon(), resolver());
    bot.user_hint("不".to_string());
    bot.user_guess("雄鸡断尾".to_string(), "0010111100200010".to_string())
        .unwrap();
    assert_eq!(bot.status(), (1, 2));
    bot.restart();
    assert_eq!(bot.status(), (0, 12));
    assert_eq!(bot.answer_candidates(), lexicon());
}

#[test]
fn guess_of_another_length_is_refused() {
    let mut bot = Bot::new(lexicon(), resolver());
    bot.user_hint("不".to_string());
    for guess in ["", "不", "雄鸡断", "雄鸡断尾尾"] {
        assert_eq!(
            bot.user_guess(guess.to_string(), "0010111100200010".to_string()),
            Err(GuessError::GuessLength)
        );
        assert_eq!(bot.status(), (0, 4));
    }
    assert_eq!(
        bot.user_guess("雄鸡断".to_string(), "00101111002000100".to_string()),
        Err(GuessError::GuessLength)
    );
}

#[test]
fn feedback_of_another_form_is_refused() {
    let mut bot = Bot::new(lexicon(), resolver());
    bot.user_hint("不".to_string());
    assert_eq!(
        bot.user_guess("雄鸡断尾".to_string(), "00101111002000100".to_string()),
        Err(GuessError::FeedbackLength)
    );
    assert_eq!(
        bot.user_guess("雄鸡断尾".to_string(), "0010111100200013".to_string()),
        Err(GuessError::FeedbackDigit)
    );
    assert_eq!(
        bot.user_guess("雄鸡断尾".to_string(), "001011110020001300".to_string()),
        Err(GuessError::FeedbackLength)
    );
    assert_eq!(bot.status(), (0, 4));
    assert_eq!(
        bot.answer_candidates(),
        vec!["不知所云", "鸡犬不宁", "鸡犬不留", "不三不四"]
    );
}

#[test]
fn counts_split_the_candidates_by_code() {
    let mut bot = Bot::new(lexicon(), resolver());
    let whole = bot.feedback_counts(4);
    assert_eq!(whole.iter().map(|(_, count)| *count).sum::<u32>(), 12);
    assert!(whole.contains(&(1857252, 2)));
    assert!(whole.contains(&(43046720, 1)));
    bot.user_hint("不".to_string());
    bot.user_guess("雄鸡断尾".to_string(), "0010111100200010".to_string())
        .unwrap();
    assert_eq!(bot.feedback_counts(4), vec![(1857252, 2)]);
    assert_eq!(bot.feedback_counts(2), vec![(43046720, 1), (43046646, 1)]);
    assert_eq!(entropy(&bot.feedback_counts(2), 2), 1.0);
    assert_eq!(entropy(&bot.feedback_counts(4), 2), 0.0);
}

#[test]
fn recommendations_are_few_and_descend() {
    let mut bot = Bot::new(lexicon(), resolver());
    let picks = bot.bot_candidates(&scores(&bot));
    assert_eq!(picks.len(), TOP);
    assert!(picks.windows(2).all(|pair| pair[0].1 >= pair[1].1));
    bot.user_hint("不".to_string());
    let picks = bot.bot_candidates(&scores(&bot));
    assert_eq!(picks.len(), 10);
    assert!(picks.windows(2).all(|pair| pair[0].1 >= pair[1].1));
    let small = Bot::new(lexicon().into_iter().take(3).collect(), resolver());
    assert_eq!(small.bot_candidates(&vec![7, 9, 8]).len(), 3);
}

#[test]
fn recommendations_follow_the_scores() {
    let bot = Bot::new(lexicon().into_iter().take(4).collect(), resolver());
    assert_eq!(
        bot.bot_candidates(&vec![5, 9, 5, 7]),
        vec![
            ("礼崩乐坏".to_string(), 9),
            ("快快乐乐".to_string(), 7),
            ("不知所云".to_string(), 5),
            ("鸡犬不宁".to_string(), 5),
        ]
    );
}

#[test]
fn table_can_be_taken_from_cells() {
    let mut bot = Bot::new(lexicon().into_iter().take(3).collect(), resolver());
    let computed = bot.feedback_cells();
    assert!(!bot.load_feedback_map(&vec![0; 8]));
    assert!(!bot.load_feedback_map(&vec![0; 10]));
    assert_eq!(bot.feedback_cells(), computed);
    let cells: Vec<u32> = (1..=9).collect();
    assert!(bot.load_feedback_map(&cells));
    assert_eq!(bot.feedback_cells(), cells);
    assert_eq!(bot.feedback_counts(1), vec![(4, 1), (5, 1), (6, 1)]);
    assert_eq!(
        bot.user_guess("礼崩乐坏".to_string(), "0000000000000012".to_string()),
        Ok(())
    );
    assert_eq!(bot.answer_candidates(), vec!["礼崩乐坏"]);
    bot.build_feedback_map();
    assert_eq!(bot.feedback_cells(), computed);
}

#[test]
fn rebuilding_computes_every_cell() {
    let mut bot = Bot::new(lexicon().into_iter().take(3).collect(), resolver());
    let computed = bot.feedback_cells();
    assert!(bot.load_feedback_map(&vec![7; 9]));
    bot.user_hint("乐".to_string());
    assert_eq!(bot.answer_candidates(), vec!["礼崩乐坏"]);
    bot.build_feedback_map();
    assert_eq!(bot.feedback_cells(), computed);
    assert_eq!(bot.answer_candidates(), vec!["礼崩乐坏"]);
    assert_eq!(bot.status(), (0, 1));
    let idioms = lexicon();
    for i in 0..3 {
        for j in 0..3 {
            assert_eq!(
                bot.feedback_at(i, j),
                bot.pinyin().diff(idioms[i].clone(), idioms[j].clone())
            );
        }
    }
}

#[test]
fn low_score_at_the_end_is_not_recommended() {
    let bot = Bot::new(lexicon(), resolver());
    let idioms = lexicon();
    let mut scores = vec![5; 11];
    scores.push(0);
    let picks = bot.bot_candidates(&scores);
    assert_eq!(picks.len(), 10);
    for (k, (idiom, score)) in picks.iter().enumerate() {
        assert_eq!(*idiom, idioms[k]);
        assert_eq!(*score, 5);
    }
    let mut scores = vec![0];
    scores.extend(vec![5; 11]);
    let picks = bot.bot_candidates(&scores);
    for (k, (idiom, score)) in picks.iter().enumerate() {
        assert_eq!(*idiom, idioms[k + 1]);
        assert_eq!(*score, 5);
    }
}

#[test]
fn empty_lexicon_is_a_session_too() {
    let mut bot = Bot::new(Vec::new(), resolver());
    assert_eq!(bot.status(), (0, 0));
    assert_eq!(
        bot.user_guess("雄鸡断尾".to_string(), "0".to_string()),
        Ok(())
    );
    assert_eq!(bot.status(), (1, 0));
    assert!(bot.load_feedback_map(&Vec::new()));
}

#[test]
fn narrowing_by_code_and_by_text_agree() {
    let mut by_code = Bot::new(lexicon(), resolver());
    let mut by_text = Bot::new(lexicon(), resolver());
    by_code.narrow_by_guess(&"雄鸡断尾".to_string(), 1857252);
    by_text
        .user_guess("雄鸡断尾".to_string(), "0010111100200010".to_string())
        .unwrap();
    assert_eq!(by_code.answer_candidates(), by_text.answer_candidates());
    assert_eq!(by_code.answer_candidates(), vec!["鸡犬不宁", "鸡犬不留"]);
    assert_eq!(by_code.status(), (1, 2));
    by_code.narrow_by_guess(&"鸡飞狗跳".to_string(), 42535209);
    assert_eq!(by_code.status(), (2, 2));
    by_code.narrow_by_guess(&"鸡犬不留".to_string(), 43046720);
    assert_eq!(by_code.answer_candidates(), vec!["鸡犬不留"]);
    assert_eq!(by_code.status(), (3, 1));
}

#[test]
fn cell_of_the_table_by_guess_and_answer() {
    let bot = Bot::new(lexicon(), resolver());
    assert_eq!(bot.feedback_at(0, 2), 21336621);
    assert_eq!(bot.feedback_at(2, 0), 6400221);
    assert_eq!(bot.feedback_at(1, 3), 14349570);
    assert_eq!(bot.feedback_at(4, 2), 1857252);
    assert_eq!(bot.feedback_at(4, 5), 1857252);
    assert_eq!(bot.feedback_at(5, 5), 43046720);
}

#[test]
fn table_from_cells_makes_a_session() {
    let idioms: Vec<String> = lexicon().into_iter().take(2).collect();
    assert!(Bot::with_feedback_map(idioms.clone(), resolver(), &vec![1, 2, 3]).is_none());
    assert!(Bot::with_feedback_map(idioms.clone(), resolver(), &Vec::new()).is_none());
    let bot = Bot::with_feedback_map(idioms.clone(), resolver(), &vec![1, 2, 3, 4]).unwrap();
    assert_eq!(bot.status(), (0, 2));
    assert_eq!(bot.feedback_cells(), vec![1, 2, 3, 4]);
    assert_eq!(bot.feedback_at(0, 1), 2);
    assert_eq!(bot.feedback_at(1, 0), 3);
    assert_eq!(bot.answer_candidates(), idioms);
    let computed = Bot::new(idioms.clone(), resolver()).feedback_cells();
    let again = Bot::with_feedback_map(idioms, resolver(), &computed).unwrap();
    assert_eq!(again.feedback_cells(), computed);
}
