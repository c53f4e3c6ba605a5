use wordle::{Word, WordleError, WordlePosition, WordleStatus};

fn w(text: &str) -> Word {
    Word::new(text).unwrap()
}

fn no_greens() -> [Option<char>; 5] {
    [None, None, None, None, None]
}

#[test]
fn word_rejects_short_text() {
    assert_eq!(Word::new("abcd").unwrap_err(), WordleError::InvalidWordFormat);
}

#[test]
fn word_rejects_long_text() {
    assert_eq!(Word::new("abcdef").unwrap_err(), WordleError::InvalidWordFormat);
}

#[test]
fn word_rejects_bad_characters() {
    assert_eq!(Word::new("abc1e").unwrap_err(), WordleError::InvalidWordFormat);
    assert_eq!(Word::new("Abcde").unwrap_err(), WordleError::InvalidWordFormat);
    assert_eq!(Word::new("ab de").unwrap_err(), WordleError::InvalidWordFormat);
}

#[test]
fn word_accepts_five_lowercase_letters() {
    let word = w("stank");
    assert_eq!(word.to_string(), "stank");
    assert_eq!(word.letter_at(0), 's');
    assert_eq!(word.letter_at(4), 'k');
    assert!(word.contains_letter('t'));
    assert!(!word.contains_letter('z'));
}

#[test]
fn parse_word_list_rejects_malformed_line() {
    let lines = vec!["stank".to_string(), "abcd".to_string(), "blank".to_string()];
    assert_eq!(
        wordle::parse_word_list(&lines).unwrap_err(),
        WordleError::InvalidWordFormat
    );
}

#[test]
fn parse_word_list_keeps_order() {
    let lines = vec!["stank".to_string(), "blank".to_string()];
    let words = wordle::parse_word_list(&lines).unwrap();
    assert_eq!(words.len(), 2);
    assert_eq!(words[0].to_string(), "stank");
    assert_eq!(words[1].to_string(), "blank");
}

#[test]
fn position_constraint_operations() {
    let full = WordlePosition::new();
    assert!(full.contains('a'));
    assert!(full.contains('z'));
    assert!(!full.contains('A'));
    let only_q = full.restrict_to_single('q');
    assert!(only_q.contains('q'));
    assert!(!only_q.contains('a'));
    let without_b = full.exclude('b');
    assert!(!without_b.contains('b'));
    assert!(without_b.contains('a'));
    assert!(!without_b.exclude('b').contains('b'));
}

#[test]
fn fresh_status_admits_any_word() {
    let status = WordleStatus::new();
    assert!(status.word_matches(&w("stank")));
    assert!(status.word_matches(&w("zzzzz")));
}

// The accumulated-feedback scenario: yellows 'a' at position 2, 't','n' at
// position 3, 't' at position 4; greys r, o, e, c, l, i.
fn feedback_status() -> WordleStatus {
    WordleStatus::with_data(
        no_greens(),
        [vec![], vec![], vec!['a'], vec!['t', 'n'], vec!['t']],
        vec!['r', 'o', 'e', 'c', 'l', 'i'],
    )
}

#[test]
fn feedback_scenario_rejects_misplaced_yellow() {
    // "stank" has 'a' exactly at position 2, where the yellow ruled it out.
    assert!(!feedback_status().word_matches(&w("stank")));
}

#[test]
fn feedback_scenario_admits_consistent_word() {
    // "tanks" carries a, t and n, avoids every grey letter, and puts no
    // yellow letter back at its excluded position.
    assert!(feedback_status().word_matches(&w("tanks")));
}

#[test]
fn feedback_scenario_rejects_grey_letter() {
    assert!(!feedback_status().word_matches(&w("taken")));
}

#[test]
fn feedback_scenario_rejects_missing_must_letter() {
    // "thank" misses nothing; "thumb" misses 'a' and 'n'.
    assert!(!feedback_status().word_matches(&w("thumb")));
}

#[test]
fn green_feedback_pins_a_position() {
    let status = WordleStatus::with_data(
        [Some('c'), None, None, None, None],
        [vec![], vec![], vec![], vec![], vec![]],
        vec![],
    );
    assert!(status.word_matches(&w("crane")));
    assert!(!status.word_matches(&w("brane")));
}

#[test]
fn filter_keeps_order_and_consistency() {
    let status = feedback_status();
    let answers = vec![w("stank"), w("tanks"), w("blank"), w("aunts")];
    // "blank" lacks 't'; "aunts" has 't' at position 3, ruled out there.
    let possible = status.get_possible_answers(&answers);
    let shown: Vec<String> = possible.iter().map(|x| x.to_string()).collect();
    assert_eq!(shown, vec!["tanks".to_string()]);
}

#[test]
fn filter_of_fresh_status_keeps_everything() {
    let status = WordleStatus::new();
    let answers = vec![w("stank"), w("blank"), w("tanks")];
    let possible = status.get_possible_answers(&answers);
    let shown: Vec<String> = possible.iter().map(|x| x.to_string()).collect();
    assert_eq!(
        shown,
        vec!["stank".to_string(), "blank".to_string(), "tanks".to_string()]
    );
}

#[test]
fn derived_status_admits_its_answer() {
    let status = WordleStatus::new();
    let pairs = [
        ("crane", "stank"),
        ("aaaaa", "stank"),
        ("stank", "stank"),
        ("kayak", "tanks"),
    ];
    for (guess, answer) in pairs {
        let post = status.guess_word(&w(guess), &w(answer));
        assert!(post.word_matches(&w(answer)));
    }
}

#[test]
fn derived_status_admits_answer_on_top_of_feedback() {
    let status = feedback_status();
    let post = status.guess_word(&w("dandy"), &w("tanks"));
    assert!(post.word_matches(&w("tanks")));
}

#[test]
fn derived_candidates_only_shrink() {
    let status = feedback_status();
    let answers = vec![w("stank"), w("tanks"), w("thank"), w("manky")];
    let before = status.get_possible_answers(&answers);
    let post = status.guess_word(&w("manky"), &w("tanks"));
    let after = post.get_possible_answers(&answers);
    let before_shown: Vec<String> = before.iter().map(|x| x.to_string()).collect();
    for word in after {
        assert!(before_shown.contains(&word.to_string()));
    }
}

#[test]
fn deriving_twice_gives_equal_states() {
    let status = feedback_status();
    let first = status.guess_word(&w("crane"), &w("tanks"));
    let second = status.guess_word(&w("crane"), &w("tanks"));
    assert!(first.equals(&second));
}

#[test]
fn different_feedback_gives_different_states() {
    let status = WordleStatus::new();
    let first = status.guess_word(&w("crane"), &w("tanks"));
    assert!(!first.equals(&status));
}

#[test]
fn shortcut_returns_first_of_two_candidates() {
    let status = feedback_status();
    let guesses = vec![w("crane"), w("slate")];
    let answers = vec![w("stank"), w("tanks"), w("blank")];
    // Only "tanks" survives the feedback, so fewer than three candidates
    // remain and the first of them comes back unscored.
    let best = status.best_guess(&guesses, &answers).unwrap();
    assert!(!best.scored);
    assert_eq!(best.word.to_string(), "tanks");
    assert_eq!(best.num_possible, 1);
    assert!(best.per_guess_costs.is_empty());
}

#[test]
fn shortcut_with_two_candidates_returns_first() {
    let status = WordleStatus::new();
    let guesses = vec![w("crane")];
    let answers = vec![w("stank"), w("blank")];
    let best = status.best_guess(&guesses, &answers).unwrap();
    assert!(!best.scored);
    assert_eq!(best.word.to_string(), "stank");
    assert_eq!(best.num_possible, 2);
}

#[test]
fn scoring_prefers_fully_separating_guess() {
    let status = WordleStatus::new();
    let guesses = vec![w("aaaaa"), w("abcde")];
    let answers = vec![w("aaaaa"), w("bbbbb"), w("ccccc")];
    let best = status.best_guess(&guesses, &answers).unwrap();
    assert!(best.scored);
    assert_eq!(best.num_possible, 3);
    // "aaaaa" leaves one candidate against itself and two against each
    // other answer: cost (1-1) + (2-1) + (2-1) = 2. "abcde" tells the three
    // answers apart completely: cost 0, the unique minimum, so it wins.
    assert_eq!(best.per_guess_costs, vec![2, 0]);
    assert_eq!(best.best_index, 1);
    assert_eq!(best.total_cost, 0);
    assert_eq!(best.word.to_string(), "abcde");
}

#[test]
fn scoring_breaks_ties_by_first_occurrence() {
    let status = WordleStatus::new();
    // Two guesses with identical feedback patterns against every answer
    // score the same; the earlier one must win.
    let guesses = vec![w("xyzzy"), w("yzxxz"), w("abcde")];
    let answers = vec![w("aaaaa"), w("bbbbb"), w("ccccc")];
    let best = status.best_guess(&guesses, &answers).unwrap();
    assert!(best.scored);
    assert_eq!(best.per_guess_costs, vec![6, 6, 0]);
    assert_eq!(best.best_index, 2);
    let tied = status.best_guess(&vec![w("xyzzy"), w("yzxxz")], &answers).unwrap();
    assert_eq!(tied.best_index, 0);
    assert_eq!(tied.word.to_string(), "xyzzy");
}

#[test]
fn best_guess_is_deterministic() {
    let status = feedback_status();
    let guesses = vec![w("aaaaa"), w("abcde"), w("tanks")];
    let answers = vec![
        w("tanka"),
        w("tanks"),
        w("tangy"),
        w("manky"),
        w("thank"),
    ];
    let first = status.best_guess(&guesses, &answers).unwrap();
    let second = status.best_guess(&guesses, &answers).unwrap();
    assert_eq!(first.word.to_string(), second.word.to_string());
    assert_eq!(first.scored, second.scored);
    assert_eq!(first.best_index, second.best_index);
    assert_eq!(first.total_cost, second.total_cost);
    assert_eq!(first.per_guess_costs, second.per_guess_costs);
}

#[test]
fn excluding_every_letter_leaves_no_candidates() {
    let all: Vec<char> = ('a'..='z').collect();
    let status = WordleStatus::with_data(
        no_greens(),
        [vec![], vec![], vec![], vec![], vec![]],
        all,
    );
    let guesses = vec![w("crane")];
    let answers = vec![w("stank"), w("blank"), w("tanks")];
    assert!(status.get_possible_answers(&answers).is_empty());
    assert_eq!(
        status.best_guess(&guesses, &answers).unwrap_err(),
        WordleError::NoCandidates
    );
}

#[test]
fn empty_answer_list_reports_no_candidates() {
    let status = WordleStatus::new();
    let guesses = vec![w("crane")];
    let answers: Vec<Word> = Vec::new();
    assert_eq!(
        status.best_guess(&guesses, &answers).unwrap_err(),
        WordleError::NoCandidates
    );
}
