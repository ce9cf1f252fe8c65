use wordlers::game_logic::analyze_guess;
use wordlers::game_logic::is_winning_guess;
use wordlers::game_logic::CharacterState;

#[test]
fn arise_erase_scores_with_shared_letter_budget() {
    let results = analyze_guess("ARISE", "ERASE");
    assert_eq!(
        results,
        vec![
            CharacterState::NotPresent('E'),
            CharacterState::Good('R'),
            CharacterState::Misplaced('A'),
            CharacterState::Good('S'),
            CharacterState::Good('E'),
        ]
    );
}

#[test]
fn eerie_alive_scores_single_misplaced() {
    let results = analyze_guess("EERIE", "ALIVE");
    assert_eq!(
        results,
        vec![
            CharacterState::NotPresent('A'),
            CharacterState::NotPresent('L'),
            CharacterState::Misplaced('I'),
            CharacterState::NotPresent('V'),
            CharacterState::Good('E'),
        ]
    );
}

#[test]
fn exact_guess_is_all_good_and_wins() {
    let results = analyze_guess("TESTS", "TESTS");
    assert_eq!(
        results,
        vec![
            CharacterState::Good('T'),
            CharacterState::Good('E'),
            CharacterState::Good('S'),
            CharacterState::Good('T'),
            CharacterState::Good('S'),
        ]
    );
    assert!(is_winning_guess(&results));
}

#[test]
fn wrong_guess_does_not_win() {
    let results = analyze_guess("ARISE", "ERASE");
    assert!(!is_winning_guess(&results));
}

#[test]
fn no_position_is_left_untried() {
    for guess in ["AAAAA", "ZZZZZ", "EERIE", "RAISE"] {
        let results = analyze_guess("ARISE", guess);
        assert_eq!(results.len(), 5);
        for state in &results {
            assert!(!matches!(state, CharacterState::NotTried));
        }
    }
}

#[test]
fn good_exactly_at_matching_positions() {
    let target = "SASSY";
    let guess = "SOSSA";
    let results = analyze_guess(target, guess);
    for (i, (tc, gc)) in target.chars().zip(guess.chars()).enumerate() {
        let is_good = matches!(results[i], CharacterState::Good(_));
        assert_eq!(is_good, tc == gc);
    }
}

#[test]
fn repeated_letters_never_credited_beyond_target_count() {
    // One E in the target: only one of the five guessed E's gets any credit.
    let results = analyze_guess("ARISE", "EEEEE");
    assert_eq!(
        results,
        vec![
            CharacterState::NotPresent('E'),
            CharacterState::NotPresent('E'),
            CharacterState::NotPresent('E'),
            CharacterState::NotPresent('E'),
            CharacterState::Good('E'),
        ]
    );
    let credited = results
        .iter()
        .filter(|s| matches!(s, CharacterState::Good('E') | CharacterState::Misplaced('E')))
        .count();
    assert_eq!(credited, 1);
}

#[test]
fn earlier_position_wins_the_tie_for_remaining_credit() {
    // After the exact match at position two claims one O, a single unit of O
    // credit remains for the misplaced O's at positions one and three, and
    // the leftmost of them takes it.
    let results = analyze_guess("OXOXX", "XOOOX");
    assert_eq!(
        results,
        vec![
            CharacterState::Misplaced('X'),
            CharacterState::Misplaced('O'),
            CharacterState::Good('O'),
            CharacterState::NotPresent('O'),
            CharacterState::Good('X'),
        ]
    );
}

#[test]
fn empty_words_score_empty() {
    let results = analyze_guess("", "");
    assert!(results.is_empty());
    assert!(is_winning_guess(&results));
}
