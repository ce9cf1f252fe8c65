use wordlers::cli::guess_iteration_step;
use wordlers::cli::GuessIterationError;
use wordlers::cli::GuessStepOutcome;
use wordlers::cli::MAX_IOERROR_TRIES;
use wordlers::game_logic::is_winning_guess;
use wordlers::game_logic::CharacterState;
use wordlers::user_input::format_and_check::UserInputError;

#[test]
fn valid_line_is_scored_against_the_target() {
    let outcome = guess_iteration_step("TESTS", Some("  tests\n"), 0);
    match outcome {
        GuessStepOutcome::Scored(results) => {
            assert_eq!(
                results,
                vec![
                    CharacterState::Good('T'),
                    CharacterState::Good('E'),
                    CharacterState::Good('S'),
                    CharacterState::Good('T'),
                    CharacterState::Good('S'),
                ]
            );
            assert!(is_winning_guess(&results));
        }
        _ => panic!("expected the guess to be scored"),
    }
}

#[test]
fn invalid_line_is_retried_without_scoring() {
    let outcome = guess_iteration_step("TESTS", Some("abc\n"), 0);
    match outcome {
        GuessStepOutcome::RetryInvalidInput(UserInputError::UnexpectedLength(expected, given)) => {
            assert_eq!(expected, 5);
            assert_eq!(given, 3);
        }
        _ => panic!("expected a validation retry"),
    }
}

#[test]
fn non_alphabetic_line_reports_every_offender() {
    let outcome = guess_iteration_step("TESTS", Some("abc12"), 0);
    match outcome {
        GuessStepOutcome::RetryInvalidInput(UserInputError::NotAlphabetic(offenders)) => {
            assert_eq!(offenders, vec!['1', '2']);
        }
        _ => panic!("expected a validation retry"),
    }
}

#[test]
fn failed_read_increments_the_failure_count() {
    let outcome = guess_iteration_step("TESTS", None, 0);
    match outcome {
        GuessStepOutcome::RetryAfterIOFailure(failures) => assert_eq!(failures, 1),
        _ => panic!("expected a read retry"),
    }
}

#[test]
fn exhausted_failure_budget_aborts_the_game() {
    let mut failures = 0;
    loop {
        match guess_iteration_step("TESTS", None, failures) {
            GuessStepOutcome::RetryAfterIOFailure(updated) => {
                assert_eq!(updated, failures + 1);
                failures = updated;
            }
            GuessStepOutcome::Abort(GuessIterationError::TooManyIOErrorIteration) => {
                assert_eq!(failures, MAX_IOERROR_TRIES - 1);
                break;
            }
            _ => panic!("reading never succeeds here"),
        }
    }
}

#[test]
fn too_many_failures_message_names_the_budget() {
    let err = GuessIterationError::TooManyIOErrorIteration;
    assert_eq!(err.message(), "More than 5 occurred.");
}
