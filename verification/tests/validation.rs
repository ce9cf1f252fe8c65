use wordlers::user_input::format_and_check::input_string;
use wordlers::user_input::format_and_check::UserInputError;

#[test]
fn trims_and_uppercases_valid_input() {
    let result = input_string("  tests\n", 5);
    assert_eq!(result.unwrap(), "TESTS");
}

#[test]
fn reports_all_non_alphabetic_characters() {
    let result = input_string("abc12", 5);
    match result {
        Err(UserInputError::NotAlphabetic(offenders)) => {
            assert_eq!(offenders, vec!['1', '2']);
        }
        other => panic!("expected NotAlphabetic, got {other:?}"),
    }
}

#[test]
fn wrong_length_is_reported_with_both_lengths() {
    let result = input_string("abcd", 5);
    match result {
        Err(UserInputError::UnexpectedLength(expected, given)) => {
            assert_eq!(expected, 5);
            assert_eq!(given, 4);
        }
        other => panic!("expected UnexpectedLength, got {other:?}"),
    }
}

#[test]
fn length_is_checked_before_alphabetic_content() {
    // Wrong length and non-alphabetic at once: the length error wins.
    let result = input_string("ab1", 5);
    assert!(matches!(
        result,
        Err(UserInputError::UnexpectedLength(5, 3))
    ));
}

#[test]
fn validation_is_idempotent_on_its_own_output() {
    let once = input_string(" guess\t", 5).unwrap();
    assert_eq!(once, "GUESS");
    let twice = input_string(&once, 5).unwrap();
    assert_eq!(twice, once);
}

#[test]
fn empty_input_against_zero_length_is_accepted() {
    let result = input_string("   \n", 0);
    assert_eq!(result.unwrap(), "");
}

#[test]
fn non_ascii_whitespace_is_trimmed_too() {
    let result = input_string("\u{a0}\u{2003}abcde\u{3000}\r\n", 5);
    assert_eq!(result.unwrap(), "ABCDE");
}

#[test]
fn unexpected_length_message_shows_both_numbers() {
    let err = UserInputError::UnexpectedLength(5, 17);
    assert_eq!(err.message(), "Expected a string of 5 characters, got 17");
}

#[test]
fn not_alphabetic_message_lists_the_offenders() {
    let err = UserInputError::NotAlphabetic(vec!['1', '2']);
    assert_eq!(
        err.message(),
        "Some of given input is not an alphabetic character: ['1', '2']"
    );
}

#[test]
fn not_alphabetic_message_escapes_like_debug() {
    // A tab is escaped; a double quote is not — exactly as `{:?}` shows them.
    let err = UserInputError::NotAlphabetic(vec!['\t', '"']);
    assert_eq!(
        err.message(),
        "Some of given input is not an alphabetic character: ['\\t', '\"']"
    );
    assert_eq!(
        err.message(),
        format!(
            "Some of given input is not an alphabetic character: {:?}",
            vec!['\t', '"']
        )
    );
}

#[test]
fn tab_inside_the_guess_is_an_escaped_offender() {
    let err = input_string("ab\tcd", 5).unwrap_err();
    assert_eq!(
        err.message(),
        "Some of given input is not an alphabetic character: ['\\t']"
    );
}
