//! Decision logic of the interactive guess loop: what one turn does with the
//! line that was read (or with a failed read), and how many read failures are
//! tolerated before the game aborts. The surrounding program performs the
//! actual reading and rendering and feeds each outcome back in.

use vstd::prelude::*;
use vstd::string::StrSliceExecFns;
use vstd::string::StringExecFns;

use crate::game_logic::CharacterState;
use crate::game_logic::analysis;
use crate::game_logic::analyze_guess;
use crate::text::dec_digits;
use crate::text::decimal_string;
use crate::user_input::format_and_check::UserInputError;
use crate::user_input::format_and_check::input_string;
use crate::user_input::format_and_check::offending;
use crate::user_input::format_and_check::trimmed;
use crate::user_input::format_and_check::upper_ascii;

verus! {

/// Maximum number of failed reads tolerated while asking for one guess.
pub const MAX_IOERROR_TRIES: usize = 5;

/// Represents the possible errors that can occur during a guess iteration.
#[derive(Clone, Copy, Debug, PartialEq, Eq, Structural)]
pub enum GuessIterationError {
    /// There have been too many read failures (defined by [`MAX_IOERROR_TRIES`])
    /// while reading user input.
    TooManyIOErrorIteration,
}

impl GuessIterationError {
    /// The message that describes this error.
    pub open spec fn spec_message(self) -> Seq<char> {
        "More than "@ + dec_digits(MAX_IOERROR_TRIES as nat) + " occurred."@
    }

    /// Renders the message that describes this error.
    pub fn message(&self) -> (r: String)
        ensures
            r@ == self.spec_message(),
    {
        let mut s = String::from_str("More than ");
        s.append(decimal_string(MAX_IOERROR_TRIES).as_str());
        s.append(" occurred.");
        s
    }
}

/// What one turn of the guess loop decided, given the line that was read
/// (or that reading failed) and how many reads have failed so far.
pub enum GuessStepOutcome {
    /// The line was a valid guess; here is its scored verdict sequence.
    Scored(Vec<CharacterState>),
    /// The line was rejected by validation; report the error and ask again,
    /// without consuming a try.
    RetryInvalidInput(UserInputError),
    /// Reading failed; ask again, with the updated failure count.
    RetryAfterIOFailure(usize),
    /// Reading failed too often; the whole game aborts.
    Abort(GuessIterationError),
}

/// Takes the result of one attempted read of user input and decides how the
/// guess loop goes on: a readable line is validated against the target's
/// length and, when accepted, scored against the target; a failed read is
/// retried until the failure budget is exhausted, which aborts the game.
pub fn guess_iteration_step(guess_word: &str, read_line: Option<&str>, io_failures: usize) -> (r:
    GuessStepOutcome)
    requires
        io_failures < MAX_IOERROR_TRIES,
    ensures
        match r {
            GuessStepOutcome::Scored(results) => read_line matches Some(line) && {
                let t = trimmed(line@);
                &&& t.len() == guess_word@.len()
                &&& offending(t).len() == 0
                &&& results@ == analysis(guess_word@, upper_ascii(t))
            },
            GuessStepOutcome::RetryInvalidInput(e) => read_line matches Some(line) && {
                let t = trimmed(line@);
                match e {
                    UserInputError::UnexpectedLength(exp, act) => t.len() != guess_word@.len()
                        && exp == guess_word@.len() && act == t.len(),
                    UserInputError::NotAlphabetic(v) => t.len() == guess_word@.len() && offending(
                        t,
                    ).len() > 0 && v@ == offending(t),
                }
            },
            GuessStepOutcome::RetryAfterIOFailure(n) => read_line is None && io_failures + 1
                < MAX_IOERROR_TRIES && n == io_failures + 1,
            GuessStepOutcome::Abort(e) => read_line is None && io_failures + 1
                == MAX_IOERROR_TRIES && e == GuessIterationError::TooManyIOErrorIteration,
        },
{
    match read_line {
        None => {
            let next_failures = io_failures + 1;
            if next_failures < MAX_IOERROR_TRIES {
                GuessStepOutcome::RetryAfterIOFailure(next_failures)
            } else {
                GuessStepOutcome::Abort(GuessIterationError::TooManyIOErrorIteration)
            }
        },
        Some(user_input_str) => {
            match input_string(user_input_str, guess_word.unicode_len()) {
                Ok(trimmed_uppercased_input) => {
                    GuessStepOutcome::Scored(
                        analyze_guess(guess_word, trimmed_uppercased_input.as_str()),
                    )
                },
                Err(err) => GuessStepOutcome::RetryInvalidInput(err),
            }
        },
    }
}

} // verus!
