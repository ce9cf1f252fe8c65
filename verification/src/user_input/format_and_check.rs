//! Formats and checks a raw line of user text against an expected length:
//! surrounding whitespace is trimmed, the length is checked first, every
//! character must be an ASCII letter, and the accepted guess is returned
//! upper-cased.

use vstd::prelude::*;
use vstd::string::StrSliceExecFns;
use vstd::string::StringExecFns;

use crate::text::dec_digits;
use crate::text::decimal_string;

verus! {

/// Represents the possible errors that can occur during user input.
#[derive(Debug, PartialEq, Eq)]
pub enum UserInputError {
    /// The input does not correspond to the defined length. (expected length, given length)
    UnexpectedLength(usize, usize),
    /// The input contains non-alphabetic characters. (not-alphabetic characters)
    NotAlphabetic(Vec<char>),
}

/// What the outside `Debug` rendering of a character produces: the character
/// between single quotes, special characters escaped.
pub uninterp spec fn debug_of(c: char) -> Seq<char>;

/// Relies on `char`'s `Debug` implementation, through `format!`: the quoted,
/// escaped rendering, a function of the character alone.
#[verifier::external_body]
fn char_debug(c: char) -> (r: String)
    ensures
        r@ == debug_of(c),
{
    format!("{c:?}")
}

/// The first `n` characters, each in its `Debug` rendering, separated by
/// commas.
pub open spec fn char_list_items(cs: Seq<char>, n: int) -> Seq<char>
    decreases n,
{
    if n <= 0 {
        Seq::empty()
    } else if n == 1 {
        debug_of(cs[0])
    } else {
        char_list_items(cs, n - 1) + ", "@ + debug_of(cs[n - 1])
    }
}

/// The characters, each in its `Debug` rendering, separated by commas,
/// between brackets — what the `Debug` rendering of the whole vector shows.
pub open spec fn char_list_display(cs: Seq<char>) -> Seq<char> {
    seq!['['] + char_list_items(cs, cs.len() as int) + seq![']']
}

impl UserInputError {
    /// The message that describes this error.
    pub open spec fn spec_message(self) -> Seq<char> {
        match self {
            UserInputError::UnexpectedLength(expected, given) => "Expected a string of "@
                + dec_digits(expected as nat) + " characters, got "@ + dec_digits(given as nat),
            UserInputError::NotAlphabetic(not_alphabetic_characters) =>
                "Some of given input is not an alphabetic character: "@ + char_list_display(
                not_alphabetic_characters@,
            ),
        }
    }

    /// Renders the message that describes this error.
    pub fn message(&self) -> (r: String)
        ensures
            r@ == self.spec_message(),
    {
        match self {
            UserInputError::UnexpectedLength(expected, given) => {
                let mut s = String::from_str("Expected a string of ");
                s.append(decimal_string(*expected).as_str());
                s.append(" characters, got ");
                s.append(decimal_string(*given).as_str());
                s
            },
            UserInputError::NotAlphabetic(not_alphabetic_characters) => {
                let ghost prefix = "Some of given input is not an alphabetic character: "@;
                let mut s = String::from_str(
                    "Some of given input is not an alphabetic character: ",
                );
                s.push('[');
                proof {
                    assert(s@ =~= prefix + seq!['['] + char_list_items(
                        not_alphabetic_characters@,
                        0,
                    ));
                }
                let n = not_alphabetic_characters.len();
                for i in 0..n
                    invariant
                        n == not_alphabetic_characters@.len(),
                        s@ == prefix + seq!['['] + char_list_items(
                            not_alphabetic_characters@,
                            i as int,
                        ),
                {
                    if i > 0 {
                        s.append(", ");
                    }
                    s.append(char_debug(not_alphabetic_characters[i]).as_str());
                    proof {
                        let cs = not_alphabetic_characters@;
                        if i == 0 {
                            assert(s@ =~= prefix + seq!['['] + char_list_items(cs, 1));
                        } else {
                            assert(s@ =~= prefix + seq!['['] + (char_list_items(cs, i as int)
                                + ", "@ + debug_of(cs[i as int])));
                        }
                    }
                }
                s.push(']');
                proof {
                    assert(s@ =~= prefix + char_list_display(not_alphabetic_characters@));
                }
                s
            },
        }
    }
}

/// Whether `c` has the Unicode white-space property, the set of characters
/// that trimming removes.
pub open spec fn is_unicode_whitespace(c: char) -> bool {
    let u = c as u32;
    (0x09 <= u && u <= 0x0D) || u == 0x20 || u == 0x85 || u == 0xA0 || u == 0x1680 || (0x2000 <= u
        && u <= 0x200A) || u == 0x2028 || u == 0x2029 || u == 0x202F || u == 0x205F || u == 0x3000
}

fn is_whitespace_char(c: char) -> (b: bool)
    ensures
        b == is_unicode_whitespace(c),
{
    let u = c as u32;
    (0x09 <= u && u <= 0x0D) || u == 0x20 || u == 0x85 || u == 0xA0 || u == 0x1680 || (0x2000 <= u
        && u <= 0x200A) || u == 0x2028 || u == 0x2029 || u == 0x202F || u == 0x205F || u == 0x3000
}

/// Whether `c` is an ASCII letter.
pub open spec fn is_ascii_alpha(c: char) -> bool {
    let u = c as u32;
    (0x41 <= u && u <= 0x5A) || (0x61 <= u && u <= 0x7A)
}

fn is_ascii_alphabetic_char(c: char) -> (b: bool)
    ensures
        b == is_ascii_alpha(c),
{
    let u = c as u32;
    (0x41 <= u && u <= 0x5A) || (0x61 <= u && u <= 0x7A)
}

/// `c` with an ASCII lowercase letter turned into its uppercase counterpart;
/// any other character is left as it is.
pub open spec fn to_upper_ascii(c: char) -> char {
    let u = c as u32;
    if 0x61 <= u && u <= 0x7A {
        (((u - 0x20) as u8) as char)
    } else {
        c
    }
}

fn to_upper_ascii_char(c: char) -> (r: char)
    ensures
        r == to_upper_ascii(c),
{
    let u = c as u32;
    if 0x61 <= u && u <= 0x7A {
        ((u - 0x20) as u8) as char
    } else {
        c
    }
}

/// `s` upper-cased character by character, ASCII letters only.
pub open spec fn upper_ascii(s: Seq<char>) -> Seq<char> {
    Seq::new(s.len(), |i: int| to_upper_ascii(s[i]))
}

/// `s` without its leading run of whitespace.
pub open spec fn drop_leading_ws(s: Seq<char>) -> Seq<char>
    decreases s.len(),
{
    if s.len() == 0 {
        s
    } else if is_unicode_whitespace(s[0]) {
        drop_leading_ws(s.drop_first())
    } else {
        s
    }
}

/// `s` without its trailing run of whitespace.
pub open spec fn drop_trailing_ws(s: Seq<char>) -> Seq<char>
    decreases s.len(),
{
    if s.len() == 0 {
        s
    } else if is_unicode_whitespace(s.last()) {
        drop_trailing_ws(s.drop_last())
    } else {
        s
    }
}

/// `s` with leading and trailing whitespace removed.
pub open spec fn trimmed(s: Seq<char>) -> Seq<char> {
    drop_trailing_ws(drop_leading_ws(s))
}

proof fn lemma_drop_leading(s: Seq<char>, k: int)
    requires
        0 <= k <= s.len(),
        forall|j: int| 0 <= j < k ==> is_unicode_whitespace(s[j]),
        k < s.len() ==> !is_unicode_whitespace(s[k]),
    ensures
        drop_leading_ws(s) =~= s.subrange(k, s.len() as int),
    decreases k,
{
    if k == 0 {
        assert(drop_leading_ws(s) =~= s.subrange(0, s.len() as int));
    } else {
        assert(is_unicode_whitespace(s[0]));
        let rest = s.drop_first();
        assert(forall|j: int| 0 <= j < k - 1 ==> is_unicode_whitespace(rest[j]));
        lemma_drop_leading(rest, k - 1);
        assert(rest.subrange(k - 1, rest.len() as int) =~= s.subrange(k, s.len() as int));
    }
}

proof fn lemma_drop_trailing(s: Seq<char>, k: int)
    requires
        0 <= k <= s.len(),
        forall|j: int| k <= j < s.len() ==> is_unicode_whitespace(s[j]),
        k > 0 ==> !is_unicode_whitespace(s[k - 1]),
    ensures
        drop_trailing_ws(s) =~= s.subrange(0, k),
    decreases s.len(),
{
    if k == s.len() {
        if s.len() == 0 {
        } else {
            assert(!is_unicode_whitespace(s.last()));
        }
        assert(drop_trailing_ws(s) =~= s.subrange(0, k));
    } else {
        assert(is_unicode_whitespace(s.last()));
        let rest = s.drop_last();
        assert(forall|j: int| k <= j < rest.len() ==> is_unicode_whitespace(rest[j]));
        lemma_drop_trailing(rest, k);
        assert(rest.subrange(0, k) =~= s.subrange(0, k));
    }
}

/// `s` with leading and trailing whitespace removed.
pub fn trim_str(s: &str) -> (r: &str)
    ensures
        r@ == trimmed(s@),
{
    let n = s.unicode_len();
    let mut start: usize = 0;
    while start < n && is_whitespace_char(s.get_char(start))
        invariant
            n == s@.len(),
            0 <= start <= n,
            forall|j: int| 0 <= j < start ==> is_unicode_whitespace(s@[j]),
        decreases n - start,
    {
        start = start + 1;
    }
    proof {
        lemma_drop_leading(s@, start as int);
    }
    let ghost mid = s@.subrange(start as int, s@.len() as int);
    let mut end: usize = n;
    while end > start && is_whitespace_char(s.get_char(end - 1))
        invariant
            n == s@.len(),
            start <= end <= n,
            start < s@.len() ==> !is_unicode_whitespace(s@[start as int]),
            forall|j: int| end <= j < n ==> is_unicode_whitespace(s@[j]),
        decreases end,
    {
        end = end - 1;
    }
    proof {
        assert(forall|j: int|
            end - start <= j < mid.len() ==> is_unicode_whitespace(#[trigger] mid[j]));
        if end > start {
            assert(!is_unicode_whitespace(mid[end - start - 1]));
        }
        lemma_drop_trailing(mid, end - start);
        assert(mid.subrange(0, end - start) =~= s@.subrange(start as int, end as int));
    }
    s.substring_char(start, end)
}

/// The characters among the first `n` of `s` that are not ASCII letters, in
/// order of appearance.
pub open spec fn offending_upto(s: Seq<char>, n: int) -> Seq<char>
    decreases n,
{
    if n <= 0 {
        Seq::empty()
    } else {
        offending_upto(s, n - 1) + (if !is_ascii_alpha(s[n - 1]) {
            seq![s[n - 1]]
        } else {
            Seq::<char>::empty()
        })
    }
}

/// The characters of `s` that are not ASCII letters, in order of appearance.
pub open spec fn offending(s: Seq<char>) -> Seq<char> {
    offending_upto(s, s.len() as int)
}

/// No character of the first `n` is offending exactly when they are all
/// ASCII letters.
proof fn lemma_offending_empty_iff_all_alpha(s: Seq<char>, n: int)
    requires
        0 <= n <= s.len(),
    ensures
        offending_upto(s, n).len() == 0 <==> (forall|j: int| 0 <= j < n ==> is_ascii_alpha(s[j])),
    decreases n,
{
    if n > 0 {
        lemma_offending_empty_iff_all_alpha(s, n - 1);
    }
}

/// Formats and checks the input string for validity.
/// Returns the formatted string if it is valid, or an error otherwise.
///
/// The input is trimmed of surrounding whitespace; its length is checked
/// against `expected_length` first, then every remaining character must be an
/// ASCII letter, all offenders being reported together; an accepted guess is
/// returned upper-cased.
pub fn input_string(input_str: &str, expected_length: usize) -> (r: Result<String, UserInputError>)
    ensures
        ({
            let t = trimmed(input_str@);
            match r {
                Ok(s) => t.len() == expected_length && offending(t).len() == 0 && s@ == upper_ascii(
                    t,
                ),
                Err(UserInputError::UnexpectedLength(e, a)) => t.len() != expected_length && e
                    == expected_length && a == t.len(),
                Err(UserInputError::NotAlphabetic(v)) => t.len() == expected_length && offending(
                    t,
                ).len() > 0 && v@ == offending(t),
            }
        }),
{
    let ghost t = trimmed(input_str@);
    let trimmed_input_str = trim_str(input_str);
    let trimmed_input_length = trimmed_input_str.unicode_len();

    let mut not_alphabetic_characters: Vec<char> = Vec::new();
    for i in 0..trimmed_input_length
        invariant
            trimmed_input_str@ == t,
            trimmed_input_length == t.len(),
            not_alphabetic_characters@ == offending_upto(t, i as int),
    {
        let c = trimmed_input_str.get_char(i);
        if !is_ascii_alphabetic_char(c) {
            not_alphabetic_characters.push(c);
        }
        proof {
            assert(not_alphabetic_characters@ =~= offending_upto(t, i + 1));
        }
    }
    if trimmed_input_length != expected_length {
        Err(UserInputError::UnexpectedLength(expected_length, trimmed_input_length))
    } else if not_alphabetic_characters.len() > 0 {
        Err(UserInputError::NotAlphabetic(not_alphabetic_characters))
    } else {
        let mut upper = String::new();
        for i in 0..trimmed_input_length
            invariant
                trimmed_input_str@ == t,
                trimmed_input_length == t.len(),
                upper@.len() == i,
                forall|j: int| 0 <= j < i ==> upper@[j] == to_upper_ascii(t[j]),
        {
            let c = trimmed_input_str.get_char(i);
            upper.push(to_upper_ascii_char(c));
        }
        proof {
            assert(upper@ =~= upper_ascii(t));
        }
        Ok(upper)
    }
}

/// Re-validating a guess that validation has already accepted and normalised
/// succeeds with the very same word: the normalised guess has the expected
/// length, is free of whitespace to trim and of non-alphabetic characters,
/// and upper-casing it again changes nothing.
pub proof fn lemma_validation_idempotent(s: Seq<char>, expected_length: usize)
    requires
        trimmed(s).len() == expected_length,
        offending(trimmed(s)).len() == 0,
    ensures
        ({
            let u = upper_ascii(trimmed(s));
            &&& trimmed(u) == u
            &&& u.len() == expected_length
            &&& offending(u).len() == 0
            &&& upper_ascii(u) == u
        }),
{
    let t = trimmed(s);
    let u = upper_ascii(t);
    lemma_offending_empty_iff_all_alpha(t, t.len() as int);
    assert(forall|i: int| 0 <= i < u.len() ==> is_ascii_alpha(#[trigger] u[i]));
    assert(forall|i: int| 0 <= i < u.len() ==> !is_unicode_whitespace(#[trigger] u[i]));
    if u.len() > 0 {
        assert(!is_unicode_whitespace(u[0]));
        assert(drop_leading_ws(u) == u);
        assert(!is_unicode_whitespace(u.last()));
        assert(drop_trailing_ws(u) == u);
    }
    assert(trimmed(u) == u);
    lemma_offending_empty_iff_all_alpha(u, u.len() as int);
    assert(upper_ascii(u) =~= u);
}

} // verus!
