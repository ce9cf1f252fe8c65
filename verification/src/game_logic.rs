//! Guess scoring: each position of a guess is compared with the target word
//! and receives a verdict, with duplicate letters sharing a single
//! per-character credit budget derived from the target's character counts.

use vstd::prelude::*;
use vstd::string::StrSliceExecFns;

verus! {

/// Represents the state of a character in the guess word.
#[derive(Clone, Copy, Debug, PartialEq, Eq, Structural)]
pub enum CharacterState {
    /// The character has not been tried yet.
    NotTried,
    /// The character is not in the word.
    NotPresent(char),
    /// The character is in the word but not at this place.
    Misplaced(char),
    /// The character is correctly placed.
    Good(char),
}

/// How many of the first `n` characters of `s` equal `c`.
pub open spec fn occ_upto(s: Seq<char>, c: char, n: int) -> nat
    decreases n,
{
    if n <= 0 {
        0
    } else {
        occ_upto(s, c, n - 1) + (if s[n - 1] == c {
            1nat
        } else {
            0nat
        })
    }
}

/// How many characters of `s` equal `c`.
pub open spec fn occurrences(s: Seq<char>, c: char) -> nat {
    occ_upto(s, c, s.len() as int)
}

/// How many of the first `n` positions are exact matches on the character `c`.
pub open spec fn exact_upto(t: Seq<char>, g: Seq<char>, c: char, n: int) -> nat
    decreases n,
{
    if n <= 0 {
        0
    } else {
        exact_upto(t, g, c, n - 1) + (if t[n - 1] == g[n - 1] && g[n - 1] == c {
            1nat
        } else {
            0nat
        })
    }
}

/// How many positions of the guess are exact matches on the character `c`.
pub open spec fn exact_matches(t: Seq<char>, g: Seq<char>, c: char) -> nat {
    exact_upto(t, g, c, t.len() as int)
}

/// How many of the first `n` positions are misplaced occurrences of the
/// character `c`.
pub open spec fn misplaced_upto(t: Seq<char>, g: Seq<char>, c: char, n: int) -> nat
    decreases n, 0int,
{
    if n <= 0 {
        0
    } else {
        misplaced_upto(t, g, c, n - 1) + (if g[n - 1] == c && position_misplaced(t, g, n - 1) {
            1nat
        } else {
            0nat
        })
    }
}

/// Whether position `i` is scored as misplaced: no exact match there, and the
/// budget for its guess character is not yet exhausted by the exact matches
/// and by the misplaced positions to its left.
pub open spec fn position_misplaced(t: Seq<char>, g: Seq<char>, i: int) -> bool
    decreases i, 1int,
{
    &&& t[i] != g[i]
    &&& exact_matches(t, g, g[i]) + misplaced_upto(t, g, g[i], i) < occurrences(t, g[i])
}

/// The verdict for position `i` of the guess `g` against the target `t`.
pub open spec fn verdict_at(t: Seq<char>, g: Seq<char>, i: int) -> CharacterState {
    if t[i] == g[i] {
        CharacterState::Good(g[i])
    } else if position_misplaced(t, g, i) {
        CharacterState::Misplaced(g[i])
    } else {
        CharacterState::NotPresent(g[i])
    }
}

/// The full verdict sequence for the guess `g` against the target `t`.
pub open spec fn analysis(t: Seq<char>, g: Seq<char>) -> Seq<CharacterState> {
    Seq::new(t.len(), |i: int| verdict_at(t, g, i))
}

proof fn lemma_occ_upto_le(s: Seq<char>, c: char, n: int)
    requires
        0 <= n,
    ensures
        occ_upto(s, c, n) <= n,
    decreases n,
{
    if n > 0 {
        lemma_occ_upto_le(s, c, n - 1);
    }
}

proof fn lemma_occ_upto_mono(s: Seq<char>, c: char, m: int, n: int)
    requires
        m <= n,
    ensures
        occ_upto(s, c, m) <= occ_upto(s, c, n),
    decreases n - m,
{
    if m < n {
        lemma_occ_upto_mono(s, c, m, n - 1);
    }
}

proof fn lemma_exact_le_occ(t: Seq<char>, g: Seq<char>, c: char, n: int)
    ensures
        exact_upto(t, g, c, n) <= occ_upto(t, c, n),
    decreases n,
{
    if n > 0 {
        lemma_exact_le_occ(t, g, c, n - 1);
    }
}

/// The exact matches of the whole guess together with the misplaced positions
/// of any prefix never claim more occurrences of `c` than the target holds.
proof fn lemma_budget_upto(t: Seq<char>, g: Seq<char>, c: char, n: int)
    requires
        0 <= n,
    ensures
        exact_matches(t, g, c) + misplaced_upto(t, g, c, n) <= occurrences(t, c),
    decreases n,
{
    if n == 0 {
        lemma_exact_le_occ(t, g, c, t.len() as int);
        lemma_occ_upto_le(t, c, t.len() as int);
    } else {
        lemma_budget_upto(t, g, c, n - 1);
        if g[n - 1] == c && position_misplaced(t, g, n - 1) {
            assert(exact_matches(t, g, c) + misplaced_upto(t, g, c, n - 1) < occurrences(t, c));
            assert(misplaced_upto(t, g, c, n) == misplaced_upto(t, g, c, n - 1) + 1);
        } else {
            assert(misplaced_upto(t, g, c, n) == misplaced_upto(t, g, c, n - 1));
        }
    }
}

/// A per-character frequency table: how many occurrences of each character of
/// the target word are still available as credit.
struct CharCounts {
    chars: Vec<char>,
    counts: Vec<usize>,
}

impl CharCounts {
    spec fn wf(self) -> bool {
        &&& self.counts@.len() == self.chars@.len()
        &&& forall|i: int, j: int|
            0 <= i < j < self.chars@.len() ==> self.chars@[i] != self.chars@[j]
    }

    spec fn has_char(self, c: char) -> bool {
        exists|i: int| 0 <= i < self.chars@.len() && self.chars@[i] == c
    }

    spec fn key_index(self, c: char) -> int {
        choose|i: int| 0 <= i < self.chars@.len() && self.chars@[i] == c
    }

    spec fn spec_count(self, c: char) -> nat {
        if self.has_char(c) {
            self.counts@[self.key_index(c)] as nat
        } else {
            0
        }
    }

    proof fn lemma_at_index(self, idx: int)
        requires
            self.wf(),
            0 <= idx < self.chars@.len(),
        ensures
            self.has_char(self.chars@[idx]),
            self.key_index(self.chars@[idx]) == idx,
            self.spec_count(self.chars@[idx]) == self.counts@[idx],
    {
        let c = self.chars@[idx];
        assert(self.has_char(c));
        let i = self.key_index(c);
        assert(0 <= i < self.chars@.len() && self.chars@[i] == c);
        if i < idx {
            assert(self.chars@[i] != self.chars@[idx]);
        } else if idx < i {
            assert(self.chars@[idx] != self.chars@[i]);
        }
    }

    /// The available count for `c`, zero when `c` is not in the table.
    fn count(&self, c: char) -> (r: usize)
        requires
            self.wf(),
        ensures
            r == self.spec_count(c),
    {
        let n = self.chars.len();
        for i in 0..n
            invariant
                self.wf(),
                n == self.chars@.len(),
                forall|j: int| 0 <= j < i ==> self.chars@[j] != c,
        {
            if self.chars[i] == c {
                proof {
                    self.lemma_at_index(i as int);
                }
                return self.counts[i];
            }
        }
        assert(!self.has_char(c));
        0
    }

    /// Takes one unit of credit for `c`, leaving every other count unchanged.
    fn decrement(&mut self, c: char)
        requires
            old(self).wf(),
            old(self).spec_count(c) > 0,
        ensures
            final(self).wf(),
            final(self).spec_count(c) + 1 == old(self).spec_count(c),
            forall|d: char| d != c ==> final(self).spec_count(d) == old(self).spec_count(d),
    {
        let n = self.chars.len();
        for i in 0..n
            invariant
                self.wf(),
                *self == *old(self),
                old(self).spec_count(c) > 0,
                n == self.chars@.len(),
                forall|j: int| 0 <= j < i ==> self.chars@[j] != c,
        {
            if self.chars[i] == c {
                proof {
                    self.lemma_at_index(i as int);
                }
                let cur = self.counts[i];
                self.counts[i] = cur - 1;
                proof {
                    self.lemma_at_index(i as int);
                    assert forall|d: char| d != c implies self.spec_count(d) == old(
                        self,
                    ).spec_count(d) by {
                        Self::lemma_same_chars_other_count(*old(self), *self, d, i as int);
                    }
                }
                return;
            }
        }
        proof {
            assert(!self.has_char(c));
            assert(false);
        }
    }

    /// When two well-formed tables share their character vector and their
    /// counts differ only at `idx`, every character other than the one at
    /// `idx` keeps its count.
    proof fn lemma_same_chars_other_count(a: CharCounts, b: CharCounts, d: char, idx: int)
        requires
            a.wf(),
            b.wf(),
            a.chars@ == b.chars@,
            a.counts@.len() == b.counts@.len(),
            0 <= idx < a.chars@.len(),
            forall|j: int| 0 <= j < a.counts@.len() && j != idx ==> a.counts@[j] == b.counts@[j],
            d != a.chars@[idx],
        ensures
            a.spec_count(d) == b.spec_count(d),
    {
        assert(a.has_char(d) == b.has_char(d));
        if a.has_char(d) {
            let j = a.key_index(d);
            assert(0 <= j < a.chars@.len() && a.chars@[j] == d);
            a.lemma_at_index(j);
            b.lemma_at_index(j);
            assert(j != idx);
        }
    }

    /// Adds one occurrence of `c`, inserting it when it is not yet present.
    fn bump(&mut self, c: char)
        requires
            old(self).wf(),
            old(self).spec_count(c) < usize::MAX,
        ensures
            final(self).wf(),
            final(self).spec_count(c) == old(self).spec_count(c) + 1,
            forall|d: char| d != c ==> final(self).spec_count(d) == old(self).spec_count(d),
    {
        let n = self.chars.len();
        for i in 0..n
            invariant
                self.wf(),
                *self == *old(self),
                n == self.chars@.len(),
                old(self).spec_count(c) < usize::MAX,
                forall|j: int| 0 <= j < i ==> self.chars@[j] != c,
        {
            if self.chars[i] == c {
                proof {
                    self.lemma_at_index(i as int);
                }
                let cur = self.counts[i];
                self.counts[i] = cur + 1;
                proof {
                    self.lemma_at_index(i as int);
                    assert forall|d: char| d != c implies self.spec_count(d) == old(
                        self,
                    ).spec_count(d) by {
                        Self::lemma_same_chars_other_count(*old(self), *self, d, i as int);
                    }
                }
                return;
            }
        }
        assert(!self.has_char(c));
        let ghost prev = *self;
        self.chars.push(c);
        self.counts.push(1);
        proof {
            let len = prev.chars@.len() as int;
            assert forall|i: int, j: int|
                0 <= i < j < self.chars@.len() implies self.chars@[i] != self.chars@[j] by {
                if j < len {
                    assert(prev.chars@[i] != prev.chars@[j]);
                } else {
                    assert(self.chars@[j] == c);
                    assert(prev.chars@[i] != c);
                }
            }
            self.lemma_at_index(len);
            assert(self.spec_count(c) == 1);
            assert(prev.spec_count(c) == 0);
            assert forall|d: char| d != c implies self.spec_count(d) == prev.spec_count(d) by {
                assert(self.has_char(d) == prev.has_char(d)) by {
                    if self.has_char(d) {
                        let j = self.key_index(d);
                        assert(0 <= j < self.chars@.len() && self.chars@[j] == d);
                        assert(j != len);
                        assert(prev.chars@[j] == d);
                    }
                    if prev.has_char(d) {
                        let j = prev.key_index(d);
                        assert(0 <= j < prev.chars@.len() && prev.chars@[j] == d);
                        assert(self.chars@[j] == d);
                    }
                }
                if prev.has_char(d) {
                    let j = prev.key_index(d);
                    assert(0 <= j < prev.chars@.len() && prev.chars@[j] == d);
                    prev.lemma_at_index(j);
                    self.lemma_at_index(j);
                }
            }
        }
    }

    /// The frequency table of the characters of `word`.
    fn from_word(word: &str) -> (r: CharCounts)
        ensures
            r.wf(),
            forall|c: char| #[trigger] r.spec_count(c) == occurrences(word@, c),
    {
        let mut r = CharCounts { chars: Vec::new(), counts: Vec::new() };
        let n = word.unicode_len();
        assert forall|c: char| r.spec_count(c) == occ_upto(word@, c, 0) by {
            assert(!r.has_char(c));
        }
        for i in 0..n
            invariant
                r.wf(),
                n == word@.len(),
                forall|c: char| #[trigger] r.spec_count(c) == occ_upto(word@, c, i as int),
        {
            let c = word.get_char(i);
            proof {
                lemma_occ_upto_le(word@, c, i as int);
            }
            r.bump(c);
            assert forall|d: char| r.spec_count(d) == occ_upto(word@, d, i + 1) by {
                if d == c {
                    assert(occ_upto(word@, d, i + 1) == occ_upto(word@, d, i as int) + 1);
                } else {
                    assert(occ_upto(word@, d, i + 1) == occ_upto(word@, d, i as int));
                }
            }
        }
        r
    }
}

/// Checks for perfect characters in the guess word and updates the character
/// counts: each position where target and guess agree is marked
/// [`CharacterState::Good`] and claims one unit of that character's credit;
/// every other position is left [`CharacterState::NotTried`].
fn mark_perfect_characters(
    guess_word: &str,
    guess_string: &str,
    char_counts: &mut CharCounts,
) -> (results: Vec<CharacterState>)
    requires
        guess_word@.len() == guess_string@.len(),
        old(char_counts).wf(),
        forall|c: char| #[trigger]
            old(char_counts).spec_count(c) == occurrences(guess_word@, c),
    ensures
        final(char_counts).wf(),
        results@.len() == guess_word@.len(),
        forall|i: int|
            0 <= i < guess_word@.len() ==> results@[i] == (if guess_word@[i] == guess_string@[i] {
                CharacterState::Good(guess_word@[i])
            } else {
                CharacterState::NotTried
            }),
        forall|c: char| #[trigger]
            final(char_counts).spec_count(c) + exact_matches(guess_word@, guess_string@, c)
                == occurrences(guess_word@, c),
{
    let ghost t = guess_word@;
    let ghost g = guess_string@;
    let mut results: Vec<CharacterState> = Vec::new();
    let n = guess_word.unicode_len();
    for i in 0..n
        invariant
            n == t.len(),
            t.len() == g.len(),
            t == guess_word@,
            g == guess_string@,
            char_counts.wf(),
            results@.len() == i,
            forall|j: int|
                0 <= j < i ==> results@[j] == (if t[j] == g[j] {
                    CharacterState::Good(t[j])
                } else {
                    CharacterState::NotTried
                }),
            forall|c: char| #[trigger]
                char_counts.spec_count(c) + exact_upto(t, g, c, i as int) == occurrences(t, c),
    {
        let char1 = guess_word.get_char(i);
        let char2 = guess_string.get_char(i);
        if char1 == char2 {
            results.push(CharacterState::Good(char1));
            proof {
                lemma_exact_le_occ(t, g, char1, i + 1);
                lemma_occ_upto_mono(t, char1, i + 1, t.len() as int);
                assert(exact_upto(t, g, char1, i + 1) == exact_upto(t, g, char1, i as int) + 1);
            }
            char_counts.decrement(char1);
            assert forall|c: char|
                char_counts.spec_count(c) + exact_upto(t, g, c, i + 1) == occurrences(t, c) by {
                if c != char1 {
                    assert(exact_upto(t, g, c, i + 1) == exact_upto(t, g, c, i as int));
                }
            }
        } else {
            results.push(CharacterState::NotTried);
            assert forall|c: char|
                char_counts.spec_count(c) + exact_upto(t, g, c, i + 1) == occurrences(t, c) by {
                assert(exact_upto(t, g, c, i + 1) == exact_upto(t, g, c, i as int));
            }
        }
    }
    results
}

/// Checks for misplaced characters in the guess word: every position not
/// already marked [`CharacterState::Good`] becomes
/// [`CharacterState::Misplaced`] when credit for its character remains,
/// and [`CharacterState::NotPresent`] otherwise, scanning left to right.
fn mark_misplaced_characters(
    guess_word: &str,
    guess_string: &str,
    char_counts: CharCounts,
    results: Vec<CharacterState>,
) -> (r: Vec<CharacterState>)
    requires
        guess_word@.len() == guess_string@.len(),
        results@.len() == guess_word@.len(),
        char_counts.wf(),
        forall|i: int|
            0 <= i < guess_word@.len() ==> results@[i] == (if guess_word@[i]
                == guess_string@[i] {
                CharacterState::Good(guess_word@[i])
            } else {
                CharacterState::NotTried
            }),
        forall|c: char| #[trigger]
            char_counts.spec_count(c) + exact_matches(guess_word@, guess_string@, c)
                == occurrences(guess_word@, c),
    ensures
        r@ == analysis(guess_word@, guess_string@),
{
    let ghost t = guess_word@;
    let ghost g = guess_string@;
    let mut char_counts = char_counts;
    let mut results = results;
    let n = guess_word.unicode_len();
    for i in 0..n
        invariant
            n == t.len(),
            t.len() == g.len(),
            t == guess_word@,
            g == guess_string@,
            char_counts.wf(),
            results@.len() == t.len(),
            forall|j: int| 0 <= j < i ==> results@[j] == verdict_at(t, g, j),
            forall|j: int|
                i <= j < t.len() ==> results@[j] == (if t[j] == g[j] {
                    CharacterState::Good(t[j])
                } else {
                    CharacterState::NotTried
                }),
            forall|c: char| #[trigger]
                char_counts.spec_count(c) + exact_matches(t, g, c) + misplaced_upto(t, g, c, i as int)
                    == occurrences(t, c),
    {
        let result_char_i = results[i];
        match result_char_i {
            CharacterState::Good(_) => {
                assert forall|c: char|
                    char_counts.spec_count(c) + exact_matches(t, g, c) + misplaced_upto(
                        t,
                        g,
                        c,
                        i + 1,
                    ) == occurrences(t, c) by {
                    assert(!position_misplaced(t, g, i as int));
                    assert(misplaced_upto(t, g, c, i + 1) == misplaced_upto(t, g, c, i as int));
                }
                assert(results@[i as int] == verdict_at(t, g, i as int));
            },
            _ => {
                let input_char = guess_string.get_char(i);
                let available = char_counts.count(input_char);
                if available > 0 {
                    proof {
                        assert(exact_matches(t, g, input_char) + misplaced_upto(
                            t,
                            g,
                            input_char,
                            i as int,
                        ) < occurrences(t, input_char));
                        assert(position_misplaced(t, g, i as int));
                    }
                    results[i] = CharacterState::Misplaced(input_char);
                    char_counts.decrement(input_char);
                    assert forall|c: char|
                        char_counts.spec_count(c) + exact_matches(t, g, c) + misplaced_upto(
                            t,
                            g,
                            c,
                            i + 1,
                        ) == occurrences(t, c) by {
                        if c == input_char {
                            assert(misplaced_upto(t, g, c, i + 1) == misplaced_upto(
                                t,
                                g,
                                c,
                                i as int,
                            ) + 1);
                        } else {
                            assert(misplaced_upto(t, g, c, i + 1) == misplaced_upto(
                                t,
                                g,
                                c,
                                i as int,
                            ));
                        }
                    }
                    assert(results@[i as int] == verdict_at(t, g, i as int));
                } else {
                    proof {
                        assert(occurrences(t, input_char) <= exact_matches(t, g, input_char)
                            + misplaced_upto(t, g, input_char, i as int));
                        assert(!position_misplaced(t, g, i as int));
                    }
                    results[i] = CharacterState::NotPresent(input_char);
                    assert forall|c: char|
                        char_counts.spec_count(c) + exact_matches(t, g, c) + misplaced_upto(
                            t,
                            g,
                            c,
                            i + 1,
                        ) == occurrences(t, c) by {
                        assert(misplaced_upto(t, g, c, i + 1) == misplaced_upto(
                            t,
                            g,
                            c,
                            i as int,
                        ));
                    }
                    assert(results@[i as int] == verdict_at(t, g, i as int));
                }
            },
        }
    }
    proof {
        assert(results@ =~= analysis(t, g));
    }
    results
}

/// Analyzes the user's guess and returns the results.
///
/// Builds the character frequency table of `guess_word`, marks the perfectly
/// placed characters first, and then distributes the remaining credit over
/// the misplaced ones, left to right.
#[must_use]
pub fn analyze_guess(guess_word: &str, preprocessed_try: &str) -> (results: Vec<CharacterState>)
    requires
        guess_word@.len() == preprocessed_try@.len(),
    ensures
        results@ == analysis(guess_word@, preprocessed_try@),
{
    let mut char_counts = CharCounts::from_word(guess_word);
    let results = mark_perfect_characters(guess_word, preprocessed_try, &mut char_counts);
    mark_misplaced_characters(guess_word, preprocessed_try, char_counts, results)
}

/// After scoring, every position holds one of the three final verdicts —
/// correctly placed, misplaced, or not present; none is left untried.
pub proof fn lemma_no_position_unscored(t: Seq<char>, g: Seq<char>)
    requires
        t.len() == g.len(),
    ensures
        forall|i: int|
            0 <= i < analysis(t, g).len() ==> (#[trigger] analysis(t, g)[i] is Good || analysis(
                t,
                g,
            )[i] is Misplaced || analysis(t, g)[i] is NotPresent),
        forall|i: int| 0 <= i < analysis(t, g).len() ==> !(#[trigger] analysis(t, g)[i] is NotTried),
{
}

/// A position is marked correctly placed exactly when the guess and the
/// target agree there.
pub proof fn lemma_good_iff_match(t: Seq<char>, g: Seq<char>)
    requires
        t.len() == g.len(),
    ensures
        forall|i: int| 0 <= i < t.len() ==> ((#[trigger] analysis(t, g)[i] is Good) <==> g[i] == t[i]),
{
}

/// How many of the first `n` verdicts credit the character `c`, that is,
/// mark an occurrence of `c` as correctly placed or as misplaced.
pub open spec fn credit_upto(r: Seq<CharacterState>, c: char, n: int) -> nat
    decreases n,
{
    if n <= 0 {
        0
    } else {
        credit_upto(r, c, n - 1) + (if r[n - 1] == CharacterState::Good(c) || r[n - 1]
            == CharacterState::Misplaced(c) {
            1nat
        } else {
            0nat
        })
    }
}

/// How many verdicts credit the character `c` in total.
pub open spec fn credited(r: Seq<CharacterState>, c: char) -> nat {
    credit_upto(r, c, r.len() as int)
}

proof fn lemma_credit_decomposition(t: Seq<char>, g: Seq<char>, c: char, n: int)
    requires
        0 <= n <= t.len(),
        t.len() == g.len(),
    ensures
        credit_upto(analysis(t, g), c, n) == exact_upto(t, g, c, n) + misplaced_upto(t, g, c, n),
    decreases n,
{
    if n > 0 {
        lemma_credit_decomposition(t, g, c, n - 1);
        let a = analysis(t, g);
        assert(a[n - 1] == verdict_at(t, g, n - 1));
        assert(credit_upto(a, c, n) == credit_upto(a, c, n - 1) + (if a[n - 1]
            == CharacterState::Good(c) || a[n - 1] == CharacterState::Misplaced(c) {
            1nat
        } else {
            0nat
        }));
        if t[n - 1] == g[n - 1] {
            assert(!position_misplaced(t, g, n - 1));
            assert(misplaced_upto(t, g, c, n) == misplaced_upto(t, g, c, n - 1));
            if g[n - 1] == c {
                assert(a[n - 1] == CharacterState::Good(c));
                assert(exact_upto(t, g, c, n) == exact_upto(t, g, c, n - 1) + 1);
            } else {
                assert(a[n - 1] != CharacterState::Good(c));
                assert(a[n - 1] != CharacterState::Misplaced(c));
                assert(exact_upto(t, g, c, n) == exact_upto(t, g, c, n - 1));
            }
        } else {
            assert(exact_upto(t, g, c, n) == exact_upto(t, g, c, n - 1));
            if g[n - 1] == c && position_misplaced(t, g, n - 1) {
                assert(a[n - 1] == CharacterState::Misplaced(c));
                assert(misplaced_upto(t, g, c, n) == misplaced_upto(t, g, c, n - 1) + 1);
            } else {
                assert(a[n - 1] != CharacterState::Good(c));
                assert(a[n - 1] != CharacterState::Misplaced(c));
                assert(misplaced_upto(t, g, c, n) == misplaced_upto(t, g, c, n - 1));
            }
        }
    }
}

/// A character appearing `k` times in the target is credited — as correctly
/// placed or misplaced — at most `k` times over the whole verdict sequence;
/// every exact match is among the credited positions, so the correctly
/// placed claims are resolved first and never displaced by misplaced ones.
pub proof fn lemma_credit_bounded(t: Seq<char>, g: Seq<char>, c: char)
    requires
        t.len() == g.len(),
    ensures
        credited(analysis(t, g), c) <= occurrences(t, c),
        credited(analysis(t, g), c) == exact_matches(t, g, c) + misplaced_upto(
            t,
            g,
            c,
            t.len() as int,
        ),
        exact_matches(t, g, c) <= occurrences(t, c),
{
    let len = t.len() as int;
    lemma_credit_decomposition(t, g, c, len);
    lemma_budget_upto(t, g, c, len);
    lemma_exact_le_occ(t, g, c, len);
    lemma_occ_upto_le(t, c, len);
}

/// When a position whose character does occur elsewhere in the target is
/// nevertheless marked not present, the whole budget for that character was
/// already claimed by the exact matches and by misplaced positions further
/// left: earlier positions win the tie for the remaining credit.
pub proof fn lemma_absent_means_budget_exhausted(t: Seq<char>, g: Seq<char>, i: int)
    requires
        t.len() == g.len(),
        0 <= i < t.len(),
        analysis(t, g)[i] is NotPresent,
    ensures
        t[i] != g[i],
        exact_matches(t, g, g[i]) + misplaced_upto(t, g, g[i], i) >= occurrences(t, g[i]),
{
    assert(!position_misplaced(t, g, i));
}

/// A verdict sequence wins when every position is correctly placed.
pub open spec fn is_winning(r: Seq<CharacterState>) -> bool {
    forall|i: int| 0 <= i < r.len() ==> r[i] is Good
}

/// Whether every position of the verdict sequence is correctly placed.
#[must_use]
pub fn is_winning_guess(results: &Vec<CharacterState>) -> (b: bool)
    ensures
        b == is_winning(results@),
{
    let n = results.len();
    for i in 0..n
        invariant
            n == results@.len(),
            forall|j: int| 0 <= j < i ==> results@[j] is Good,
    {
        let v = results[i];
        match v {
            CharacterState::Good(_) => {},
            _ => {
                assert(!(results@[i as int] is Good));
                return false;
            },
        }
    }
    true
}

/// A scored guess wins exactly when it is the target word.
pub proof fn lemma_winning_iff_target(t: Seq<char>, g: Seq<char>)
    requires
        t.len() == g.len(),
    ensures
        is_winning(analysis(t, g)) <==> g == t,
{
    if is_winning(analysis(t, g)) {
        assert forall|i: int| 0 <= i < g.len() implies g[i] == t[i] by {
            assert(analysis(t, g)[i] is Good);
        }
        assert(g =~= t);
    }
    if g == t {
        assert forall|i: int| 0 <= i < analysis(t, g).len() implies analysis(t, g)[i] is Good by {
            assert(t[i] == g[i]);
        }
    }
}

} // verus!
