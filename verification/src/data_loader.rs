//! Organising a word list: the text of a word file is split into lines, each
//! line is checked to be alphabetic and upper-cased, and the words are
//! grouped by length; a random word of a wanted length can then be drawn.

use vstd::prelude::*;
use vstd::string::StrSliceExecFns;
use vstd::string::StringExecFns;

use rand::seq::SliceRandom;

use crate::text::dec_digits;
use crate::text::decimal_string;
use crate::text::string_of_chars;

verus! {

/// Custom error type for data loading errors.
#[derive(Debug, PartialEq, Eq)]
pub enum Error {
    /// Error indicating that a file contains non-alphabetic characters.
    NotAlphabetic(String),
    /// Error indicating that no word of a specific length was found.
    NoWordThisLength(usize),
    /// Error indicating that a vector of words is empty for a specific length.
    EmptyWordVec(usize),
}

impl Error {
    /// The message that describes this error.
    pub open spec fn spec_message(self) -> Seq<char> {
        match self {
            Error::NotAlphabetic(path) => "File "@ + path@
                + " contains non-alphabetic characters."@,
            Error::NoWordThisLength(word_size) => "No word of length "@ + dec_digits(
                word_size as nat,
            ) + " found."@,
            Error::EmptyWordVec(word_size) => "Vector is empty for length "@ + dec_digits(
                word_size as nat,
            ) + "."@,
        }
    }

    /// Renders the message that describes this error.
    pub fn message(&self) -> (r: String)
        ensures
            r@ == self.spec_message(),
    {
        match self {
            Error::NotAlphabetic(path) => {
                let mut s = String::from_str("File ");
                s.append(path.as_str());
                s.append(" contains non-alphabetic characters.");
                s
            },
            Error::NoWordThisLength(word_size) => {
                let mut s = String::from_str("No word of length ");
                s.append(decimal_string(*word_size).as_str());
                s.append(" found.");
                s
            },
            Error::EmptyWordVec(word_size) => {
                let mut s = String::from_str("Vector is empty for length ");
                s.append(decimal_string(*word_size).as_str());
                s.append(".");
                s
            },
        }
    }
}

/// Whether the outside `char::is_alphabetic` holds of `c`.
pub uninterp spec fn unicode_alpha(c: char) -> bool;

/// Relies on `char::is_alphabetic`: whether `c` has the Unicode `Alphabetic`
/// property, a function of the character alone.
#[verifier::external_body]
fn char_is_alphabetic(c: char) -> (r: bool)
    ensures
        r == unicode_alpha(c),
{
    c.is_alphabetic()
}

/// What the outside `str::to_uppercase` returns for the characters `s`.
pub uninterp spec fn upper_of(s: Seq<char>) -> Seq<char>;

/// Relies on `str::to_uppercase`: the Unicode uppercase equivalent of a
/// string, a function of its characters alone.
#[verifier::external_body]
fn str_to_uppercase(s: &str) -> (r: String)
    ensures
        r@ == upper_of(s@),
{
    s.to_uppercase()
}

/// Relies on rand's `SliceRandom::choose` with `rand::thread_rng`: `None`
/// exactly when the slice is empty, otherwise a reference to some element of
/// the slice.
#[verifier::external_body]
fn choose_random<'a>(words: &'a [String]) -> (r: Option<&'a String>)
    ensures
        match r {
            Some(w) => exists|i: int| 0 <= i < words@.len() && *w == words@[i],
            None => words@.len() == 0,
        },
{
    words.choose(&mut rand::thread_rng())
}

/// The length in bytes of the UTF-8 encoding of `s`, as the word-length key.
pub open spec fn byte_len_key(s: Seq<char>) -> usize {
    vstd::utf8::encode_utf8(s).len() as usize
}

/// `p` without a single trailing carriage return, which a line break absorbs.
pub open spec fn strip_cr(p: Seq<char>) -> Seq<char> {
    if p.len() > 0 && p.last() == '\r' {
        p.drop_last()
    } else {
        p
    }
}

/// The lines of `cur + s`, where `cur` is the part of the current line read
/// so far: lines end at a line feed, a carriage return directly before the
/// line feed is dropped, and a final line needs no line feed — but an empty
/// final line does not count.
pub open spec fn lines_acc(s: Seq<char>, cur: Seq<char>) -> Seq<Seq<char>>
    decreases s.len(),
{
    if s.len() == 0 {
        if cur.len() == 0 {
            Seq::empty()
        } else {
            seq![cur]
        }
    } else if s[0] == '\n' {
        seq![strip_cr(cur)] + lines_acc(s.drop_first(), Seq::empty())
    } else {
        lines_acc(s.drop_first(), cur.push(s[0]))
    }
}

/// The lines of `s`.
pub open spec fn lines_spec(s: Seq<char>) -> Seq<Seq<char>> {
    lines_acc(s, Seq::empty())
}

/// Splits `s` into its lines.
fn split_lines(s: &str) -> (r: Vec<String>)
    ensures
        r.deep_view() == lines_spec(s@),
{
    let n = s.unicode_len();
    let mut r: Vec<String> = Vec::new();
    let mut cur: Vec<char> = Vec::new();
    proof {
        assert(s@.skip(0) =~= s@);
        assert(cur@ =~= Seq::<char>::empty());
        assert(r.deep_view() + lines_acc(s@, Seq::<char>::empty()) =~= lines_spec(s@));
    }
    for i in 0..n
        invariant
            n == s@.len(),
            lines_spec(s@) == r.deep_view() + lines_acc(s@.skip(i as int), cur@),
    {
        proof {
            assert(s@.skip(i as int)[0] == s@[i as int]);
            assert(s@.skip(i as int).drop_first() =~= s@.skip(i + 1));
        }
        let c = s.get_char(i);
        if c == '\n' {
            let ghost prev_cur = cur@;
            if cur.len() > 0 && cur[cur.len() - 1] == '\r' {
                cur.pop();
            }
            proof {
                assert(cur@ =~= strip_cr(prev_cur));
            }
            let line = string_of_chars(&cur);
            let ghost prev_lines = r.deep_view();
            r.push(line);
            cur = Vec::new();
            proof {
                assert(r.deep_view() =~= prev_lines.push(strip_cr(prev_cur)));
                assert(prev_lines.push(strip_cr(prev_cur)) =~= prev_lines + seq![
                    strip_cr(prev_cur),
                ]);
                assert(r.deep_view() + lines_acc(s@.skip(i + 1), cur@) =~= prev_lines + (seq![
                    strip_cr(prev_cur),
                ] + lines_acc(s@.skip(i + 1), Seq::empty())));
            }
        } else {
            cur.push(c);
        }
    }
    proof {
        assert(s@.skip(n as int) =~= Seq::<char>::empty());
    }
    if cur.len() > 0 {
        let line = string_of_chars(&cur);
        let ghost prev_lines = r.deep_view();
        r.push(line);
        proof {
            assert(r.deep_view() =~= prev_lines + seq![cur@]);
        }
    } else {
        proof {
            assert(r.deep_view() + lines_acc(Seq::<char>::empty(), cur@) =~= r.deep_view());
        }
    }
    r
}

/// Whether no two of the given words read the same.
pub open spec fn words_distinct(ws: Seq<String>) -> bool {
    forall|i: int, j: int| 0 <= i < j < ws.len() ==> ws[i]@ != ws[j]@
}

/// Words organised by their length key: for each length at most one bucket,
/// and within a bucket every word appears once.
#[derive(Debug)]
pub struct WordTable {
    lengths: Vec<usize>,
    buckets: Vec<Vec<String>>,
}

impl WordTable {
    /// The table is well formed: one bucket per length, no repeated word in
    /// a bucket.
    pub closed spec fn wf(self) -> bool {
        &&& self.buckets@.len() == self.lengths@.len()
        &&& forall|i: int, j: int|
            0 <= i < j < self.lengths@.len() ==> self.lengths@[i] != self.lengths@[j]
        &&& forall|k: int| 0 <= k < self.buckets@.len() ==> words_distinct(#[trigger] self.buckets@[k]@)
    }

    /// Whether the table has a bucket for the length `l`.
    pub closed spec fn spec_has_len(self, l: usize) -> bool {
        exists|i: int| 0 <= i < self.lengths@.len() && self.lengths@[i] == l
    }

    closed spec fn key_index(self, l: usize) -> int {
        choose|i: int| 0 <= i < self.lengths@.len() && self.lengths@[i] == l
    }

    /// The words stored under the length `l`, empty when there is no bucket.
    pub closed spec fn spec_words(self, l: usize) -> Seq<Seq<char>> {
        if self.spec_has_len(l) {
            self.buckets@[self.key_index(l)].deep_view()
        } else {
            Seq::empty()
        }
    }

    /// How many lengths have a bucket.
    pub closed spec fn spec_num_lengths(self) -> nat {
        self.lengths@.len()
    }

    proof fn lemma_key_lookup(self, l: usize, idx: int)
        requires
            self.wf(),
            0 <= idx < self.lengths@.len(),
            self.lengths@[idx] == l,
        ensures
            self.spec_has_len(l),
            self.key_index(l) == idx,
            self.spec_words(l) == self.buckets@[idx].deep_view(),
    {
        assert(self.spec_has_len(l));
        let i = self.key_index(l);
        assert(0 <= i < self.lengths@.len() && self.lengths@[i] == l);
        if i < idx {
            assert(self.lengths@[i] != self.lengths@[idx]);
        } else if idx < i {
            assert(self.lengths@[idx] != self.lengths@[i]);
        }
    }

    /// An empty table.
    pub fn new() -> (r: WordTable)
        ensures
            r.wf(),
            r.spec_num_lengths() == 0,
            forall|l: usize| !r.spec_has_len(l),
            forall|l: usize| #[trigger] r.spec_words(l) == Seq::<Seq<char>>::empty(),
    {
        WordTable { lengths: Vec::new(), buckets: Vec::new() }
    }

    fn find_index(&self, l: usize) -> (r: Option<usize>)
        requires
            self.wf(),
        ensures
            match r {
                Some(i) => i < self.lengths@.len() && self.lengths@[i as int] == l
                    && self.spec_has_len(l) && self.key_index(l) == i,
                None => !self.spec_has_len(l),
            },
    {
        let n = self.lengths.len();
        for i in 0..n
            invariant
                self.wf(),
                n == self.lengths@.len(),
                forall|j: int| 0 <= j < i ==> self.lengths@[j] != l,
        {
            if self.lengths[i] == l {
                proof {
                    self.lemma_key_lookup(l, i as int);
                }
                return Some(i);
            }
        }
        assert(!self.spec_has_len(l));
        None
    }

    /// The bucket of words stored under the length `l`, if there is one.
    pub fn get_words(&self, l: usize) -> (r: Option<&Vec<String>>)
        requires
            self.wf(),
        ensures
            match r {
                Some(b) => self.spec_has_len(l) && b.deep_view() == self.spec_words(l),
                None => !self.spec_has_len(l),
            },
    {
        match self.find_index(l) {
            Some(i) => Some(&self.buckets[i]),
            None => None,
        }
    }

    /// How many lengths have a bucket.
    pub fn num_lengths(&self) -> (r: usize)
        ensures
            r == self.spec_num_lengths(),
    {
        self.lengths.len()
    }

    /// Makes sure the length `l` has a bucket, an empty one when it was
    /// missing; every other length keeps its words.
    pub fn ensure_len(&mut self, l: usize)
        requires
            old(self).wf(),
        ensures
            final(self).wf(),
            final(self).spec_has_len(l),
            forall|m: usize|
                m != l ==> final(self).spec_has_len(m) == old(self).spec_has_len(m),
            forall|m: usize| m != l ==> final(self).spec_words(m) == old(self).spec_words(m),
            final(self).spec_words(l) == old(self).spec_words(l),
            old(self).spec_has_len(l) ==> final(self).spec_num_lengths() == old(
                self,
            ).spec_num_lengths(),
            !old(self).spec_has_len(l) ==> final(self).spec_num_lengths() == old(
                self,
            ).spec_num_lengths() + 1,
    {
        match self.find_index(l) {
            Some(_) => {},
            None => {
                let ghost prev = *self;
                self.lengths.push(l);
                self.buckets.push(Vec::new());
                proof {
                    assert(self.buckets@[prev.buckets@.len() as int].deep_view()
                        =~= Seq::<Seq<char>>::empty());
                    Self::lemma_push_bucket(prev, *self, l, Seq::empty());
                    assert(final(self).spec_words(l) =~= old(self).spec_words(l));
                }
            },
        }
    }

    /// After pushing the key `l`, absent before, with a bucket whose words
    /// read `ws`, the new table is well formed, holds `ws` under `l`, and
    /// every other key keeps its words.
    proof fn lemma_push_bucket(prev: WordTable, cur: WordTable, l: usize, ws: Seq<Seq<char>>)
        requires
            prev.wf(),
            !prev.spec_has_len(l),
            cur.lengths@ == prev.lengths@.push(l),
            cur.buckets@.len() == prev.buckets@.len() + 1,
            forall|j: int| 0 <= j < prev.buckets@.len() ==> cur.buckets@[j] == prev.buckets@[j],
            cur.buckets@[prev.buckets@.len() as int].deep_view() == ws,
            words_distinct(cur.buckets@[prev.buckets@.len() as int]@),
        ensures
            cur.wf(),
            cur.spec_has_len(l),
            cur.spec_words(l) == ws,
            forall|m: usize| m != l ==> cur.spec_has_len(m) == prev.spec_has_len(m),
            forall|m: usize| m != l ==> cur.spec_words(m) == prev.spec_words(m),
    {
        let n = prev.lengths@.len() as int;
        assert forall|i: int, j: int|
            0 <= i < j < cur.lengths@.len() implies cur.lengths@[i] != cur.lengths@[j] by {
            if j < n {
                assert(prev.lengths@[i] != prev.lengths@[j]);
            } else {
                assert(cur.lengths@[j] == l);
                if prev.lengths@[i] == l {
                    assert(prev.spec_has_len(l));
                }
            }
        }
        assert(cur.wf());
        cur.lemma_key_lookup(l, n);
        assert(cur.spec_words(l) == ws);
        assert forall|m: usize| m != l implies cur.spec_has_len(m) == prev.spec_has_len(m)
            && cur.spec_words(m) == prev.spec_words(m) by {
            if prev.spec_has_len(m) {
                let j = prev.key_index(m);
                assert(0 <= j < prev.lengths@.len() && prev.lengths@[j] == m);
                prev.lemma_key_lookup(m, j);
                cur.lemma_key_lookup(m, j);
            } else {
                if cur.spec_has_len(m) {
                    let j = cur.key_index(m);
                    assert(0 <= j < cur.lengths@.len() && cur.lengths@[j] == m);
                    assert(j != n);
                    assert(prev.lengths@[j] == m);
                    assert(prev.spec_has_len(m));
                }
            }
        }
    }

    /// Stores `word` under the length `l`: a word already present under that
    /// length is not repeated; every other length keeps its words.
    pub fn insert_word(&mut self, l: usize, word: String)
        requires
            old(self).wf(),
        ensures
            final(self).wf(),
            final(self).spec_has_len(l),
            forall|m: usize|
                m != l ==> final(self).spec_has_len(m) == old(self).spec_has_len(m),
            forall|m: usize| m != l ==> final(self).spec_words(m) == old(self).spec_words(m),
            old(self).spec_words(l).contains(word@) ==> final(self).spec_words(l) == old(
                self,
            ).spec_words(l),
            !old(self).spec_words(l).contains(word@) ==> final(self).spec_words(l) == old(
                self,
            ).spec_words(l).push(word@),
            old(self).spec_has_len(l) ==> final(self).spec_num_lengths() == old(
                self,
            ).spec_num_lengths(),
            !old(self).spec_has_len(l) ==> final(self).spec_num_lengths() == old(
                self,
            ).spec_num_lengths() + 1,
    {
        match self.find_index(l) {
            Some(i) => {
                let ghost prev = *self;
                let ghost ws = prev.spec_words(l);
                let bucket_len = self.buckets[i].len();
                let mut found = false;
                for j in 0..bucket_len
                    invariant
                        *self == prev,
                        prev.wf(),
                        i < prev.lengths@.len(),
                        prev.lengths@[i as int] == l,
                        prev.key_index(l) == i,
                        bucket_len == prev.buckets@[i as int]@.len(),
                        found == exists|k: int|
                            0 <= k < j && prev.buckets@[i as int]@[k]@ == word@,
                {
                    if self.buckets[i][j] == word {
                        found = true;
                    }
                }
                proof {
                    assert(ws == prev.buckets@[i as int].deep_view());
                    assert(found == ws.contains(word@)) by {
                        if found {
                            let k = choose|k: int|
                                0 <= k < bucket_len && prev.buckets@[i as int]@[k]@ == word@;
                            assert(ws[k] == word@);
                        }
                        if ws.contains(word@) {
                            let k = choose|k: int| 0 <= k < ws.len() && ws[k] == word@;
                            assert(prev.buckets@[i as int]@[k]@ == word@);
                        }
                    }
                }
                if !found {
                    self.buckets[i].push(word);
                    proof {
                        assert(self.buckets@[i as int]@ == prev.buckets@[i as int]@.push(word));
                        assert(self.buckets@[i as int].deep_view() =~= ws.push(word@));
                        assert forall|i0: int, j0: int|
                            0 <= i0 < j0 < self.buckets@[i as int]@.len() implies self.buckets@[i
                            as int]@[i0]@ != self.buckets@[i as int]@[j0]@ by {
                            if j0 < prev.buckets@[i as int]@.len() {
                                assert(prev.buckets@[i as int]@[i0]@ != prev.buckets@[i
                                    as int]@[j0]@);
                            } else {
                                assert(self.buckets@[i as int]@[j0] == word);
                                assert(ws[i0] == prev.buckets@[i as int]@[i0]@);
                                assert(!ws.contains(word@));
                                assert(ws[i0] != word@);
                            }
                        }
                        Self::lemma_update_bucket(prev, *self, l, i as int, ws.push(word@));
                    }
                }
            },
            None => {
                let ghost prev = *self;
                self.lengths.push(l);
                let mut new_bucket: Vec<String> = Vec::new();
                new_bucket.push(word);
                let ghost bucket_view = new_bucket.deep_view();
                self.buckets.push(new_bucket);
                proof {
                    assert(bucket_view =~= seq![word@]);
                    Self::lemma_push_bucket(prev, *self, l, bucket_view);
                    assert(prev.spec_words(l) =~= Seq::<Seq<char>>::empty());
                    assert(prev.spec_words(l).push(word@) =~= bucket_view);
                }
            },
        }
    }

    /// After replacing the bucket at `idx`, whose key is `l`, with one whose
    /// words read `ws` and are distinct, the table holds `ws` under `l` and
    /// every other key keeps its words.
    proof fn lemma_update_bucket(prev: WordTable, cur: WordTable, l: usize, idx: int, ws: Seq<Seq<char>>)
        requires
            prev.wf(),
            0 <= idx < prev.lengths@.len(),
            prev.lengths@[idx] == l,
            cur.lengths@ == prev.lengths@,
            cur.buckets@.len() == prev.buckets@.len(),
            forall|j: int| 0 <= j < prev.buckets@.len() && j != idx ==> cur.buckets@[j] == prev.buckets@[j],
            cur.buckets@[idx].deep_view() == ws,
            words_distinct(cur.buckets@[idx]@),
        ensures
            cur.wf(),
            cur.spec_has_len(l),
            cur.spec_words(l) == ws,
            forall|m: usize| m != l ==> cur.spec_has_len(m) == prev.spec_has_len(m),
            forall|m: usize| m != l ==> cur.spec_words(m) == prev.spec_words(m),
    {
        assert(cur.wf());
        cur.lemma_key_lookup(l, idx);
        assert forall|m: usize| m != l implies cur.spec_has_len(m) == prev.spec_has_len(m)
            && cur.spec_words(m) == prev.spec_words(m) by {
            assert(cur.spec_has_len(m) == prev.spec_has_len(m));
            if prev.spec_has_len(m) {
                let j = prev.key_index(m);
                assert(0 <= j < prev.lengths@.len() && prev.lengths@[j] == m);
                prev.lemma_key_lookup(m, j);
                cur.lemma_key_lookup(m, j);
                assert(j != idx);
            }
        }
    }
}

/// How many distinct length keys the first `n` of the lines `ls` carry.
pub open spec fn distinct_key_count(ls: Seq<Seq<char>>, n: int) -> nat
    decreases n,
{
    if n <= 0 {
        0
    } else if exists|k: int| 0 <= k < n - 1 && byte_len_key(#[trigger] ls[k]) == byte_len_key(
        ls[n - 1],
    ) {
        distinct_key_count(ls, n - 1)
    } else {
        distinct_key_count(ls, n - 1) + 1
    }
}

/// Loads words from the text of a word file and organizes them into a table
/// based on their length.
///
/// Every line must be made of alphabetic characters only, or the whole file
/// is rejected, naming `data_file_path`. Each accepted line is upper-cased
/// and stored under the byte length of the line as read; a word is stored
/// once however often it appears.
pub fn load_words_file(file_contents: &str, data_file_path: &str) -> (r: Result<WordTable, Error>)
    ensures
        ({
            let ls = lines_spec(file_contents@);
            match r {
                Ok(table) => {
                    &&& table.wf()
                    &&& forall|k: int, j: int|
                        0 <= k < ls.len() && 0 <= j < ls[k].len() ==> unicode_alpha(
                            #[trigger] ls[k][j],
                        )
                    &&& forall|l: usize|
                        #[trigger] table.spec_has_len(l) <==> exists|k: int|
                            0 <= k < ls.len() && byte_len_key(#[trigger] ls[k]) == l
                    &&& forall|l: usize, w: Seq<char>|
                        #[trigger] table.spec_words(l).contains(w) <==> exists|k: int|
                            0 <= k < ls.len() && byte_len_key(#[trigger] ls[k]) == l && w
                                == upper_of(ls[k])
                    &&& table.spec_num_lengths() == distinct_key_count(ls, ls.len() as int)
                },
                Err(Error::NotAlphabetic(p)) => p@ == data_file_path@ && exists|k: int, j: int|
                    0 <= k < ls.len() && 0 <= j < ls[k].len() && !unicode_alpha(
                        #[trigger] ls[k][j],
                    ),
                Err(_) => false,
            }
        }),
{
    let ghost ls = lines_spec(file_contents@);
    let lines = split_lines(file_contents);
    let mut table = WordTable::new();
    let n = lines.len();
    for k in 0..n
        invariant
            ls == lines_spec(file_contents@),
            lines.deep_view() == ls,
            n == ls.len(),
            table.wf(),
            forall|k0: int, j: int|
                0 <= k0 < k && 0 <= j < ls[k0].len() ==> unicode_alpha(#[trigger] ls[k0][j]),
            forall|l: usize|
                #[trigger] table.spec_has_len(l) <==> exists|k0: int|
                    0 <= k0 < k && byte_len_key(#[trigger] ls[k0]) == l,
            forall|l: usize, w: Seq<char>|
                #[trigger] table.spec_words(l).contains(w) <==> exists|k0: int|
                    0 <= k0 < k && byte_len_key(#[trigger] ls[k0]) == l && w == upper_of(ls[k0]),
            table.spec_num_lengths() == distinct_key_count(ls, k as int),
    {
        let line = &lines[k];
        proof {
            assert(line@ == lines.deep_view()[k as int]);
        }
        let m = line.as_str().unicode_len();
        for j in 0..m
            invariant
                ls == lines_spec(file_contents@),
                line@ == ls[k as int],
                0 <= k < ls.len(),
                m == ls[k as int].len(),
                forall|j0: int| 0 <= j0 < j ==> unicode_alpha(#[trigger] ls[k as int][j0]),
        {
            if !char_is_alphabetic(line.as_str().get_char(j)) {
                proof {
                    let kk = k as int;
                    let jj = j as int;
                    assert(0 <= kk < ls.len() && 0 <= jj < ls[kk].len() && !unicode_alpha(
                        ls[kk][jj],
                    ));
                }
                return Err(Error::NotAlphabetic(String::from_str(data_file_path)));
            }
        }
        let key = line.as_str().len();
        let upper = str_to_uppercase(line.as_str());
        proof {
            assert(key == byte_len_key(ls[k as int]));
            assert(upper@ == upper_of(ls[k as int]));
        }
        let ghost prev_table = table;
        table.insert_word(key, upper);
        proof {
            let ghost kk = k as int;
            if prev_table.spec_has_len(key) {
                let k0 = choose|k0: int| 0 <= k0 < kk && byte_len_key(#[trigger] ls[k0]) == key;
                assert(0 <= k0 < kk && byte_len_key(ls[k0]) == byte_len_key(ls[kk]));
                assert(distinct_key_count(ls, kk + 1) == distinct_key_count(ls, kk));
            } else {
                assert(!(exists|k0: int|
                    0 <= k0 < kk && byte_len_key(#[trigger] ls[k0]) == byte_len_key(ls[kk]))) by {
                    if exists|k0: int|
                        0 <= k0 < kk && byte_len_key(#[trigger] ls[k0]) == byte_len_key(ls[kk]) {
                        assert(prev_table.spec_has_len(key));
                    }
                }
                assert(distinct_key_count(ls, kk + 1) == distinct_key_count(ls, kk) + 1);
            }
            assert forall|l: usize|
                #[trigger] table.spec_has_len(l) <==> exists|k0: int|
                    0 <= k0 < kk + 1 && byte_len_key(#[trigger] ls[k0]) == l by {
                if l == key {
                    assert(byte_len_key(ls[kk]) == l);
                } else {
                    assert(table.spec_has_len(l) == prev_table.spec_has_len(l));
                    assert((exists|k0: int| 0 <= k0 < kk + 1 && byte_len_key(#[trigger] ls[k0]) == l)
                        == (exists|k0: int| 0 <= k0 < kk && byte_len_key(#[trigger] ls[k0]) == l))
                        by {
                        if exists|k0: int| 0 <= k0 < kk + 1 && byte_len_key(#[trigger] ls[k0]) == l {
                            let k0 = choose|k0: int|
                                0 <= k0 < kk + 1 && byte_len_key(#[trigger] ls[k0]) == l;
                            assert(k0 != kk);
                            assert(0 <= k0 < kk && byte_len_key(ls[k0]) == l);
                        }
                    }
                }
            }
            assert forall|l: usize, w: Seq<char>|
                #[trigger] table.spec_words(l).contains(w) <==> exists|k0: int|
                    0 <= k0 < kk + 1 && byte_len_key(#[trigger] ls[k0]) == l && w == upper_of(
                    ls[k0],
                ) by {
                if l == key {
                    let ws = prev_table.spec_words(l);
                    assert(table.spec_words(l).contains(w) == (ws.contains(w) || w == upper@)) by {
                        if ws.contains(upper@) {
                            assert(table.spec_words(l) == ws);
                        } else {
                            assert(table.spec_words(l) == ws.push(upper@));
                            let ws2 = ws.push(upper@);
                            if ws2.contains(w) {
                                let idx = choose|idx: int| 0 <= idx < ws2.len() && ws2[idx] == w;
                                if idx < ws.len() {
                                    assert(ws[idx] == w);
                                } else {
                                    assert(w == upper@);
                                }
                            }
                            if ws.contains(w) {
                                let idx = choose|idx: int| 0 <= idx < ws.len() && ws[idx] == w;
                                assert(ws2[idx] == w);
                            }
                            if w == upper@ {
                                assert(ws2[ws.len() as int] == w);
                            }
                        }
                    }
                    if table.spec_words(l).contains(w) {
                        if w == upper@ {
                            assert(0 <= kk < kk + 1 && byte_len_key(ls[kk]) == l && w == upper_of(
                                ls[kk],
                            ));
                        }
                    }
                    if exists|k0: int|
                        0 <= k0 < kk + 1 && byte_len_key(#[trigger] ls[k0]) == l && w == upper_of(
                        ls[k0],
                    ) {
                        let k0 = choose|k0: int|
                            0 <= k0 < kk + 1 && byte_len_key(#[trigger] ls[k0]) == l && w
                                == upper_of(ls[k0]);
                        if k0 == kk {
                            assert(w == upper@);
                        } else {
                            assert(ws.contains(w));
                        }
                    }
                } else {
                    assert(table.spec_words(l) == prev_table.spec_words(l));
                    if exists|k0: int|
                        0 <= k0 < kk + 1 && byte_len_key(#[trigger] ls[k0]) == l && w == upper_of(
                        ls[k0],
                    ) {
                        let k0 = choose|k0: int|
                            0 <= k0 < kk + 1 && byte_len_key(#[trigger] ls[k0]) == l && w
                                == upper_of(ls[k0]);
                        assert(k0 != kk);
                        assert(0 <= k0 < kk && byte_len_key(ls[k0]) == l && w == upper_of(ls[k0]));
                    }
                }
            }
        }
    }
    Ok(table)
}

/// Chooses a random word of a specific length from a table of words.
///
/// Succeeds exactly when the table has a nonempty bucket for `word_length`,
/// returning one of its words; a missing bucket and an empty bucket are
/// reported as distinct errors.
pub fn choose_random_word(word_table: &WordTable, word_length: usize) -> (r: Result<String, Error>)
    requires
        word_table.wf(),
    ensures
        match r {
            Ok(w) => word_table.spec_has_len(word_length) && word_table.spec_words(
                word_length,
            ).contains(w@),
            Err(Error::NoWordThisLength(l)) => l == word_length && !word_table.spec_has_len(
                word_length,
            ),
            Err(Error::EmptyWordVec(l)) => l == word_length && word_table.spec_has_len(word_length)
                && word_table.spec_words(word_length).len() == 0,
            Err(Error::NotAlphabetic(_)) => false,
        },
{
    match word_table.get_words(word_length) {
        None => Err(Error::NoWordThisLength(word_length)),
        Some(words_set) => {
            match choose_random(words_set.as_slice()) {
                None => Err(Error::EmptyWordVec(word_length)),
                Some(word) => {
                    proof {
                        let i = choose|i: int|
                            0 <= i < words_set@.len() && *word == words_set@[i];
                        assert(word_table.spec_words(word_length)[i] == word@);
                    }
                    Ok(word.clone())
                },
            }
        },
    }
}

} // verus!
