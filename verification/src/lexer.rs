//! The tokenizer.
//!
//! A text is read from left to right. White space separates tokens and is
//! dropped. A token is the longest run of alphabetic characters, or the
//! longest run of numeric characters, or else one single character. A word
//! is put in lower case and stemmed; numbers and single characters are kept
//! as they are.

use vstd::prelude::*;
use vstd::slice::slice_subrange;
use crate::scan::{
    Class, Kind, Mark, kind_of, lemma_run_end_bounds, lemma_token_len_bounds, run, run_length, token_len,
};
use crate::stemmer::{stem, english_stem, MAX_STEM_CHARS};
use crate::text::{alphabetic, lower, lowered, numeric, whitespace};

verus! {

/// The mark of a character.
pub open spec fn mark_of(c: char) -> Mark {
    Mark { space: whitespace(c), letter: alphabetic(c), digit: numeric(c) }
}

/// The marks of the characters of a text.
pub open spec fn marks_of(s: Seq<char>) -> Seq<Mark> {
    s.map_values(|c: char| mark_of(c))
}

/// What is left of `s` once the white space at its front is dropped.
pub open spec fn trimmed(s: Seq<char>) -> Seq<char> {
    s.skip(run(marks_of(s), Class::Space))
}

/// The term that an alphabetic word is indexed under: the word in lower
/// case, stemmed. A word too long for the stemmer stays in lower case.
pub open spec fn word_term(word: Seq<char>) -> Seq<char> {
    if word.len() <= MAX_STEM_CHARS {
        english_stem(lowered(word))
    } else {
        lowered(word)
    }
}

/// The term that a token is indexed under. Only words are normalized;
/// numbers and single characters are kept as they are.
pub open spec fn term_of(token: Seq<char>) -> Seq<char> {
    if token.len() > 0 && kind_of(mark_of(token[0])) is Word {
        word_term(token)
    } else {
        token
    }
}

/// The first term of `s`, if `s` holds anything but white space.
pub open spec fn first_term(s: Seq<char>) -> Option<Seq<char>> {
    let t = trimmed(s);
    if t.len() == 0 {
        None
    } else {
        Some(term_of(t.take(token_len(marks_of(t)))))
    }
}

/// What is left of `s` behind its first token.
pub open spec fn after_first(s: Seq<char>) -> Seq<char> {
    let t = trimmed(s);
    t.skip(token_len(marks_of(t)))
}

/// The first token of a text that is not all white space has at least one
/// character, so what is left behind it is shorter than the text.
pub proof fn lemma_token_progress(s: Seq<char>)
    ensures
        0 <= run(marks_of(s), Class::Space) <= s.len(),
        0 <= token_len(marks_of(trimmed(s))) <= trimmed(s).len(),
        first_term(s) is Some ==> token_len(marks_of(trimmed(s))) >= 1 && after_first(s).len() < s.len(),
        first_term(s) is None ==> after_first(s).len() == 0,
{
    lemma_run_end_bounds(marks_of(s), Class::Space, 0);
    lemma_token_len_bounds(marks_of(trimmed(s)));
}

/// All the terms of `s`, from left to right.
pub open spec fn terms(s: Seq<char>) -> Seq<Seq<char>>
    decreases s.len(),
    via terms_decreases
{
    match first_term(s) {
        None => Seq::empty(),
        Some(t) => seq![t] + terms(after_first(s)),
    }
}

/// What is left behind the first token is shorter than the text.
#[via_fn]
proof fn terms_decreases(s: Seq<char>) {
    lemma_token_progress(s);
}

/// Reading the same characters twice gives the same terms: the terms are a
/// function of the text and of nothing else.
pub proof fn lemma_terms_deterministic(a: Seq<char>, b: Seq<char>)
    requires
        a =~= b,
    ensures
        first_term(a) == first_term(b),
        after_first(a) == after_first(b),
        terms(a) == terms(b),
{
}

/// Two words that differ only in the case of their ASCII letters are
/// indexed under the same term, whatever the stemmer makes of them.
pub proof fn lemma_word_term_ignores_case(a: Seq<char>, b: Seq<char>)
    requires
        lowered(a) == lowered(b),
    ensures
        word_term(a) == word_term(b),
{
    assert(lowered(a).len() == a.len());
    assert(lowered(b).len() == b.len());
}

/// Marks one character.
pub fn mark(c: char) -> (m: Mark)
    ensures
        m == mark_of(c),
{
    Mark { space: c.is_whitespace(), letter: c.is_alphabetic(), digit: c.is_numeric() }
}

/// The characters of `chars` as a string.
fn verbatim(chars: &[char]) -> (s: String)
    ensures
        s@ == chars@,
{
    let mut s = String::new();
    let mut i: usize = 0;
    while i < chars.len()
        invariant
            i <= chars.len(),
            s@ == chars@.take(i as int),
        decreases chars.len() - i,
    {
        s.push(chars[i]);
        i += 1;
        assert(chars@.take(i as int) == chars@.take(i - 1).push(chars@[i - 1]));
    }
    assert(chars@.take(i as int) == chars@);
    s
}

/// The characters of `chars` in lower case, as a string.
fn lowercase(chars: &[char]) -> (s: String)
    ensures
        s@ == lowered(chars@),
{
    let mut s = String::new();
    let mut i: usize = 0;
    while i < chars.len()
        invariant
            i <= chars.len(),
            s@ == lowered(chars@.take(i as int)),
        decreases chars.len() - i,
    {
        s.push(chars[i].to_ascii_lowercase());
        i += 1;
        assert(chars@.take(i as int) == chars@.take(i - 1).push(chars@[i - 1]));
        assert(lowered(chars@.take(i as int)) == lowered(chars@.take(i - 1)).push(lower(chars@[i - 1])));
    }
    assert(chars@.take(i as int) == chars@);
    s
}

/// The term of an alphabetic word.
fn normalize(word: &[char]) -> (term: String)
    ensures
        term@ == word_term(word@),
{
    let low = lowercase(word);
    if word.len() <= MAX_STEM_CHARS {
        stem(low.as_str())
    } else {
        low
    }
}

/// A reader that gives out the terms of a text one by one.
#[derive(Debug)]
pub struct Lexer<'a> {
    content: &'a [char],
    marks: Vec<Mark>,
}

impl<'a> View for Lexer<'a> {
    type V = Seq<char>;

    /// The text that is still to be read.
    closed spec fn view(&self) -> Seq<char> {
        self.content@
    }
}

impl<'a> Lexer<'a> {
    /// The marks that the reader keeps end with the marks of the text that
    /// is still to be read.
    pub closed spec fn wf(&self) -> bool {
        &&& self.content@.len() <= self.marks@.len()
        &&& self.marks@.skip(self.marks@.len() - self.content@.len()) == marks_of(self.content@)
    }

    /// A reader at the beginning of `content`.
    pub fn new(content: &'a [char]) -> (lexer: Self)
        ensures
            lexer.wf(),
            lexer@ == content@,
    {
        let mut marks: Vec<Mark> = Vec::new();
        let mut i: usize = 0;
        while i < content.len()
            invariant
                i <= content.len(),
                marks@ == marks_of(content@.take(i as int)),
            decreases content.len() - i,
        {
            marks.push(mark(content[i]));
            i += 1;
            assert(marks_of(content@.take(i as int)) =~= marks_of(content@.take(i - 1)).push(
                mark_of(content@[i - 1]),
            ));
        }
        assert(content@.take(i as int) == content@);
        assert(marks@.skip(0) =~= marks@);
        Self { content, marks }
    }

    /// The marks of the text that is still to be read.
    fn ahead(&self) -> (marks: &[Mark])
        requires
            self.wf(),
        ensures
            marks@ == marks_of(self@),
    {
        let from = self.marks.len() - self.content.len();
        slice_subrange(self.marks.as_slice(), from, self.marks.len())
    }

    /// Takes `n` characters off the front of the text.
    fn chop(&mut self, n: usize) -> (token: &'a [char])
        requires
            old(self).wf(),
            n <= old(self)@.len(),
        ensures
            final(self).wf(),
            token@ == old(self)@.take(n as int),
            final(self)@ == old(self)@.skip(n as int),
    {
        let (token, rest) = self.content.split_at(n);
        self.content = rest;
        proof {
            let from = old(self).marks@.len() - old(self).content@.len();
            assert(self.marks@.skip(from + n) =~= self.marks@.skip(from).skip(n as int));
            assert(marks_of(old(self).content@).skip(n as int) =~= marks_of(self.content@));
        }
        token
    }

    /// Takes the longest run of `class` off the front of the text.
    fn chop_while(&mut self, class: Class) -> (token: &'a [char])
        requires
            old(self).wf(),
        ensures
            final(self).wf(),
            token@ == old(self)@.take(run(marks_of(old(self)@), class)),
            final(self)@ == old(self)@.skip(run(marks_of(old(self)@), class)),
    {
        proof {
            lemma_run_end_bounds(marks_of(self@), class, 0);
        }
        let n = run_length(self.ahead(), class);
        self.chop(n)
    }

    /// Drops the white space at the front of the text.
    fn trim_left(&mut self)
        requires
            old(self).wf(),
        ensures
            final(self).wf(),
            final(self)@ == trimmed(old(self)@),
    {
        let _ = self.chop_while(Class::Space);
    }

    /// Takes the next term off the front of the text, or returns `None` when
    /// nothing but white space is left.
    pub fn next_token(&mut self) -> (term: Option<String>)
        requires
            old(self).wf(),
        ensures
            final(self).wf(),
            match term {
                Some(t) => first_term(old(self)@) == Some(t@),
                None => first_term(old(self)@) is None,
            },
            final(self)@ == after_first(old(self)@),
    {
        proof {
            lemma_token_progress(old(self)@);
        }
        self.trim_left();
        if self.content.len() == 0 {
            return None;
        }
        let first = self.ahead()[0];
        let ghost len = token_len(marks_of(self@));
        assert(self@.take(len)[0] == self@[0]);
        match first.kind() {
            Kind::Word => {
                let word = self.chop_while(Class::Letter);
                Some(normalize(word))
            },
            Kind::Number => {
                let digits = self.chop_while(Class::Digit);
                Some(verbatim(digits))
            },
            Kind::Symbol => Some(verbatim(self.chop(1))),
        }
    }

    /// Reads the text to its end and returns all its terms.
    pub fn collect(self) -> (found: Vec<String>)
        requires
            self.wf(),
        ensures
            found.deep_view() == terms(self@),
    {
        let mut lexer = self;
        let mut found: Vec<String> = Vec::new();
        loop
            invariant
                lexer.wf(),
                terms(self@) == found.deep_view() + terms(lexer@),
            ensures
                terms(self@) == found.deep_view(),
            decreases lexer@.len(),
        {
            let ghost before = lexer@;
            let ghost seen = found.deep_view();
            proof {
                lemma_token_progress(before);
            }
            match lexer.next_token() {
                None => {
                    assert(seen + Seq::<Seq<char>>::empty() == seen);
                    break;
                },
                Some(t) => {
                    found.push(t);
                    assert(found.deep_view() == seen.push(t@));
                    assert(seen + (seq![t@] + terms(lexer@)) == seen.push(t@) + terms(lexer@));
                },
            }
        }
        found
    }
}

} // verus!
