//! Where tokens begin and end.
//!
//! The tokenizer looks at a character only to ask three questions: is it
//! white space, is it alphabetic, is it numeric. The answers for one
//! character make its mark, and all that is decided about tokens here is
//! decided on marks.

use vstd::prelude::*;

verus! {

/// What the tokenizer knows of one character.
#[derive(Clone, Copy, Debug)]
pub struct Mark {
    pub space: bool,
    pub letter: bool,
    pub digit: bool,
}

/// The character classes that make up runs.
#[derive(Clone, Copy, Debug)]
pub enum Class {
    Space,
    Letter,
    Digit,
}

/// The kinds of token.
#[derive(Clone, Copy, Debug)]
pub enum Kind {
    /// A run of letters.
    Word,
    /// A run of digits.
    Number,
    /// A single character that is neither a letter nor a digit.
    Symbol,
}

/// Whether a character with the mark `mark` belongs to `class`.
pub open spec fn in_class(mark: Mark, class: Class) -> bool {
    match class {
        Class::Space => mark.space,
        Class::Letter => mark.letter,
        Class::Digit => mark.digit,
    }
}

/// The kind of the token that begins with a character marked `first`:
/// letters come before digits, and whatever is neither stands alone.
pub open spec fn kind_of(first: Mark) -> Kind {
    if first.letter {
        Kind::Word
    } else if first.digit {
        Kind::Number
    } else {
        Kind::Symbol
    }
}

/// The first position at or after `from` whose mark is not in `class`, or
/// the length of `marks` if there is none.
pub open spec fn run_end(marks: Seq<Mark>, class: Class, from: int) -> int
    decreases marks.len() - from,
{
    if 0 <= from < marks.len() && in_class(marks[from], class) {
        run_end(marks, class, from + 1)
    } else {
        from
    }
}

/// The length of the longest run of `class` at the front of `marks`.
pub open spec fn run(marks: Seq<Mark>, class: Class) -> int {
    run_end(marks, class, 0)
}

/// The length of the token at the front of `marks`: the longest run of
/// letters, or the longest run of digits, or one.
pub open spec fn token_len(marks: Seq<Mark>) -> int {
    if marks.len() == 0 {
        0
    } else {
        match kind_of(marks[0]) {
            Kind::Word => run(marks, Class::Letter),
            Kind::Number => run(marks, Class::Digit),
            Kind::Symbol => 1,
        }
    }
}

/// A run ends inside the sequence, at or after the place where it began.
pub proof fn lemma_run_end_bounds(marks: Seq<Mark>, class: Class, from: int)
    requires
        0 <= from <= marks.len(),
    ensures
        from <= run_end(marks, class, from) <= marks.len(),
    decreases marks.len() - from,
{
    if from < marks.len() && in_class(marks[from], class) {
        lemma_run_end_bounds(marks, class, from + 1);
    }
}

/// A run is the longest one: every mark in it is in the class, and the mark
/// behind it, if there is one, is not.
pub proof fn lemma_run_is_longest(marks: Seq<Mark>, class: Class, from: int)
    requires
        0 <= from <= marks.len(),
    ensures
        forall|i: int| from <= i < run_end(marks, class, from) ==> in_class(#[trigger] marks[i], class),
        run_end(marks, class, from) < marks.len() ==> !in_class(marks[run_end(marks, class, from)], class),
    decreases marks.len() - from,
{
    if from < marks.len() && in_class(marks[from], class) {
        lemma_run_is_longest(marks, class, from + 1);
    }
}

/// A token at the front of marks that do not begin with white space is at
/// least one character long and ends inside the sequence.
pub proof fn lemma_token_len_bounds(marks: Seq<Mark>)
    ensures
        0 <= token_len(marks) <= marks.len(),
        marks.len() > 0 ==> token_len(marks) >= 1,
{
    if marks.len() > 0 {
        lemma_run_end_bounds(marks, Class::Letter, 1);
        lemma_run_end_bounds(marks, Class::Digit, 1);
    }
}

impl Mark {
    /// Whether the marked character belongs to `class`.
    pub fn is(self, class: Class) -> (b: bool)
        ensures
            b == in_class(self, class),
    {
        match class {
            Class::Space => self.space,
            Class::Letter => self.letter,
            Class::Digit => self.digit,
        }
    }

    /// The kind of the token that begins with the marked character.
    pub fn kind(self) -> (kind: Kind)
        ensures
            kind == kind_of(self),
    {
        if self.letter {
            Kind::Word
        } else if self.digit {
            Kind::Number
        } else {
            Kind::Symbol
        }
    }
}

/// Measures the longest run of `class` at the front of `marks`.
pub fn run_length(marks: &[Mark], class: Class) -> (n: usize)
    ensures
        n == run(marks@, class),
{
    let mut n: usize = 0;
    while n < marks.len() && marks[n].is(class)
        invariant
            n <= marks.len(),
            run_end(marks@, class, n as int) == run(marks@, class),
        decreases marks.len() - n,
    {
        n += 1;
    }
    n
}

} // verus!
