//! Keyword classification: maps a single whitespace-trimmed word to its
//! semantic keyword category, or to no category at all.  Matching is
//! case-sensitive and exact, except that any word beginning with `println`
//! counts as the canonical print keyword and any word beginning with
//! `throw` counts as the canonical throw keyword, so call-like forms such
//! as `println('x')` are recognised without full call-syntax parsing.

use vstd::prelude::*;

use crate::text::starts_with;
use crate::text::str_chars_eq;
use crate::text::str_prefix_of;

verus! {

/// Conditional keywords.
#[derive(Clone, Copy, Debug, PartialEq, Eq, Structural)]
pub enum If {
    If,
    Else,
}

/// Loop keywords.
#[derive(Clone, Copy, Debug, PartialEq, Eq, Structural)]
pub enum Loop {
    For,
    While,
}

/// The semantic category of a recognised keyword.
#[derive(Clone, Copy, Debug, PartialEq, Eq, Structural)]
pub enum Keyword {
    If(If),
    Loop(Loop),
    Throw,
    IO,
}

/// The characters of the word `if`.
pub open spec fn if_kw() -> Seq<char> {
    seq!['i', 'f']
}

/// The characters of the word `else`.
pub open spec fn else_kw() -> Seq<char> {
    seq!['e', 'l', 's', 'e']
}

/// The characters of the word `for`.
pub open spec fn for_kw() -> Seq<char> {
    seq!['f', 'o', 'r']
}

/// The characters of the word `while`.
pub open spec fn while_kw() -> Seq<char> {
    seq!['w', 'h', 'i', 'l', 'e']
}

/// The characters of the word `throw`.
pub open spec fn throw_kw() -> Seq<char> {
    seq!['t', 'h', 'r', 'o', 'w']
}

/// The characters of the word `print`.
pub open spec fn print_kw() -> Seq<char> {
    seq!['p', 'r', 'i', 'n', 't']
}

/// The characters of the word `println`.
pub open spec fn println_kw() -> Seq<char> {
    seq!['p', 'r', 'i', 'n', 't', 'l', 'n']
}

/// The category of a single word: `println`- and `throw`-prefixed words by
/// the prefix rule, every other keyword by exact match, anything else none.
pub open spec fn spec_keyword(w: Seq<char>) -> Option<Keyword> {
    if starts_with(w, println_kw()) {
        Some(Keyword::IO)
    } else if starts_with(w, throw_kw()) {
        Some(Keyword::Throw)
    } else if w == if_kw() {
        Some(Keyword::If(If::If))
    } else if w == else_kw() {
        Some(Keyword::If(If::Else))
    } else if w == for_kw() {
        Some(Keyword::Loop(Loop::For))
    } else if w == while_kw() {
        Some(Keyword::Loop(Loop::While))
    } else if w == print_kw() {
        Some(Keyword::IO)
    } else {
        None
    }
}

/// Classifies one word, returning its keyword category or `None`.
/// Pure lookup: absence of a match is a valid, non-error outcome.
pub fn parse(keyword: &str) -> (r: Option<Keyword>)
    ensures
        r == spec_keyword(keyword@),
{
    proof {
        reveal_strlit("println");
        reveal_strlit("throw");
        reveal_strlit("if");
        reveal_strlit("else");
        reveal_strlit("for");
        reveal_strlit("while");
        reveal_strlit("print");
        assert("println"@ =~= println_kw());
        assert("throw"@ =~= throw_kw());
        assert("if"@ =~= if_kw());
        assert("else"@ =~= else_kw());
        assert("for"@ =~= for_kw());
        assert("while"@ =~= while_kw());
        assert("print"@ =~= print_kw());
    }
    if str_prefix_of(keyword, "println") {
        Some(Keyword::IO)
    } else if str_prefix_of(keyword, "throw") {
        Some(Keyword::Throw)
    } else if str_chars_eq(keyword, "if") {
        Some(Keyword::If(If::If))
    } else if str_chars_eq(keyword, "else") {
        Some(Keyword::If(If::Else))
    } else if str_chars_eq(keyword, "for") {
        Some(Keyword::Loop(Loop::For))
    } else if str_chars_eq(keyword, "while") {
        Some(Keyword::Loop(Loop::While))
    } else if str_chars_eq(keyword, "print") {
        Some(Keyword::IO)
    } else {
        None
    }
}

} // verus!
