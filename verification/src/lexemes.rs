//! What a grammar text says, lexeme by lexeme.
//!
//! This module holds no executable code. It defines the lexemes of a text
//! by recursion on the position in the text, without any scanner state; the
//! tokenizer is proved against it.

use vstd::prelude::*;
use crate::chars::{
    breaks_quote, ends_term, is_quote, is_structural, is_term_char, unescaped, AND, BACKSLASH, DEFN,
    OR,
};
use crate::tokenizer::LexError;

verus! {

/// A lexical unit of a grammar text, before identifiers are interned.
pub enum Lexeme {
    /// `:`
    Defn,
    /// `,`
    And,
    /// `|`
    Or,
    /// `;`
    Terminal,
    /// A maximal run of identifier characters.
    Ident(Seq<char>),
    /// The decoded text between two matching quotes.
    Literal(Seq<char>),
}

/// The lexeme that the punctuation mark `c` is.
pub open spec fn punctuation(c: char) -> Lexeme
    recommends
        is_structural(c),
{
    if c == DEFN {
        Lexeme::Defn
    } else if c == AND {
        Lexeme::And
    } else if c == OR {
        Lexeme::Or
    } else {
        Lexeme::Terminal
    }
}

/// The first position at or after `i` that holds no identifier character,
/// or the length of `s` if there is none.
pub open spec fn term_end(s: Seq<char>, i: int) -> int
    decreases s.len() - i,
{
    if 0 <= i < s.len() && is_term_char(s[i]) {
        term_end(s, i + 1)
    } else {
        i
    }
}

/// A literal's decoded text and the position after its closing quote.
pub type Quoted = Result<(Seq<char>, int), LexError>;

/// `c` put in front of the text of `rest`.
pub open spec fn quoted_cons(c: char, rest: Quoted) -> Quoted {
    match rest {
        Ok((text, next)) => Ok((seq![c] + text, next)),
        Err(e) => Err(e),
    }
}

/// Reads the rest of a literal: `i` is a position behind the opening quote
/// `q`, with everything before `i` already decoded.
///
/// A newline, tab or carriage return is an error wherever it stands. A
/// backslash is dropped and the character behind it is taken for what it
/// stands for, see [`unescaped`]. The first `q` that no backslash escapes
/// closes the literal. The end of the text before that is an error.
pub open spec fn quoted_from(s: Seq<char>, q: char, i: int) -> Quoted
    decreases s.len() - i,
{
    if i < 0 || i >= s.len() {
        Err(LexError::UnclosedQuote)
    } else if breaks_quote(s[i]) {
        Err(LexError::ForbiddenInQuote(s[i]))
    } else if s[i] == BACKSLASH {
        if i + 1 >= s.len() {
            Err(LexError::UnclosedQuote)
        } else if breaks_quote(s[i + 1]) {
            Err(LexError::ForbiddenInQuote(s[i + 1]))
        } else {
            quoted_cons(unescaped(s[i + 1]), quoted_from(s, q, i + 2))
        }
    } else if s[i] == q {
        Ok((Seq::empty(), i + 1))
    } else {
        quoted_cons(s[i], quoted_from(s, q, i + 1))
    }
}

/// The lexemes of a text, or the reason why it has none.
pub type Lexemes = Result<Seq<Lexeme>, LexError>;

/// `first` put in front of the lexemes `rest`.
pub open spec fn lexemes_cons(first: Lexeme, rest: Lexemes) -> Lexemes {
    match rest {
        Ok(more) => Ok(seq![first] + more),
        Err(e) => Err(e),
    }
}

/// The lexemes `done` followed by the lexemes `rest`.
pub open spec fn lexemes_after(done: Seq<Lexeme>, rest: Lexemes) -> Lexemes {
    match rest {
        Ok(more) => Ok(done + more),
        Err(e) => Err(e),
    }
}

/// The lexemes of `s` from position `i` on, where `i` is not inside an
/// identifier or a literal.
///
/// * A punctuation mark is a lexeme.
/// * A quote opens a literal, which [`quoted_from`] reads.
/// * An identifier character starts an identifier, which extends as far as
///   identifier characters follow. What comes next must be white space,
///   punctuation or the end of the text.
/// * Any other character is passed over.
pub open spec fn lex_from(s: Seq<char>, i: int) -> Lexemes
    decreases s.len() - i,
{
    if i < 0 || i >= s.len() {
        Ok(Seq::empty())
    } else if is_structural(s[i]) {
        lexemes_cons(punctuation(s[i]), lex_from(s, i + 1))
    } else if is_quote(s[i]) {
        match quoted_from(s, s[i], i + 1) {
            Ok((text, next)) => {
                proof {
                    lemma_quoted_from_advances(s, s[i], i + 1);
                }
                lexemes_cons(Lexeme::Literal(text), lex_from(s, next))
            },
            Err(e) => Err(e),
        }
    } else if is_term_char(s[i]) {
        let end = term_end(s, i);
        proof {
            lemma_term_end_bounds(s, i);
        }
        if end < s.len() && !ends_term(s[end]) {
            Err(LexError::ForbiddenInTerm(s[end]))
        } else {
            lexemes_cons(Lexeme::Ident(s.subrange(i, end)), lex_from(s, end))
        }
    } else {
        lex_from(s, i + 1)
    }
}

/// The lexemes of the text `s`.
pub open spec fn lex(s: Seq<char>) -> Lexemes {
    lex_from(s, 0)
}

/// An identifier that starts at `i` ends behind `i` and within the text, at
/// a position that holds no identifier character, and holds nothing but
/// identifier characters.
pub proof fn lemma_term_end_bounds(s: Seq<char>, i: int)
    requires
        0 <= i <= s.len(),
    ensures
        i <= term_end(s, i) <= s.len(),
        i < s.len() && is_term_char(s[i]) ==> i < term_end(s, i),
        term_end(s, i) < s.len() ==> !is_term_char(s[term_end(s, i)]),
        forall|k: int| i <= k < term_end(s, i) ==> is_term_char(#[trigger] s[k]),
    decreases s.len() - i,
{
    if i < s.len() && is_term_char(s[i]) {
        lemma_term_end_bounds(s, i + 1);
    }
}

/// A run of identifier characters from `start` to `i` that stops at `i`
/// ends at `i`.
pub proof fn lemma_term_end_is(s: Seq<char>, start: int, i: int)
    requires
        0 <= start <= i <= s.len(),
        forall|k: int| start <= k < i ==> is_term_char(#[trigger] s[k]),
        i < s.len() ==> !is_term_char(s[i]),
    ensures
        term_end(s, start) == i,
    decreases i - start,
{
    if start < i {
        lemma_term_end_is(s, start + 1, i);
    }
}

/// A literal that closes does so behind the position it was read from, and
/// within the text, at a character that is its quote.
pub proof fn lemma_quoted_from_advances(s: Seq<char>, q: char, i: int)
    ensures
        quoted_from(s, q, i) matches Ok((_, next)) ==> i < next <= s.len() && s[next - 1] == q,
    decreases s.len() - i,
{
    if 0 <= i < s.len() && !breaks_quote(s[i]) {
        if s[i] == BACKSLASH {
            if i + 1 < s.len() && !breaks_quote(s[i + 1]) {
                lemma_quoted_from_advances(s, q, i + 2);
            }
        } else if s[i] != q {
            lemma_quoted_from_advances(s, q, i + 1);
        }
    }
}

} // verus!
