//! Character classes of the grammar notation.
//!
//! Every class is a `spec` predicate on `char` together with an executable
//! test that is proved to decide it.

use vstd::prelude::*;

verus! {

/// The character that separates a production's name from its expression.
pub const DEFN: char = ':';

/// The character that separates the alternatives of an expression.
pub const OR: char = '|';

/// The character that separates the items of one alternative.
pub const AND: char = ',';

/// The character that ends a production.
pub const TERMINAL: char = ';';

/// The single quote, one of the two literal delimiters.
pub const SQUOTE: char = '\'';

/// The double quote, the other literal delimiter.
pub const DQUOTE: char = '"';

/// The character that escapes the next character of a literal.
pub const BACKSLASH: char = '\\';

/// `c` may occur in an identifier: an ASCII letter, an ASCII digit or an underscore.
pub open spec fn is_term_char(c: char) -> bool {
    ||| c == '_'
    ||| ('a' <= c && c <= 'z')
    ||| ('A' <= c && c <= 'Z')
    ||| ('0' <= c && c <= '9')
}

/// `c` is one of the four punctuation marks that are tokens by themselves.
pub open spec fn is_structural(c: char) -> bool {
    c == DEFN || c == AND || c == OR || c == TERMINAL
}

/// `c` opens (and, met again, closes) a quoted literal.
pub open spec fn is_quote(c: char) -> bool {
    c == SQUOTE || c == DQUOTE
}

/// `c` may not occur between the quotes of a literal, escaped or not:
/// a newline, a tab or a carriage return.
pub open spec fn breaks_quote(c: char) -> bool {
    c == '\n' || c == '\t' || c == '\r'
}

/// `c` has the Unicode property `White_Space`.
pub open spec fn is_whitespace(c: char) -> bool {
    ||| ('\u{9}' <= c && c <= '\u{d}')
    ||| c == ' '
    ||| c == '\u{85}'
    ||| c == '\u{a0}'
    ||| c == '\u{1680}'
    ||| ('\u{2000}' <= c && c <= '\u{200a}')
    ||| c == '\u{2028}'
    ||| c == '\u{2029}'
    ||| c == '\u{202f}'
    ||| c == '\u{205f}'
    ||| c == '\u{3000}'
}

/// `c` ends an identifier that is being read: white space or punctuation.
pub open spec fn ends_term(c: char) -> bool {
    is_whitespace(c) || is_structural(c)
}

/// The character that `c` stands for when it follows a backslash in a
/// literal: `n` is a newline, `t` a tab, every other character itself.
pub open spec fn unescaped(c: char) -> char {
    if c == 'n' {
        '\n'
    } else if c == 't' {
        '\t'
    } else {
        c
    }
}

/// Tells whether `c` may occur in an identifier.
pub fn term_allowed(c: char) -> (allowed: bool)
    ensures
        allowed == is_term_char(c),
{
    c == '_' || ('a' <= c && c <= 'z') || ('A' <= c && c <= 'Z') || ('0' <= c && c <= '9')
}

/// Tells whether `c` is forbidden between the quotes of a literal.
pub fn quote_disallowed(c: char) -> (disallowed: bool)
    ensures
        disallowed == breaks_quote(c),
{
    match c {
        '\n' | '\t' | '\r' => true,
        _ => false,
    }
}

/// Tells whether `c` is a token by itself.
pub fn structural(c: char) -> (yes: bool)
    ensures
        yes == is_structural(c),
{
    c == DEFN || c == AND || c == OR || c == TERMINAL
}

/// Tells whether `c` delimits a literal.
pub fn quote(c: char) -> (yes: bool)
    ensures
        yes == is_quote(c),
{
    c == SQUOTE || c == DQUOTE
}

/// Tells whether `c` is white space.
pub fn whitespace(c: char) -> (yes: bool)
    ensures
        yes == is_whitespace(c),
{
    ('\u{9}' <= c && c <= '\u{d}') || c == ' ' || c == '\u{85}' || c == '\u{a0}' || c
        == '\u{1680}' || ('\u{2000}' <= c && c <= '\u{200a}') || c == '\u{2028}' || c
        == '\u{2029}' || c == '\u{202f}' || c == '\u{205f}' || c == '\u{3000}'
}

/// Decodes the character that follows a backslash in a literal.
pub fn unescape(c: char) -> (decoded: char)
    ensures
        decoded == unescaped(c),
{
    match c {
        'n' => '\n',
        't' => '\t',
        _ => c,
    }
}

} // verus!
