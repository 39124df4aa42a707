//! The tokenizer: from a grammar text to tokens and a term table.

use std::collections::HashMap;
use vstd::hash_map::StringHashMap;
use vstd::prelude::*;
use crate::chars::{
    is_quote, is_structural, is_term_char, quote, quote_disallowed, structural, term_allowed,
    unescape, whitespace, AND, BACKSLASH, DEFN, OR,
};
use crate::interning::{
    id_in, interned, lemma_interned_push, listed, names_in, names_of, table_lists, tables_agree,
};
use crate::lexemes::{
    lemma_term_end_is, lex, lex_from, lexemes_after, lexemes_cons, punctuation, quoted_cons,
    quoted_from, Lexeme, Lexemes, Quoted,
};

verus! {

/// A token of a grammar text.
#[derive(Debug, Clone, PartialEq, Eq)]
pub enum Token {
    /// `:`, between a production's name and its expression.
    Defn,
    /// `,`, between the items of an alternative.
    And,
    /// `|`, between the alternatives of an expression.
    Or,
    /// `;`, at the end of a production.
    Terminal,
    /// An identifier, by the id that it was interned under.
    Term(usize),
    /// A quoted literal, decoded.
    Literal(String),
}

/// Why a text cannot be tokenized.
#[derive(Debug, Clone, Copy, PartialEq, Eq, Structural)]
pub enum LexError {
    /// A newline, tab or carriage return stands inside a literal.
    ForbiddenInQuote(char),
    /// An identifier is followed by a character that neither continues nor
    /// ends it.
    ForbiddenInTerm(char),
    /// The text ends inside a literal.
    UnclosedQuote,
}

/// The view of a [`Token`], which contracts speak of: the same token, with
/// a literal's text as a sequence of characters.
pub enum Tok {
    Defn,
    And,
    Or,
    Terminal,
    Term(usize),
    Literal(Seq<char>),
}

impl View for Token {
    type V = Tok;

    open spec fn view(&self) -> Tok {
        match *self {
            Token::Defn => Tok::Defn,
            Token::And => Tok::And,
            Token::Or => Tok::Or,
            Token::Terminal => Tok::Terminal,
            Token::Term(id) => Tok::Term(id),
            Token::Literal(text) => Tok::Literal(text@),
        }
    }
}

/// The views of the tokens `ts`, in order.
pub open spec fn toks(ts: Seq<Token>) -> Seq<Tok> {
    Seq::new(ts.len(), |k: int| ts[k]@)
}

/// `String::push` of the standard library appends `ch` to the string: the
/// string afterwards is the string before with `ch` at its end. This is
/// taken on trust from the library's documentation.
pub assume_specification[ String::push ](s: &mut String, ch: char)
    ensures
        final(s)@ == old(s)@.push(ch),
;

/// Interns the identifier `term` and emits its token.
///
/// `current_term_id` is the number of ids given out so far. If the table
/// knows `term`, its id is reused; if not, `term` gets `current_term_id`
/// and both directions of the table record it. The result is the number of
/// ids given out afterwards.
fn handle_term(
    term: String,
    tokens: &mut Vec<Token>,
    term_table: &mut StringHashMap<usize>,
    term_table_reverse: &mut HashMap<usize, String>,
    current_term_id: usize,
) -> (next_term_id: usize)
    requires
        tables_agree(old(term_table)@, old(term_table_reverse)@, current_term_id),
        current_term_id <= old(tokens)@.len(),
    ensures
        tables_agree(final(term_table)@, final(term_table_reverse)@, next_term_id),
        names_in(final(term_table_reverse)@, next_term_id) == listed(
            names_in(old(term_table_reverse)@, current_term_id),
            Lexeme::Ident(term@),
        ),
        final(tokens)@ == old(tokens)@.push(
            Token::Term(
                id_in(names_in(final(term_table_reverse)@, next_term_id), term@) as usize,
            ),
        ),
        next_term_id <= final(tokens)@.len(),
{
    broadcast use vstd::std_specs::hash::group_hash_axioms;

    let ghost names = names_in(term_table_reverse@, current_term_id);
    match term_table.get(term.as_str()) {
        Some(term_id) => {
            let id: usize = *term_id;
            proof {
                let at = id_in(names, term@);
                assert(names[at] == term@);
            }
            tokens.push(Token::Term(id));
            current_term_id
        },
        None => {
            let ghost name = term@;
            term_table_reverse.insert(current_term_id, term.clone());
            term_table.insert(term, current_term_id);
            tokens.push(Token::Term(current_term_id));
            // One token was emitted per id, so the ids cannot run out.
            let emitted: usize = tokens.len();
            proof {
                let grown = names_in(term_table_reverse@, (current_term_id + 1) as usize);
                assert(grown =~= names.push(name));
                assert forall|other: Seq<char>| #[trigger]
                    term_table@.contains_key(other) <==> grown.contains(other) by {
                    if other == name {
                        assert(grown[current_term_id as int] == name);
                    } else if names.contains(other) {
                        let at = id_in(names, other);
                        assert(grown[at] == other);
                    }
                }
                assert(grown[current_term_id as int] == name);
            }
            current_term_id + 1
        },
    }
}

/// What the scanner is reading.
#[derive(Clone, Copy)]
enum Mode {
    /// Neither an identifier nor a literal.
    Idle,
    /// An identifier; the buffer holds its characters so far.
    Term,
    /// A literal that the given quote opened; the buffer holds its decoded
    /// text so far.
    Quote(char),
}

/// The literal text `read` followed by what `rest` reads.
spec fn quoted_after(read: Seq<char>, rest: Quoted) -> Quoted {
    match rest {
        Ok((text, next)) => Ok((read + text, next)),
        Err(e) => Err(e),
    }
}

/// The scanner's state after the first `i` characters of `s`: `done` are
/// the lexemes that are complete, and the lexemes of `s` are `done`
/// followed by what remains to be read from the start of the lexeme that
/// is open, or from `i` if none is.
spec fn scanned(
    s: Seq<char>,
    i: int,
    mode: Mode,
    stack: Seq<char>,
    escaped: bool,
    done: Seq<Lexeme>,
    start: int,
) -> bool {
    &&& 0 <= i <= s.len()
    &&& match mode {
        Mode::Idle => {
            &&& stack.len() == 0
            &&& !escaped
            &&& lex(s) == lexemes_after(done, lex_from(s, i))
        },
        Mode::Term => {
            &&& 0 <= start < i
            &&& !escaped
            &&& stack == s.subrange(start, i)
            &&& forall|k: int| start <= k < i ==> is_term_char(#[trigger] s[k])
            &&& lex(s) == lexemes_after(done, lex_from(s, start))
        },
        Mode::Quote(q) => {
            &&& 0 <= start < i
            &&& s[start] == q
            &&& is_quote(q)
            &&& lex(s) == lexemes_after(done, lex_from(s, start))
            &&& escaped ==> start + 1 < i && s[i - 1] == BACKSLASH
            &&& quoted_from(s, q, start + 1) == quoted_after(
                stack,
                quoted_from(
                    s,
                    q,
                    if escaped {
                        i - 1
                    } else {
                        i
                    },
                ),
            )
        },
    }
}

/// Nothing in front of `rest` is `rest`.
proof fn lemma_after_nothing(rest: Lexemes)
    ensures
        lexemes_after(Seq::empty(), rest) == rest,
{
    if let Ok(more) = rest {
        assert(Seq::<Lexeme>::empty() + more =~= more);
    }
}

/// `done` in front of nothing is `done`.
proof fn lemma_after_end(done: Seq<Lexeme>)
    ensures
        lexemes_after(done, Ok(Seq::empty())) == Ok::<Seq<Lexeme>, LexError>(done),
{
    assert(done + Seq::<Lexeme>::empty() =~= done);
}

/// A lexeme at the head of the rest may as well stand at the end of what
/// is done.
proof fn lemma_after_cons(done: Seq<Lexeme>, l: Lexeme, rest: Lexemes)
    ensures
        lexemes_after(done, lexemes_cons(l, rest)) == lexemes_after(done.push(l), rest),
{
    if let Ok(more) = rest {
        assert(done + (seq![l] + more) =~= done.push(l) + more);
    }
}

/// A character at the head of the rest of a literal may as well stand at
/// the end of what was read.
proof fn lemma_quoted_push(read: Seq<char>, c: char, rest: Quoted)
    ensures
        quoted_after(read, quoted_cons(c, rest)) == quoted_after(read.push(c), rest),
{
    if let Ok((text, next)) = rest {
        assert(read + (seq![c] + text) =~= read.push(c) + text);
    }
}

/// With nothing read yet, the literal is what the rest reads.
proof fn lemma_quoted_start(read: Seq<char>, rest: Quoted)
    requires
        read.len() == 0,
    ensures
        quoted_after(read, rest) == rest,
{
    if let Ok((text, next)) = rest {
        assert(read + text =~= text);
    }
}

/// The views of tokens with one more token are the views with one more view.
proof fn lemma_toks_push(before: Seq<Token>, t: Token)
    ensures
        toks(before.push(t)) == toks(before).push(t@),
{
    assert(toks(before.push(t)) =~= toks(before).push(t@));
}

/// Handles the character `c` where neither an identifier nor a literal is
/// open: a punctuation mark becomes a token, a quote opens a literal, an
/// identifier character starts an identifier in `stack`, and any other
/// character is passed over.
fn handle_constants(c: char, tokens: &mut Vec<Token>, stack: &mut String) -> (mode: Mode)
    requires
        old(stack)@.len() == 0,
    ensures
        is_structural(c) ==> mode is Idle && final(stack)@ == old(stack)@ && final(tokens)@ == old(
            tokens,
        )@.push(punctuation_token(c)),
        is_quote(c) ==> mode == Mode::Quote(c) && final(stack)@ == old(stack)@ && final(tokens)@
            == old(tokens)@,
        is_term_char(c) ==> mode is Term && final(stack)@ == seq![c] && final(tokens)@ == old(
            tokens,
        )@,
        !is_structural(c) && !is_quote(c) && !is_term_char(c) ==> mode is Idle && final(stack)@
            == old(stack)@ && final(tokens)@ == old(tokens)@,
{
    if c == DEFN {
        tokens.push(Token::Defn);
        Mode::Idle
    } else if c == AND {
        tokens.push(Token::And);
        Mode::Idle
    } else if c == OR {
        tokens.push(Token::Or);
        Mode::Idle
    } else if structural(c) {
        tokens.push(Token::Terminal);
        Mode::Idle
    } else if quote(c) {
        Mode::Quote(c)
    } else if term_allowed(c) {
        stack.push(c);
        assert(stack@ =~= seq![c]);
        Mode::Term
    } else {
        Mode::Idle
    }
}

/// The token that the punctuation mark `c` is.
pub open spec fn punctuation_token(c: char) -> Token
    recommends
        is_structural(c),
{
    if c == DEFN {
        Token::Defn
    } else if c == AND {
        Token::And
    } else if c == OR {
        Token::Or
    } else {
        Token::Terminal
    }
}

/// `tokens` and `table` are what the text `text` tokenizes to: the text has
/// lexemes, the tokens are these lexemes with each identifier replaced by
/// its id, and the table maps each id to its identifier.
pub open spec fn tokenized(text: Seq<char>, tokens: Seq<Token>, table: Map<usize, String>) -> bool {
    &&& lex(text) matches Ok(lx)
    &&& toks(tokens) == interned(lx)
    &&& table_lists(table, names_of(lx))
}

/// Tokenizes the grammar text `text`.
///
/// On success the tokens are those of the text's lexemes, see [`lex`], with
/// each identifier replaced by its id, and the table maps each id to the
/// identifier's text. Ids are given in the order in which the identifiers
/// first occur, from 0. On failure the error is the one that makes the text
/// have no lexemes.
pub fn try_tokenize(text: &str) -> (result: Result<(Vec<Token>, HashMap<usize, String>), LexError>)
    ensures
        match result {
            Ok((tokens, table)) => tokenized(text@, tokens@, table@),
            Err(e) => lex(text@) == Err::<Seq<Lexeme>, LexError>(e),
        },
{
    let mut tokens: Vec<Token> = Vec::new();
    let mut stack = String::new();
    let mut term_table: StringHashMap<usize> = StringHashMap::new();
    let mut term_table_reverse: HashMap<usize, String> = HashMap::new();
    let mut current_term_id: usize = 0;
    let mut backslash_flag = false;
    let mut mode = Mode::Idle;
    let ghost s = text@;
    let ghost mut done: Seq<Lexeme> = Seq::empty();
    let ghost mut start: int = 0;

    proof {
        assert(lexemes_after(done, lex_from(s, 0)) == lex(s)) by {
            lemma_after_nothing(lex_from(s, 0));
        }
        assert(toks(tokens@) =~= interned(done));
        assert(names_in(term_table_reverse@, current_term_id) =~= names_of(done));
    }

    for c in it: text.chars()
        invariant
            s == text@,
            it.seq() == s,
            scanned(s, it.index() as int, mode, stack@, backslash_flag, done, start),
            toks(tokens@) == interned(done),
            tables_agree(term_table@, term_table_reverse@, current_term_id),
            names_in(term_table_reverse@, current_term_id) == names_of(done),
            current_term_id <= tokens@.len(),
    {
        let ghost i = it.index() as int;
        assert(c == s[i]);
        match mode {
            Mode::Idle => {
                let ghost before = tokens@;
                mode = handle_constants(c, &mut tokens, &mut stack);
                proof {
                    if is_structural(c) {
                        lemma_after_cons(done, punctuation(c), lex_from(s, i + 1));
                        lemma_interned_push(done, punctuation(c));
                        lemma_toks_push(before, punctuation_token(c));
                        done = done.push(punctuation(c));
                    } else if is_quote(c) {
                        start = i;
                        lemma_quoted_start(stack@, quoted_from(s, c, i + 1));
                    } else if is_term_char(c) {
                        start = i;
                        assert(stack@ =~= s.subrange(i, i + 1));
                    }
                }
            },
            Mode::Quote(q) => {
                if quote_disallowed(c) {
                    proof {
                        let e = LexError::ForbiddenInQuote(c);
                        let from = if backslash_flag {
                            i - 1
                        } else {
                            i
                        };
                        assert(quoted_from(s, q, from) == Err::<(Seq<char>, int), LexError>(e));
                        assert(quoted_from(s, q, start + 1) == Err::<(Seq<char>, int), LexError>(
                            e,
                        ));
                        assert(lex_from(s, start) == Err::<Seq<Lexeme>, LexError>(e));
                    }
                    return Err(LexError::ForbiddenInQuote(c));
                }
                if backslash_flag {
                    let decoded = unescape(c);
                    proof {
                        lemma_quoted_push(stack@, decoded, quoted_from(s, q, i + 1));
                    }
                    stack.push(decoded);
                    backslash_flag = false;
                } else if c == BACKSLASH {
                    backslash_flag = true;
                } else if c == q {
                    let ghost text = stack@;
                    proof {
                        assert(text + Seq::<char>::empty() =~= text);
                        lemma_after_cons(done, Lexeme::Literal(text), lex_from(s, i + 1));
                        lemma_interned_push(done, Lexeme::Literal(text));
                        lemma_toks_push(tokens@, Token::Literal(stack));
                        done = done.push(Lexeme::Literal(text));
                    }
                    tokens.push(Token::Literal(stack));
                    stack = String::new();
                    mode = Mode::Idle;
                } else {
                    proof {
                        lemma_quoted_push(stack@, c, quoted_from(s, q, i + 1));
                    }
                    stack.push(c);
                }
            },
            Mode::Term => {
                if term_allowed(c) {
                    stack.push(c);
                    assert(stack@ =~= s.subrange(start, i + 1));
                } else if whitespace(c) || structural(c) {
                    let ghost name = stack@;
                    proof {
                        lemma_term_end_is(s, start, i);
                        lemma_after_cons(done, Lexeme::Ident(name), lex_from(s, i));
                        lemma_interned_push(done, Lexeme::Ident(name));
                    }
                    let ghost before = tokens@;
                    current_term_id = handle_term(
                        stack,
                        &mut tokens,
                        &mut term_table,
                        &mut term_table_reverse,
                        current_term_id,
                    );
                    proof {
                        lemma_toks_push(before, tokens@.last());
                        done = done.push(Lexeme::Ident(name));
                    }
                    stack = String::new();
                    let ghost before = tokens@;
                    mode = handle_constants(c, &mut tokens, &mut stack);
                    proof {
                        if is_structural(c) {
                            lemma_after_cons(done, punctuation(c), lex_from(s, i + 1));
                            lemma_interned_push(done, punctuation(c));
                            lemma_toks_push(before, punctuation_token(c));
                            done = done.push(punctuation(c));
                        }
                    }
                } else {
                    proof {
                        lemma_term_end_is(s, start, i);
                    }
                    return Err(LexError::ForbiddenInTerm(c));
                }
            },
        }
    }

    match mode {
        Mode::Idle => {
            proof {
                lemma_after_end(done);
            }
            Ok((tokens, term_table_reverse))
        },
        Mode::Quote(_) => Err(LexError::UnclosedQuote),
        Mode::Term => {
            let ghost name = stack@;
            let ghost before = tokens@;
            proof {
                lemma_term_end_is(s, start, s.len() as int);
                lemma_after_cons(done, Lexeme::Ident(name), lex_from(s, s.len() as int));
                lemma_after_end(done.push(Lexeme::Ident(name)));
                lemma_interned_push(done, Lexeme::Ident(name));
            }
            handle_term(
                stack,
                &mut tokens,
                &mut term_table,
                &mut term_table_reverse,
                current_term_id,
            );
            proof {
                lemma_toks_push(before, tokens@.last());
            }
            Ok((tokens, term_table_reverse))
        },
    }
}

/// Tokenizes the grammar text `string`, as [`try_tokenize`] does, without
/// saying why a text was refused.
pub fn tokenize(string: String) -> (result: Option<(Vec<Token>, HashMap<usize, String>)>)
    ensures
        match result {
            Some((tokens, table)) => tokenized(string@, tokens@, table@),
            None => lex(string@) is Err,
        },
{
    match try_tokenize(string.as_str()) {
        Ok(out) => Some(out),
        Err(_) => None,
    }
}

} // verus!
