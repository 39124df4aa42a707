use grammar_ast::tokenizer::{tokenize, try_tokenize, LexError, Token};
use std::collections::HashMap;

fn table_of(names: &[&str]) -> HashMap<usize, String> {
    let mut table = HashMap::new();
    for (id, name) in names.iter().enumerate() {
        table.insert(id, name.to_string());
    }
    table
}

#[test]
fn one_production_gives_four_tokens() {
    let (tokens, table) = tokenize("A : B ;".to_string()).unwrap();
    assert_eq!(
        tokens,
        vec![Token::Term(0), Token::Defn, Token::Term(1), Token::Terminal]
    );
    assert_eq!(table, table_of(&["A", "B"]));
}

#[test]
fn punctuation_needs_no_white_space() {
    let (tokens, table) = tokenize("a:b,c|d;".to_string()).unwrap();
    assert_eq!(
        tokens,
        vec![
            Token::Term(0),
            Token::Defn,
            Token::Term(1),
            Token::And,
            Token::Term(2),
            Token::Or,
            Token::Term(3),
            Token::Terminal,
        ]
    );
    assert_eq!(table, table_of(&["a", "b", "c", "d"]));
}

#[test]
fn white_space_of_any_kind_separates() {
    let (tokens, table) = tokenize("one\ntwo\tthree\r\nfour\u{a0}five  six".to_string()).unwrap();
    assert_eq!(
        tokens,
        vec![
            Token::Term(0),
            Token::Term(1),
            Token::Term(2),
            Token::Term(3),
            Token::Term(4),
            Token::Term(5),
        ]
    );
    assert_eq!(table, table_of(&["one", "two", "three", "four", "five", "six"]));
}

#[test]
fn identifiers_hold_letters_digits_and_underscores() {
    let (tokens, table) = tokenize("_x1 9lives Snake_Case".to_string()).unwrap();
    assert_eq!(tokens, vec![Token::Term(0), Token::Term(1), Token::Term(2)]);
    assert_eq!(table, table_of(&["_x1", "9lives", "Snake_Case"]));
}

#[test]
fn a_repeated_identifier_keeps_its_id() {
    let (tokens, table) = tokenize("b a b c a".to_string()).unwrap();
    assert_eq!(
        tokens,
        vec![
            Token::Term(0),
            Token::Term(1),
            Token::Term(0),
            Token::Term(2),
            Token::Term(1),
        ]
    );
    assert_eq!(table, table_of(&["b", "a", "c"]));
}

#[test]
fn a_pending_identifier_is_flushed_at_the_end() {
    let (tokens, table) = tokenize("A : tail".to_string()).unwrap();
    assert_eq!(tokens, vec![Token::Term(0), Token::Defn, Token::Term(1)]);
    assert_eq!(table, table_of(&["A", "tail"]));
}

#[test]
fn the_empty_text_has_no_tokens() {
    let (tokens, table) = tokenize(String::new()).unwrap();
    assert!(tokens.is_empty());
    assert!(table.is_empty());
}

#[test]
fn literals_keep_what_stands_between_their_quotes() {
    let text = "'a b' \"c:d,e|f;\" '' \"it's\" 'say \"hi\"'";
    let (tokens, table) = tokenize(text.to_string()).unwrap();
    assert_eq!(
        tokens,
        vec![
            Token::Literal("a b".to_string()),
            Token::Literal("c:d,e|f;".to_string()),
            Token::Literal(String::new()),
            Token::Literal("it's".to_string()),
            Token::Literal("say \"hi\"".to_string()),
        ]
    );
    assert!(table.is_empty());
}

#[test]
fn literal_decoding_turns_backslash_n_into_a_newline() {
    let (tokens, _) = tokenize("A : 'a\\nb' ;".to_string()).unwrap();
    assert_eq!(
        tokens,
        vec![
            Token::Term(0),
            Token::Defn,
            Token::Literal("a\nb".to_string()),
            Token::Terminal,
        ]
    );
}

#[test]
fn escapes_decode_tab_quote_backslash_and_others() {
    let (tokens, _) = tokenize("'\\t' 'don\\'t' '\\\\' '\\x\\n'".to_string()).unwrap();
    assert_eq!(
        tokens,
        vec![
            Token::Literal("\t".to_string()),
            Token::Literal("don't".to_string()),
            Token::Literal("\\".to_string()),
            Token::Literal("x\n".to_string()),
        ]
    );
}

#[test]
fn a_literal_may_be_followed_by_an_identifier_at_once() {
    let (tokens, table) = tokenize("'x'y".to_string()).unwrap();
    assert_eq!(tokens, vec![Token::Literal("x".to_string()), Token::Term(0)]);
    assert_eq!(table, table_of(&["y"]));
}

#[test]
fn stray_characters_outside_identifiers_are_passed_over() {
    let (tokens, table) = tokenize("@ A # : \\ B ;".to_string()).unwrap();
    assert_eq!(
        tokens,
        vec![Token::Term(0), Token::Defn, Token::Term(1), Token::Terminal]
    );
    assert_eq!(table, table_of(&["A", "B"]));
}

#[test]
fn error_surfacing_for_an_unterminated_literal() {
    assert!(tokenize("A : 'unterminated".to_string()).is_none());
    assert_eq!(try_tokenize("A : 'unterminated"), Err(LexError::UnclosedQuote));
}

#[test]
fn a_literal_that_ends_in_a_backslash_is_unclosed() {
    assert_eq!(try_tokenize("'abc\\"), Err(LexError::UnclosedQuote));
    assert_eq!(try_tokenize("'abc\\'"), Err(LexError::UnclosedQuote));
    assert!(tokenize("\"".to_string()).is_none());
}

#[test]
fn the_other_quote_does_not_close_a_literal() {
    assert_eq!(try_tokenize("'abc\""), Err(LexError::UnclosedQuote));
}

#[test]
fn control_characters_break_a_literal() {
    assert_eq!(try_tokenize("'a\nb'"), Err(LexError::ForbiddenInQuote('\n')));
    assert_eq!(try_tokenize("\"a\tb\""), Err(LexError::ForbiddenInQuote('\t')));
    assert_eq!(try_tokenize("'a\rb'"), Err(LexError::ForbiddenInQuote('\r')));
    assert_eq!(try_tokenize("'a\\\nb'"), Err(LexError::ForbiddenInQuote('\n')));
    assert!(tokenize("'a\nb'".to_string()).is_none());
}

#[test]
fn an_identifier_must_end_in_white_space_or_punctuation() {
    assert_eq!(try_tokenize("ab@"), Err(LexError::ForbiddenInTerm('@')));
    assert_eq!(try_tokenize("ab'c'"), Err(LexError::ForbiddenInTerm('\'')));
    assert_eq!(try_tokenize("x-y"), Err(LexError::ForbiddenInTerm('-')));
    assert_eq!(try_tokenize("caf\u{e9}"), Err(LexError::ForbiddenInTerm('\u{e9}')));
    assert!(tokenize("a.b".to_string()).is_none());
}

#[test]
fn the_first_error_is_the_one_reported() {
    assert_eq!(try_tokenize("a! 'b\nc'"), Err(LexError::ForbiddenInTerm('!')));
    assert_eq!(try_tokenize("'b\nc' a!"), Err(LexError::ForbiddenInQuote('\n')));
}

#[test]
fn both_entry_points_agree() {
    let text = "expr : term , '+' , expr | term ;";
    assert_eq!(tokenize(text.to_string()), try_tokenize(text).ok());
}

#[test]
fn literals_may_hold_any_other_character() {
    let text = "\u{3000}'h\u{e9}llo \u{2713} \u{1f600}' \u{2713} z";
    let (tokens, table) = tokenize(text.to_string()).unwrap();
    assert_eq!(
        tokens,
        vec![
            Token::Literal("h\u{e9}llo \u{2713} \u{1f600}".to_string()),
            Token::Term(0),
        ]
    );
    assert_eq!(table, table_of(&["z"]));
}
