//! Laws of tokenizing and parsing, proved from the contracts.

use vstd::prelude::*;
use crate::chars::is_term_char;
use crate::grammar::{
    expression_at, grammar, is_alternative, is_expression, is_grammar_tree, is_item,
    is_statement, leaf, lemma_expression_at, lemma_root_at, lemma_statement_at,
    lemma_subexpression_at, lit_term_at, root_at, spelled, statement_at, subexpression_at,
};
use crate::interning::{
    id_in, interned, lemma_id_in, lemma_interned_push, lemma_names_are_the_identifiers,
    lemma_names_distinct, names_of,
};
use crate::lexemes::{lex, Lexeme};
use crate::parser::{Node, ParseError, Role, Tree};
use crate::runs::{
    has_ident, ident_count, ids_below, ids_of, in_literal, in_literal_from,
    lemma_identifiers_are_runs, lemma_ids_below, lemma_ids_of_interned,
    lemma_term_count_interned, literals_hold_no_term_char, run_count, run_texts, stands_before,
    term_count,
};
use crate::tokenizer::{tokenized, toks, Tok, Token};

verus! {

/// Interning loses nothing and confuses nothing.
///
/// There is one token per lexeme. The token of an identifier is a term
/// whose id the table maps back to the identifier's text; two identifiers
/// have the same id exactly if they are the same text; and the table has no
/// id but those of the text's identifiers.
pub proof fn lemma_interning_round_trip(
    text: Seq<char>,
    tokens: Seq<Token>,
    table: Map<usize, String>,
)
    requires
        tokenized(text, tokens, table),
    ensures
        tokens.len() == lex(text)->Ok_0.len(),
        forall|k: int|
            0 <= k < tokens.len() ==> (#[trigger] tokens[k] is Term <==> lex(
                text,
            )->Ok_0[k] is Ident),
        forall|k: int|
            0 <= k < tokens.len() && #[trigger] tokens[k] is Term ==> table.contains_key(
                tokens[k]->Term_0,
            ) && table[tokens[k]->Term_0]@ == lex(text)->Ok_0[k]->Ident_0,
        forall|j: int, k: int|
            0 <= j < tokens.len() && 0 <= k < tokens.len() && #[trigger] tokens[j] is Term
                && #[trigger] tokens[k] is Term ==> (tokens[j]->Term_0 == tokens[k]->Term_0
                <==> lex(text)->Ok_0[j] == lex(text)->Ok_0[k]),
        forall|id: usize| #[trigger]
            table.contains_key(id) ==> exists|k: int|
                0 <= k < tokens.len() && #[trigger] tokens[k] == Token::Term(id),
{
    let lx = lex(text)->Ok_0;
    let names = names_of(lx);
    lemma_names_distinct(lx);
    lemma_names_are_the_identifiers(lx);
    assert(toks(tokens).len() == tokens.len() && interned(lx).len() == lx.len());
    assert forall|k: int| 0 <= k < tokens.len() implies (#[trigger] tokens[k] is Term
        <==> lx[k] is Ident) by {
        assert(toks(tokens)[k] == tokens[k]@);
    }
    assert forall|k: int| 0 <= k < tokens.len() && #[trigger] tokens[k] is Term implies id_in(
        names,
        lx[k]->Ident_0,
    ) == tokens[k]->Term_0 && names[tokens[k]->Term_0 as int] == lx[k]->Ident_0 by {
        assert(toks(tokens)[k] == tokens[k]@);
        assert(interned(lx)[k] == toks(tokens)[k]);
    }
    assert forall|id: usize| #[trigger] table.contains_key(id) implies exists|k: int|
        0 <= k < tokens.len() && #[trigger] tokens[k] == Token::Term(id) by {
        let k = choose|k: int|
            0 <= k < lx.len() && #[trigger] lx[k] == Lexeme::Ident(names[id as int]);
        lemma_id_in(names, id as int);
        assert(toks(tokens)[k] == tokens[k]@);
        assert(interned(lx)[k] == Tok::Term(id));
    }
}

/// Ids are given in the order of first occurrence, from 0: where a term
/// stands, every smaller id stands somewhere before it.
pub proof fn lemma_ids_in_order_of_first_occurrence(
    text: Seq<char>,
    tokens: Seq<Token>,
    table: Map<usize, String>,
)
    requires
        tokenized(text, tokens, table),
    ensures
        forall|k: int, id: usize|
            0 <= k < tokens.len() && tokens[k] is Term && id < tokens[k]->Term_0
                ==> #[trigger] stands_before(toks(tokens), id, k),
{
    let lx = lex(text)->Ok_0;
    lemma_first_occurrences(lx);
    assert(toks(tokens).len() == tokens.len() && interned(lx).len() == lx.len());
    assert forall|k: int, id: usize|
        0 <= k < tokens.len() && tokens[k] is Term && id < tokens[k]->Term_0
        implies #[trigger] stands_before(toks(tokens), id, k) by {
        assert(toks(tokens)[k] == tokens[k]@);
        assert(interned(lx)[k] == Tok::Term(tokens[k]->Term_0));
    }
}

/// Among interned lexemes every id stands somewhere, and where a term
/// stands, every smaller id stands somewhere before it.
proof fn lemma_first_occurrences(lx: Seq<Lexeme>)
    ensures
        forall|id: usize|
            id < names_of(lx).len() ==> #[trigger] stands_before(
                interned(lx),
                id,
                lx.len() as int,
            ),
        forall|k: int, id: usize|
            0 <= k < lx.len() && interned(lx)[k] is Term && id < interned(lx)[k]->Term_0
                ==> #[trigger] stands_before(interned(lx), id, k),
    decreases lx.len(),
{
    let names = names_of(lx);
    lemma_names_distinct(lx);
    lemma_names_are_the_identifiers(lx);
    assert forall|id: usize| id < names.len() implies #[trigger] stands_before(
        interned(lx),
        id,
        lx.len() as int,
    ) by {
        let j = choose|j: int|
            0 <= j < lx.len() && #[trigger] lx[j] == Lexeme::Ident(names[id as int]);
        lemma_id_in(names, id as int);
        assert(interned(lx)[j] == Tok::Term(id));
    }
    if lx.len() > 0 {
        let before = lx.drop_last();
        let last = lx.last();
        assert(before.push(last) == lx);
        lemma_interned_push(before, last);
        lemma_first_occurrences(before);
        lemma_names_distinct(before);
        assert forall|k: int, id: usize|
            0 <= k < lx.len() && interned(lx)[k] is Term && id < interned(lx)[k]->Term_0
            implies #[trigger] stands_before(interned(lx), id, k) by {
            if k < before.len() {
                assert(interned(lx)[k] == interned(before)[k]);
                assert(stands_before(interned(before), id, k));
                let j = choose|j: int|
                    0 <= j < k && #[trigger] interned(before)[j] == Tok::Term(id);
                assert(interned(lx)[j] == Tok::Term(id));
            } else {
                let name = last->Ident_0;
                let at = id_in(names, name);
                assert(names[at] == name);
                assert(id < names_of(before).len());
                assert(stands_before(interned(before), id, before.len() as int));
                let j = choose|j: int|
                    0 <= j < before.len() && #[trigger] interned(before)[j] == Tok::Term(id);
                assert(interned(lx)[j] == Tok::Term(id));
            }
        }
    }
}

/// The distinct identifiers among the lexemes `lx`.
pub open spec fn identifiers(lx: Seq<Lexeme>) -> Set<Seq<char>> {
    Set::new(|name: Seq<char>| has_ident(lx, name))
}

/// Tokens are counted as lexemes are: there are as many terms among the
/// tokens as identifiers among the lexemes, duplicates included, and as
/// many distinct ids, all of them keys of the table, as distinct
/// identifiers.
pub proof fn lemma_terms_counted(text: Seq<char>, tokens: Seq<Token>, table: Map<usize, String>)
    requires
        tokenized(text, tokens, table),
    ensures
        term_count(toks(tokens)) == ident_count(lex(text)->Ok_0),
        ids_of(toks(tokens)).finite(),
        identifiers(lex(text)->Ok_0).finite(),
        ids_of(toks(tokens)).len() == identifiers(lex(text)->Ok_0).len(),
        ids_of(toks(tokens)) == table.dom(),
{
    let lx = lex(text)->Ok_0;
    let names = names_of(lx);
    lemma_term_count_interned(lx);
    lemma_ids_of_interned(lx);
    lemma_ids_below(names.len());
    assert(table.dom() =~= ids_below(names.len()));
    lemma_names_distinct(lx);
    lemma_names_are_the_identifiers(lx);
    assert(names.to_set() =~= identifiers(lx));
    names.unique_seq_to_set();
    vstd::seq_lib::seq_to_set_is_finite(names);
}

/// Terms are counted as runs are. Where no identifier character stands
/// inside a literal, there are as many terms among the tokens as maximal
/// runs of identifier characters in the text, duplicates included, and as
/// many distinct ids as distinct texts of such runs.
///
/// A literal that holds an identifier character adds a run to the text and
/// no term to the tokens.
pub proof fn lemma_token_count_conservation(
    text: Seq<char>,
    tokens: Seq<Token>,
    table: Map<usize, String>,
)
    requires
        tokenized(text, tokens, table),
        literals_hold_no_term_char(text),
    ensures
        term_count(toks(tokens)) == run_count(text),
        ids_of(toks(tokens)).finite(),
        run_texts(text).finite(),
        ids_of(toks(tokens)).len() == run_texts(text).len(),
{
    let lx = lex(text)->Ok_0;
    lemma_terms_counted(text, tokens, table);
    assert forall|k: int| #[trigger] in_literal_from(text, 0, k) implies !is_term_char(
        text[k],
    ) by {
        assert(in_literal(text, k));
    }
    lemma_identifiers_are_runs(text, 0);
    assert(identifiers(lx) =~= run_texts(text));
}

/// Tokenizing a text twice gives the same tokens, with the same ids in the
/// same order, and tables with the same ids for the same identifiers.
pub proof fn lemma_tokenize_deterministic(
    text: Seq<char>,
    tokens: Seq<Token>,
    table: Map<usize, String>,
    tokens_again: Seq<Token>,
    table_again: Map<usize, String>,
)
    requires
        tokenized(text, tokens, table),
        tokenized(text, tokens_again, table_again),
    ensures
        toks(tokens) == toks(tokens_again),
        forall|id: usize| table.contains_key(id) <==> table_again.contains_key(id),
        forall|id: usize| table.contains_key(id) ==> table[id]@ == table_again[id]@,
{
}

/// Parsing the same tokens twice gives the same tree.
pub proof fn lemma_parse_deterministic(tokens: Seq<Token>, strict: bool, tree: Node, again: Node)
    requires
        grammar(toks(tokens), strict) == Ok::<Tree, ParseError>(tree@),
        grammar(toks(tokens), strict) == Ok::<Tree, ParseError>(again@),
    ensures
        tree@ == again@,
{
}

/// The tree of a grammar is a tree as [`is_grammar_tree`] describes, and it
/// spells the grammar's tokens, all of them and in order.
pub proof fn lemma_grammar_is_spelled(toks: Seq<Tok>)
    requires
        grammar(toks, true) is Ok,
    ensures
        is_grammar_tree(grammar(toks, true)->Ok_0),
        spelled(grammar(toks, true)->Ok_0) == toks,
{
    lemma_root_spelled(toks, 0);
    assert(toks.subrange(0, toks.len() as int) =~= toks);
}

/// What a tree spells is a grammar, and the tree is the tree of that
/// grammar: no other tree spells the same tokens.
pub proof fn lemma_spelling_is_a_grammar(tree: Tree)
    requires
        is_grammar_tree(tree),
    ensures
        grammar(spelled(tree), true) == Ok::<Tree, ParseError>(tree),
{
    let toks = spelled(tree);
    assert(toks.subrange(0, toks.len() as int) =~= toks);
    lemma_root_found(toks, 0, tree);
}

/// An alternative is an alternative tree and spells the tokens that it
/// took.
proof fn lemma_subexpression_spelled(toks: Seq<Tok>, i: int)
    requires
        subexpression_at(toks, i) is Ok,
    ensures
        is_alternative(subexpression_at(toks, i)->Ok_0.0),
        spelled(subexpression_at(toks, i)->Ok_0.0) == toks.subrange(
            i,
            subexpression_at(toks, i)->Ok_0.1,
        ),
    decreases toks.len() - i,
{
    let (tree, end) = subexpression_at(toks, i)->Ok_0;
    let (item, next) = lit_term_at(toks, i)->Ok_0;
    lemma_subexpression_at(toks, i);
    assert(spelled(item) =~= toks.subrange(i, i + 1)) by {
        reveal_with_fuel(spelled, 2);
    }
    if toks[next] is And {
        lemma_subexpression_spelled(toks, next + 1);
        let (rest, _) = subexpression_at(toks, next + 1)->Ok_0;
        assert(spelled(tree) == spelled(item) + seq![Tok::And] + spelled(rest));
        assert(spelled(tree) =~= toks.subrange(i, end));
    } else {
        assert(spelled(tree) == spelled(item));
    }
}

/// An expression is an expression tree and spells the tokens that it
/// took.
proof fn lemma_expression_spelled(toks: Seq<Tok>, i: int)
    requires
        expression_at(toks, i) is Ok,
    ensures
        is_expression(expression_at(toks, i)->Ok_0.0),
        spelled(expression_at(toks, i)->Ok_0.0) == toks.subrange(
            i,
            expression_at(toks, i)->Ok_0.1,
        ),
    decreases toks.len() - i,
{
    let (tree, end) = expression_at(toks, i)->Ok_0;
    let (alternative, next) = subexpression_at(toks, i)->Ok_0;
    lemma_subexpression_at(toks, i);
    lemma_expression_at(toks, i);
    lemma_subexpression_spelled(toks, i);
    if toks[next] is Or {
        lemma_expression_spelled(toks, next + 1);
        lemma_expression_at(toks, next + 1);
        let (rest, _) = expression_at(toks, next + 1)->Ok_0;
        assert(spelled(tree) == spelled(alternative) + seq![Tok::Or] + spelled(rest));
        assert(spelled(tree) =~= toks.subrange(i, end));
    } else {
        assert(spelled(tree) == spelled(alternative) + seq![Tok::Terminal]);
        assert(spelled(tree) =~= toks.subrange(i, end));
    }
}

/// A list of productions is a tree of productions and spells the tokens
/// that it took.
proof fn lemma_root_spelled(toks: Seq<Tok>, i: int)
    requires
        0 <= i <= toks.len(),
        root_at(toks, i, true) is Ok,
    ensures
        is_grammar_tree(root_at(toks, i, true)->Ok_0.0),
        spelled(root_at(toks, i, true)->Ok_0.0) == toks.subrange(i, toks.len() as int),
    decreases toks.len() - i,
{
    let (tree, end) = root_at(toks, i, true)->Ok_0;
    if i < toks.len() {
        let (statement, next) = statement_at(toks, i, true)->Ok_0;
        let (expression, _) = expression_at(toks, i + 2)->Ok_0;
        let (rest, _) = root_at(toks, next, true)->Ok_0;
        lemma_statement_at(toks, i, true);
        lemma_expression_spelled(toks, i + 2);
        lemma_root_spelled(toks, next);
        assert(spelled(statement) =~= toks.subrange(i, next)) by {
            reveal_with_fuel(spelled, 2);
            assert(spelled(statement) == seq![toks[i]] + seq![Tok::Defn] + spelled(expression));
        }
        assert(is_statement(statement));
        if rest.left is Some {
            assert(spelled(tree) == spelled(statement) + spelled(rest));
        } else {
            assert(next == toks.len());
            assert(spelled(tree) == spelled(statement));
        }
        assert(spelled(tree) =~= toks.subrange(i, toks.len() as int));
    } else {
        assert(spelled(tree) =~= toks.subrange(i, toks.len() as int));
    }
}

/// `word` stands in `toks` at position `i`.
spec fn stands_at(toks: Seq<Tok>, i: int, word: Seq<Tok>) -> bool {
    0 <= i && i + word.len() <= toks.len() && toks.subrange(i, i + word.len()) == word
}

/// Where a word made of parts stands, its parts stand one behind the
/// other.
proof fn lemma_parts_stand(toks: Seq<Tok>, i: int, first: Seq<Tok>, second: Seq<Tok>)
    requires
        stands_at(toks, i, first + second),
    ensures
        stands_at(toks, i, first),
        stands_at(toks, i + first.len(), second),
{
    let word = first + second;
    assert(toks.subrange(i, i + first.len()) =~= word.subrange(0, first.len() as int));
    assert(word.subrange(0, first.len() as int) =~= first);
    assert(toks.subrange(i + first.len(), i + first.len() + second.len()) =~= word.subrange(
        first.len() as int,
        word.len() as int,
    ));
    assert(word.subrange(first.len() as int, word.len() as int) =~= second);
}

/// Where one token stands, it is the token at that position.
proof fn lemma_token_stands(toks: Seq<Tok>, i: int, t: Tok)
    requires
        stands_at(toks, i, seq![t]),
    ensures
        i < toks.len(),
        toks[i] == t,
{
    assert(toks.subrange(i, i + 1)[0] == t);
}

/// Where the spelling of an item stands, the item is found.
proof fn lemma_item_found(toks: Seq<Tok>, i: int, tree: Tree)
    requires
        is_item(tree),
        stands_at(toks, i, spelled(tree)),
    ensures
        spelled(tree).len() == 1,
        lit_term_at(toks, i) == Ok::<(Tree, int), ParseError>((tree, i + 1)),
{
    reveal_with_fuel(spelled, 2);
    let leaf = *tree.left->0;
    lemma_token_stands(toks, i, spelled(tree)[0]);
}

/// Where the spelling of an alternative stands in front of a `Terminal` or
/// an `Or`, the alternative is found.
proof fn lemma_alternative_found(toks: Seq<Tok>, i: int, tree: Tree)
    requires
        is_alternative(tree),
        stands_at(toks, i, spelled(tree)),
        i + spelled(tree).len() < toks.len(),
        toks[i + spelled(tree).len()] is Terminal || toks[i + spelled(tree).len()] is Or,
    ensures
        subexpression_at(toks, i) == Ok::<(Tree, int), ParseError>(
            (tree, i + spelled(tree).len()),
        ),
    decreases tree,
{
    let item = *tree.left->0;
    match tree.right {
        None => {
            lemma_item_found(toks, i, item);
        },
        Some(more) => {
            let rest = *more;
            assert(spelled(tree) == (spelled(item) + seq![Tok::And]) + spelled(rest));
            lemma_parts_stand(toks, i, spelled(item) + seq![Tok::And], spelled(rest));
            lemma_parts_stand(toks, i, spelled(item), seq![Tok::And]);
            lemma_item_found(toks, i, item);
            lemma_token_stands(toks, i + 1, Tok::And);
            lemma_alternative_found(toks, i + 2, rest);
        },
    }
}

/// Where the spelling of an expression stands, the expression is found.
proof fn lemma_expression_found(toks: Seq<Tok>, i: int, tree: Tree)
    requires
        is_expression(tree),
        stands_at(toks, i, spelled(tree)),
    ensures
        expression_at(toks, i) == Ok::<(Tree, int), ParseError>((tree, i + spelled(tree).len())),
    decreases tree,
{
    let alternative = *tree.left->0;
    let n = spelled(alternative).len() as int;
    match tree.right {
        None => {
            assert(spelled(tree) == spelled(alternative) + seq![Tok::Terminal]);
            lemma_parts_stand(toks, i, spelled(alternative), seq![Tok::Terminal]);
            lemma_token_stands(toks, i + n, Tok::Terminal);
            lemma_alternative_found(toks, i, alternative);
        },
        Some(more) => {
            let rest = *more;
            assert(spelled(tree) == (spelled(alternative) + seq![Tok::Or]) + spelled(rest));
            lemma_parts_stand(toks, i, spelled(alternative) + seq![Tok::Or], spelled(rest));
            lemma_parts_stand(toks, i, spelled(alternative), seq![Tok::Or]);
            lemma_token_stands(toks, i + n, Tok::Or);
            lemma_alternative_found(toks, i, alternative);
            lemma_expression_found(toks, i + n + 1, rest);
        },
    }
}

/// Where the spelling of a production stands, the production is found.
proof fn lemma_statement_found(toks: Seq<Tok>, i: int, tree: Tree)
    requires
        is_statement(tree),
        stands_at(toks, i, spelled(tree)),
    ensures
        spelled(tree).len() >= 4,
        toks[i] is Term,
        statement_at(toks, i, true) == Ok::<(Tree, int), ParseError>(
            (tree, i + spelled(tree).len()),
        ),
{
    let name = *tree.left->0;
    let expression = *tree.right->0;
    assert(spelled(name) == seq![Tok::Term(name.role->Term_0)]) by {
        reveal_with_fuel(spelled, 2);
    }
    assert(spelled(tree) == (spelled(name) + seq![Tok::Defn]) + spelled(expression));
    lemma_parts_stand(toks, i, spelled(name) + seq![Tok::Defn], spelled(expression));
    lemma_parts_stand(toks, i, spelled(name), seq![Tok::Defn]);
    lemma_token_stands(toks, i, Tok::Term(name.role->Term_0));
    lemma_token_stands(toks, i + 1, Tok::Defn);
    lemma_expression_found(toks, i + 2, expression);
    lemma_expression_at(toks, i + 2);
}

/// Where the spelling of a list of productions stands at the end of the
/// tokens, the list is found.
proof fn lemma_root_found(toks: Seq<Tok>, i: int, tree: Tree)
    requires
        is_grammar_tree(tree),
        stands_at(toks, i, spelled(tree)),
        i + spelled(tree).len() == toks.len(),
    ensures
        root_at(toks, i, true) == Ok::<(Tree, int), ParseError>((tree, toks.len() as int)),
    decreases tree,
{
    match tree.left {
        None => {
            assert(spelled(tree) =~= Seq::empty());
            assert(tree == leaf(Role::Root));
        },
        Some(first) => {
            let statement = *first;
            match tree.right {
                None => {
                    assert(spelled(tree) == spelled(statement));
                    lemma_statement_found(toks, i, statement);
                    assert(root_at(toks, toks.len() as int, true) == Ok::<(Tree, int), ParseError>(
                        (leaf(Role::Root), toks.len() as int),
                    ));
                },
                Some(more) => {
                    let rest = *more;
                    assert(spelled(tree) == spelled(statement) + spelled(rest));
                    lemma_parts_stand(toks, i, spelled(statement), spelled(rest));
                    lemma_statement_found(toks, i, statement);
                    lemma_root_found(toks, i + spelled(statement).len(), rest);
                },
            }
        },
    }
}

/// Passing over the token behind a production's name accepts whatever
/// looking at it accepts, with the same tree.
proof fn lemma_strict_root_is_lenient(toks: Seq<Tok>, i: int)
    requires
        root_at(toks, i, true) is Ok,
    ensures
        root_at(toks, i, false) == root_at(toks, i, true),
    decreases toks.len() - i,
{
    if 0 <= i < toks.len() {
        lemma_statement_at(toks, i, true);
        let (_, next) = statement_at(toks, i, true)->Ok_0;
        lemma_strict_root_is_lenient(toks, next);
    }
}

/// A grammar whose productions all have `Defn` behind their name is the
/// same grammar, with the same tree, when that token is passed over unseen.
pub proof fn lemma_strict_grammar_is_lenient(toks: Seq<Tok>)
    requires
        grammar(toks, true) is Ok,
    ensures
        grammar(toks, false) == grammar(toks, true),
{
    lemma_strict_root_is_lenient(toks, 0);
}

/// A grammar is read to its end: the list of productions that starts at
/// the first token ends behind the last.
pub proof fn lemma_grammar_takes_every_token(toks: Seq<Tok>, strict: bool)
    ensures
        root_at(toks, 0, strict) matches Ok((_, end)) ==> end == toks.len(),
{
    lemma_root_at(toks, 0, strict);
}

} // verus!
