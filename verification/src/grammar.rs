//! Which token sequences are grammars, and which tree each one is.
//!
//! This module holds no executable code. One function per role says what
//! that role matches at a position of the tokens: the tree and the position
//! behind it, or what was expected and where.
//!
//! ```text
//! root          : statement root | nothing
//! statement     : Term Defn expression
//! expression    : subexpression Or expression | subexpression Terminal
//! subexpression : litterm And subexpression | litterm
//! litterm       : Term | Literal
//! ```

use vstd::prelude::*;
use crate::parser::{Expected, ParseError, Role, Tree};
use crate::tokenizer::Tok;

verus! {

/// What a role matches: the tree and the position behind the tokens that
/// it took, or the mismatch.
pub type Parsed = Result<(Tree, int), ParseError>;

/// A tree without children.
pub open spec fn leaf(role: Role) -> Tree {
    Tree { role, left: None, right: None }
}

/// A tree with a first child and, where `right` is given, a second.
pub open spec fn branch(role: Role, left: Tree, right: Option<Tree>) -> Tree {
    Tree {
        role,
        left: Some(Box::new(left)),
        right: match right {
            Some(tree) => Some(Box::new(tree)),
            None => None,
        },
    }
}

/// The elements of the list that `tree` heads, in order: its `left`, then
/// the elements of the list that its `right` heads. A tree without `left`
/// is the empty list.
pub open spec fn elements_of(tree: Tree) -> Seq<Tree>
    decreases tree,
{
    match tree.left {
        None => Seq::empty(),
        Some(first) => match tree.right {
            None => seq![*first],
            Some(rest) => seq![*first] + elements_of(*rest),
        },
    }
}

/// A leaf: a term or a literal, without children.
pub open spec fn is_leaf(tree: Tree) -> bool {
    (tree.role is Term || tree.role is Literal) && tree.left is None && tree.right is None
}

/// The tree of one item: a `LitTerm` over a leaf.
pub open spec fn is_item(tree: Tree) -> bool {
    &&& tree.role is LitTerm
    &&& tree.right is None
    &&& match tree.left {
        Some(leaf) => is_leaf(*leaf),
        None => false,
    }
}

/// The tree of one alternative: a `Subexpression` over an item and, where
/// more items follow, the tree of the alternative that they make.
pub open spec fn is_alternative(tree: Tree) -> bool
    decreases tree,
{
    &&& tree.role is Subexpression
    &&& match tree.left {
        Some(item) => is_item(*item),
        None => false,
    }
    &&& match tree.right {
        Some(rest) => is_alternative(*rest),
        None => true,
    }
}

/// The tree of an expression: an `Expression` over an alternative and,
/// where more alternatives follow, the tree of the expression that they
/// make.
pub open spec fn is_expression(tree: Tree) -> bool
    decreases tree,
{
    &&& tree.role is Expression
    &&& match tree.left {
        Some(alternative) => is_alternative(*alternative),
        None => false,
    }
    &&& match tree.right {
        Some(rest) => is_expression(*rest),
        None => true,
    }
}

/// The tree of one production: a `Statement` over the term that names it
/// and the tree of its expression.
pub open spec fn is_statement(tree: Tree) -> bool {
    &&& tree.role is Statement
    &&& match tree.left {
        Some(name) => name.role is Term && is_leaf(*name),
        None => false,
    }
    &&& match tree.right {
        Some(expression) => is_expression(*expression),
        None => false,
    }
}

/// The tree of a list of productions: a `Root` without children for the
/// empty list, else a `Root` over a production and, where more productions
/// follow, the tree of the list that they make.
pub open spec fn is_grammar_tree(tree: Tree) -> bool
    decreases tree,
{
    &&& tree.role is Root
    &&& match tree.left {
        Some(statement) => is_statement(*statement) && match tree.right {
            Some(rest) => rest.left is Some && is_grammar_tree(*rest),
            None => true,
        },
        None => tree.right is None,
    }
}

/// The tokens that a tree spells: its leaves from left to right, with a
/// `Defn` behind the name of each statement, an `And` between the items of
/// an alternative, an `Or` between the alternatives of an expression and a
/// `Terminal` at its end.
pub open spec fn spelled(tree: Tree) -> Seq<Tok>
    decreases tree,
{
    let left = match tree.left {
        Some(child) => spelled(*child),
        None => Seq::empty(),
    };
    match tree.role {
        Role::Term(id) => seq![Tok::Term(id)],
        Role::Literal(text) => seq![Tok::Literal(text)],
        Role::LitTerm => left,
        Role::Subexpression => match tree.right {
            Some(rest) => left + seq![Tok::And] + spelled(*rest),
            None => left,
        },
        Role::Expression => match tree.right {
            Some(rest) => left + seq![Tok::Or] + spelled(*rest),
            None => left + seq![Tok::Terminal],
        },
        Role::Statement => match tree.right {
            Some(expression) => left + seq![Tok::Defn] + spelled(*expression),
            None => left + seq![Tok::Defn],
        },
        Role::Root => match tree.right {
            Some(rest) => left + spelled(*rest),
            None => left,
        },
    }
}

/// The mismatch at position `i`: the position is that of the offending
/// token, or the number of tokens if `i` is behind the last one.
pub open spec fn mismatch(toks: Seq<Tok>, i: int, expected: Expected) -> ParseError {
    ParseError {
        position: (if i < toks.len() {
            i
        } else {
            toks.len() as int
        }) as usize,
        expected,
    }
}

/// One item: the token at `i` is a term or a literal. The tree is a
/// `LitTerm` over the leaf for that token.
pub open spec fn lit_term_at(toks: Seq<Tok>, i: int) -> Parsed {
    if 0 <= i < toks.len() {
        match toks[i] {
            Tok::Term(id) => Ok((branch(Role::LitTerm, leaf(Role::Term(id)), None), i + 1)),
            Tok::Literal(text) => Ok(
                (branch(Role::LitTerm, leaf(Role::Literal(text)), None), i + 1),
            ),
            _ => Err(mismatch(toks, i, Expected::Item)),
        }
    } else {
        Err(mismatch(toks, i, Expected::Item))
    }
}

/// One alternative: items separated by `And`. The list ends in front of a
/// `Terminal` or an `Or`, which is not taken.
pub open spec fn subexpression_at(toks: Seq<Tok>, i: int) -> Parsed
    decreases toks.len() - i,
{
    match lit_term_at(toks, i) {
        Err(e) => Err(e),
        Ok((item, next)) => {
            if next < toks.len() && (toks[next] is Terminal || toks[next] is Or) {
                Ok((branch(Role::Subexpression, item, None), next))
            } else if next < toks.len() && toks[next] is And {
                match subexpression_at(toks, next + 1) {
                    Err(e) => Err(e),
                    Ok((rest, end)) => Ok((branch(Role::Subexpression, item, Some(rest)), end)),
                }
            } else {
                Err(mismatch(toks, next, Expected::Connective))
            }
        },
    }
}

/// An expression: alternatives separated by `Or`. The list ends at a
/// `Terminal`, which is taken.
pub open spec fn expression_at(toks: Seq<Tok>, i: int) -> Parsed
    decreases toks.len() - i,
{
    match subexpression_at(toks, i) {
        Err(e) => Err(e),
        Ok((alternative, next)) => {
            proof {
                lemma_subexpression_at(toks, i);
            }
            if next < toks.len() && toks[next] is Terminal {
                Ok((branch(Role::Expression, alternative, None), next + 1))
            } else if next < toks.len() && toks[next] is Or {
                match expression_at(toks, next + 1) {
                    Err(e) => Err(e),
                    Ok((rest, end)) => Ok(
                        (branch(Role::Expression, alternative, Some(rest)), end),
                    ),
                }
            } else {
                Err(mismatch(toks, next, Expected::Connective))
            }
        },
    }
}

/// One production: a term that names it, one token more, and an
/// expression. With `strict`, that one token must be `Defn`; without, it is
/// passed over unseen.
pub open spec fn statement_at(toks: Seq<Tok>, i: int, strict: bool) -> Parsed {
    if 0 <= i < toks.len() && toks[i] is Term {
        if strict && !(i + 1 < toks.len() && toks[i + 1] is Defn) {
            Err(mismatch(toks, i + 1, Expected::Defn))
        } else {
            match expression_at(toks, i + 2) {
                Err(e) => Err(e),
                Ok((expression, end)) => Ok(
                    (
                        branch(
                            Role::Statement,
                            leaf(Role::Term(toks[i]->Term_0)),
                            Some(expression),
                        ),
                        end,
                    ),
                ),
            }
        }
    } else {
        Err(mismatch(toks, i, Expected::Statement))
    }
}

/// A list of productions up to the end of the tokens. At the end of the
/// tokens the list is empty: a `Root` without children. A list that goes
/// on has its rest as `right` unless that rest is empty.
pub open spec fn root_at(toks: Seq<Tok>, i: int, strict: bool) -> Parsed
    decreases toks.len() - i,
{
    if i < 0 || i >= toks.len() {
        Ok((leaf(Role::Root), i))
    } else if toks[i] is Term {
        match statement_at(toks, i, strict) {
            Err(e) => Err(e),
            Ok((statement, next)) => {
                proof {
                    lemma_statement_at(toks, i, strict);
                }
                match root_at(toks, next, strict) {
                    Err(e) => Err(e),
                    Ok((rest, end)) => Ok(
                        (
                            branch(
                                Role::Root,
                                statement,
                                if rest.left is Some {
                                    Some(rest)
                                } else {
                                    None
                                },
                            ),
                            end,
                        ),
                    ),
                }
            },
        }
    } else {
        Err(mismatch(toks, i, Expected::Statement))
    }
}

/// What the role `role` matches at position `i`.
pub open spec fn production(role: Role, toks: Seq<Tok>, i: int, strict: bool) -> Parsed
    recommends
        is_production(role),
{
    match role {
        Role::Root => root_at(toks, i, strict),
        Role::Statement => statement_at(toks, i, strict),
        Role::Expression => expression_at(toks, i),
        Role::Subexpression => subexpression_at(toks, i),
        _ => lit_term_at(toks, i),
    }
}

/// `role` is one of the five roles that match tokens; the other two are
/// leaves.
pub open spec fn is_production(role: Role) -> bool {
    !(role is Term) && !(role is Literal)
}

/// The tree of the grammar `toks`, or why `toks` is none.
pub open spec fn grammar(toks: Seq<Tok>, strict: bool) -> Result<Tree, ParseError> {
    match root_at(toks, 0, strict) {
        Ok((tree, _)) => Ok(tree),
        Err(e) => Err(e),
    }
}

/// An alternative takes at least one token and ends in front of a
/// `Terminal` or an `Or`.
pub proof fn lemma_subexpression_at(toks: Seq<Tok>, i: int)
    ensures
        subexpression_at(toks, i) matches Ok((_, next)) ==> i < next < toks.len() && (
        toks[next] is Terminal || toks[next] is Or),
    decreases toks.len() - i,
{
    if let Ok((_, next)) = lit_term_at(toks, i) {
        if next < toks.len() && toks[next] is And {
            lemma_subexpression_at(toks, next + 1);
        }
    }
}

/// An expression takes at least two tokens, the last of them a `Terminal`.
pub proof fn lemma_expression_at(toks: Seq<Tok>, i: int)
    ensures
        expression_at(toks, i) matches Ok((_, end)) ==> i + 1 < end <= toks.len() && toks[end
            - 1] is Terminal,
    decreases toks.len() - i,
{
    lemma_subexpression_at(toks, i);
    if let Ok((_, next)) = subexpression_at(toks, i) {
        if toks[next] is Or {
            lemma_expression_at(toks, next + 1);
        }
    }
}

/// A production takes at least four tokens, the last of them a `Terminal`.
pub proof fn lemma_statement_at(toks: Seq<Tok>, i: int, strict: bool)
    ensures
        statement_at(toks, i, strict) matches Ok((_, end)) ==> i + 3 < end <= toks.len()
            && toks[end - 1] is Terminal,
{
    lemma_expression_at(toks, i + 2);
}

/// A list of productions ends where the tokens end.
pub proof fn lemma_root_at(toks: Seq<Tok>, i: int, strict: bool)
    requires
        0 <= i <= toks.len(),
    ensures
        root_at(toks, i, strict) matches Ok((_, end)) ==> end == toks.len(),
    decreases toks.len() - i,
{
    if i < toks.len() && toks[i] is Term {
        lemma_statement_at(toks, i, strict);
        if let Ok((_, next)) = statement_at(toks, i, strict) {
            lemma_root_at(toks, next, strict);
        }
    }
}

} // verus!
