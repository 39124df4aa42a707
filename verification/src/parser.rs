//! The parser: from tokens to a syntax tree.

use vstd::prelude::*;
use crate::grammar::{
    elements_of, grammar, is_production, lemma_statement_at, lemma_subexpression_at, production,
};
use crate::tokenizer::{toks, Token};

verus! {

/// The role of a node in the syntax tree.
#[derive(Debug, Clone, PartialEq, Eq)]
pub enum SemType {
    /// A list of statements.
    Root,
    /// One production: a name and its expression.
    Statement,
    /// A list of alternatives.
    Expression,
    /// A list of items: one alternative.
    Subexpression,
    /// One item: a term or a literal.
    LitTerm,
    /// A leaf: a literal's text.
    Literal(String),
    /// A leaf: a term's id.
    Term(usize),
}

/// The view of a [`SemType`], which contracts speak of: the same role,
/// with a literal's text as a sequence of characters.
pub enum Role {
    Root,
    Statement,
    Expression,
    Subexpression,
    LitTerm,
    Literal(Seq<char>),
    Term(usize),
}

impl View for SemType {
    type V = Role;

    open spec fn view(&self) -> Role {
        match *self {
            SemType::Root => Role::Root,
            SemType::Statement => Role::Statement,
            SemType::Expression => Role::Expression,
            SemType::Subexpression => Role::Subexpression,
            SemType::LitTerm => Role::LitTerm,
            SemType::Literal(text) => Role::Literal(text@),
            SemType::Term(id) => Role::Term(id),
        }
    }
}

/// A node of the syntax tree: a role and up to two children.
///
/// A list (`Root`, `Expression`, `Subexpression`) has its first element as
/// `left` and the rest of the list, a node of the same role, as `right`; the
/// list ends where `right` is absent.
#[derive(Debug, PartialEq, Eq)]
pub struct Node {
    pub semtype: SemType,
    pub left: Option<Box<Node>>,
    pub right: Option<Box<Node>>,
}

/// The view of a [`Node`], which contracts speak of.
pub struct Tree {
    pub role: Role,
    pub left: Option<Box<Tree>>,
    pub right: Option<Box<Tree>>,
}

impl View for Node {
    type V = Tree;

    open spec fn view(&self) -> Tree
        decreases self,
    {
        Tree {
            role: self.semtype@,
            left: match self.left {
                Some(child) => Some(Box::new((*child).view())),
                None => None,
            },
            right: match self.right {
                Some(child) => Some(Box::new((*child).view())),
                None => None,
            },
        }
    }
}

/// What the parser looked for where it found something else.
#[derive(Debug, Clone, Copy, PartialEq, Eq, Structural)]
pub enum Expected {
    /// A term that names a production, or the end of the tokens.
    Statement,
    /// The `Defn` behind a production's name.
    Defn,
    /// A term or a literal.
    Item,
    /// `And`, `Or` or `Terminal` behind an item.
    Connective,
}

/// Why tokens are no grammar: what was expected, and where.
#[derive(Debug, Clone, Copy, PartialEq, Eq, Structural)]
pub struct ParseError {
    /// The index of the token that is not what was expected, or the number
    /// of tokens where they end too early.
    pub position: usize,
    /// What was expected there.
    pub expected: Expected,
}

/// The views of the nodes `nodes`, in order.
pub open spec fn trees(nodes: Seq<&Node>) -> Seq<Tree> {
    Seq::new(nodes.len(), |k: int| nodes[k]@)
}

/// How far a role stands above the leaves: a role only ever matches roles
/// below itself without taking a token first.
pub open spec fn height(role: Role) -> nat {
    match role {
        Role::Root => 4,
        Role::Statement => 3,
        Role::Expression => 2,
        Role::Subexpression => 1,
        _ => 0,
    }
}

/// The error for a token that is not what was expected, at `idx` or, if
/// `idx` is behind the tokens, at their end.
fn mismatch_at(tokens: &Vec<Token>, idx: usize, expected: Expected) -> (e: ParseError)
    ensures
        e == crate::grammar::mismatch(toks(tokens@), idx as int, expected),
{
    let len: usize = tokens.len();
    ParseError {
        position: if idx < len {
            idx
        } else {
            len
        },
        expected,
    }
}

impl Node {
    /// A node of the role `semtype` without children.
    pub fn new(semtype: SemType) -> (node: Node)
        ensures
            node.semtype == semtype,
            node.left is None,
            node.right is None,
            node@ == crate::grammar::leaf(semtype@),
    {
        Node { semtype, left: None, right: None }
    }

    /// The elements of the list that this node heads, in order: the
    /// statements of a `Root`, the alternatives of an `Expression`, the
    /// items of a `Subexpression`.
    pub fn elements(&self) -> (list: Vec<&Node>)
        ensures
            trees(list@) == elements_of(self@),
    {
        let mut list: Vec<&Node> = Vec::new();
        let mut current: &Node = self;
        assert(trees(list@) + elements_of(current@) =~= elements_of(self@));
        loop
            invariant
                trees(list@) + elements_of(current@) == elements_of(self@),
            decreases current,
        {
            let ghost before = list@;
            match &current.left {
                None => {
                    assert(trees(list@) + Seq::<Tree>::empty() =~= trees(list@));
                    return list;
                },
                Some(first) => {
                    list.push(&**first);
                    assert(trees(list@) =~= trees(before).push(first@));
                },
            }
            match &current.right {
                None => {
                    assert(trees(before) + seq![current.left->0@] =~= trees(list@));
                    return list;
                },
                Some(rest) => {
                    assert(trees(before) + (seq![current.left->0@] + elements_of(rest@))
                        =~= trees(list@) + elements_of(rest@));
                    current = &**rest;
                },
            }
        }
    }

    /// Matches this node's role at position `idx` of `tokens` and gives the
    /// node the children that the match yields. The result is the position
    /// behind the tokens that were taken.
    ///
    /// Where the tokens do not match, the node stays as it was and the
    /// result says what was expected, and where.
    pub fn fulfill_production(&mut self, tokens: &Vec<Token>, idx: usize, strict: bool) -> (result:
        Result<usize, ParseError>)
        requires
            is_production(old(self).semtype@),
        ensures
            match result {
                Ok(end) => production(old(self).semtype@, toks(tokens@), idx as int, strict)
                    == Ok::<(Tree, int), ParseError>((final(self)@, end as int)),
                Err(e) => production(old(self).semtype@, toks(tokens@), idx as int, strict)
                    == Err::<(Tree, int), ParseError>(e) && *final(self) == *old(self),
            },
        decreases tokens@.len() - idx, height(old(self).semtype@),
    {
        let len: usize = tokens.len();
        let ghost ts = toks(tokens@);
        match self.semtype {
            SemType::Root => {
                if idx >= len {
                    self.left = None;
                    self.right = None;
                    return Ok(idx);
                }
                match &tokens[idx] {
                    Token::Term(_) => {},
                    _ => {
                        return Err(mismatch_at(tokens, idx, Expected::Statement));
                    },
                }
                let mut left = Node::new(SemType::Statement);
                let next: usize = match left.fulfill_production(tokens, idx, strict) {
                    Ok(next) => next,
                    Err(e) => {
                        return Err(e);
                    },
                };
                proof {
                    lemma_statement_at(ts, idx as int, strict);
                }
                let mut right = Node::new(SemType::Root);
                let end: usize = match right.fulfill_production(tokens, next, strict) {
                    Ok(end) => end,
                    Err(e) => {
                        return Err(e);
                    },
                };
                self.left = Some(Box::new(left));
                self.right = match right.left {
                    Some(_) => Some(Box::new(right)),
                    None => None,
                };
                Ok(end)
            },
            SemType::Statement => {
                if idx >= len {
                    return Err(mismatch_at(tokens, idx, Expected::Statement));
                }
                let id: usize = match &tokens[idx] {
                    Token::Term(id) => *id,
                    _ => {
                        return Err(mismatch_at(tokens, idx, Expected::Statement));
                    },
                };
                if strict {
                    let defined = len - idx > 1 && match &tokens[idx + 1] {
                        Token::Defn => true,
                        _ => false,
                    };
                    if !defined {
                        return Err(mismatch_at(tokens, idx + 1, Expected::Defn));
                    }
                }
                if len - idx <= 2 {
                    return Err(mismatch_at(tokens, len, Expected::Item));
                }
                let mut right = Node::new(SemType::Expression);
                let end: usize = match right.fulfill_production(tokens, idx + 2, strict) {
                    Ok(end) => end,
                    Err(e) => {
                        return Err(e);
                    },
                };
                self.left = Some(Box::new(Node::new(SemType::Term(id))));
                self.right = Some(Box::new(right));
                Ok(end)
            },
            SemType::Expression => {
                let mut left = Node::new(SemType::Subexpression);
                let next: usize = match left.fulfill_production(tokens, idx, strict) {
                    Ok(next) => next,
                    Err(e) => {
                        return Err(e);
                    },
                };
                proof {
                    lemma_subexpression_at(ts, idx as int);
                }
                match &tokens[next] {
                    Token::Terminal => {
                        self.left = Some(Box::new(left));
                        self.right = None;
                        Ok(next + 1)
                    },
                    Token::Or => {
                        let mut right = Node::new(SemType::Expression);
                        let end: usize = match right.fulfill_production(
                            tokens,
                            next + 1,
                            strict,
                        ) {
                            Ok(end) => end,
                            Err(e) => {
                                return Err(e);
                            },
                        };
                        self.left = Some(Box::new(left));
                        self.right = Some(Box::new(right));
                        Ok(end)
                    },
                    _ => Err(mismatch_at(tokens, next, Expected::Connective)),
                }
            },
            SemType::Subexpression => {
                let mut left = Node::new(SemType::LitTerm);
                let next: usize = match left.fulfill_production(tokens, idx, strict) {
                    Ok(next) => next,
                    Err(e) => {
                        return Err(e);
                    },
                };
                if next >= len {
                    return Err(mismatch_at(tokens, next, Expected::Connective));
                }
                match &tokens[next] {
                    Token::Terminal | Token::Or => {
                        self.left = Some(Box::new(left));
                        self.right = None;
                        Ok(next)
                    },
                    Token::And => {
                        let mut right = Node::new(SemType::Subexpression);
                        let end: usize = match right.fulfill_production(
                            tokens,
                            next + 1,
                            strict,
                        ) {
                            Ok(end) => end,
                            Err(e) => {
                                return Err(e);
                            },
                        };
                        self.left = Some(Box::new(left));
                        self.right = Some(Box::new(right));
                        Ok(end)
                    },
                    _ => Err(mismatch_at(tokens, next, Expected::Connective)),
                }
            },
            _ => {
                if idx >= len {
                    return Err(mismatch_at(tokens, idx, Expected::Item));
                }
                let leaf = match &tokens[idx] {
                    Token::Term(id) => Node::new(SemType::Term(*id)),
                    Token::Literal(text) => Node::new(SemType::Literal(text.clone())),
                    _ => {
                        return Err(mismatch_at(tokens, idx, Expected::Item));
                    },
                };
                self.left = Some(Box::new(leaf));
                self.right = None;
                Ok(idx + 1)
            },
        }
    }
}

/// Parses `tokens` into the tree of the grammar that they are, or says
/// where they are none.
///
/// With `strict`, the token behind each production's name must be `Defn`;
/// without, that token is passed over unseen.
pub fn try_parse(tokens: &Vec<Token>, strict: bool) -> (result: Result<Node, ParseError>)
    ensures
        match result {
            Ok(root) => grammar(toks(tokens@), strict) == Ok::<Tree, ParseError>(root@),
            Err(e) => grammar(toks(tokens@), strict) == Err::<Tree, ParseError>(e),
        },
{
    let mut root = Node::new(SemType::Root);
    match root.fulfill_production(tokens, 0, strict) {
        Ok(_) => Ok(root),
        Err(e) => Err(e),
    }
}

/// Parses `tokens`, which must be a grammar, into its tree. The token
/// behind each production's name is passed over unseen.
pub fn parse(tokens: Vec<Token>) -> (root: Node)
    requires
        grammar(toks(tokens@), false) is Ok,
    ensures
        grammar(toks(tokens@), false) == Ok::<Tree, ParseError>(root@),
{
    let mut root = Node::new(SemType::Root);
    let _ = root.fulfill_production(&tokens, 0, false);
    root
}

} // verus!
