use grammar_ast::parser::{parse, try_parse, Expected, Node, ParseError, SemType};
use grammar_ast::tokenizer::{tokenize, Token};

fn leaf(semtype: SemType) -> Node {
    Node { semtype, left: None, right: None }
}

fn node(semtype: SemType, left: Node, right: Option<Node>) -> Node {
    Node { semtype, left: Some(Box::new(left)), right: right.map(Box::new) }
}

fn term_item(id: usize) -> Node {
    node(SemType::LitTerm, leaf(SemType::Term(id)), None)
}

fn parsed(text: &str) -> Node {
    let (tokens, _) = tokenize(text.to_string()).unwrap();
    parse(tokens)
}

#[test]
fn tree_shape_of_one_production() {
    let root = parsed("A : B ;");
    let expected = node(
        SemType::Root,
        node(
            SemType::Statement,
            leaf(SemType::Term(0)),
            Some(node(
                SemType::Expression,
                node(SemType::Subexpression, term_item(1), None),
                None,
            )),
        ),
        None,
    );
    assert_eq!(root, expected);
}

#[test]
fn alternation_chains_expressions() {
    let root = parsed("A : B | C ;");
    let statement = root.left.unwrap();
    let expression = statement.right.unwrap();
    assert_eq!(expression.semtype, SemType::Expression);
    assert_eq!(
        *expression.left.unwrap(),
        node(SemType::Subexpression, term_item(1), None)
    );
    let rest = expression.right.unwrap();
    assert_eq!(
        *rest,
        node(
            SemType::Expression,
            node(SemType::Subexpression, term_item(2), None),
            None
        )
    );
    assert!(rest.right.is_none());
}

#[test]
fn sequencing_chains_subexpressions() {
    let root = parsed("A : B , C ;");
    let statement = root.left.unwrap();
    let expression = statement.right.unwrap();
    assert!(expression.right.is_none());
    let subexpression = expression.left.unwrap();
    assert_eq!(subexpression.semtype, SemType::Subexpression);
    assert_eq!(*subexpression.left.unwrap(), term_item(1));
    assert_eq!(
        *subexpression.right.unwrap(),
        node(SemType::Subexpression, term_item(2), None)
    );
}

#[test]
fn literal_leaf_holds_decoded_text() {
    let root = parsed("A : 'a\\nb' ;");
    let statement = root.left.unwrap();
    let expression = statement.right.unwrap();
    let subexpression = expression.left.unwrap();
    let item = subexpression.left.unwrap();
    assert_eq!(item.semtype, SemType::LitTerm);
    assert_eq!(*item.left.unwrap(), leaf(SemType::Literal("a\nb".to_string())));
}

#[test]
fn empty_token_list_is_an_empty_root() {
    assert_eq!(parse(Vec::new()), leaf(SemType::Root));
    assert_eq!(try_parse(&Vec::new(), true), Ok(leaf(SemType::Root)));
}

#[test]
fn two_productions_chain_roots() {
    let root = parsed("A : B ; B : 'x' ;");
    assert_eq!(root.semtype, SemType::Root);
    let rest = root.right.unwrap();
    assert_eq!(rest.semtype, SemType::Root);
    assert!(rest.right.is_none());
    let second = rest.left.unwrap();
    assert_eq!(second.semtype, SemType::Statement);
    assert_eq!(*second.left.unwrap(), leaf(SemType::Term(1)));
}

#[test]
fn strict_parse_wants_the_definition_mark() {
    let tokens = vec![Token::Term(0), Token::Or, Token::Term(1), Token::Terminal];
    assert_eq!(
        try_parse(&tokens, true),
        Err(ParseError { position: 1, expected: Expected::Defn })
    );
    let lenient = try_parse(&tokens, false).unwrap();
    assert_eq!(lenient, parse(tokens));
}

fn error_at(position: usize, expected: Expected) -> Result<Node, ParseError> {
    Err(ParseError { position, expected })
}

#[test]
fn a_statement_is_expected_where_a_production_may_start() {
    assert_eq!(try_parse(&vec![Token::Defn], true), error_at(0, Expected::Statement));
    assert_eq!(
        try_parse(&vec![Token::Literal("x".to_string())], false),
        error_at(0, Expected::Statement)
    );
    let tokens = vec![
        Token::Term(0),
        Token::Defn,
        Token::Term(1),
        Token::Terminal,
        Token::Or,
    ];
    assert_eq!(try_parse(&tokens, true), error_at(4, Expected::Statement));
    assert_eq!(try_parse(&tokens, false), error_at(4, Expected::Statement));
}

#[test]
fn the_definition_mark_is_expected_behind_a_name_when_strict() {
    assert_eq!(try_parse(&vec![Token::Term(0)], true), error_at(1, Expected::Defn));
    assert_eq!(
        try_parse(&vec![Token::Term(0), Token::Term(1), Token::Terminal], true),
        error_at(1, Expected::Defn)
    );
    let tokens = vec![
        Token::Term(0),
        Token::Defn,
        Token::Term(1),
        Token::Terminal,
        Token::Term(1),
        Token::And,
        Token::Term(0),
        Token::Terminal,
    ];
    assert_eq!(try_parse(&tokens, true), error_at(5, Expected::Defn));
    assert!(try_parse(&tokens, false).is_ok());
}

#[test]
fn an_item_is_expected_where_an_alternative_starts() {
    assert_eq!(try_parse(&vec![Token::Term(0)], false), error_at(1, Expected::Item));
    assert_eq!(try_parse(&vec![Token::Term(0), Token::Defn], true), error_at(2, Expected::Item));
    assert_eq!(try_parse(&vec![Token::Term(0), Token::Defn], false), error_at(2, Expected::Item));
    assert_eq!(
        try_parse(&vec![Token::Term(0), Token::Defn, Token::Or], true),
        error_at(2, Expected::Item)
    );
    assert_eq!(
        try_parse(&vec![Token::Term(0), Token::Defn, Token::Terminal], true),
        error_at(2, Expected::Item)
    );
    let after_and = vec![
        Token::Term(0),
        Token::Defn,
        Token::Term(1),
        Token::And,
        Token::Terminal,
    ];
    assert_eq!(try_parse(&after_and, true), error_at(4, Expected::Item));
    let after_or = vec![Token::Term(0), Token::Defn, Token::Term(1), Token::Or];
    assert_eq!(try_parse(&after_or, true), error_at(4, Expected::Item));
}

#[test]
fn a_connective_is_expected_behind_an_item() {
    let ends_early = vec![Token::Term(0), Token::Defn, Token::Term(1)];
    assert_eq!(try_parse(&ends_early, true), error_at(3, Expected::Connective));
    let two_items = vec![
        Token::Term(0),
        Token::Defn,
        Token::Term(1),
        Token::Literal("x".to_string()),
        Token::Terminal,
    ];
    assert_eq!(try_parse(&two_items, true), error_at(3, Expected::Connective));
    let second_mark = vec![
        Token::Term(0),
        Token::Defn,
        Token::Term(1),
        Token::Defn,
        Token::Terminal,
    ];
    assert_eq!(try_parse(&second_mark, false), error_at(3, Expected::Connective));
}

#[test]
fn a_failed_match_leaves_the_node_as_it_was() {
    let mut node = Node::new(SemType::Expression);
    let tokens = vec![Token::Term(0), Token::And, Token::Defn];
    assert_eq!(
        node.fulfill_production(&tokens, 0, true),
        Err(ParseError { position: 2, expected: Expected::Item })
    );
    assert_eq!(node, leaf(SemType::Expression));
}

#[test]
fn each_role_matches_from_a_position() {
    let tokens = vec![
        Token::Term(0),
        Token::Defn,
        Token::Term(1),
        Token::And,
        Token::Literal("+".to_string()),
        Token::Or,
        Token::Term(2),
        Token::Terminal,
    ];
    let plus = node(SemType::LitTerm, leaf(SemType::Literal("+".to_string())), None);

    let mut item = Node::new(SemType::LitTerm);
    assert_eq!(item.fulfill_production(&tokens, 4, true), Ok(5));
    assert_eq!(item, plus);

    let mut alternative = Node::new(SemType::Subexpression);
    assert_eq!(alternative.fulfill_production(&tokens, 2, true), Ok(5));
    let first = node(
        SemType::Subexpression,
        term_item(1),
        Some(node(SemType::Subexpression, plus, None)),
    );
    assert_eq!(alternative, first);

    let mut expression = Node::new(SemType::Expression);
    assert_eq!(expression.fulfill_production(&tokens, 2, true), Ok(8));
    let both = node(
        SemType::Expression,
        first,
        Some(node(
            SemType::Expression,
            node(SemType::Subexpression, term_item(2), None),
            None,
        )),
    );
    assert_eq!(expression, both);

    let mut statement = Node::new(SemType::Statement);
    assert_eq!(statement.fulfill_production(&tokens, 0, true), Ok(8));
    let production = node(SemType::Statement, leaf(SemType::Term(0)), Some(both));
    assert_eq!(statement, production);

    let mut root = Node::new(SemType::Root);
    assert_eq!(root.fulfill_production(&tokens, 0, true), Ok(8));
    assert_eq!(root, node(SemType::Root, production, None));

    let mut rest = Node::new(SemType::Root);
    assert_eq!(rest.fulfill_production(&tokens, 8, true), Ok(8));
    assert_eq!(rest, leaf(SemType::Root));
}

#[test]
fn parsing_twice_gives_the_same_tree() {
    let text = "list : item , list | item ; item : 'x' | \"y\" | list ;";
    let (tokens, _) = tokenize(text.to_string()).unwrap();
    let first = parse(tokens.clone());
    let second = parse(tokens.clone());
    assert_eq!(first, second);
    assert_eq!(try_parse(&tokens, true), Ok(first));
    assert_eq!(try_parse(&tokens, false), Ok(second));
}

#[test]
fn a_grammar_of_eight_productions_parses() {
    let text = "A : C, B;
        B : C, B | '';
        C : T, ':', D, ';';
        D : F, E;
        E : '|', F, E | '';
        F : H, G;
        G : ',', H, G | '';
        H : L | T;";
    let (tokens, table) = tokenize(text.to_string()).unwrap();
    assert_eq!(tokens.len(), 62);
    assert_eq!(table.len(), 10);
    let root = try_parse(&tokens, true).unwrap();
    let mut names = Vec::new();
    let mut list = Some(&root);
    while let Some(current) = list {
        assert_eq!(current.semtype, SemType::Root);
        let statement = current.left.as_ref().unwrap();
        assert_eq!(statement.semtype, SemType::Statement);
        match statement.left.as_ref().unwrap().semtype {
            SemType::Term(id) => names.push(table[&id].clone()),
            _ => panic!("a statement is named by a term"),
        }
        list = current.right.as_deref();
    }
    assert_eq!(names, vec!["A", "B", "C", "D", "E", "F", "G", "H"]);
}

#[test]
fn elements_lists_what_a_list_node_heads() {
    let root = parsed("A : B , 'x' | C ; D : A ;");
    let statements = root.elements();
    assert_eq!(statements.len(), 2);
    assert_eq!(statements[0].semtype, SemType::Statement);
    assert_eq!(statements[1].semtype, SemType::Statement);
    assert_eq!(*statements[1].left.as_ref().unwrap().as_ref(), leaf(SemType::Term(3)));

    let expression = statements[0].right.as_ref().unwrap();
    let alternatives = expression.elements();
    assert_eq!(alternatives.len(), 2);
    let items = alternatives[0].elements();
    assert_eq!(items.len(), 2);
    assert_eq!(*items[0], term_item(1));
    assert_eq!(
        *items[1],
        node(SemType::LitTerm, leaf(SemType::Literal("x".to_string())), None)
    );
    assert_eq!(alternatives[1].elements(), vec![&term_item(2)]);

    assert!(leaf(SemType::Root).elements().is_empty());
}
