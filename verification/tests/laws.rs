use grammar_ast::parser::{try_parse, Node, SemType};
use grammar_ast::tokenizer::{tokenize, Token};
use std::collections::HashSet;

fn runs(text: &str) -> Vec<String> {
    let mut runs = Vec::new();
    let mut current = String::new();
    for c in text.chars() {
        if c == '_' || c.is_ascii_alphanumeric() {
            current.push(c);
        } else if !current.is_empty() {
            runs.push(current);
            current = String::new();
        }
    }
    if !current.is_empty() {
        runs.push(current);
    }
    runs
}

fn ids(tokens: &[Token]) -> Vec<usize> {
    let mut ids = Vec::new();
    for token in tokens {
        if let Token::Term(id) = token {
            ids.push(*id);
        }
    }
    ids
}

const TEXTS: [&str; 6] = [
    "",
    "A : B ;",
    "a:b,c|a;b:c;",
    "expr : term , '+' , expr | term ; term : \"(\" , expr , \")\" | num ;",
    "x x x y x z y",
    "   lone   ",
];

#[test]
fn interning_maps_each_term_back_to_its_identifier() {
    for text in TEXTS {
        let (tokens, table) = tokenize(text.to_string()).unwrap();
        let ids = ids(&tokens);
        let runs = runs(text);
        assert_eq!(ids.len(), runs.len());
        for (id, run) in ids.iter().zip(runs.iter()) {
            assert_eq!(&table[id], run);
        }
        for (j, a) in runs.iter().enumerate() {
            for (k, b) in runs.iter().enumerate() {
                assert_eq!(ids[j] == ids[k], a == b);
            }
        }
        for id in table.keys() {
            assert!(ids.contains(id));
        }
    }
}

#[test]
fn ids_count_up_from_zero_in_order_of_first_occurrence() {
    for text in TEXTS {
        let (tokens, table) = tokenize(text.to_string()).unwrap();
        let mut next = 0;
        for id in ids(&tokens) {
            assert!(id <= next);
            if id == next {
                next += 1;
            }
        }
        assert_eq!(table.len(), next);
    }
}

#[test]
fn tokenizing_twice_gives_the_same_ids() {
    for text in TEXTS {
        assert_eq!(tokenize(text.to_string()), tokenize(text.to_string()));
    }
}

#[test]
fn terms_are_counted_as_runs_are() {
    for text in TEXTS {
        let (tokens, table) = tokenize(text.to_string()).unwrap();
        let ids = ids(&tokens);
        let runs = runs(text);
        assert_eq!(ids.len(), runs.len());
        let distinct_ids: HashSet<usize> = ids.into_iter().collect();
        let distinct_runs: HashSet<String> = runs.into_iter().collect();
        assert_eq!(distinct_ids.len(), distinct_runs.len());
        assert_eq!(table.len(), distinct_runs.len());
    }
}

#[test]
fn a_literal_with_letters_adds_a_run_and_no_term() {
    let text = "A : 'b' ;";
    let (tokens, table) = tokenize(text.to_string()).unwrap();
    assert_eq!(ids(&tokens), vec![0]);
    assert_eq!(runs(text).len(), 2);
    assert_eq!(table.len(), 1);
}

fn spell(node: &Node, out: &mut Vec<Token>) {
    match &node.semtype {
        SemType::Term(id) => out.push(Token::Term(*id)),
        SemType::Literal(text) => out.push(Token::Literal(text.clone())),
        role => {
            if let Some(left) = &node.left {
                spell(left, out);
            }
            match (role, &node.right) {
                (SemType::Statement, _) => out.push(Token::Defn),
                (SemType::Subexpression, Some(_)) => out.push(Token::And),
                (SemType::Expression, Some(_)) => out.push(Token::Or),
                (SemType::Expression, None) => out.push(Token::Terminal),
                _ => {}
            }
            if let Some(right) = &node.right {
                spell(right, out);
            }
        }
    }
}

#[test]
fn a_tree_spells_its_tokens() {
    for text in TEXTS {
        let (tokens, _) = tokenize(text.to_string()).unwrap();
        if let Ok(root) = try_parse(&tokens, true) {
            let mut spelled = Vec::new();
            spell(&root, &mut spelled);
            assert_eq!(spelled, tokens);
            assert_eq!(try_parse(&tokens, false), Ok(root));
        }
    }
    let (tokens, _) = tokenize(TEXTS[3].to_string()).unwrap();
    assert!(try_parse(&tokens, true).is_ok());
}
