use regex_dfa::lexer::find;
use regex_dfa::lexer::find_adjacent_values;
use regex_dfa::lexer::tokenize;
use regex_dfa::lexer::LexError;
use regex_dfa::lexer::Token;
use regex_dfa::multimap::MultiMap;
use regex_dfa::multimap::MultiMapMethods;
use regex_dfa::multimap::union_multi;
use regex_dfa::parser::parse;
use regex_dfa::parser::tree;

#[test]
fn tokenize_simple() {
    let tokens = tokenize("ab|c*").unwrap();
    assert_eq!(tokens.len(), 5);
    assert!(matches!(tokens[0], Token::Letter('a')));
    assert!(matches!(tokens[1], Token::Letter('b')));
    assert!(matches!(tokens[2], Token::Union));
    assert!(matches!(tokens[3], Token::Letter('c')));
    assert!(matches!(tokens[4], Token::Star));
}

#[test]
fn tokenize_groups_and_escapes() {
    let tokens = tokenize("(ab)+\\w\\d").unwrap();
    assert_eq!(tokens.len(), 4);
    match &tokens[0] {
        Token::Group(inner) => {
            assert_eq!(inner.len(), 2);
            assert!(matches!(inner[0], Token::Letter('a')));
            assert!(matches!(inner[1], Token::Letter('b')));
        }
        other => panic!("expected a group, got {:?}", other),
    }
    assert!(matches!(tokens[1], Token::Plus));
    assert!(matches!(tokens[2], Token::AnyLetter));
    assert!(matches!(tokens[3], Token::AnyDigit));
}

#[test]
fn tokenize_rejects_stray_characters() {
    assert_eq!(tokenize("a?b").unwrap_err(), LexError::UnrecognizedChar('?'));
    assert_eq!(tokenize("\\q").unwrap_err(), LexError::UnrecognizedEscape('q'));
}

#[test]
fn tokenize_swallows_unmatched_open_paren() {
    let tokens = tokenize("a(bc").unwrap();
    assert_eq!(tokens.len(), 1);
    assert!(matches!(tokens[0], Token::Letter('a')));
}

#[test]
fn find_locates_operators() {
    let tokens = tokenize("ab|c").unwrap();
    assert_eq!(find(&tokens, Token::Union), Some(2));
    assert_eq!(find(&tokens, Token::Star), None);
}

#[test]
fn find_adjacent_locates_concatenation() {
    let tokens = tokenize("a|bc").unwrap();
    assert_eq!(find_adjacent_values(&tokens), Some((2, 3)));
    let lone = tokenize("a|b").unwrap();
    assert_eq!(find_adjacent_values(&lone), None);
}

#[test]
fn value_queries() {
    let tokens = tokenize("a(b)\\w|*+\\d").unwrap();
    assert!(tokens[0].is_value());
    assert!(tokens[1].is_value());
    assert!(tokens[2].is_value());
    assert!(!tokens[3].is_value());
    assert!(!tokens[4].is_value());
    assert!(!tokens[5].is_value());
    assert!(tokens[6].is_value());
    assert!(!tokens[3].is_left_value());
    assert!(tokens[4].is_left_value());
    assert!(tokens[5].is_left_value());
}

#[test]
fn parse_appends_root_last() {
    let tokens = tokenize("ab").unwrap();
    let mut ast = tree();
    let root = parse(&tokens, &mut ast).unwrap();
    assert_eq!(root, 2);
    assert_eq!(ast.len(), 3);
}

#[test]
fn parse_rejects_empty_input() {
    let tokens = tokenize("").unwrap();
    let mut ast = tree();
    assert!(parse(&tokens, &mut ast).is_err());
}

#[test]
fn multimap_union_collects_all_values() {
    let mut left: MultiMap<char, u16> = MultiMap::new();
    left.add_multi('a', 1);
    left.add_multi('a', 2);
    left.add_multi('b', 3);
    let mut right: MultiMap<char, u16> = MultiMap::new();
    right.add_multi('a', 2);
    right.add_multi('c', 4);
    let u = union_multi(&[&left, &right]);
    let mut a_vals = u.get_multi('a');
    a_vals.sort();
    assert_eq!(a_vals, vec![1, 2]);
    assert_eq!(u.get_multi('b'), vec![3]);
    assert_eq!(u.get_multi('c'), vec![4]);
    assert_eq!(u.get_multi('z'), Vec::<u16>::new());
}
