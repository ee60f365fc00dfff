use regex_dfa::lexer::LexError;
use regex_dfa::pipeline::regex_to_dfa;
use regex_dfa::pipeline::RegexError;

#[test]
fn test() {
    let dfa = regex_to_dfa("abab*").unwrap();
    assert!(dfa.accepts("aba"));
    assert!(dfa.accepts("abab"));
    assert!(dfa.accepts("ababb"));

    assert!(!dfa.accepts("ab"));
    assert!(!dfa.accepts(""));
    assert!(!dfa.accepts("abaa"));
}

#[test]
fn single_literal() {
    let dfa = regex_to_dfa("a").unwrap();
    assert!(dfa.accepts("a"));
    assert!(!dfa.accepts(""));
    assert!(!dfa.accepts("aa"));
    assert!(!dfa.accepts("b"));
}

#[test]
fn alternation() {
    let dfa = regex_to_dfa("a|b").unwrap();
    assert!(dfa.accepts("a"));
    assert!(dfa.accepts("b"));
    assert!(!dfa.accepts(""));
    assert!(!dfa.accepts("ab"));
}

#[test]
fn letter_class_plus() {
    let dfa = regex_to_dfa("\\w+").unwrap();
    assert!(dfa.accepts("hello"));
    assert!(dfa.accepts("a"));
    assert!(!dfa.accepts(""));
    assert!(!dfa.accepts("12"));
    assert!(!dfa.accepts("a1"));
}

#[test]
fn digit_class() {
    let dfa = regex_to_dfa("\\d\\d").unwrap();
    assert!(dfa.accepts("12"));
    assert!(dfa.accepts("00"));
    assert!(!dfa.accepts("1"));
    assert!(!dfa.accepts("123"));
    assert!(!dfa.accepts("ab"));
}

#[test]
fn grouping_and_star() {
    let dfa = regex_to_dfa("(ab)*c").unwrap();
    assert!(dfa.accepts("c"));
    assert!(dfa.accepts("abc"));
    assert!(dfa.accepts("ababc"));
    assert!(!dfa.accepts("ab"));
    assert!(!dfa.accepts("abcc"));
}

#[test]
fn empty_regex_is_malformed() {
    match regex_to_dfa("") {
        Err(RegexError::Parse(_)) => (),
        _ => panic!("an empty regex must be a parse error"),
    }
}

#[test]
fn unmatched_paren_is_malformed() {
    match regex_to_dfa("(a") {
        Err(RegexError::Parse(_)) => (),
        _ => panic!("an unmatched open paren must surface as a parse error"),
    }
}

#[test]
fn bare_operators_are_malformed() {
    assert!(matches!(regex_to_dfa("a|"), Err(RegexError::Parse(_))));
    assert!(matches!(regex_to_dfa("|a"), Err(RegexError::Parse(_))));
    assert!(matches!(regex_to_dfa("*a"), Err(RegexError::Parse(_))));
}

#[test]
fn lex_errors_carry_the_character() {
    assert_eq!(
        match regex_to_dfa("a!b") {
            Err(RegexError::Lex(e)) => e,
            _ => panic!("expected a lex error"),
        },
        LexError::UnrecognizedChar('!')
    );
    assert_eq!(
        match regex_to_dfa("\\x") {
            Err(RegexError::Lex(e)) => e,
            _ => panic!("expected a lex error"),
        },
        LexError::UnrecognizedEscape('x')
    );
}

#[test]
fn accepts_is_deterministic() {
    let dfa = regex_to_dfa("ab*").unwrap();
    let first = dfa.accepts("abbb");
    let second = dfa.accepts("abbb");
    assert_eq!(first, second);
    assert!(first);
    let r1 = dfa.accepts("ba");
    let r2 = dfa.accepts("ba");
    assert_eq!(r1, r2);
    assert!(!r1);
}

#[test]
fn compilation_is_idempotent_on_samples() {
    let d1 = regex_to_dfa("a(b|c)*").unwrap();
    let d2 = regex_to_dfa("a(b|c)*").unwrap();
    for s in ["", "a", "ab", "ac", "abcbc", "b", "aa", "abca"] {
        assert_eq!(d1.accepts(s), d2.accepts(s));
    }
}

#[test]
fn space_is_a_literal() {
    let dfa = regex_to_dfa("a b").unwrap();
    assert!(dfa.accepts("a b"));
    assert!(!dfa.accepts("ab"));
}

#[test]
fn dfa_graph_of_single_letter() {
    let dfa = regex_to_dfa("a").unwrap();
    let expected = "digraph {\n\
        rankdir=LR;\n\
        node [shape=point]; start;\n\
        node [shape=doublecircle]; 1; \n\
        node [shape=circle];\n\
        start -> 0;\n\
        0 -> 1 [label=\"a\"];\n\
        }";
    assert_eq!(dfa.to_graph(), expected);
}

#[test]
fn empty_group_is_malformed() {
    assert!(matches!(regex_to_dfa("()"), Err(RegexError::Parse(_))));
}

#[test]
fn nested_groups() {
    let dfa = regex_to_dfa("((a))b").unwrap();
    assert!(dfa.accepts("ab"));
    assert!(!dfa.accepts("a"));
    assert!(!dfa.accepts("b"));
}

#[test]
fn star_binds_whole_prefix_of_its_slice() {
    let dfa = regex_to_dfa("a*b").unwrap();
    assert!(dfa.accepts("b"));
    assert!(dfa.accepts("ab"));
    assert!(dfa.accepts("aaab"));
    assert!(!dfa.accepts("a"));
}

#[test]
fn plus_requires_one_occurrence() {
    let dfa = regex_to_dfa("ba+").unwrap();
    assert!(dfa.accepts("ba"));
    assert!(dfa.accepts("baaa"));
    assert!(!dfa.accepts("b"));
    assert!(!dfa.accepts("ab"));
}

#[test]
fn single_letter_class() {
    let dfa = regex_to_dfa("\\w").unwrap();
    assert!(dfa.accepts("a"));
    assert!(dfa.accepts("z"));
    assert!(!dfa.accepts(""));
    assert!(!dfa.accepts("ab"));
    assert!(!dfa.accepts("5"));
}

#[test]
fn single_digit_class() {
    let dfa = regex_to_dfa("\\d").unwrap();
    assert!(dfa.accepts("0"));
    assert!(dfa.accepts("9"));
    assert!(!dfa.accepts(""));
    assert!(!dfa.accepts("12"));
    assert!(!dfa.accepts("a"));
}
