//! The whole compilation pipeline: lex a regex string, parse it into an
//! AST, synthesize an NFA, and determinize it by subset construction.

use crate::automata::ast_to_nfa;
use crate::automata::class_contains;
use crate::automata::lemma_single_value_dfa;
use crate::automata::nfa_deterministic;
use crate::automata::StateId;
use crate::automata::nfa_to_dfa;
use crate::automata::CapacityError;
use crate::automata::DFA;
use crate::lexer::spec_tokenize;
use crate::lexer::tokenize;
use crate::lexer::tokens_view;
use crate::lexer::LexError;
use crate::lexer::SpecToken;
use crate::parser::parse;
use crate::parser::spec_parse;
use crate::parser::tree;
use crate::parser::wf_nodes;
use crate::parser::Node;
use crate::parser::ParseError;
use vstd::prelude::*;

verus! {

/// Why a regex could not be compiled into a DFA.
#[derive(Clone, Copy, Debug, PartialEq, Eq, Structural)]
pub enum RegexError {
    /// The string does not lex.
    Lex(LexError),
    /// The token sequence fits no grammar shape.
    Parse(ParseError),
    /// The automaton would need more than 2^16 states.
    Capacity(CapacityError),
}

/// What parsing the tokens of a lexed input yields, starting from an
/// empty arena.
pub open spec fn spec_parse_result(toks: Seq<SpecToken>) -> Result<int, ParseError> {
    spec_parse(toks, Seq::<Node>::empty()).1
}

/// Compile a regular expression into a DFA.  A lexical or syntactic fault
/// is reported exactly as the lexer and parser specifications describe;
/// `Capacity` is returned only when the automaton outgrows its 2^16
/// state ids.
pub fn regex_to_dfa(regex: &str) -> (r: Result<Box<DFA>, RegexError>)
    ensures
        spec_tokenize(regex@) matches Err(le) ==> r == Err::<Box<DFA>, _>(RegexError::Lex(le)),
        r matches Ok(d) ==> d.wf() && spec_tokenize(regex@) is Ok && spec_parse_result(
            spec_tokenize(regex@).unwrap(),
        ) is Ok,
        spec_tokenize(regex@) matches Ok(toks) ==> (spec_parse_result(toks) matches Err(pe) ==> r
            == Err::<Box<DFA>, _>(RegexError::Parse(pe))),
        r matches Err(e) ==> (e matches RegexError::Capacity(_) ==> spec_tokenize(regex@) is Ok
            && spec_parse_result(spec_tokenize(regex@).unwrap()) is Ok),
        r matches Err(e) ==> (e matches RegexError::Lex(le) ==> spec_tokenize(regex@) == Err::<
            Seq<SpecToken>,
            _,
        >(le)),
        r matches Err(e) ==> (e matches RegexError::Parse(pe) ==> spec_tokenize(regex@) is Ok
            && spec_parse_result(spec_tokenize(regex@).unwrap()) == Err::<int, _>(pe)),
        spec_tokenize(regex@) matches Ok(toks) ==> ((spec_parse(toks, Seq::<Node>::empty()).1
            is Ok && (spec_parse(toks, Seq::<Node>::empty()).0.last() is Leaf || spec_parse(
            toks,
            Seq::<Node>::empty(),
        ).0.last() is LeafCharClass)) ==> r is Ok),
        spec_tokenize(regex@) matches Ok(toks) ==> (spec_parse(
            toks,
            Seq::<Node>::empty(),
        ).0.last() matches Node::Leaf(c) ==> (r matches Ok(d) ==> (forall|str: Seq<char>|
            #[trigger] d.spec_accepts(str) == (str.len() == 1 && str[0] == c)))),
        spec_tokenize(regex@) matches Ok(toks) ==> (spec_parse(
            toks,
            Seq::<Node>::empty(),
        ).0.last() matches Node::LeafCharClass(cc) ==> (r matches Ok(d) ==> (forall|
            str: Seq<char>,
        |
            #[trigger] d.spec_accepts(str) == (str.len() == 1 && class_contains(cc, str[0]))))),
{
    let tokens = match tokenize(regex) {
        Ok(t) => t,
        Err(e) => {
            return Err(RegexError::Lex(e));
        },
    };
    let mut ast = tree();
    proof {
        assert(wf_nodes(ast@));
    }
    match parse(tokens.as_slice(), &mut ast) {
        Ok(_) => (),
        Err(e) => {
            proof {
                assert(tokens_view(tokens@) == spec_tokenize(regex@).unwrap());
            }
            return Err(RegexError::Parse(e));
        },
    };
    let nfa = match ast_to_nfa(&ast) {
        Ok(n) => n,
        Err(e) => {
            proof {
                assert(tokens_view(tokens@) == spec_tokenize(regex@).unwrap());
                assert(!(ast@.last() is Leaf) && !(ast@.last() is LeafCharClass));
            }
            return Err(RegexError::Capacity(e));
        },
    };
    let d = match nfa_to_dfa(&nfa) {
        Ok(d) => d,
        Err(e) => {
            proof {
                assert(tokens_view(tokens@) == spec_tokenize(regex@).unwrap());
                match ast@.last() {
                    Node::Leaf(c) => {
                        assert forall|s: int, c2: char, t1: StateId, t2: StateId|
                            0 <= s < nfa.state_count() && (#[trigger] nfa.trans(s, c2).contains(
                                t1,
                            )) && (#[trigger] nfa.trans(s, c2).contains(t2)) implies t1 == t2 by {
                            assert(0 <= s < 2);
                        }
                        assert(nfa_deterministic(&nfa));
                        assert(false);
                    },
                    Node::LeafCharClass(cc) => {
                        assert forall|s: int, c2: char, t1: StateId, t2: StateId|
                            0 <= s < nfa.state_count() && (#[trigger] nfa.trans(s, c2).contains(
                                t1,
                            )) && (#[trigger] nfa.trans(s, c2).contains(t2)) implies t1 == t2 by {
                            assert(0 <= s < 2);
                        }
                        assert(nfa_deterministic(&nfa));
                        assert(false);
                    },
                    _ => {},
                }
            }
            return Err(RegexError::Capacity(e));
        },
    };
    proof {
        match ast@.last() {
            Node::Leaf(c) => {
                let cs = Set::<char>::empty().insert(c);
                assert forall|s: int, c2: char|
                    0 <= s < 2 implies #[trigger] nfa.trans(s, c2) == (if s == 0 && cs.contains(
                    c2,
                ) {
                    Set::<crate::automata::StateId>::empty().insert(1)
                } else {
                    Set::<crate::automata::StateId>::empty()
                }) by {
                    assert(cs.contains(c2) == (c2 == c));
                }
                lemma_single_value_dfa(&nfa, &d, cs);
                assert forall|str: Seq<char>| #[trigger] d.spec_accepts(str) == (str.len() == 1
                    && str[0] == c) by {
                    assert(d.spec_accepts(str) == (str.len() == 1 && cs.contains(str[0])));
                    assert(cs.contains(str[0]) == (str[0] == c));
                }
            },
            Node::LeafCharClass(cc) => {
                let cs = Set::<char>::new(|x: char| class_contains(cc, x));
                assert forall|s: int, c2: char|
                    0 <= s < 2 implies #[trigger] nfa.trans(s, c2) == (if s == 0 && cs.contains(
                    c2,
                ) {
                    Set::<crate::automata::StateId>::empty().insert(1)
                } else {
                    Set::<crate::automata::StateId>::empty()
                }) by {
                    assert(cs.contains(c2) == class_contains(cc, c2));
                }
                lemma_single_value_dfa(&nfa, &d, cs);
                assert forall|str: Seq<char>| #[trigger] d.spec_accepts(str) == (str.len() == 1
                    && class_contains(cc, str[0])) by {
                    assert(d.spec_accepts(str) == (str.len() == 1 && cs.contains(str[0])));
                    assert(cs.contains(str[0]) == class_contains(cc, str[0]));
                }
            },
            _ => {},
        }
    }
    Ok(d)
}

} // verus!
