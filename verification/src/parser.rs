//! Parser: consumes tokens and builds an AST in a flat, append-only node
//! arena, resolving operator precedence top-down but building bottom-up.

use crate::lexer::spec_find;
use crate::lexer::spec_find_adjacent;
use crate::lexer::spec_find_adjacent_from;
use crate::lexer::spec_is_left_value;
use crate::lexer::spec_is_value;
use crate::lexer::find;
use crate::lexer::find_adjacent_values;
use crate::lexer::token_view;
use crate::lexer::tokens_view;
use crate::lexer::SpecToken;
use crate::lexer::Token;
use vstd::prelude::*;
use vstd::slice::slice_index_get;
use vstd::slice::slice_subrange;

verus! {

/// An index into the AST's node arena.
pub type NodeId = usize;

/// Represents an abstract syntax tree.
/// The last element is the root.
#[derive(Debug)]
pub struct AST {
    nodes: Vec<Node>,
}

/// An abstract syntax tree node.
#[derive(Clone, Copy, Debug, PartialEq, Eq, Structural)]
pub enum Node {
    Leaf(char),
    LeafCharClass(CharClass),
    And(NodeId, NodeId),
    Or(NodeId, NodeId),
    RepeatStar(NodeId),
    RepeatPlus(NodeId),
}

/// A character class, either "all letters" or "all digits".
#[derive(Clone, Copy, Debug, PartialEq, Eq, Structural)]
pub enum CharClass {
    AllLetter,
    AllDigit,
}

/// A syntactic failure: the token sequence fits no grammar shape.
#[derive(Clone, Copy, Debug, PartialEq, Eq, Structural)]
pub struct ParseError;

impl View for AST {
    type V = Seq<Node>;

    closed spec fn view(&self) -> Seq<Node> {
        self.nodes@
    }
}

/// Every node refers only to strictly earlier nodes of the arena: the tree
/// is append-only, cycle-free, and children always stand below their parent.
pub open spec fn wf_nodes(nodes: Seq<Node>) -> bool {
    forall|i: int|
        0 <= i < nodes.len() ==> match #[trigger] nodes[i] {
            Node::And(a, b) => a < i && b < i,
            Node::Or(a, b) => a < i && b < i,
            Node::RepeatStar(x) => x < i,
            Node::RepeatPlus(x) => x < i,
            _ => true,
        }
}

/// The size of one token, groups counted recursively.
pub open spec fn tok_size(t: SpecToken) -> nat
    decreases t,
{
    match t {
        SpecToken::Group(g) => 1 + toks_size(g),
        _ => 1,
    }
}

/// The total size of a token sequence.
pub open spec fn toks_size(ts: Seq<SpecToken>) -> nat
    decreases ts,
{
    if ts.len() == 0 {
        0
    } else {
        tok_size(ts[0]) + toks_size(ts.drop_first())
    }
}

proof fn lemma_tok_size_pos(t: SpecToken)
    ensures
        tok_size(t) >= 1,
{
    match t {
        SpecToken::Group(g) => {},
        _ => {},
    }
}

proof fn lemma_toks_size_le(ts: Seq<SpecToken>)
    ensures
        toks_size(ts) >= ts.len(),
    decreases ts.len(),
{
    if ts.len() > 0 {
        lemma_tok_size_pos(ts[0]);
        lemma_toks_size_le(ts.drop_first());
    }
}

proof fn lemma_toks_size_split(ts: Seq<SpecToken>, k: int)
    requires
        0 <= k <= ts.len(),
    ensures
        toks_size(ts) == toks_size(ts.subrange(0, k)) + toks_size(
            ts.subrange(k, ts.len() as int),
        ),
    decreases k,
{
    if k == 0 {
        assert(ts.subrange(0, 0) =~= Seq::<SpecToken>::empty());
        assert(ts.subrange(0, ts.len() as int) =~= ts);
    } else {
        let d = ts.drop_first();
        lemma_toks_size_split(d, k - 1);
        assert(d.subrange(0, k - 1) =~= ts.subrange(0, k).drop_first());
        assert(d.subrange(k - 1, d.len() as int) =~= ts.subrange(k, ts.len() as int));
        assert(ts.subrange(0, k)[0] == ts[0]);
        assert(toks_size(ts.subrange(0, k)) == tok_size(ts[0]) + toks_size(
            ts.subrange(0, k).drop_first(),
        ));
    }
}

proof fn lemma_spec_find_props(ts: Seq<SpecToken>, q: SpecToken, i: int)
    requires
        0 <= i <= ts.len(),
    ensures
        crate::lexer::spec_find_from(ts, q, i) matches Some(k) ==> i <= k < ts.len() && ts[k] == q,
    decreases ts.len() - i,
{
    if i < ts.len() && !(ts[i] == q) {
        lemma_spec_find_props(ts, q, i + 1);
    }
}

proof fn lemma_spec_find_adjacent_props(ts: Seq<SpecToken>, i: int)
    requires
        0 <= i,
    ensures
        spec_find_adjacent_from(ts, i) matches Some(k) ==> i <= k && k + 1 < ts.len()
            && spec_is_left_value(ts[k]) && spec_is_value(ts[k + 1]),
    decreases ts.len() - i,
{
    if i + 1 < ts.len() && !(spec_is_left_value(ts[i]) && spec_is_value(ts[i + 1])) {
        lemma_spec_find_adjacent_props(ts, i + 1);
    }
}

/// What parsing a token sequence does to the arena, and which node id (or
/// error) comes out.  Precedence, lowest first: a union splits at its first
/// `|`; then the first adjacent left-value/value pair splits as an implicit
/// concatenation; then a star, then a plus wraps its prefix; a single value
/// token becomes a leaf, with a group parsed recursively in place; any other
/// shape is a malformed-regex error.
pub open spec fn spec_parse(ts: Seq<SpecToken>, arena: Seq<Node>) -> (Seq<Node>, Result<
    int,
    ParseError,
>)
    decreases toks_size(ts),
    via spec_parse_dec
{
    match spec_find(ts, SpecToken::Union) {
        Some(k) => {
            let (a1, r1) = spec_parse(ts.subrange(0, k), arena);
            match r1 {
                Err(e) => (a1, Err(e)),
                Ok(left) => {
                    let (a2, r2) = spec_parse(ts.subrange(k + 1, ts.len() as int), a1);
                    match r2 {
                        Err(e) => (a2, Err(e)),
                        Ok(right) => (
                            a2.push(Node::Or(left as usize, right as usize)),
                            Ok(a2.len() as int),
                        ),
                    }
                },
            }
        },
        None => match spec_find_adjacent(ts) {
            Some(k) => {
                let (a1, r1) = spec_parse(ts.subrange(0, k + 1), arena);
                match r1 {
                    Err(e) => (a1, Err(e)),
                    Ok(left) => {
                        let (a2, r2) = spec_parse(ts.subrange(k + 1, ts.len() as int), a1);
                        match r2 {
                            Err(e) => (a2, Err(e)),
                            Ok(right) => (
                                a2.push(Node::And(left as usize, right as usize)),
                                Ok(a2.len() as int),
                            ),
                        }
                    },
                }
            },
            None => match spec_find(ts, SpecToken::Star) {
                Some(k) => {
                    let (a1, r1) = spec_parse(ts.subrange(0, k), arena);
                    match r1 {
                        Err(e) => (a1, Err(e)),
                        Ok(child) => (
                            a1.push(Node::RepeatStar(child as usize)),
                            Ok(a1.len() as int),
                        ),
                    }
                },
                None => match spec_find(ts, SpecToken::Plus) {
                    Some(k) => {
                        let (a1, r1) = spec_parse(ts.subrange(0, k), arena);
                        match r1 {
                            Err(e) => (a1, Err(e)),
                            Ok(child) => (
                                a1.push(Node::RepeatPlus(child as usize)),
                                Ok(a1.len() as int),
                            ),
                        }
                    },
                    None => {
                        if ts.len() == 1 {
                            match ts[0] {
                                SpecToken::Letter(c) => (
                                    arena.push(Node::Leaf(c)),
                                    Ok(arena.len() as int),
                                ),
                                SpecToken::Group(g) => spec_parse(g, arena),
                                SpecToken::AnyLetter => (
                                    arena.push(Node::LeafCharClass(CharClass::AllLetter)),
                                    Ok(arena.len() as int),
                                ),
                                SpecToken::AnyDigit => (
                                    arena.push(Node::LeafCharClass(CharClass::AllDigit)),
                                    Ok(arena.len() as int),
                                ),
                                _ => (arena, Err(ParseError)),
                            }
                        } else {
                            (arena, Err(ParseError))
                        }
                    },
                },
            },
        },
    }
}

proof fn lemma_parse_sizes(ts: Seq<SpecToken>)
    ensures
        spec_find(ts, SpecToken::Union) matches Some(k) ==> toks_size(ts.subrange(0, k))
            < toks_size(ts) && toks_size(ts.subrange(k + 1, ts.len() as int)) < toks_size(ts),
        spec_find_adjacent(ts) matches Some(k) ==> toks_size(ts.subrange(0, k + 1)) < toks_size(ts)
            && toks_size(ts.subrange(k + 1, ts.len() as int)) < toks_size(ts),
        spec_find(ts, SpecToken::Star) matches Some(k) ==> toks_size(ts.subrange(0, k))
            < toks_size(ts),
        spec_find(ts, SpecToken::Plus) matches Some(k) ==> toks_size(ts.subrange(0, k))
            < toks_size(ts),
        ts.len() == 1 ==> (ts[0] matches SpecToken::Group(g) ==> toks_size(g) < toks_size(ts)),
{
    let n = ts.len() as int;
    if let Some(k) = spec_find(ts, SpecToken::Union) {
        lemma_spec_find_props(ts, SpecToken::Union, 0);
        lemma_toks_size_split(ts, k);
        lemma_toks_size_split(ts.subrange(k, n), 1);
        assert(ts.subrange(k, n).subrange(1, n - k) =~= ts.subrange(k + 1, n));
        assert(ts.subrange(k, n)[0] == ts[k]);
        lemma_toks_size_le(ts.subrange(k, n).subrange(0, 1));
    }
    if let Some(k) = spec_find_adjacent(ts) {
        lemma_spec_find_adjacent_props(ts, 0);
        lemma_toks_size_split(ts, k + 1);
        lemma_toks_size_le(ts.subrange(0, k + 1));
        lemma_toks_size_le(ts.subrange(k + 1, n));
    }
    if let Some(k) = spec_find(ts, SpecToken::Star) {
        lemma_spec_find_props(ts, SpecToken::Star, 0);
        lemma_toks_size_split(ts, k);
        lemma_toks_size_le(ts.subrange(k, n));
    }
    if let Some(k) = spec_find(ts, SpecToken::Plus) {
        lemma_spec_find_props(ts, SpecToken::Plus, 0);
        lemma_toks_size_split(ts, k);
        lemma_toks_size_le(ts.subrange(k, n));
    }
    if ts.len() == 1 {
        if ts[0] is Group {
            assert(ts.drop_first() =~= Seq::<SpecToken>::empty());
            assert(toks_size(Seq::<SpecToken>::empty()) == 0);
            assert(toks_size(ts) == tok_size(ts[0]) + toks_size(ts.drop_first()));
            assert(toks_size(ts) == tok_size(ts[0]));
        }
    }
}

#[via_fn]
proof fn spec_parse_dec(ts: Seq<SpecToken>, arena: Seq<Node>) {
    lemma_parse_sizes(ts);
}

/// Creates an empty abstract syntax tree.
pub fn tree() -> (t: AST)
    ensures
        t@ == Seq::<Node>::empty(),
{
    AST { nodes: Vec::new() }
}

/// Parses a sequence of tokens into a tree from the bottom up.  On success
/// the returned id is the freshly appended root; on a malformed sequence the
/// error is returned and whatever sub-trees were already built stay in the
/// arena, exactly as `spec_parse` describes.
pub fn parse(tokens: &[Token], tree: &mut AST) -> (r: Result<NodeId, ParseError>)
    requires
        wf_nodes(old(tree)@),
    ensures
        final(tree)@ == spec_parse(tokens_view(tokens@), old(tree)@).0,
        r matches Ok(id) ==> spec_parse(tokens_view(tokens@), old(tree)@).1 == Ok::<
            int,
            ParseError,
        >(id as int),
        r matches Err(e) ==> spec_parse(tokens_view(tokens@), old(tree)@).1 == Err::<
            int,
            ParseError,
        >(e),
        wf_nodes(final(tree)@),
        old(tree)@.len() <= final(tree)@.len(),
        final(tree)@.subrange(0, old(tree)@.len() as int) == old(tree)@,
        r matches Ok(id) ==> final(tree)@.len() > old(tree)@.len() && id as int == final(tree)@.len()
            - 1,
    decreases toks_size(tokens_view(tokens@)),
{
    proof {
        lemma_spec_find_props(tokens_view(tokens@), SpecToken::Union, 0);
        lemma_spec_find_props(tokens_view(tokens@), SpecToken::Star, 0);
        lemma_spec_find_props(tokens_view(tokens@), SpecToken::Plus, 0);
        lemma_spec_find_adjacent_props(tokens_view(tokens@), 0);
    }
    let n = tokens.len();
    if let Some(k) = find(tokens, Token::Union) {
        proof {
            lemma_parse_sizes(tokens_view(tokens@));
            lemma_tokens_view_subrange(tokens@, 0, k as int);
            lemma_tokens_view_subrange(tokens@, k as int + 1, n as int);
        }
        let left = match parse(slice_subrange(tokens, 0, k), tree) {
            Ok(l) => l,
            Err(e) => {
                return Err(e);
            },
        };
        let right = match parse(slice_subrange(tokens, k + 1, n), tree) {
            Ok(l) => l,
            Err(e) => {
                return Err(e);
            },
        };
        Ok(tree.add(Node::Or(left, right)))
    } else if let Some(pair) = find_adjacent_values(tokens) {
        let idx = pair.1;
        proof {
            lemma_parse_sizes(tokens_view(tokens@));
            lemma_tokens_view_subrange(tokens@, 0, idx as int);
            lemma_tokens_view_subrange(tokens@, idx as int, n as int);
        }
        let left = match parse(slice_subrange(tokens, 0, idx), tree) {
            Ok(l) => l,
            Err(e) => {
                return Err(e);
            },
        };
        let right = match parse(slice_subrange(tokens, idx, n), tree) {
            Ok(l) => l,
            Err(e) => {
                return Err(e);
            },
        };
        Ok(tree.add(Node::And(left, right)))
    } else if let Some(k) = find(tokens, Token::Star) {
        proof {
            lemma_parse_sizes(tokens_view(tokens@));
            lemma_tokens_view_subrange(tokens@, 0, k as int);
        }
        let child = match parse(slice_subrange(tokens, 0, k), tree) {
            Ok(l) => l,
            Err(e) => {
                return Err(e);
            },
        };
        Ok(tree.add(Node::RepeatStar(child)))
    } else if let Some(k) = find(tokens, Token::Plus) {
        proof {
            lemma_parse_sizes(tokens_view(tokens@));
            lemma_tokens_view_subrange(tokens@, 0, k as int);
        }
        let child = match parse(slice_subrange(tokens, 0, k), tree) {
            Ok(l) => l,
            Err(e) => {
                return Err(e);
            },
        };
        Ok(tree.add(Node::RepeatPlus(child)))
    } else if n == 1 {
        match slice_index_get(tokens, 0) {
            Token::Letter(c) => Ok(tree.add(Node::Leaf(*c))),
            Token::Group(g) => {
                proof {
                    lemma_parse_sizes(tokens_view(tokens@));
                    assert(token_view(tokens@[0]) == SpecToken::Group(tokens_view(g@)));
                }
                parse(g.as_slice(), tree)
            },
            Token::AnyLetter => Ok(tree.add(Node::LeafCharClass(CharClass::AllLetter))),
            Token::AnyDigit => Ok(tree.add(Node::LeafCharClass(CharClass::AllDigit))),
            _ => Err(ParseError),
        }
    } else {
        Err(ParseError)
    }
}

proof fn lemma_tokens_view_subrange(ts: Seq<Token>, a: int, b: int)
    requires
        0 <= a <= b <= ts.len(),
    ensures
        tokens_view(ts.subrange(a, b)) == tokens_view(ts).subrange(a, b),
{
    assert(tokens_view(ts.subrange(a, b)) =~= tokens_view(ts).subrange(a, b));
}

impl AST {
    /// Add a node to the *top* of this tree.
    pub fn add(&mut self, node: Node) -> (id: NodeId)
        ensures
            final(self)@ == old(self)@.push(node),
            id as int == old(self)@.len(),
    {
        self.nodes.push(node);
        self.nodes.len() - 1
    }

    /// Get the root node (the last element of the node list).
    pub fn root(&self) -> (n: &Node)
        requires
            self@.len() > 0,
        ensures
            *n == self@.last(),
    {
        &self.nodes[self.nodes.len() - 1]
    }

    /// How many nodes the arena holds.
    pub fn len(&self) -> (n: usize)
        ensures
            n == self@.len(),
    {
        self.nodes.len()
    }

    /// Get a particular node given its index.
    pub fn get(&self, id: NodeId) -> (n: &Node)
        requires
            id < self@.len(),
        ensures
            *n == self@[id as int],
    {
        &self.nodes[id]
    }
}

} // verus!
