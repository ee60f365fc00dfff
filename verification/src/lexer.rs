//! Lexer: turns a raw expression string into a flat token sequence, with
//! recursive grouping for parenthesized sub-expressions.

use vstd::prelude::*;
use vstd::slice::slice_index_get;
use vstd::slice::slice_subrange;
use vstd::slice::slice_to_vec;
use vstd::string::StrSliceExecFns;

verus! {

broadcast use vstd::std_specs::vec::group_vec_axioms;

/// Represents a symbol of the language.
#[derive(Debug)]
pub enum Token {
    /// `a`-`z`, `0`-`9`, space
    Letter(char),
    /// `(...)`
    Group(Vec<Token>),
    /// `|`
    Union,
    /// `*`
    Star,
    /// `+`
    Plus,
    /// `\w`
    AnyLetter,
    /// `\d`
    AnyDigit,
}

/// The mathematical shape of a token, with groups as sequences.
#[verifier::ext_equal]
pub enum SpecToken {
    Letter(char),
    Group(Seq<SpecToken>),
    Union,
    Star,
    Plus,
    AnyLetter,
    AnyDigit,
}

/// A lexical failure: the offending character is carried along.
#[derive(Clone, Copy, Debug, PartialEq, Eq, Structural)]
pub enum LexError {
    /// A bare character outside the alphabet and the operators.
    UnrecognizedChar(char),
    /// A `\` escape other than `\w` or `\d`.
    UnrecognizedEscape(char),
}

/// The abstraction of one token.
pub open spec fn token_view(t: Token) -> SpecToken
    decreases t,
{
    match t {
        Token::Letter(c) => SpecToken::Letter(c),
        Token::Group(ts) => SpecToken::Group(tokens_view(ts@)),
        Token::Union => SpecToken::Union,
        Token::Star => SpecToken::Star,
        Token::Plus => SpecToken::Plus,
        Token::AnyLetter => SpecToken::AnyLetter,
        Token::AnyDigit => SpecToken::AnyDigit,
    }
}

/// The abstraction of a token sequence.
pub open spec fn tokens_view(ts: Seq<Token>) -> Seq<SpecToken>
    decreases ts,
{
    Seq::new(
        ts.len(),
        |i: int|
            if 0 <= i < ts.len() {
                token_view(ts[i])
            } else {
                SpecToken::Union
            },
    )
}

/// A literal character of the language: `a`-`z`, `0`-`9` or space.
pub open spec fn spec_literal_char(c: char) -> bool {
    (('a' as u32) <= (c as u32) && (c as u32) <= ('z' as u32)) || (('0' as u32) <= (c as u32)
        && (c as u32) <= ('9' as u32)) || c == ' '
}

/// Scans from `i` counting parenthesis depth (starting at `depth`) and
/// returns the index just past the character that brings the depth back to
/// zero, or `None` when the input ends first.
pub open spec fn spec_scan_paren(s: Seq<char>, i: int, depth: int) -> Option<int>
    decreases s.len() - i,
{
    if depth == 0 {
        Some(i)
    } else if i < 0 || i >= s.len() {
        None
    } else {
        let d = if s[i] == '(' {
            depth + 1
        } else if s[i] == ')' {
            depth - 1
        } else {
            depth
        };
        spec_scan_paren(s, i + 1, d)
    }
}

proof fn lemma_scan_paren_bounds(s: Seq<char>, i: int, depth: int)
    requires
        0 <= i <= s.len(),
    ensures
        spec_scan_paren(s, i, depth) matches Some(j) ==> i <= j <= s.len() && (depth != 0 ==> i + 1
            <= j),
    decreases s.len() - i,
{
    if depth == 0 {
    } else if i >= s.len() {
    } else {
        let d = if s[i] == '(' {
            depth + 1
        } else if s[i] == ')' {
            depth - 1
        } else {
            depth
        };
        lemma_scan_paren_bounds(s, i + 1, d);
    }
}

/// Puts a token in front of a successful lex result; an error passes through.
pub open spec fn prepend_tok(t: SpecToken, r: Result<Seq<SpecToken>, LexError>) -> Result<
    Seq<SpecToken>,
    LexError,
> {
    match r {
        Ok(ts) => Ok(seq![t] + ts),
        Err(e) => Err(e),
    }
}

/// What lexing the whole input yields.
pub open spec fn spec_tokenize(s: Seq<char>) -> Result<Seq<SpecToken>, LexError> {
    spec_tokenize_from(s, 0)
}

/// What lexing the input from position `i` on (at parenthesis depth zero)
/// yields.  A group's content is lexed recursively; an unmatched open
/// parenthesis silently consumes the rest of the input, and an unmatched
/// close parenthesis skips ahead until the depth balances again.
pub open spec fn spec_tokenize_from(s: Seq<char>, i: int) -> Result<Seq<SpecToken>, LexError>
    decreases s.len() - i,
    via spec_tokenize_from_dec
{
    if i < 0 || i >= s.len() {
        Ok(Seq::empty())
    } else {
        let c = s[i];
        if c == '\\' {
            if i + 1 >= s.len() {
                Ok(Seq::empty())
            } else if s[i + 1] == 'w' {
                prepend_tok(SpecToken::AnyLetter, spec_tokenize_from(s, i + 2))
            } else if s[i + 1] == 'd' {
                prepend_tok(SpecToken::AnyDigit, spec_tokenize_from(s, i + 2))
            } else {
                Err(LexError::UnrecognizedEscape(s[i + 1]))
            }
        } else if c == '(' {
            match spec_scan_paren(s, i + 1, 1) {
                None => Ok(Seq::empty()),
                Some(j) => match spec_tokenize_from(s.subrange(i + 1, j - 1), 0) {
                    Err(e) => Err(e),
                    Ok(g) => prepend_tok(SpecToken::Group(g), spec_tokenize_from(s, j)),
                },
            }
        } else if c == ')' {
            match spec_scan_paren(s, i + 1, -1) {
                None => Ok(Seq::empty()),
                Some(j) => spec_tokenize_from(s, j),
            }
        } else if c == '|' {
            prepend_tok(SpecToken::Union, spec_tokenize_from(s, i + 1))
        } else if c == '*' {
            prepend_tok(SpecToken::Star, spec_tokenize_from(s, i + 1))
        } else if c == '+' {
            prepend_tok(SpecToken::Plus, spec_tokenize_from(s, i + 1))
        } else if spec_literal_char(c) {
            prepend_tok(SpecToken::Letter(c), spec_tokenize_from(s, i + 1))
        } else {
            Err(LexError::UnrecognizedChar(c))
        }
    }
}

#[via_fn]
proof fn spec_tokenize_from_dec(s: Seq<char>, i: int) {
    if 0 <= i < s.len() {
        if s[i] == '(' {
            lemma_scan_paren_bounds(s, i + 1, 1);
        } else if s[i] == ')' {
            lemma_scan_paren_bounds(s, i + 1, -1);
        }
    }
}

proof fn lemma_tokens_view_prepend(t: Token, ts: Seq<Token>)
    ensures
        tokens_view(ts.insert(0, t)) == seq![token_view(t)] + tokens_view(ts),
{
    assert(tokens_view(ts.insert(0, t)) =~= seq![token_view(t)] + tokens_view(ts));
}

/// Collects the characters of a string into a vector.
pub fn str_chars(s: &str) -> (v: Vec<char>)
    ensures
        v@ == s@,
{
    let n = s.unicode_len();
    let mut v: Vec<char> = Vec::new();
    let mut i: usize = 0;
    while i < n
        invariant
            i <= n,
            n == s@.len(),
            v@ =~= s@.subrange(0, i as int),
        decreases n - i,
    {
        v.push(s.get_char(i));
        i += 1;
    }
    assert(v@ =~= s@);
    v
}

/// Scans the characters from `start`, tracking parenthesis depth, and
/// reports the position just past the point where the depth returns to zero.
fn scan_paren(s: &Vec<char>, start: usize, depth0: i128) -> (r: Option<usize>)
    requires
        start <= s@.len(),
        -1 <= depth0 <= 1,
    ensures
        r matches Some(u) ==> spec_scan_paren(s@, start as int, depth0 as int) == Some(u as int)
            && u <= s@.len(),
        r is None ==> spec_scan_paren(s@, start as int, depth0 as int) is None,
{
    let mut j = start;
    let mut depth = depth0;
    while depth != 0
        invariant
            start <= j <= s@.len(),
            -(1 + j as i128) <= depth <= 1 + j as i128,
            spec_scan_paren(s@, j as int, depth as int) == spec_scan_paren(
                s@,
                start as int,
                depth0 as int,
            ),
        decreases s@.len() - j,
    {
        if j == s.len() {
            return None;
        }
        let c = s[j];
        if c == '(' {
            depth = depth + 1;
        } else if c == ')' {
            depth = depth - 1;
        }
        j += 1;
    }
    Some(j)
}

/// Decides whether a character is a literal of the language.
fn is_literal_char(c: char) -> (r: bool)
    ensures
        r == spec_literal_char(c),
{
    (('a' as u32) <= (c as u32) && (c as u32) <= ('z' as u32)) || (('0' as u32) <= (c as u32) && (
    c as u32) <= ('9' as u32)) || c == ' '
}

/// Reads one character of the vector.
pub fn char_at(s: &Vec<char>, i: usize) -> (c: char)
    requires
        i < s@.len(),
    ensures
        c == s@[i as int],
{
    s[i]
}

/// Puts a token in front of an already-lexed tail.
fn prepend_token(tok: Token, rest: Vec<Token>) -> (v: Vec<Token>)
    ensures
        tokens_view(v@) == seq![token_view(tok)] + tokens_view(rest@),
{
    proof {
        lemma_tokens_view_prepend(tok, rest@);
    }
    let mut v = rest;
    v.insert(0, tok);
    v
}

/// Lexes the input from position `i` on; the recursive core of `tokenize`.
fn tokenize_chars(s: &Vec<char>, i: usize) -> (r: Result<Vec<Token>, LexError>)
    requires
        i <= s@.len(),
    ensures
        r matches Ok(v) ==> spec_tokenize_from(s@, i as int) == Ok::<_, LexError>(tokens_view(v@)),
        r matches Err(e) ==> spec_tokenize_from(s@, i as int) == Err::<Seq<SpecToken>, _>(e),
    decreases s@.len() - i,
{
    if i == s.len() {
        assert(tokens_view(Seq::<Token>::empty()) =~= Seq::<SpecToken>::empty());
        return Ok(Vec::new());
    }
    let c = char_at(s, i);
    if c == '\\' {
        if i + 1 == s.len() {
            assert(tokens_view(Seq::<Token>::empty()) =~= Seq::<SpecToken>::empty());
            return Ok(Vec::new());
        }
        let e = char_at(s, i + 1);
        if e == 'w' {
            let rest = match tokenize_chars(s, i + 2) {
                Ok(v) => v,
                Err(e) => {
                    return Err(e);
                },
            };
            Ok(prepend_token(Token::AnyLetter, rest))
        } else if e == 'd' {
            let rest = match tokenize_chars(s, i + 2) {
                Ok(v) => v,
                Err(e) => {
                    return Err(e);
                },
            };
            Ok(prepend_token(Token::AnyDigit, rest))
        } else {
            Err(LexError::UnrecognizedEscape(e))
        }
    } else if c == '(' {
        match scan_paren(s, i + 1, 1) {
            None => {
                assert(tokens_view(Seq::<Token>::empty()) =~= Seq::<SpecToken>::empty());
                Ok(Vec::new())
            },
            Some(j) => {
                proof {
                    lemma_scan_paren_bounds(s@, i as int + 1, 1);
                }
                let content = slice_to_vec(slice_subrange(s.as_slice(), i + 1, j - 1));
                let inner = match tokenize_chars(&content, 0) {
                    Ok(v) => v,
                    Err(e) => {
                        return Err(e);
                    },
                };
                let rest = match tokenize_chars(s, j) {
                    Ok(v) => v,
                    Err(e) => {
                        return Err(e);
                    },
                };
                Ok(prepend_token(Token::Group(inner), rest))
            },
        }
    } else if c == ')' {
        match scan_paren(s, i + 1, -1) {
            None => {
                assert(tokens_view(Seq::<Token>::empty()) =~= Seq::<SpecToken>::empty());
                Ok(Vec::new())
            },
            Some(j) => {
                proof {
                    lemma_scan_paren_bounds(s@, i as int + 1, -1);
                }
                tokenize_chars(s, j)
            },
        }
    } else if c == '|' {
        let rest = match tokenize_chars(s, i + 1) {
            Ok(v) => v,
            Err(e) => {
                return Err(e);
            },
        };
        Ok(prepend_token(Token::Union, rest))
    } else if c == '*' {
        let rest = match tokenize_chars(s, i + 1) {
            Ok(v) => v,
            Err(e) => {
                return Err(e);
            },
        };
        Ok(prepend_token(Token::Star, rest))
    } else if c == '+' {
        let rest = match tokenize_chars(s, i + 1) {
            Ok(v) => v,
            Err(e) => {
                return Err(e);
            },
        };
        Ok(prepend_token(Token::Plus, rest))
    } else if is_literal_char(c) {
        let rest = match tokenize_chars(s, i + 1) {
            Ok(v) => v,
            Err(e) => {
                return Err(e);
            },
        };
        Ok(prepend_token(Token::Letter(c), rest))
    } else {
        Err(LexError::UnrecognizedChar(c))
    }
}

/// Converts a raw string into a sequence of tokens.
pub fn tokenize(input: &str) -> (r: Result<Vec<Token>, LexError>)
    ensures
        r matches Ok(v) ==> spec_tokenize(input@) == Ok::<_, LexError>(tokens_view(v@)),
        r matches Err(e) ==> spec_tokenize(input@) == Err::<Seq<SpecToken>, _>(e),
{
    let chars = str_chars(input);
    tokenize_chars(&chars, 0)
}

/// A value token: a literal, a group or a character class -- not an operator.
pub open spec fn spec_is_value(t: SpecToken) -> bool {
    match t {
        SpecToken::Letter(_) => true,
        SpecToken::Group(_) => true,
        SpecToken::AnyLetter => true,
        SpecToken::AnyDigit => true,
        _ => false,
    }
}

/// A left value: anything but the union operator.
pub open spec fn spec_is_left_value(t: SpecToken) -> bool {
    !(t is Union)
}

impl Token {
    /// Is this token a value (i.e. not an operator)?
    pub fn is_value(&self) -> (r: bool)
        ensures
            r == spec_is_value(token_view(*self)),
    {
        match self {
            Token::Letter(_) => true,
            Token::Group(_) => true,
            Token::AnyLetter => true,
            Token::AnyDigit => true,
            _ => false,
        }
    }

    /// Is this token a left-value (i.e. not a binary or left unary operator)?
    pub fn is_left_value(&self) -> (r: bool)
        ensures
            r == spec_is_left_value(token_view(*self)),
    {
        match self {
            Token::Union => false,
            _ => true,
        }
    }
}

/// Structural equality of tokens, groups compared element by element.
fn token_eq(a: &Token, b: &Token) -> (r: bool)
    ensures
        r == (token_view(*a) == token_view(*b)),
    decreases *a,
{
    match (a, b) {
        (Token::Letter(x), Token::Letter(y)) => *x == *y,
        (Token::Group(x), Token::Group(y)) => tokens_eq(x, y),
        (Token::Union, Token::Union) => true,
        (Token::Star, Token::Star) => true,
        (Token::Plus, Token::Plus) => true,
        (Token::AnyLetter, Token::AnyLetter) => true,
        (Token::AnyDigit, Token::AnyDigit) => true,
        _ => false,
    }
}

/// Structural equality of token vectors.
fn tokens_eq(x: &Vec<Token>, y: &Vec<Token>) -> (r: bool)
    ensures
        r == (tokens_view(x@) == tokens_view(y@)),
    decreases *x,
{
    if x.len() != y.len() {
        assert(tokens_view(x@).len() != tokens_view(y@).len());
        return false;
    }
    let n = x.len();
    let mut k: usize = 0;
    while k < n
        invariant
            k <= n,
            n == x@.len(),
            x@.len() == y@.len(),
            forall|j: int| 0 <= j < k ==> token_view(x@[j]) == token_view(y@[j]),
        decreases n - k,
    {
        if !token_eq(&x[k], &y[k]) {
            assert(tokens_view(x@)[k as int] != tokens_view(y@)[k as int]);
            return false;
        }
        k += 1;
    }
    proof {
        assert(tokens_view(x@) =~= tokens_view(y@));
    }
    true
}

/// The first index at or after `i` whose token equals `q`.
pub open spec fn spec_find_from(ts: Seq<SpecToken>, q: SpecToken, i: int) -> Option<int>
    decreases ts.len() - i,
{
    if i < 0 || i >= ts.len() {
        None
    } else if ts[i] == q {
        Some(i)
    } else {
        spec_find_from(ts, q, i + 1)
    }
}

/// The first index whose token equals `q`.
pub open spec fn spec_find(ts: Seq<SpecToken>, q: SpecToken) -> Option<int> {
    spec_find_from(ts, q, 0)
}

/// Find the first index of a token.
pub fn find(tokens: &[Token], query: Token) -> (r: Option<usize>)
    ensures
        r matches Some(k) ==> spec_find(tokens_view(tokens@), token_view(query)) == Some(k as int)
            && k < tokens@.len(),
        r is None ==> spec_find(tokens_view(tokens@), token_view(query)) is None,
{
    let n = tokens.len();
    let mut k: usize = 0;
    while k < n
        invariant
            k <= n,
            n == tokens@.len(),
            spec_find_from(tokens_view(tokens@), token_view(query), k as int) == spec_find(
                tokens_view(tokens@),
                token_view(query),
            ),
        decreases n - k,
    {
        if token_eq(slice_index_get(tokens, k), &query) {
            return Some(k);
        }
        k += 1;
    }
    None
}

/// The first index at or after `i` starting an adjacent left-value/value pair.
pub open spec fn spec_find_adjacent_from(ts: Seq<SpecToken>, i: int) -> Option<int>
    decreases ts.len() - i,
{
    if i < 0 || i + 1 >= ts.len() {
        None
    } else if spec_is_left_value(ts[i]) && spec_is_value(ts[i + 1]) {
        Some(i)
    } else {
        spec_find_adjacent_from(ts, i + 1)
    }
}

/// The first index starting an adjacent left-value/value pair.
pub open spec fn spec_find_adjacent(ts: Seq<SpecToken>) -> Option<int> {
    spec_find_adjacent_from(ts, 0)
}

/// Find the first instance of concatenation.
pub fn find_adjacent_values(tokens: &[Token]) -> (r: Option<(usize, usize)>)
    ensures
        r matches Some(p) ==> spec_find_adjacent(tokens_view(tokens@)) == Some(p.0 as int) && p.1
            == p.0 + 1 && p.1 < tokens@.len(),
        r is None ==> spec_find_adjacent(tokens_view(tokens@)) is None,
{
    let n = tokens.len();
    if n < 1 {
        return None;
    }
    let mut k: usize = 0;
    while k < n - 1
        invariant
            k <= n,
            n >= 1,
            n == tokens@.len(),
            spec_find_adjacent_from(tokens_view(tokens@), k as int) == spec_find_adjacent(
                tokens_view(tokens@),
            ),
        decreases n - k,
    {
        let first = slice_index_get(tokens, k);
        let second = slice_index_get(tokens, k + 1);
        if first.is_left_value() && second.is_value() {
            return Some((k, k + 1));
        }
        k += 1;
    }
    None
}

} // verus!
