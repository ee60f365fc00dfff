//! A small companion utility: a table-driven DFA simulator whose states
//! are numbered from 1 and whose transition table is indexed by alphabet
//! position, together with a graph view for rendering.

use crate::lexer::char_at;
use crate::lexer::str_chars;
use vstd::prelude::*;
use vstd::string::StringExecFns;

verus! {

/// Why a transition table is not a well-formed DFA.
#[derive(Clone, Copy, Debug, PartialEq, Eq, Structural)]
pub enum ValidationError {
    /// The start state is not one of `1..=n_states`.
    UnknownStartState(u32),
    /// A final state is not one of `1..=n_states`.
    UnknownFinalState(u32),
    /// A state's row length differs from the alphabet's length.
    WrongTransitionCount { state: usize, found: usize, expected: usize },
    /// A transition leads outside `1..=n_states`.
    UnknownDestination { state: usize, dest: u32 },
}

/// # Deterministic Finite Automaton Structure
///
/// A transition table over an explicit alphabet; state ids are 1-based
/// and state `start` is where every walk begins.
#[derive(Debug)]
pub struct DFA {
    pub alphabet: Vec<char>,
    pub start: u32,
    pub accept: Vec<u32>,
    pub transitions: Vec<Vec<u32>>,
    pub n_states: u32,
}

/// Whether a state id lies in `1..=n_states`.
pub open spec fn in_range(n_states: u32, s: u32) -> bool {
    1 <= s <= n_states
}

/// The first out-of-range final state at or after `i`, if any.
pub open spec fn spec_check_accepts(d: &DFA, i: int) -> Result<(), ValidationError>
    decreases d.accept@.len() - i,
{
    if i < 0 || i >= d.accept@.len() {
        Ok(())
    } else if !in_range(d.n_states, d.accept@[i]) {
        Err(ValidationError::UnknownFinalState(d.accept@[i]))
    } else {
        spec_check_accepts(d, i + 1)
    }
}

/// The first bad destination of one row at or after `j`, if any.
pub open spec fn spec_check_dests(d: &DFA, row: Seq<u32>, state: int, j: int) -> Result<
    (),
    ValidationError,
>
    decreases row.len() - j,
{
    if j < 0 || j >= row.len() {
        Ok(())
    } else if !in_range(d.n_states, row[j]) {
        Err(ValidationError::UnknownDestination { state: (state + 1) as usize, dest: row[j] })
    } else {
        spec_check_dests(d, row, state, j + 1)
    }
}

/// The first faulty row at or after `i`, if any.
pub open spec fn spec_check_rows(d: &DFA, i: int) -> Result<(), ValidationError>
    decreases d.transitions@.len() - i,
{
    if i < 0 || i >= d.transitions@.len() {
        Ok(())
    } else if d.transitions@[i]@.len() != d.alphabet@.len() {
        Err(
            ValidationError::WrongTransitionCount {
                state: (i + 1) as usize,
                found: d.transitions@[i]@.len() as usize,
                expected: d.alphabet@.len() as usize,
            },
        )
    } else {
        match spec_check_dests(d, d.transitions@[i]@, i, 0) {
            Err(e) => Err(e),
            Ok(_) => spec_check_rows(d, i + 1),
        }
    }
}

/// The first fault of the whole table, checked start state first, then
/// the final states, then each row in order.
pub open spec fn spec_validate(d: &DFA) -> Result<(), ValidationError> {
    if !in_range(d.n_states, d.start) {
        Err(ValidationError::UnknownStartState(d.start))
    } else {
        match spec_check_accepts(d, 0) {
            Err(e) => Err(e),
            Ok(_) => spec_check_rows(d, 0),
        }
    }
}

/// The position of the first occurrence of a character in the alphabet at
/// or after `i`.
pub open spec fn spec_char_pos(alphabet: Seq<char>, c: char, i: int) -> Option<int>
    decreases alphabet.len() - i,
{
    if i < 0 || i >= alphabet.len() {
        None
    } else if alphabet[i] == c {
        Some(i)
    } else {
        spec_char_pos(alphabet, c, i + 1)
    }
}

/// Whether the walk from state `st` over the string ends in a final
/// state.  A well-formed table is assumed; a character outside the
/// alphabet or a state outside the table rejects.
pub open spec fn spec_accepts_from(d: &DFA, st: u32, str: Seq<char>) -> bool
    decreases str.len(),
{
    if !(1 <= st && st as int <= d.transitions@.len()) {
        false
    } else if str.len() == 0 {
        d.accept@.contains(st)
    } else {
        match spec_char_pos(d.alphabet@, str[0], 0) {
            None => false,
            Some(p) => {
                if p < d.transitions@[st as int - 1]@.len() {
                    spec_accepts_from(d, d.transitions@[st as int - 1]@[p], str.drop_first())
                } else {
                    false
                }
            },
        }
    }
}

impl DFA {
    /// Check whether this DFA is well-formed.
    pub fn validate(&self) -> (r: Result<(), ValidationError>)
        ensures
            r == spec_validate(self),
    {
        if !(1 <= self.start && self.start <= self.n_states) {
            return Err(ValidationError::UnknownStartState(self.start));
        }
        let na = self.accept.len();
        let mut i: usize = 0;
        while i < na
            invariant
                i <= na,
                na == self.accept@.len(),
                1 <= self.start && self.start <= self.n_states,
                spec_check_accepts(self, i as int) == spec_check_accepts(self, 0),
            decreases na - i,
        {
            let f = self.accept[i];
            if !(1 <= f && f <= self.n_states) {
                return Err(ValidationError::UnknownFinalState(f));
            }
            i += 1;
        }
        let nt = self.transitions.len();
        let mut s: usize = 0;
        while s < nt
            invariant
                s <= nt,
                nt == self.transitions@.len(),
                1 <= self.start && self.start <= self.n_states,
                spec_check_accepts(self, 0) is Ok,
                spec_check_rows(self, s as int) == spec_check_rows(self, 0),
            decreases nt - s,
        {
            let row = &self.transitions[s];
            let rl = row.len();
            if rl != self.alphabet.len() {
                return Err(
                    ValidationError::WrongTransitionCount {
                        state: s + 1,
                        found: rl,
                        expected: self.alphabet.len(),
                    },
                );
            }
            let mut j: usize = 0;
            while j < rl
                invariant
                    j <= rl,
                    s < nt,
                    nt == self.transitions@.len(),
                    1 <= self.start && self.start <= self.n_states,
                    spec_check_accepts(self, 0) is Ok,
                    spec_check_rows(self, s as int) == spec_check_rows(self, 0),
                    row@ == self.transitions@[s as int]@,
                    rl == row@.len(),
                    rl == self.alphabet@.len(),
                    spec_check_dests(self, row@, s as int, j as int) == spec_check_dests(
                        self,
                        row@,
                        s as int,
                        0,
                    ),
                decreases rl - j,
            {
                let dest = row[j];
                if !(1 <= dest && dest <= self.n_states) {
                    return Err(
                        ValidationError::UnknownDestination { state: s + 1, dest: dest },
                    );
                }
                j += 1;
            }
            s += 1;
        }
        Ok(())
    }

    /// Check whether this DFA accepts the given string, walking from the
    /// start state.  Every input character must belong to the alphabet
    /// and the table must be well-formed.
    pub fn accepts(&self, input: &str) -> (r: bool)
        requires
            spec_validate(self) is Ok,
            self.n_states as int == self.transitions@.len(),
            forall|k: int| 0 <= k < input@.len() ==> d_has_char(self, input@[k]),
        ensures
            r == spec_accepts_from(self, self.start, input@),
    {
        let chars = str_chars(input);
        let n = chars.len();
        let mut state = self.start;
        let mut i: usize = 0;
        proof {
            assert(input@.skip(0) =~= input@);
            lemma_validate_bounds(self);
        }
        while i < n
            invariant
                i <= n,
                n == chars@.len(),
                chars@ == input@,
                spec_validate(self) is Ok,
                self.n_states as int == self.transitions@.len(),
                forall|k: int| 0 <= k < input@.len() ==> d_has_char(self, input@[k]),
                1 <= state && state as int <= self.transitions@.len(),
                spec_accepts_from(self, self.start, input@) == spec_accepts_from(
                    self,
                    state,
                    input@.skip(i as int),
                ),
            decreases n - i,
        {
            let c = char_at(&chars, i);
            proof {
                assert(input@.skip(i as int)[0] == input@[i as int]);
                assert(input@.skip(i as int).drop_first() =~= input@.skip(i as int + 1));
                lemma_validate_bounds(self);
            }
            let pos = match self.char_pos(c) {
                Some(p) => p,
                None => {
                    proof {
                        assert(d_has_char(self, input@[i as int]));
                        assert(false);
                    }
                    return false;
                },
            };
            let next = self.transitions[(state - 1) as usize][pos];
            state = next;
            i += 1;
        }
        proof {
            assert(input@.skip(n as int) =~= Seq::<char>::empty());
            assert(spec_accepts_from(self, self.start, input@) == self.accept@.contains(state));
        }
        let na = self.accept.len();
        let mut a: usize = 0;
        while a < na
            invariant
                a <= na,
                na == self.accept@.len(),
                spec_accepts_from(self, self.start, input@) == self.accept@.contains(state),
                forall|k: int| 0 <= k < a ==> (#[trigger] self.accept@[k]) != state,
            decreases na - a,
        {
            if self.accept[a] == state {
                proof {
                    assert(self.accept@.contains(state));
                }
                return true;
            }
            a += 1;
        }
        proof {
            assert(!self.accept@.contains(state));
        }
        false
    }

    /// The alphabet position of a character, if any.
    fn char_pos(&self, c: char) -> (r: Option<usize>)
        ensures
            r matches Some(p) ==> spec_char_pos(self.alphabet@, c, 0) == Some(p as int) && p
                < self.alphabet@.len(),
            r is None ==> spec_char_pos(self.alphabet@, c, 0) is None,
    {
        let n = self.alphabet.len();
        let mut j: usize = 0;
        while j < n
            invariant
                j <= n,
                n == self.alphabet@.len(),
                spec_char_pos(self.alphabet@, c, j as int) == spec_char_pos(self.alphabet@, c, 0),
            decreases n - j,
        {
            if self.alphabet[j] == c {
                return Some(j);
            }
            j += 1;
        }
        None
    }
}

/// Whether the alphabet holds a character.
pub open spec fn d_has_char(d: &DFA, c: char) -> bool {
    spec_char_pos(d.alphabet@, c, 0) is Some
}

/// In a validated table every row is alphabet-sized and every destination
/// and final state is in range.
proof fn lemma_validate_bounds(d: &DFA)
    requires
        spec_validate(d) is Ok,
    ensures
        in_range(d.n_states, d.start),
        forall|s: int|
            0 <= s < d.transitions@.len() ==> (#[trigger] d.transitions@[s]@).len()
                == d.alphabet@.len(),
        forall|s: int, j: int|
            0 <= s < d.transitions@.len() && 0 <= j < d.transitions@[s]@.len() ==> in_range(
                d.n_states,
                #[trigger] d.transitions@[s]@[j],
            ),
{
    assert forall|s: int|
        0 <= s < d.transitions@.len() implies (#[trigger] d.transitions@[s]@).len()
        == d.alphabet@.len() && (forall|j: int|
        0 <= j < d.transitions@[s]@.len() ==> in_range(
            d.n_states,
            #[trigger] d.transitions@[s]@[j],
        )) by {
        lemma_check_rows_ok(d, 0, s);
    }
}

proof fn lemma_check_rows_ok(d: &DFA, i: int, s: int)
    requires
        0 <= i <= s < d.transitions@.len(),
        spec_check_rows(d, i) is Ok,
    ensures
        d.transitions@[s]@.len() == d.alphabet@.len(),
        forall|j: int|
            0 <= j < d.transitions@[s]@.len() ==> in_range(
                d.n_states,
                #[trigger] d.transitions@[s]@[j],
            ),
    decreases s - i,
{
    if i < s {
        lemma_check_rows_ok(d, i + 1, s);
    } else {
        assert forall|j: int|
            0 <= j < d.transitions@[s]@.len() implies in_range(
            d.n_states,
            #[trigger] d.transitions@[s]@[j],
        ) by {
            lemma_check_dests_ok(d, d.transitions@[s]@, s, 0, j);
        }
    }
}

proof fn lemma_check_dests_ok(d: &DFA, row: Seq<u32>, state: int, i: int, j: int)
    requires
        0 <= i <= j < row.len(),
        spec_check_dests(d, row, state, i) is Ok,
    ensures
        in_range(d.n_states, row[j]),
    decreases j - i,
{
    if i < j {
        lemma_check_dests_ok(d, row, state, i + 1, j);
    }
}

/// # Graph Structure
///
/// A vector of nodes and the index of the start node.
#[derive(Debug)]
pub struct Graph {
    pub nodes: Vec<Node>,
    pub start_node: u32,
}

/// # Node Structure
///
/// All connected node indices, the transition labels for those
/// connections (possibly left undefined), and whether the node accepts.
#[derive(Debug)]
pub struct Node {
    pub connections: Vec<u32>,
    pub labels: Vec<Option<char>>,
    pub accept_state: bool,
}

impl Node {
    /// Create a new node with the specified transition labels.
    pub fn new(labels: &Vec<char>) -> (n: Node)
        ensures
            n.connections@ == Seq::<u32>::empty(),
            n.labels@.len() == labels@.len(),
            forall|j: int| 0 <= j < labels@.len() ==> n.labels@[j] == Some(labels@[j]),
            n.accept_state == false,
    {
        let m = labels.len();
        let mut lr: Vec<Option<char>> = Vec::new();
        let mut j: usize = 0;
        while j < m
            invariant
                j <= m,
                m == labels@.len(),
                lr@.len() == j,
                forall|k: int| 0 <= k < j ==> lr@[k] == Some(labels@[k]),
            decreases m - j,
        {
            lr.push(Some(labels[j]));
            j += 1;
        }
        Node { connections: Vec::new(), labels: lr, accept_state: false }
    }

    /// Create a new empty node.
    pub fn new_empty() -> (n: Node)
        ensures
            n.connections@ == Seq::<u32>::empty(),
            n.labels@ == Seq::<Option<char>>::empty(),
            n.accept_state == false,
    {
        Node { connections: Vec::new(), labels: Vec::new(), accept_state: false }
    }
}

/// One rendered transition: `qA -> qB`, with a label when one is defined.
pub open spec fn spec_line(i: int, target: u32, label: Option<char>) -> Seq<char> {
    let base = "q"@ + crate::graphviz::spec_dec(i as nat) + " -> q"@ + crate::graphviz::spec_dec(
        target as nat,
    );
    match label {
        Some(c) => base + " [label=\""@ + seq![c] + "\"]"@,
        None => base,
    }
}

/// The rendered transitions of one node, one per connection that has a
/// label slot.
pub open spec fn spec_node_lines(n: Node, i: int) -> Seq<Seq<char>> {
    Seq::new(
        if n.connections@.len() <= n.labels@.len() {
            n.connections@.len()
        } else {
            n.labels@.len()
        },
        |k: int| spec_line(i, n.connections@[k], n.labels@[k]),
    )
}

/// The rendered transitions of the first `i` nodes.
pub open spec fn spec_all_lines(g: &Graph, i: int) -> Seq<Seq<char>>
    decreases i,
{
    if i <= 0 {
        Seq::empty()
    } else {
        spec_all_lines(g, i - 1) + spec_node_lines(g.nodes@[i - 1], i - 1)
    }
}

/// The names of the accepting nodes among the first `i`.
pub open spec fn spec_end_names(g: &Graph, i: int) -> Seq<Seq<char>>
    decreases i,
{
    if i <= 0 {
        Seq::empty()
    } else {
        spec_end_names(g, i - 1) + (if g.nodes@[i - 1].accept_state {
            seq![("q"@ + crate::graphviz::spec_dec((i - 1) as nat))]
        } else {
            Seq::empty()
        })
    }
}

/// The first `i` pieces joined with a separator.
pub open spec fn spec_join(parts: Seq<Seq<char>>, sep: Seq<char>, i: int) -> Seq<char>
    decreases i,
{
    if i <= 0 {
        Seq::empty()
    } else if i == 1 {
        parts[0]
    } else {
        spec_join(parts, sep, i - 1) + sep + parts[i - 1]
    }
}

/// The whole Graphviz text of a graph.
pub open spec fn spec_to_graphviz(g: &Graph) -> Seq<char> {
    "digraph {
    rankdir=LR;
    node [shape=point]; q"@ + crate::graphviz::spec_dec(
        g.start_node as nat,
    ) + ";
    node [shape=doublecircle]; "@ + spec_join(
        spec_end_names(g, g.nodes@.len() as int),
        "; "@,
        spec_end_names(g, g.nodes@.len() as int).len() as int,
    ) + ";
    node [shape=circle];
    "@ + spec_join(
        spec_all_lines(g, g.nodes@.len() as int),
        ";
    "@,
        spec_all_lines(g, g.nodes@.len() as int).len() as int,
    ) + ";
}"@
}

/// Appends the first `i` pieces joined with a separator.
fn append_joined(out: &mut String, parts: &Vec<String>, sep: &str, ghost_parts: Ghost<Seq<Seq<char>>>)
    requires
        parts@.len() == ghost_parts@.len(),
        forall|k: int| 0 <= k < parts@.len() ==> (#[trigger] parts@[k])@ == ghost_parts@[k],
    ensures
        final(out)@ == old(out)@ + spec_join(ghost_parts@, sep@, ghost_parts@.len() as int),
{
    let n = parts.len();
    let mut k: usize = 0;
    proof {
        assert(old(out)@ + spec_join(ghost_parts@, sep@, 0) =~= old(out)@);
    }
    while k < n
        invariant
            k <= n,
            n == parts@.len(),
            parts@.len() == ghost_parts@.len(),
            forall|t: int| 0 <= t < parts@.len() ==> (#[trigger] parts@[t])@ == ghost_parts@[t],
            out@ == old(out)@ + spec_join(ghost_parts@, sep@, k as int),
        decreases n - k,
    {
        if k > 0 {
            out.append(sep);
        }
        out.append(parts[k].as_str());
        proof {
            assert(out@ =~= old(out)@ + spec_join(ghost_parts@, sep@, k as int + 1));
        }
        k += 1;
    }
}

impl Graph {
    /// Return this graph as a string in GraphViz format.
    pub fn to_graphviz(&self) -> (r: String)
        ensures
            r@ == spec_to_graphviz(self),
    {
        let n = self.nodes.len();
        let mut lines: Vec<String> = Vec::new();
        let mut ends: Vec<String> = Vec::new();
        let mut i: usize = 0;
        while i < n
            invariant
                i <= n,
                n == self.nodes@.len(),
                lines@.len() == spec_all_lines(self, i as int).len(),
                forall|t: int|
                    0 <= t < lines@.len() ==> (#[trigger] lines@[t])@ == spec_all_lines(
                        self,
                        i as int,
                    )[t],
                ends@.len() == spec_end_names(self, i as int).len(),
                forall|t: int|
                    0 <= t < ends@.len() ==> (#[trigger] ends@[t])@ == spec_end_names(
                        self,
                        i as int,
                    )[t],
            decreases n - i,
        {
            let node = &self.nodes[i];
            let nc = node.connections.len();
            let nl = node.labels.len();
            let bound = if nc <= nl {
                nc
            } else {
                nl
            };
            let mut k: usize = 0;
            while k < bound
                invariant
                    i < n,
                    n == self.nodes@.len(),
                    node == &self.nodes@[i as int],
                    bound == spec_node_lines(self.nodes@[i as int], i as int).len(),
                    bound <= node.connections@.len(),
                    bound <= node.labels@.len(),
                    k <= bound,
                    lines@.len() == spec_all_lines(self, i as int).len() + k,
                    forall|t: int|
                        0 <= t < spec_all_lines(self, i as int).len() ==> (
                        #[trigger] lines@[t])@ == spec_all_lines(self, i as int)[t],
                    forall|t: int|
                        0 <= t < k ==> (#[trigger] lines@[spec_all_lines(self, i as int).len()
                            + t])@ == spec_node_lines(self.nodes@[i as int], i as int)[t],
                decreases bound - k,
            {
                let mut line = String::from_str("q");
                let a = crate::graphviz::dec_str(i as u64);
                line.append(a.as_str());
                line.append(" -> q");
                let b = crate::graphviz::dec_str(node.connections[k] as u64);
                line.append(b.as_str());
                match node.labels[k] {
                    Some(c) => {
                        line.append(" [label=\"");
                        line.push(c);
                        line.append("\"]");
                    },
                    None => (),
                }
                proof {
                    assert(line@ =~= spec_line(
                        i as int,
                        node.connections@[k as int],
                        node.labels@[k as int],
                    ));
                }
                lines.push(line);
                k += 1;
            }
            if node.accept_state {
                let mut e = String::from_str("q");
                let a = crate::graphviz::dec_str(i as u64);
                e.append(a.as_str());
                proof {
                    assert(e@ =~= "q"@ + crate::graphviz::spec_dec(i as nat));
                }
                ends.push(e);
            }
            proof {
                assert(spec_all_lines(self, i as int + 1) =~= spec_all_lines(self, i as int)
                    + spec_node_lines(self.nodes@[i as int], i as int));
                assert(spec_end_names(self, i as int + 1) =~= spec_end_names(self, i as int) + (
                if self.nodes@[i as int].accept_state {
                    seq![("q"@ + crate::graphviz::spec_dec(i as nat))]
                } else {
                    Seq::<Seq<char>>::empty()
                }));
                assert forall|t: int|
                    0 <= t < lines@.len() implies (#[trigger] lines@[t])@ == spec_all_lines(
                    self,
                    i as int + 1,
                )[t] by {
                    let base = spec_all_lines(self, i as int).len();
                    if t >= base {
                        let tt = t - base;
                        assert(lines@[base + tt]@ == spec_node_lines(
                            self.nodes@[i as int],
                            i as int,
                        )[tt]);
                    }
                }
                assert forall|t: int|
                    0 <= t < ends@.len() implies (#[trigger] ends@[t])@ == spec_end_names(
                    self,
                    i as int + 1,
                )[t] by {
                    let base = spec_end_names(self, i as int).len();
                    if t >= base {
                        assert(ends@[t]@ == ("q"@ + crate::graphviz::spec_dec(i as nat)));
                    }
                }
            }
            i += 1;
        }
        let mut out = String::from_str("digraph {
    rankdir=LR;
    node [shape=point]; q");
        let sd = crate::graphviz::dec_str(self.start_node as u64);
        out.append(sd.as_str());
        out.append(";
    node [shape=doublecircle]; ");
        append_joined(&mut out, &ends, "; ", Ghost(spec_end_names(self, n as int)));
        out.append(";
    node [shape=circle];
    ");
        append_joined(&mut out, &lines, ";
    ", Ghost(spec_all_lines(self, n as int)));
        out.append(";
}");
        proof {
            assert(out@ =~= spec_to_graphviz(self));
        }
        out
    }
}

impl DFA {
    /// Generate a Graph structure from this DFA: one extra start-arrow
    /// node in front, then one node per state carrying its transitions,
    /// its labels and its accept flag.
    pub fn to_graph(&self) -> (g: Graph)
        requires
            spec_validate(self) is Ok,
            self.n_states as int == self.transitions@.len(),
        ensures
            g.start_node == 0,
            g.nodes@.len() == self.n_states + 1,
            g.nodes@[0].connections@ == seq![self.start],
            g.nodes@[0].labels@ == seq![Option::<char>::None],
            g.nodes@[0].accept_state == false,
            forall|i: int|
                1 <= i <= self.n_states ==> (#[trigger] g.nodes@[i]).connections@
                    == self.transitions@[i - 1]@ && g.nodes@[i].labels@.len()
                    == self.alphabet@.len() && (forall|j: int|
                    0 <= j < self.alphabet@.len() ==> g.nodes@[i].labels@[j] == Some(
                        self.alphabet@[j],
                    )) && g.nodes@[i].accept_state == self.accept@.contains(i as u32),
    {
        let mut nodes: Vec<Node> = Vec::new();
        let mut start = Node::new_empty();
        start.connections.push(self.start);
        start.labels.push(None);
        proof {
            assert(start.connections@ =~= seq![self.start]);
            assert(start.labels@ =~= seq![Option::<char>::None]);
        }
        nodes.push(start);
        let nn = self.n_states as usize;
        let mut i: u64 = 1;
        while i - 1 < nn as u64
            invariant
                1 <= i <= nn as u64 + 1,
                nn == self.n_states,
                self.n_states as int == self.transitions@.len(),
                nodes@.len() == i,
                nodes@[0].connections@ == seq![self.start],
                nodes@[0].labels@ == seq![Option::<char>::None],
                nodes@[0].accept_state == false,
                forall|t: int|
                    1 <= t < i ==> (#[trigger] nodes@[t]).connections@ == self.transitions@[t
                        - 1]@ && nodes@[t].labels@.len() == self.alphabet@.len() && (forall|j: int|
                        0 <= j < self.alphabet@.len() ==> nodes@[t].labels@[j] == Some(
                            self.alphabet@[j],
                        )) && nodes@[t].accept_state == self.accept@.contains(t as u32),
            decreases nn + 1 - i,
        {
            let mut node = Node::new(&self.alphabet);
            let mut conns: Vec<u32> = Vec::new();
            let row = &self.transitions[(i - 1) as usize];
            let rl = row.len();
            let mut j: usize = 0;
            while j < rl
                invariant
                    j <= rl,
                    rl == row@.len(),
                    conns@ =~= row@.subrange(0, j as int),
                decreases rl - j,
            {
                conns.push(row[j]);
                j += 1;
            }
            proof {
                assert(conns@ =~= row@);
            }
            node.connections = conns;
            let acc = self.state_accepts(i as u32);
            node.accept_state = acc;
            nodes.push(node);
            i += 1;
        }
        Graph { nodes: nodes, start_node: 0 }
    }

    /// Whether a state id stands in the accept list.
    fn state_accepts(&self, s: u32) -> (r: bool)
        ensures
            r == self.accept@.contains(s),
    {
        let na = self.accept.len();
        let mut a: usize = 0;
        while a < na
            invariant
                a <= na,
                na == self.accept@.len(),
                forall|k: int| 0 <= k < a ==> (#[trigger] self.accept@[k]) != s,
            decreases na - a,
        {
            if self.accept[a] == s {
                proof {
                    assert(self.accept@.contains(s));
                }
                return true;
            }
            a += 1;
        }
        proof {
            assert(!self.accept@.contains(s));
        }
        false
    }
}

} // verus!
