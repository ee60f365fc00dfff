//! Graphviz rendering: the textual "dot" form of an automaton graph.

use crate::automata::StateId;
use vstd::prelude::*;
use vstd::string::StringExecFns;

verus! {

/// Relies on `String::push`: appends the given character to the end of
/// the string.
pub assume_specification [ String::push ](s: &mut String, c: char)
    ensures
        final(s)@ == old(s)@.push(c),
;

/// One labeled edge of an automaton graph.
pub type Edge = (StateId, StateId, char);

/// The decimal digit characters.
pub open spec fn digit_char(d: nat) -> char {
    if d == 0 {
        '0'
    } else if d == 1 {
        '1'
    } else if d == 2 {
        '2'
    } else if d == 3 {
        '3'
    } else if d == 4 {
        '4'
    } else if d == 5 {
        '5'
    } else if d == 6 {
        '6'
    } else if d == 7 {
        '7'
    } else if d == 8 {
        '8'
    } else {
        '9'
    }
}

/// The decimal rendering of a number.
pub open spec fn spec_dec(n: nat) -> Seq<char>
    decreases n,
{
    if n < 10 {
        seq![digit_char(n)]
    } else {
        spec_dec(n / 10) + seq![digit_char(n % 10)]
    }
}

/// One decimal digit as a string slice.
fn digit_str(d: u64) -> (r: &'static str)
    requires
        d < 10,
    ensures
        r@ == seq![digit_char(d as nat)],
{
    proof {
        reveal_strlit("0");
        reveal_strlit("1");
        reveal_strlit("2");
        reveal_strlit("3");
        reveal_strlit("4");
        reveal_strlit("5");
        reveal_strlit("6");
        reveal_strlit("7");
        reveal_strlit("8");
        reveal_strlit("9");
    }
    let r = if d == 0 {
        "0"
    } else if d == 1 {
        "1"
    } else if d == 2 {
        "2"
    } else if d == 3 {
        "3"
    } else if d == 4 {
        "4"
    } else if d == 5 {
        "5"
    } else if d == 6 {
        "6"
    } else if d == 7 {
        "7"
    } else if d == 8 {
        "8"
    } else {
        "9"
    };
    r
}

/// Renders a number in decimal.
pub fn dec_str(n: u64) -> (r: String)
    ensures
        r@ == spec_dec(n as nat),
    decreases n,
{
    if n < 10 {
        String::from_str(digit_str(n))
    } else {
        let mut s = dec_str(n / 10);
        s.append(digit_str(n % 10));
        s
    }
}

/// The accept-state list: each id in decimal, each followed by `; `.
pub open spec fn spec_accept_list(end: Seq<StateId>, i: int) -> Seq<char>
    decreases i,
{
    if i <= 0 {
        Seq::empty()
    } else {
        spec_accept_list(end, i - 1) + spec_dec(end[i - 1] as nat) + "; "@
    }
}

/// The edge lines: `A -> B [label="c"];`, one per line.
pub open spec fn spec_edge_lines(edges: Seq<Edge>, i: int) -> Seq<char>
    decreases i,
{
    if i <= 0 {
        Seq::empty()
    } else {
        spec_edge_lines(edges, i - 1) + spec_dec(edges[i - 1].0 as nat) + " -> "@ + spec_dec(
            edges[i - 1].1 as nat,
        ) + " [label=\""@ + seq![edges[i - 1].2] + "\"];\n"@
    }
}

/// The whole graph description.
pub open spec fn spec_generate(start: StateId, end: Seq<StateId>, edges: Seq<Edge>) -> Seq<
    char,
> {
    "digraph {\nrankdir=LR;\nnode [shape=point]; start;\nnode [shape=doublecircle]; "@
        + spec_accept_list(end, end.len() as int) + "\nnode [shape=circle];\nstart -> "@
        + spec_dec(start as nat) + ";\n"@ + spec_edge_lines(edges, edges.len() as int) + "}"@
}

/// Produce the Graphviz text for a graph with the given start state,
/// accept states and edges.
pub fn generate(start: StateId, end: &Vec<StateId>, edges: &Vec<Edge>) -> (r: String)
    ensures
        r@ == spec_generate(start, end@, edges@),
{
    let mut out = String::from_str(
        "digraph {\nrankdir=LR;\nnode [shape=point]; start;\nnode [shape=doublecircle]; ",
    );
    let ghost head = out@;
    let n = end.len();
    let mut i: usize = 0;
    proof {
        assert(out@ =~= head + spec_accept_list(end@, 0));
    }
    while i < n
        invariant
            i <= n,
            n == end@.len(),
            out@ == head + spec_accept_list(end@, i as int),
        decreases n - i,
    {
        let d = dec_str(end[i] as u64);
        out.append(d.as_str());
        out.append("; ");
        proof {
            assert(out@ =~= head + spec_accept_list(end@, i as int + 1));
        }
        i += 1;
    }
    out.append("\nnode [shape=circle];\nstart -> ");
    let sd = dec_str(start as u64);
    out.append(sd.as_str());
    out.append(";\n");
    let ghost mid = out@;
    let m = edges.len();
    let mut j: usize = 0;
    proof {
        assert(out@ =~= mid + spec_edge_lines(edges@, 0));
    }
    while j < m
        invariant
            j <= m,
            m == edges@.len(),
            out@ == mid + spec_edge_lines(edges@, j as int),
        decreases m - j,
    {
        let e = edges[j];
        let a = dec_str(e.0 as u64);
        out.append(a.as_str());
        out.append(" -> ");
        let b = dec_str(e.1 as u64);
        out.append(b.as_str());
        out.append(" [label=\"");
        out.push(e.2);
        out.append("\"];\n");
        proof {
            assert(out@ =~= mid + spec_edge_lines(edges@, j as int + 1));
        }
        j += 1;
    }
    out.append("}");
    proof {
        assert(out@ =~= spec_generate(start, end@, edges@));
    }
    out
}

} // verus!
