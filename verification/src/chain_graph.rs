//! A small companion utility: renders a linear chain of named nodes as a
//! Graphviz graph whose last node is the accepting one.

use vstd::prelude::*;
use vstd::string::StringExecFns;

verus! {

/// One `A -> B;` transition line.
pub open spec fn spec_pair_line(a: Seq<char>, b: Seq<char>) -> Seq<char> {
    a + " -> "@ + b + ";"@
}

/// The first `i` transition lines, separated by a newline and indentation.
pub open spec fn spec_chain_lines(vs: Seq<Seq<char>>, i: int) -> Seq<char>
    decreases i,
{
    if i <= 0 {
        Seq::empty()
    } else if i == 1 {
        spec_pair_line(vs[0], vs[1])
    } else {
        spec_chain_lines(vs, i - 1) + "\n    "@ + spec_pair_line(vs[i - 1], vs[i])
    }
}

/// The whole graph definition for a chain of nodes.
pub open spec fn spec_graph_def(vs: Seq<Seq<char>>) -> Seq<char> {
    "digraph {\n    rankdir=LR;\n    node [shape=point]; start;\n    node [shape=doublecircle]; "@
        + vs.last() + ";\n    node [shape=circle];\n    start -> "@ + vs[0] + ";\n    "@
        + spec_chain_lines(vs, vs.len() - 1) + "\n}"@
}

/// Combine each adjacent pair of nodes into Graphviz's `a -> b` format and
/// wrap the result in the standard graph frame.
pub fn build_graph_def(nodes: Vec<&str>) -> (r: String)
    requires
        nodes@.len() >= 1,
    ensures
        r@ == spec_graph_def(nodes.deep_view()),
{
    let ghost vs = nodes.deep_view();
    let mut out = String::from_str(
        "digraph {\n    rankdir=LR;\n    node [shape=point]; start;\n    node [shape=doublecircle]; ",
    );
    out.append(nodes[nodes.len() - 1]);
    out.append(";\n    node [shape=circle];\n    start -> ");
    out.append(nodes[0]);
    out.append(";\n    ");
    let ghost mid = out@;
    let n = nodes.len();
    let mut k: usize = 1;
    proof {
        assert(vs.len() == n);
        assert(vs[n - 1] == nodes@[n - 1]@);
        assert(vs[0] == nodes@[0]@);
        assert(out@ =~= mid + spec_chain_lines(vs, 0));
    }
    while k < n
        invariant
            1 <= k <= n || (n == 1 && k == 1),
            n == nodes@.len(),
            n >= 1,
            vs == nodes.deep_view(),
            out@ == mid + spec_chain_lines(vs, k - 1),
        decreases n - k,
    {
        if k > 1 {
            out.append("\n    ");
        }
        out.append(nodes[k - 1]);
        out.append(" -> ");
        out.append(nodes[k]);
        out.append(";");
        proof {
            assert(vs[k - 1] == nodes@[k - 1]@);
            assert(vs[k as int] == nodes@[k as int]@);
            assert(out@ =~= mid + spec_chain_lines(vs, k as int));
        }
        k += 1;
    }
    out.append("\n}");
    proof {
        assert(out@ =~= spec_graph_def(vs));
    }
    out
}

} // verus!
