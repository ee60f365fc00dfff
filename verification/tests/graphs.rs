use regex_dfa::chain_graph::build_graph_def;
use regex_dfa::table_dfa::DFA;
use regex_dfa::table_dfa::Graph;
use regex_dfa::table_dfa::Node;
use regex_dfa::table_dfa::ValidationError;

#[test]
fn test_graph() {
    let expected = "digraph {
    rankdir=LR;
    node [shape=point]; start;
    node [shape=doublecircle]; d;
    node [shape=circle];
    start -> a;
    a -> b;
    b -> c;
    c -> d;
}";
    assert_eq!(build_graph_def(vec!["a", "b", "c", "d"]), expected);
}

#[test]
fn test_to_graphviz() {
    let nodes = vec![
        Node {
            connections: vec![1],
            labels: vec![None],
            accept_state: false,
        },
        Node {
            connections: vec![1, 2],
            labels: vec![Some('a'), Some('b')],
            accept_state: false,
        },
        Node {
            connections: vec![2],
            labels: vec![Some('a')],
            accept_state: true,
        },
    ];
    let graph = Graph { nodes: nodes, start_node: 0 };

    assert_eq!(
        graph.to_graphviz(),
        "digraph {
    rankdir=LR;
    node [shape=point]; q0;
    node [shape=doublecircle]; q2;
    node [shape=circle];
    q0 -> q1;
    q1 -> q1 [label=\"a\"];
    q1 -> q2 [label=\"b\"];
    q2 -> q2 [label=\"a\"];
}"
    );
}

#[test]
fn test_accept() {
    // Accepts strings of {a, b} that end with an a
    let dfa = DFA {
        alphabet: vec!['a', 'b'],
        start: 1,
        accept: vec![2],
        transitions: vec![vec![2, 1], vec![2, 1]],
        n_states: 2,
    };
    // positive inputs
    assert!(dfa.accepts("a"));
    assert!(dfa.accepts("baa"));
    assert!(dfa.accepts("baba"));

    // negative inputs
    assert!(!dfa.accepts(""));
    assert!(!dfa.accepts("b"));
    assert!(!dfa.accepts("ab"));
    assert!(!dfa.accepts("abab"));
}

#[test]
fn validate_reports_the_first_fault() {
    let good = DFA {
        alphabet: vec!['a', 'b'],
        start: 1,
        accept: vec![2],
        transitions: vec![vec![2, 1], vec![2, 1]],
        n_states: 2,
    };
    assert_eq!(good.validate(), Ok(()));

    let bad_start = DFA { start: 3, ..make() };
    assert_eq!(bad_start.validate(), Err(ValidationError::UnknownStartState(3)));

    let bad_final = DFA { accept: vec![0], ..make() };
    assert_eq!(bad_final.validate(), Err(ValidationError::UnknownFinalState(0)));

    let bad_row = DFA { transitions: vec![vec![2], vec![2, 1]], ..make() };
    assert_eq!(
        bad_row.validate(),
        Err(ValidationError::WrongTransitionCount { state: 1, found: 1, expected: 2 })
    );

    let bad_dest = DFA { transitions: vec![vec![2, 7], vec![2, 1]], ..make() };
    assert_eq!(
        bad_dest.validate(),
        Err(ValidationError::UnknownDestination { state: 1, dest: 7 })
    );
}

fn make() -> DFA {
    DFA {
        alphabet: vec!['a', 'b'],
        start: 1,
        accept: vec![2],
        transitions: vec![vec![2, 1], vec![2, 1]],
        n_states: 2,
    }
}

#[test]
fn table_dfa_graph_round() {
    let dfa = make();
    let graph = dfa.to_graph();
    assert_eq!(graph.nodes.len(), 3);
    assert_eq!(graph.start_node, 0);
    assert_eq!(graph.nodes[0].connections, vec![1]);
    assert!(!graph.nodes[1].accept_state);
    assert!(graph.nodes[2].accept_state);
    let text = graph.to_graphviz();
    assert!(text.starts_with("digraph {"));
    assert!(text.contains("q0 -> q1"));
    assert!(text.contains("q1 -> q2 [label=\"a\"]"));
}
