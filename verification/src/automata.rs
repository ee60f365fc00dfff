//! Automata: an NFA synthesizer driven by the AST, with eagerly propagated
//! epsilon information, and a lazy subset construction into a DFA.

use crate::multimap::contains_u16;
use crate::multimap::copy_u16s;
use crate::multimap::lemma_mm_iteration;
use crate::multimap::union_multi;
use crate::multimap::union_val_set;
use crate::multimap::lemma_push_to_set;
use crate::multimap::MultiMap;
use crate::parser::wf_nodes;
use crate::parser::CharClass;
use crate::parser::Node;
use crate::parser::NodeId;
use crate::parser::AST;
use crate::multimap::MultiMapMethods;
use vstd::prelude::*;

verus! {

/// The max number of states is 2^16.
pub type StateId = u16;

/// Used internally in a few places.
/// Should be a character that is NOT in the language.
const DUMMY_TRANSITION: char = '_';

/// A nondeterministic finite automaton.  The epsilon table records, for
/// each state, the set of states from which it is reachable through
/// epsilon transitions alone; transition maps are kept closed under that
/// relation as the automaton is built, so no closure walk is ever needed
/// afterwards.
#[derive(Debug)]
pub struct NFA {
    table: Vec<MultiMap<char, StateId>>,
    accept_state: StateId,
    epsilon_table: MultiMap<StateId, StateId>,
}

impl NFA {
    /// How many states the automaton has.
    pub closed spec fn state_count(&self) -> nat {
        self.table@.len()
    }

    /// The single designated accept state.
    pub closed spec fn accept_of(&self) -> StateId {
        self.accept_state
    }

    /// The transition map of one state.
    pub closed spec fn map_at(&self, s: int) -> MultiMap<char, StateId> {
        self.table@[s]
    }

    /// The set of destination states for a state and a character.
    pub closed spec fn trans(&self, s: int, c: char) -> Set<StateId> {
        self.table@[s].val_set(c)
    }

    /// The set of states from which `s` is epsilon-reachable.
    pub closed spec fn eps_preds(&self, s: StateId) -> Set<StateId> {
        self.epsilon_table.val_set(s)
    }

    /// The epsilon table itself, for framing.
    pub closed spec fn eps_map(&self) -> MultiMap<StateId, StateId> {
        self.epsilon_table
    }

    /// Whether state `s` has no outgoing transitions at all.
    pub closed spec fn leaf_at(&self, s: int) -> bool {
        self.table@[s].has_no_keys()
    }

    /// Every transition map is well formed and every state mentioned
    /// anywhere is within the table.
    pub closed spec fn wf(&self) -> bool {
        &&& self.table@.len() <= 65536
        &&& forall|s: int| 0 <= s < self.table@.len() ==> (#[trigger] self.table@[s]).inv()
        &&& self.epsilon_table.inv()
        &&& forall|s: int, c: char, t: StateId|
            0 <= s < self.table@.len() && (#[trigger] self.table@[s].val_set(c).contains(t)) ==> (
            t as int) < self.table@.len()
        &&& forall|s: StateId, t: StateId|
            (#[trigger] self.epsilon_table.val_set(s).contains(t)) ==> (t as int)
                < self.table@.len() && (s as int) < self.table@.len()
    }

    /// Make a new, empty NFA.
    pub fn new() -> (nfa: NFA)
        ensures
            nfa.wf(),
            nfa.state_count() == 0,
            nfa.accept_of() == 0,
            forall|s: StateId| #[trigger] nfa.eps_preds(s) == Set::<StateId>::empty(),
    {
        NFA { table: Vec::new(), accept_state: 0, epsilon_table: MultiMap::new() }
    }

    /// Record which state accepts.
    fn set_accept_state(&mut self, s: StateId)
        ensures
            final(self).accept_of() == s,
            final(self).state_count() == old(self).state_count(),
            final(self).wf() == old(self).wf(),
            forall|t: int, c: char| #[trigger] final(self).trans(t, c) == old(self).trans(t, c),
            forall|t: StateId| #[trigger] final(self).eps_preds(t) == old(self).eps_preds(t),
            forall|t: int| #[trigger] final(self).leaf_at(t) == old(self).leaf_at(t),
            final(self).eps_map() == old(self).eps_map(),
            forall|t: int| #[trigger] final(self).map_at(t) == old(self).map_at(t),
    {
        self.accept_state = s;
    }

    /// Add a new state to the NFA and return its index.
    pub fn add_state(&mut self) -> (r: StateId)
        requires
            old(self).wf(),
            old(self).state_count() < 65536,
        ensures
            final(self).wf(),
            final(self).state_count() == old(self).state_count() + 1,
            r as int == old(self).state_count(),
            final(self).accept_of() == old(self).accept_of(),
            forall|s: int, c: char|
                0 <= s < old(self).state_count() ==> #[trigger] final(self).trans(s, c) == old(self).trans(s, c),
            forall|c: char| #[trigger] final(self).trans(old(self).state_count() as int, c)
                == Set::<StateId>::empty(),
            forall|s: StateId| #[trigger] final(self).eps_preds(s) == old(self).eps_preds(s),
            forall|s: int| 0 <= s < old(self).state_count() ==> #[trigger] final(self).leaf_at(s)
                == old(self).leaf_at(s),
            final(self).leaf_at(old(self).state_count() as int),
    {
        let m: MultiMap<char, StateId> = MultiMap::new();
        self.table.push(m);
        (self.table.len() - 1) as StateId
    }

    /// If the given state exists, return it; otherwise make a new one.
    pub fn get_or_add_state(&mut self, state: Option<StateId>) -> (r: StateId)
        requires
            old(self).wf(),
            state is None ==> old(self).state_count() < 65536,
            state matches Some(s) ==> (s as int) < old(self).state_count(),
        ensures
            final(self).wf(),
            (r as int) < final(self).state_count(),
            state matches Some(s) ==> r == s && *final(self) == *old(self),
            state is None ==> r as int == old(self).state_count() && final(self).state_count()
                == old(self).state_count() + 1 && final(self).leaf_at(r as int) && (forall|c: char|
                #[trigger] final(self).trans(r as int, c) == Set::<StateId>::empty()),
            final(self).state_count() <= old(self).state_count() + 1,
            old(self).state_count() <= final(self).state_count(),
            final(self).accept_of() == old(self).accept_of(),
            forall|s: int, c: char|
                0 <= s < old(self).state_count() ==> #[trigger] final(self).trans(s, c) == old(self).trans(s, c),
            forall|s: StateId| #[trigger] final(self).eps_preds(s) == old(self).eps_preds(s),
            forall|s: int| 0 <= s < old(self).state_count() ==> #[trigger] final(self).leaf_at(s)
                == old(self).leaf_at(s),
    {
        match state {
            Some(s) => s,
            None => self.add_state(),
        }
    }

    /// Get a state's transition map immutably.
    pub fn get(&self, state: StateId) -> (m: &MultiMap<char, StateId>)
        requires
            (state as int) < self.state_count(),
        ensures
            *m == self.map_at(state as int),
    {
        &self.table[state as usize]
    }

    /// Get a state's transition map mutably.
    pub fn get_mut(&mut self, state: StateId) -> (m: &mut MultiMap<char, StateId>)
        requires
            (state as int) < old(self).state_count(),
        ensures
            *m == old(self).map_at(state as int),
            final(self).state_count() == old(self).state_count(),
            final(self).accept_of() == old(self).accept_of(),
            final(self).eps_map() == old(self).eps_map(),
            forall|s: StateId| #[trigger] final(self).eps_preds(s) == old(self).eps_preds(s),
            final(self).map_at(state as int) == *final(m),
            forall|s: int|
                0 <= s < old(self).state_count() && s != state as int ==> #[trigger] final(self).map_at(s) == old(self).map_at(s),
            forall|s: int, c: char|
                0 <= s < old(self).state_count() && s != state as int ==> #[trigger] final(self).trans(s, c) == old(self).trans(s, c),
            forall|c: char| #[trigger] final(self).trans(state as int, c) == final(m).val_set(c),
            forall|s: int|
                0 <= s < old(self).state_count() && s != state as int ==> #[trigger] final(self).leaf_at(s) == old(self).leaf_at(s),
            final(self).leaf_at(state as int) == final(m).has_no_keys(),
    {
        &mut self.table[state as usize]
    }

    /// Check whether a state has any outgoing transitions.
    pub fn is_leaf_state(&self, state: StateId) -> (r: bool)
        requires
            (state as int) < self.state_count(),
        ensures
            r == self.leaf_at(state as int),
    {
        self.get(state).is_empty_map()
    }
}

/// Well-formedness survives an update of one transition map that only
/// inserts one in-range target under one label.
proof fn lemma_wf_after_map_update(prev: NFA, cur: NFA, idx: int, added: StateId, label: char)
    requires
        prev.wf(),
        0 <= idx < prev.state_count(),
        (added as int) < prev.state_count(),
        cur.state_count() == prev.state_count(),
        cur.eps_map() == prev.eps_map(),
        forall|s: int|
            0 <= s < prev.state_count() && s != idx ==> #[trigger] cur.map_at(s) == prev.map_at(s),
        cur.map_at(idx).inv(),
        forall|c: char| #[trigger] cur.trans(idx, c) == (if c == label {
            prev.trans(idx, c).insert(added)
        } else {
            prev.trans(idx, c)
        }),
    ensures
        cur.wf(),
{
    assert forall|s: int| 0 <= s < cur.table@.len() implies (#[trigger] cur.table@[s]).inv() by {
        assert(cur.map_at(s) == cur.table@[s]);
        if s != idx {
            assert(cur.map_at(s) == prev.map_at(s));
            assert(prev.table@[s].inv());
        } else {
            assert(cur.map_at(idx).inv());
        }
    }
    assert forall|s: int, c: char, t: StateId|
        0 <= s < cur.table@.len() && (#[trigger] cur.table@[s].val_set(c).contains(t)) implies (
    t as int) < cur.table@.len() by {
        assert(cur.map_at(s) == cur.table@[s]);
        assert(cur.trans(s, c) == cur.table@[s].val_set(c));
        if s == idx {
            assert(cur.trans(idx, c).contains(t));
            if t != added {
                assert(prev.trans(idx, c).contains(t));
                assert(prev.table@[idx].val_set(c).contains(t));
            }
        } else {
            assert(cur.map_at(s) == prev.map_at(s));
            assert(prev.table@[s].val_set(c).contains(t));
        }
    }
    assert forall|s: StateId, t: StateId|
        (#[trigger] cur.epsilon_table.val_set(s).contains(t)) implies (t as int)
        < cur.table@.len() && (s as int) < cur.table@.len() by {
        assert(cur.eps_map() == prev.eps_map());
        assert(prev.epsilon_table.val_set(s).contains(t));
    }
    assert(cur.wf());
}

/// Well-formedness survives adding one in-range epsilon predecessor.
proof fn lemma_wf_after_eps_add(prev: NFA, cur: NFA, to: StateId, added: StateId)
    requires
        prev.wf(),
        (to as int) < prev.state_count(),
        (added as int) < prev.state_count(),
        cur.state_count() == prev.state_count(),
        forall|s: int| 0 <= s < prev.state_count() ==> #[trigger] cur.map_at(s) == prev.map_at(s),
        cur.eps_map().inv(),
        forall|s: StateId| #[trigger] cur.eps_preds(s) == (if s == to {
            prev.eps_preds(to).insert(added)
        } else {
            prev.eps_preds(s)
        }),
    ensures
        cur.wf(),
{
    assert forall|s: int| 0 <= s < cur.table@.len() implies (#[trigger] cur.table@[s]).inv() by {
        assert(cur.map_at(s) == cur.table@[s]);
        assert(cur.map_at(s) == prev.map_at(s));
        assert(prev.table@[s].inv());
    }
    assert forall|s: int, c: char, t: StateId|
        0 <= s < cur.table@.len() && (#[trigger] cur.table@[s].val_set(c).contains(t)) implies (
    t as int) < cur.table@.len() by {
        assert(cur.map_at(s) == cur.table@[s]);
        assert(cur.map_at(s) == prev.map_at(s));
        assert(prev.table@[s].val_set(c).contains(t));
    }
    assert forall|s: StateId, t: StateId|
        (#[trigger] cur.epsilon_table.val_set(s).contains(t)) implies (t as int)
        < cur.table@.len() && (s as int) < cur.table@.len() by {
        assert(cur.eps_preds(s) == cur.epsilon_table.val_set(s));
        if s == to {
            if t != added {
                assert(prev.eps_preds(to).contains(t));
                assert(prev.epsilon_table.val_set(to).contains(t));
            }
        } else {
            assert(prev.eps_preds(s).contains(t));
            assert(prev.epsilon_table.val_set(s).contains(t));
        }
    }
    assert(cur.wf());
}

/// Well-formedness survives merging a row of in-range targets into one
/// transition map.
proof fn lemma_wf_after_map_merge(prev: NFA, cur: NFA, idx: int, row: MultiMap<char, StateId>)
    requires
        prev.wf(),
        0 <= idx < prev.state_count(),
        cur.state_count() == prev.state_count(),
        cur.eps_map() == prev.eps_map(),
        forall|s: int|
            0 <= s < prev.state_count() && s != idx ==> #[trigger] cur.map_at(s) == prev.map_at(s),
        cur.map_at(idx).inv(),
        forall|c: char, t: StateId|
            (#[trigger] row.val_set(c).contains(t)) ==> (t as int) < prev.state_count(),
        forall|c: char| #[trigger] cur.trans(idx, c) == prev.trans(idx, c) + row.val_set(c),
    ensures
        cur.wf(),
{
    assert forall|s: int| 0 <= s < cur.table@.len() implies (#[trigger] cur.table@[s]).inv() by {
        assert(cur.map_at(s) == cur.table@[s]);
        if s != idx {
            assert(cur.map_at(s) == prev.map_at(s));
            assert(prev.table@[s].inv());
        } else {
            assert(cur.map_at(idx).inv());
        }
    }
    assert forall|s: int, c: char, t: StateId|
        0 <= s < cur.table@.len() && (#[trigger] cur.table@[s].val_set(c).contains(t)) implies (
    t as int) < cur.table@.len() by {
        assert(cur.map_at(s) == cur.table@[s]);
        assert(cur.trans(s, c) == cur.table@[s].val_set(c));
        if s == idx {
            assert(cur.trans(idx, c).contains(t));
            if prev.trans(idx, c).contains(t) {
                assert(prev.table@[idx].val_set(c).contains(t));
            } else {
                assert(row.val_set(c).contains(t));
            }
        } else {
            assert(cur.map_at(s) == prev.map_at(s));
            assert(prev.table@[s].val_set(c).contains(t));
        }
    }
    assert forall|s: StateId, t: StateId|
        (#[trigger] cur.epsilon_table.val_set(s).contains(t)) implies (t as int)
        < cur.table@.len() && (s as int) < cur.table@.len() by {
        assert(cur.eps_map() == prev.eps_map());
        assert(prev.epsilon_table.val_set(s).contains(t));
    }
    assert(cur.wf());
}

impl NFA {
    /// Add a labeled transition between two states.  The new transition is
    /// also copied onto every state already known to reach `from` through
    /// epsilon transitions alone, so transition maps stay closed.
    pub fn add_transition(&mut self, from: StateId, to: StateId, label: char)
        requires
            old(self).wf(),
            (from as int) < old(self).state_count(),
            (to as int) < old(self).state_count(),
        ensures
            final(self).wf(),
            final(self).state_count() == old(self).state_count(),
            final(self).accept_of() == old(self).accept_of(),
            forall|s: StateId| #[trigger] final(self).eps_preds(s) == old(self).eps_preds(s),
            forall|s: int, c: char|
                0 <= s < old(self).state_count() ==> #[trigger] final(self).trans(s, c) == (
                if c == label && (s == from as int || old(self).eps_preds(from).contains(
                    s as StateId,
                )) {
                    old(self).trans(s, c).insert(to)
                } else {
                    old(self).trans(s, c)
                }),
            forall|s: int, c: char, t: StateId|
                0 <= s < old(self).state_count() && old(self).trans(s, c).contains(t)
                    ==> #[trigger] final(self).trans(s, c).contains(t),
            final(self).trans(from as int, label).contains(to),
    {
        self.get_mut(from).add_multi(label, to);
        proof {
            assert forall|c: char| #[trigger] self.trans(from as int, c) == (if c == label {
                old(self).trans(from as int, c).insert(to)
            } else {
                old(self).trans(from as int, c)
            }) by {
                assert(self.map_at(from as int).mm_val_set(c) == (if c == label {
                    old(self).map_at(from as int).mm_val_set(label).insert(to)
                } else {
                    old(self).map_at(from as int).mm_val_set(c)
                }));
            }
            assert(self.map_at(from as int).mm_inv());
            lemma_wf_after_map_update(*old(self), *&*self, from as int, to, label);
        }
        let preds = self.epsilon_table.get_multi(from);
        let n = preds.len();
        let mut i: usize = 0;
        proof {
            assert forall|s: int, c: char|
                0 <= s < old(self).state_count() implies #[trigger] self.trans(s, c) == (if c
                == label && (s == from as int || preds@.subrange(0, 0).to_set().contains(
                s as StateId,
            )) {
                old(self).trans(s, c).insert(to)
            } else {
                old(self).trans(s, c)
            }) by {
                assert(preds@.subrange(0, 0).to_set() =~= Set::<StateId>::empty());
            }
        }
        while i < n
            invariant
                i <= n,
                n == preds@.len(),
                preds@.no_duplicates(),
                preds@.to_set() == old(self).eps_preds(from),
                old(self).wf(),
                (from as int) < old(self).state_count(),
                (to as int) < old(self).state_count(),
                self.wf(),
                self.state_count() == old(self).state_count(),
                self.accept_of() == old(self).accept_of(),
                forall|s: StateId| #[trigger] self.eps_preds(s) == old(self).eps_preds(s),
                forall|s: int, c: char|
                    0 <= s < old(self).state_count() ==> #[trigger] self.trans(s, c) == (if c
                        == label && (s == from as int || preds@.subrange(0, i as int).to_set().contains(
                        s as StateId,
                    )) {
                        old(self).trans(s, c).insert(to)
                    } else {
                        old(self).trans(s, c)
                    }),
            decreases n - i,
        {
            let p = preds[i];
            proof {
                assert(preds@.to_set().contains(preds@[i as int]));
                assert((p as int) < self.state_count());
            }
            let ghost prev = *&*self;
            self.get_mut(p).add_multi(label, to);
            proof {
                assert forall|c: char| #[trigger] self.trans(p as int, c) == (if c == label {
                    prev.trans(p as int, c).insert(to)
                } else {
                    prev.trans(p as int, c)
                }) by {
                    assert(self.map_at(p as int).mm_val_set(c) == (if c == label {
                        prev.map_at(p as int).mm_val_set(label).insert(to)
                    } else {
                        prev.map_at(p as int).mm_val_set(c)
                    }));
                }
                assert(self.map_at(p as int).mm_inv());
                lemma_wf_after_map_update(prev, *&*self, p as int, to, label);
                lemma_push_to_set(preds@.subrange(0, i as int), p);
                assert(preds@.subrange(0, i as int).push(preds@[i as int]) =~= preds@.subrange(
                    0,
                    i as int + 1,
                ));
                assert forall|s: int, c: char|
                    0 <= s < old(self).state_count() implies #[trigger] self.trans(s, c) == (if c
                    == label && (s == from as int || preds@.subrange(0, i as int + 1).to_set().contains(
                    s as StateId,
                )) {
                    old(self).trans(s, c).insert(to)
                } else {
                    old(self).trans(s, c)
                }) by {
                    assert(preds@.subrange(0, i as int + 1).to_set() == preds@.subrange(
                        0,
                        i as int,
                    ).to_set().insert(p));
                    if s == p as int && c == label {
                        if s == from as int || preds@.subrange(0, i as int).to_set().contains(
                            s as StateId,
                        ) {
                            assert(prev.trans(s, c) == old(self).trans(s, c).insert(to));
                            assert(old(self).trans(s, c).insert(to).insert(to) =~= old(self).trans(s, c).insert(to));
                        }
                    }
                }
            }
            i += 1;
        }
        proof {
            assert(preds@.subrange(0, n as int) =~= preds@);
        }
    }
}

impl NFA {
    /// Add an epsilon transition between two states: `to`'s epsilon
    /// predecessors absorb `from` and everything that reaches `from`, and
    /// every such predecessor immediately receives a copy of `to`'s
    /// present outgoing transitions, so closures never need recomputation.
    pub fn add_epsilon(&mut self, from: StateId, to: StateId)
        requires
            old(self).wf(),
            (from as int) < old(self).state_count(),
            (to as int) < old(self).state_count(),
        ensures
            final(self).wf(),
            final(self).state_count() == old(self).state_count(),
            final(self).accept_of() == old(self).accept_of(),
            forall|s: StateId| #[trigger] final(self).eps_preds(s) == (if s == to {
                old(self).eps_preds(to).insert(from) + old(self).eps_preds(from)
            } else {
                old(self).eps_preds(s)
            }),
            forall|s: int, c: char|
                0 <= s < old(self).state_count() ==> #[trigger] final(self).trans(s, c) == (
                if (old(self).eps_preds(to).insert(from) + old(self).eps_preds(from)).contains(
                    s as StateId,
                ) {
                    old(self).trans(s, c) + old(self).trans(to as int, c)
                } else {
                    old(self).trans(s, c)
                }),
            forall|s: int, c: char, t: StateId|
                0 <= s < old(self).state_count() && old(self).trans(s, c).contains(t)
                    ==> #[trigger] final(self).trans(s, c).contains(t),
            forall|s: StateId, t: StateId|
                old(self).eps_preds(s).contains(t) ==> #[trigger] final(self).eps_preds(
                    s,
                ).contains(t),
            final(self).eps_preds(to).contains(from),
    {
        self.epsilon_table.add_multi(to, from);
        proof {
            assert forall|s: StateId| #[trigger] self.eps_preds(s) == (if s == to {
                old(self).eps_preds(to).insert(from)
            } else {
                old(self).eps_preds(s)
            }) by {
                assert(self.epsilon_table.mm_val_set(s) == (if s == to {
                    old(self).eps_map().mm_val_set(to).insert(from)
                } else {
                    old(self).eps_map().mm_val_set(s)
                }));
            }
            assert(self.epsilon_table.mm_inv());
            lemma_wf_after_eps_add(*old(self), *&*self, to, from);
        }
        let ghost mid1 = *&*self;
        let preds_from = self.epsilon_table.get_multi(from);
        let n = preds_from.len();
        let mut i: usize = 0;
        proof {
            assert(preds_from@.subrange(0, 0).to_set() =~= Set::<StateId>::empty());
            assert forall|s: StateId| #[trigger] self.eps_preds(s) == (if s == to {
                mid1.eps_preds(to) + preds_from@.subrange(0, 0).to_set()
            } else {
                mid1.eps_preds(s)
            }) by {
                assert(mid1.eps_preds(to) + Set::<StateId>::empty() =~= mid1.eps_preds(to));
            }
        }
        while i < n
            invariant
                i <= n,
                n == preds_from@.len(),
                (from as int) < old(self).state_count(),
                (to as int) < old(self).state_count(),
                old(self).wf(),
                mid1.wf(),
                mid1.state_count() == old(self).state_count(),
                preds_from@.to_set() == mid1.eps_preds(from),
                preds_from@.no_duplicates(),
                self.wf(),
                self.state_count() == old(self).state_count(),
                self.accept_of() == old(self).accept_of(),
                forall|s: int|
                    0 <= s < old(self).state_count() ==> #[trigger] self.map_at(s) == old(self).map_at(s),
                forall|s: StateId| #[trigger] self.eps_preds(s) == (if s == to {
                    mid1.eps_preds(to) + preds_from@.subrange(0, i as int).to_set()
                } else {
                    mid1.eps_preds(s)
                }),
            decreases n - i,
        {
            let p = preds_from[i];
            proof {
                assert(preds_from@.to_set().contains(preds_from@[i as int]));
                assert((p as int) < self.state_count());
            }
            let ghost prev = *&*self;
            self.epsilon_table.add_multi(to, p);
            proof {
                assert forall|s: StateId| #[trigger] self.eps_preds(s) == (if s == to {
                    prev.eps_preds(to).insert(p)
                } else {
                    prev.eps_preds(s)
                }) by {
                    assert(self.epsilon_table.mm_val_set(s) == (if s == to {
                        prev.eps_map().mm_val_set(to).insert(p)
                    } else {
                        prev.eps_map().mm_val_set(s)
                    }));
                }
                assert(self.epsilon_table.mm_inv());
                lemma_wf_after_eps_add(prev, *&*self, to, p);
                assert forall|s: int|
                    0 <= s < old(self).state_count() implies #[trigger] self.map_at(s) == old(self).map_at(s) by {
                    assert(self.map_at(s) == prev.map_at(s));
                }
                lemma_push_to_set(preds_from@.subrange(0, i as int), p);
                assert(preds_from@.subrange(0, i as int).push(preds_from@[i as int])
                    =~= preds_from@.subrange(0, i as int + 1));
                assert forall|s: StateId| #[trigger] self.eps_preds(s) == (if s == to {
                    mid1.eps_preds(to) + preds_from@.subrange(0, i as int + 1).to_set()
                } else {
                    mid1.eps_preds(s)
                }) by {
                    if s == to {
                        assert(self.eps_preds(to) == prev.eps_preds(to).insert(p));
                        assert(prev.eps_preds(to).insert(p) =~= mid1.eps_preds(to)
                            + preds_from@.subrange(0, i as int + 1).to_set());
                    }
                }
            }
            i += 1;
        }
        proof {
            assert(preds_from@.subrange(0, n as int) =~= preds_from@);
        }
        let ghost mid2 = *&*self;
        let tomap = self.get(to).duplicate();
        let preds_to = self.epsilon_table.get_multi(to);
        let m = preds_to.len();
        let mut j: usize = 0;
        proof {
            assert(preds_to@.subrange(0, 0).to_set() =~= Set::<StateId>::empty());
            assert forall|s: int, c: char|
                0 <= s < old(self).state_count() implies #[trigger] self.trans(s, c) == (
            if preds_to@.subrange(0, 0).to_set().contains(s as StateId) {
                old(self).trans(s, c) + old(self).trans(to as int, c)
            } else {
                old(self).trans(s, c)
            }) by {
                assert(self.map_at(s) == old(self).map_at(s));
            }
        }
        while j < m
            invariant
                j <= m,
                m == preds_to@.len(),
                (from as int) < old(self).state_count(),
                (to as int) < old(self).state_count(),
                old(self).wf(),
                mid2.wf(),
                mid2.state_count() == old(self).state_count(),
                mid2.eps_map() == self.eps_map(),
                preds_to@.to_set() == mid2.eps_preds(to),
                preds_to@.no_duplicates(),
                forall|c: char| #[trigger] tomap.val_set(c) == old(self).trans(to as int, c),
                tomap.inv(),
                self.wf(),
                self.state_count() == old(self).state_count(),
                self.accept_of() == old(self).accept_of(),
                forall|s: StateId| #[trigger] self.eps_preds(s) == mid2.eps_preds(s),
                forall|s: int, c: char|
                    0 <= s < old(self).state_count() ==> #[trigger] self.trans(s, c) == (
                    if preds_to@.subrange(0, j as int).to_set().contains(s as StateId) {
                        old(self).trans(s, c) + old(self).trans(to as int, c)
                    } else {
                        old(self).trans(s, c)
                    }),
            decreases m - j,
        {
            let p = preds_to[j];
            proof {
                assert(preds_to@.to_set().contains(preds_to@[j as int]));
                assert((p as int) < self.state_count());
            }
            let ghost prev = *&*self;
            self.get_mut(p).merge_from(&tomap);
            proof {
                assert forall|c: char| #[trigger] self.trans(p as int, c) == prev.trans(
                    p as int,
                    c,
                ) + tomap.val_set(c) by {
                    assert(self.map_at(p as int).mm_val_set(c) == prev.map_at(
                        p as int,
                    ).mm_val_set(c) + tomap.mm_val_set(c));
                }
                assert(self.map_at(p as int).mm_inv());
                assert forall|c: char, t: StateId|
                    (#[trigger] tomap.val_set(c).contains(t)) implies (t as int) < old(self).state_count() by {
                    assert(old(self).trans(to as int, c).contains(t));
                    assert(old(self).table@[to as int].val_set(c).contains(t));
                }
                lemma_wf_after_map_merge(prev, *&*self, p as int, tomap);
                lemma_push_to_set(preds_to@.subrange(0, j as int), p);
                assert(preds_to@.subrange(0, j as int).push(preds_to@[j as int])
                    =~= preds_to@.subrange(0, j as int + 1));
                assert forall|s: StateId| #[trigger] self.eps_preds(s) == mid2.eps_preds(s) by {
                    assert(self.eps_map() == prev.eps_map());
                    assert(self.eps_preds(s) == prev.eps_preds(s));
                }
                assert forall|s: int, c: char|
                    0 <= s < old(self).state_count() implies #[trigger] self.trans(s, c) == (
                if preds_to@.subrange(0, j as int + 1).to_set().contains(s as StateId) {
                    old(self).trans(s, c) + old(self).trans(to as int, c)
                } else {
                    old(self).trans(s, c)
                }) by {
                    if s == p as int {
                        assert(self.trans(s, c) == prev.trans(s, c) + tomap.val_set(c));
                        assert(tomap.val_set(c) == old(self).trans(to as int, c));
                        if preds_to@.subrange(0, j as int).to_set().contains(s as StateId) {
                            assert(prev.trans(s, c) == old(self).trans(s, c) + old(self).trans(
                                to as int,
                                c,
                            ));
                            assert((old(self).trans(s, c) + old(self).trans(to as int, c)) + old(self).trans(to as int, c) =~= old(self).trans(s, c) + old(self).trans(to as int, c));
                        } else {
                            assert(prev.trans(s, c) == old(self).trans(s, c));
                        }
                    } else {
                        assert(self.map_at(s) == prev.map_at(s));
                        assert(self.trans(s, c) == prev.trans(s, c));
                    }
                }
            }
            j += 1;
        }
        proof {
            assert(preds_to@.subrange(0, m as int) =~= preds_to@);
            let full = old(self).eps_preds(to).insert(from) + old(self).eps_preds(from);
            assert forall|s: StateId| #[trigger] self.eps_preds(s) == (if s == to {
                full
            } else {
                old(self).eps_preds(s)
            }) by {
                if s == to {
                    if from == to {
                        assert(mid1.eps_preds(from) == old(self).eps_preds(to).insert(from));
                        assert(mid1.eps_preds(to) + mid1.eps_preds(from) =~= full);
                    } else {
                        assert(mid1.eps_preds(from) == old(self).eps_preds(from));
                        assert(mid1.eps_preds(to) + mid1.eps_preds(from) =~= full);
                    }
                }
            }
            assert forall|s: int, c: char|
                0 <= s < old(self).state_count() implies #[trigger] self.trans(s, c) == (
            if full.contains(s as StateId) {
                old(self).trans(s, c) + old(self).trans(to as int, c)
            } else {
                old(self).trans(s, c)
            }) by {
                assert(preds_to@.to_set() == mid2.eps_preds(to));
                assert(mid2.eps_preds(to) == full);
            }
        }
    }
}

impl NFA {
    /// If the given state is a leaf (no outgoing transitions), return it;
    /// otherwise make a new state and add an epsilon transition to it.
    pub fn reuse_or_add_state(&mut self, state: StateId) -> (r: StateId)
        requires
            old(self).wf(),
            (state as int) < old(self).state_count(),
            old(self).state_count() < 65536,
        ensures
            final(self).wf(),
            final(self).accept_of() == old(self).accept_of(),
            old(self).state_count() <= final(self).state_count(),
            final(self).state_count() <= old(self).state_count() + 1,
            (r as int) < final(self).state_count(),
            old(self).leaf_at(state as int) ==> r == state && *final(self) == *old(self),
            !old(self).leaf_at(state as int) ==> r as int == old(self).state_count() && final(self).state_count() == old(self).state_count() + 1 && (forall|s: StateId|
                #[trigger] final(self).eps_preds(s) == (if s == r {
                    old(self).eps_preds(state).insert(state)
                } else {
                    old(self).eps_preds(s)
                })) && (forall|s: int, c: char|
                0 <= s < old(self).state_count() ==> #[trigger] final(self).trans(s, c) == old(self).trans(s, c)) && (forall|c: char| #[trigger] final(self).trans(r as int, c)
                == Set::<StateId>::empty()),
            forall|s: StateId, t: StateId|
                old(self).eps_preds(s).contains(t) ==> #[trigger] final(self).eps_preds(
                    s,
                ).contains(t),
            forall|s: int, c: char, t: StateId|
                0 <= s < old(self).state_count() && old(self).trans(s, c).contains(t)
                    ==> #[trigger] final(self).trans(s, c).contains(t),
    {
        if self.is_leaf_state(state) {
            state
        } else {
            let new_state = self.add_state();
            let ghost mid = *&*self;
            self.add_epsilon(state, new_state);
            proof {
                assert forall|s: StateId| #[trigger] self.eps_preds(s) == (if s == new_state {
                    old(self).eps_preds(state).insert(state)
                } else {
                    old(self).eps_preds(s)
                }) by {
                    if s == new_state {
                        assert(mid.eps_preds(new_state) == old(self).eps_preds(new_state));
                        assert(old(self).eps_preds(new_state) =~= Set::<StateId>::empty());
                        assert(mid.eps_preds(new_state).insert(state) + mid.eps_preds(state)
                            =~= old(self).eps_preds(state).insert(state));
                    } else {
                        assert(self.eps_preds(s) == mid.eps_preds(s));
                    }
                }
                assert forall|s: int, c: char|
                    0 <= s < old(self).state_count() implies #[trigger] self.trans(s, c) == old(self).trans(s, c) by {
                    assert(mid.trans(new_state as int, c) == Set::<StateId>::empty());
                    assert(mid.trans(s, c) == old(self).trans(s, c));
                    if (mid.eps_preds(new_state).insert(state) + mid.eps_preds(state)).contains(
                        s as StateId,
                    ) {
                        assert(self.trans(s, c) == mid.trans(s, c) + mid.trans(
                            new_state as int,
                            c,
                        ));
                        assert(mid.trans(s, c) + Set::<StateId>::empty() =~= mid.trans(s, c));
                    } else {
                        assert(self.trans(s, c) == mid.trans(s, c));
                    }
                }
                assert forall|c: char| #[trigger] self.trans(new_state as int, c) == Set::<
                    StateId,
                >::empty() by {
                    assert(mid.trans(new_state as int, c) == Set::<StateId>::empty());
                    if (mid.eps_preds(new_state).insert(state) + mid.eps_preds(state)).contains(
                        new_state,
                    ) {
                        assert(self.trans(new_state as int, c) == mid.trans(new_state as int, c)
                            + mid.trans(new_state as int, c));
                        assert(mid.trans(new_state as int, c) + mid.trans(new_state as int, c)
                            =~= Set::<StateId>::empty());
                    } else {
                        assert(self.trans(new_state as int, c) == mid.trans(new_state as int, c));
                    }
                }
            }
            new_state
        }
    }

    /// Get this NFA's accept states: the designated accept state together
    /// with every state from which it is epsilon-reachable.
    pub fn accept_states(&self) -> (r: Vec<StateId>)
        requires
            self.wf(),
        ensures
            r@.to_set() == self.eps_preds(self.accept_of()).insert(self.accept_of()),
            r@.no_duplicates(),
            forall|t: StateId| #[trigger] r@.to_set().contains(t) ==> (t as int)
                < self.state_count() || t == self.accept_of(),
    {
        let mut states = self.epsilon_table.get_multi(self.accept_state);
        let ghost s0 = states@;
        if !contains_u16(&states, self.accept_state) {
            states.push(self.accept_state);
            proof {
                lemma_push_to_set(s0, self.accept_state);
            }
        } else {
            proof {
                assert(s0.to_set() =~= s0.to_set().insert(self.accept_state));
            }
        }
        states
    }
}

/// The automaton ran out of state ids: more than 2^16 states were needed.
#[derive(Clone, Copy, Debug, PartialEq, Eq, Structural)]
pub struct CapacityError;

impl NFA {
    /// How many states the automaton has, as a runtime value.
    pub fn num_states(&self) -> (n: usize)
        ensures
            n == self.state_count(),
    {
        self.table.len()
    }
}

/// Well-formedness survives emptying one label of one transition map.
proof fn lemma_wf_after_map_shrink(prev: NFA, cur: NFA, idx: int)
    requires
        prev.wf(),
        0 <= idx < prev.state_count(),
        cur.state_count() == prev.state_count(),
        cur.eps_map() == prev.eps_map(),
        forall|s: int|
            0 <= s < prev.state_count() && s != idx ==> #[trigger] cur.map_at(s) == prev.map_at(s),
        cur.map_at(idx).inv(),
        forall|c: char, t: StateId|
            (#[trigger] cur.trans(idx, c).contains(t)) ==> prev.trans(idx, c).contains(t),
    ensures
        cur.wf(),
{
    assert forall|s: int| 0 <= s < cur.table@.len() implies (#[trigger] cur.table@[s]).inv() by {
        assert(cur.map_at(s) == cur.table@[s]);
        if s != idx {
            assert(cur.map_at(s) == prev.map_at(s));
            assert(prev.table@[s].inv());
        } else {
            assert(cur.map_at(idx).inv());
        }
    }
    assert forall|s: int, c: char, t: StateId|
        0 <= s < cur.table@.len() && (#[trigger] cur.table@[s].val_set(c).contains(t)) implies (
    t as int) < cur.table@.len() by {
        assert(cur.map_at(s) == cur.table@[s]);
        assert(cur.trans(s, c) == cur.table@[s].val_set(c));
        if s == idx {
            assert(prev.trans(idx, c).contains(t));
            assert(prev.table@[idx].val_set(c).contains(t));
        } else {
            assert(cur.map_at(s) == prev.map_at(s));
            assert(prev.table@[s].val_set(c).contains(t));
        }
    }
    assert forall|s: StateId, t: StateId|
        (#[trigger] cur.epsilon_table.val_set(s).contains(t)) implies (t as int)
        < cur.table@.len() && (s as int) < cur.table@.len() by {
        assert(cur.eps_map() == prev.eps_map());
        assert(prev.epsilon_table.val_set(s).contains(t));
    }
    assert(cur.wf());
}

/// The character a byte casts to.
pub open spec fn byte_char(x: u8) -> char {
    x as char
}

/// Whether a character is one of those obtained by casting a byte of an
/// inclusive range.
pub open spec fn in_byte_range(c: char, lo: u8, hi: u8) -> bool {
    exists|x: u8| lo <= x <= hi && c == #[trigger] byte_char(x)
}

/// The characters a character class stands for.
pub open spec fn class_contains(cc: CharClass, c: char) -> bool {
    match cc {
        CharClass::AllLetter => in_byte_range(c, 97, 122),
        CharClass::AllDigit => in_byte_range(c, 48, 57),
    }
}

/// Adds one transition per character of an inclusive byte range: each such
/// character now leads from `from` (and from every epsilon predecessor of
/// `from`) to `to`; nothing else changes.
fn add_range_transitions(nfa: &mut NFA, from: StateId, to: StateId, lo: u8, hi: u8)
    requires
        old(nfa).wf(),
        (from as int) < old(nfa).state_count(),
        (to as int) < old(nfa).state_count(),
        lo <= hi,
        hi < 255,
    ensures
        final(nfa).wf(),
        final(nfa).state_count() == old(nfa).state_count(),
        final(nfa).accept_of() == old(nfa).accept_of(),
        forall|s: StateId| #[trigger] final(nfa).eps_preds(s) == old(nfa).eps_preds(s),
        forall|s: int, c: char|
            0 <= s < old(nfa).state_count() ==> #[trigger] final(nfa).trans(s, c) == (
            if in_byte_range(c, lo, hi) && (s == from as int || old(nfa).eps_preds(from).contains(
                s as StateId,
            )) {
                old(nfa).trans(s, c).insert(to)
            } else {
                old(nfa).trans(s, c)
            }),
{
    let mut b = lo;
    while b <= hi
        invariant
            nfa.wf(),
            nfa.state_count() == old(nfa).state_count(),
            nfa.accept_of() == old(nfa).accept_of(),
            (from as int) < nfa.state_count(),
            (to as int) < nfa.state_count(),
            hi < 255,
            lo <= b <= hi + 1,
            forall|s: StateId| #[trigger] nfa.eps_preds(s) == old(nfa).eps_preds(s),
            forall|s: int, c: char|
                0 <= s < old(nfa).state_count() ==> #[trigger] nfa.trans(s, c) == (if (exists|
                    x: u8,
                |
                    lo <= x < b && c == #[trigger] byte_char(x)) && (s == from as int || old(nfa).eps_preds(from).contains(s as StateId)) {
                    old(nfa).trans(s, c).insert(to)
                } else {
                    old(nfa).trans(s, c)
                }),
        decreases hi + 1 - b,
    {
        let ghost prev = *&*nfa;
        let ghost bcur = b;
        nfa.add_transition(from, to, b as char);
        proof {
            assert forall|s: int, c: char|
                0 <= s < old(nfa).state_count() implies #[trigger] nfa.trans(s, c) == (if (exists|
                x: u8,
            |
                lo <= x < bcur + 1 && c == #[trigger] byte_char(x)) && (s == from as int || old(nfa).eps_preds(from).contains(s as StateId)) {
                old(nfa).trans(s, c).insert(to)
            } else {
                old(nfa).trans(s, c)
            }) by {
                assert(nfa.trans(s, c) == (if c == (bcur as char) && (s == from as int
                    || prev.eps_preds(from).contains(s as StateId)) {
                    prev.trans(s, c).insert(to)
                } else {
                    prev.trans(s, c)
                }));
                if c == (bcur as char) && (s == from as int || old(nfa).eps_preds(from).contains(
                    s as StateId,
                )) {
                    assert(lo <= bcur < bcur + 1 && c == byte_char(bcur));
                    assert(exists|x: u8| lo <= x < bcur + 1 && c == #[trigger] byte_char(x));
                    if exists|x: u8| lo <= x < bcur && c == #[trigger] byte_char(x) {
                        assert(prev.trans(s, c) == old(nfa).trans(s, c).insert(to));
                        assert(old(nfa).trans(s, c).insert(to).insert(to) =~= old(nfa).trans(
                            s,
                            c,
                        ).insert(to));
                    }
                } else {
                    if exists|x: u8| lo <= x < bcur + 1 && c == #[trigger] byte_char(x) {
                        if !(c == (bcur as char)) {
                            let x = choose|x: u8|
                                lo <= x < bcur + 1 && c == #[trigger] byte_char(x);
                            assert(lo <= x < bcur && c == byte_char(x));
                        }
                    }
                }
            }
        }
        b += 1;
    }
    proof {
        assert forall|s: int, c: char|
            0 <= s < old(nfa).state_count() implies #[trigger] nfa.trans(s, c) == (
        if in_byte_range(c, lo, hi) && (s == from as int || old(nfa).eps_preds(from).contains(
            s as StateId,
        )) {
            old(nfa).trans(s, c).insert(to)
        } else {
            old(nfa).trans(s, c)
        }) by {
            assert((exists|x: u8| lo <= x < b && c == #[trigger] byte_char(x)) == in_byte_range(
                c,
                lo,
                hi,
            )) by {
                if exists|x: u8| lo <= x < b && c == #[trigger] byte_char(x) {
                    let x = choose|x: u8| lo <= x < b && c == #[trigger] byte_char(x);
                    assert(lo <= x <= hi && c == byte_char(x));
                }
                if in_byte_range(c, lo, hi) {
                    let x = choose|x: u8| lo <= x <= hi && c == #[trigger] byte_char(x);
                    assert(lo <= x < b && c == byte_char(x));
                }
            }
        }
    }
}

/// Recursively traverse the AST from the node with the given id, adding
/// new states to the NFA.  The caller fixes the input state; when it fixes
/// the output state too, that very state is returned, else the state the
/// traversal chose.
fn parse_nfa_node(
    tree: &AST,
    node_id: NodeId,
    input: StateId,
    output: Option<StateId>,
    nfa: &mut NFA,
) -> (r: Result<StateId, CapacityError>)
    requires
        wf_nodes(tree@),
        node_id < tree@.len(),
        old(nfa).wf(),
        (input as int) < old(nfa).state_count(),
        output matches Some(o) ==> (o as int) < old(nfa).state_count(),
    ensures
        final(nfa).wf(),
        final(nfa).accept_of() == old(nfa).accept_of(),
        old(nfa).state_count() <= final(nfa).state_count(),
        r matches Ok(out) ==> (out as int) < final(nfa).state_count() && (output matches Some(o)
            ==> out == o),
        forall|s: int, c: char, t: StateId|
            0 <= s < old(nfa).state_count() && c != DUMMY_TRANSITION && old(nfa).trans(
                s,
                c,
            ).contains(t) ==> #[trigger] final(nfa).trans(s, c).contains(t),
        forall|s: StateId, t: StateId|
            old(nfa).eps_preds(s).contains(t) ==> #[trigger] final(nfa).eps_preds(s).contains(t),
        tree@[node_id as int] matches Node::Leaf(letter) ==> (r matches Ok(out) ==> (forall|
            s: int,
            c: char,
        |
            0 <= s < old(nfa).state_count() ==> #[trigger] final(nfa).trans(s, c) == (if c
                == letter && (s == input as int || old(nfa).eps_preds(input).contains(
                s as StateId,
            )) {
                old(nfa).trans(s, c).insert(out)
            } else {
                old(nfa).trans(s, c)
            })) && (forall|s: StateId| #[trigger] final(nfa).eps_preds(s) == old(nfa).eps_preds(
            s,
        )) && final(nfa).trans(input as int, letter).contains(out) && (output is None ==> out
            as int == old(nfa).state_count() && final(nfa).state_count() == old(nfa).state_count() + 1 && (forall|c2: char| #[trigger] final(nfa).trans(out as int, c2)
            == Set::<StateId>::empty()))),
        tree@[node_id as int] matches Node::LeafCharClass(cc) ==> (r matches Ok(out) ==> (forall|
            s: int,
            c: char,
        |
            0 <= s < old(nfa).state_count() ==> #[trigger] final(nfa).trans(s, c) == (
            if class_contains(cc, c) && (s == input as int || old(nfa).eps_preds(input).contains(
                s as StateId,
            )) {
                old(nfa).trans(s, c).insert(out)
            } else {
                old(nfa).trans(s, c)
            })) && (forall|s: StateId| #[trigger] final(nfa).eps_preds(s) == old(nfa).eps_preds(
            s,
        )) && (output is None ==> out as int == old(nfa).state_count() && final(nfa).state_count() == old(nfa).state_count() + 1 && (forall|c2: char| #[trigger] final(nfa).trans(out as int, c2) == Set::<StateId>::empty()))),
        tree@[node_id as int] matches Node::Or(c1, c2) ==> (r is Ok ==> final(nfa).trans(
            input as int,
            DUMMY_TRANSITION,
        ) == Set::<StateId>::empty()),
        (tree@[node_id as int] matches Node::Leaf(letter) && (output is Some || old(
            nfa,
        ).state_count() < 65536)) ==> r is Ok,
        (tree@[node_id as int] matches Node::LeafCharClass(cc) && (output is Some || old(
            nfa,
        ).state_count() < 65536)) ==> r is Ok,
    decreases node_id,
{
    let node = *tree.get(node_id);
    match node {
        Node::Leaf(letter) => {
            if output.is_none() && nfa.num_states() == 65536 {
                return Err(CapacityError);
            }
            let out = nfa.get_or_add_state(output);
            let ghost mid = *&*nfa;
            nfa.add_transition(input, out, letter);
            proof {
                assert forall|s: int, c: char|
                    0 <= s < old(nfa).state_count() implies #[trigger] nfa.trans(s, c) == (if c
                    == letter && (s == input as int || old(nfa).eps_preds(input).contains(
                    s as StateId,
                )) {
                    old(nfa).trans(s, c).insert(out)
                } else {
                    old(nfa).trans(s, c)
                }) by {
                    assert(mid.trans(s, c) == old(nfa).trans(s, c));
                    assert(mid.eps_preds(input) == old(nfa).eps_preds(input));
                }
                assert forall|s: StateId| #[trigger] nfa.eps_preds(s) == old(nfa).eps_preds(
                    s,
                ) by {
                    assert(nfa.eps_preds(s) == mid.eps_preds(s));
                }
                assert forall|s: int, c: char, t: StateId|
                    0 <= s < old(nfa).state_count() && c != DUMMY_TRANSITION && old(nfa).trans(
                        s,
                        c,
                    ).contains(t) implies #[trigger] nfa.trans(s, c).contains(t) by {
                    assert(nfa.trans(s, c) == (if c == letter && (s == input as int || old(nfa).eps_preds(input).contains(s as StateId)) {
                        old(nfa).trans(s, c).insert(out)
                    } else {
                        old(nfa).trans(s, c)
                    }));
                }
            }
            Ok(out)
        },
        Node::LeafCharClass(class) => {
            if output.is_none() && nfa.num_states() == 65536 {
                return Err(CapacityError);
            }
            let out = nfa.get_or_add_state(output);
            let ghost mid = *&*nfa;
            match class {
                CharClass::AllLetter => {
                    add_range_transitions(nfa, input, out, 97, 122);
                },
                CharClass::AllDigit => {
                    add_range_transitions(nfa, input, out, 48, 57);
                },
            }
            proof {
                let ghost cc = match tree@[node_id as int] {
                    Node::LeafCharClass(cc) => cc,
                    _ => CharClass::AllLetter,
                };
                assert forall|s: int, c: char|
                    0 <= s < old(nfa).state_count() implies #[trigger] nfa.trans(s, c) == (
                if class_contains(cc, c) && (s == input as int || old(nfa).eps_preds(
                    input,
                ).contains(s as StateId)) {
                    old(nfa).trans(s, c).insert(out)
                } else {
                    old(nfa).trans(s, c)
                }) by {
                    assert(mid.trans(s, c) == old(nfa).trans(s, c));
                    assert(mid.eps_preds(input) == old(nfa).eps_preds(input));
                }
                assert forall|s: StateId| #[trigger] nfa.eps_preds(s) == old(nfa).eps_preds(
                    s,
                ) by {
                    assert(nfa.eps_preds(s) == mid.eps_preds(s));
                }
                assert forall|s: int, c: char, t: StateId|
                    0 <= s < old(nfa).state_count() && c != DUMMY_TRANSITION && old(nfa).trans(
                        s,
                        c,
                    ).contains(t) implies #[trigger] nfa.trans(s, c).contains(t) by {
                    assert(nfa.trans(s, c) == (if class_contains(cc, c) && (s == input as int
                        || old(nfa).eps_preds(input).contains(s as StateId)) {
                        old(nfa).trans(s, c).insert(out)
                    } else {
                        old(nfa).trans(s, c)
                    }));
                }
            }
            Ok(out)
        },
        Node::And(first, second) => {
            let intermediate = match parse_nfa_node(tree, first, input, None, nfa) {
                Ok(s) => s,
                Err(e) => {
                    return Err(e);
                },
            };
            let ghost mid = *&*nfa;
            let r2 = parse_nfa_node(tree, second, intermediate, output, nfa);
            proof {
                assert forall|s: int, c: char, t: StateId|
                    0 <= s < old(nfa).state_count() && c != DUMMY_TRANSITION && old(nfa).trans(
                        s,
                        c,
                    ).contains(t) implies #[trigger] nfa.trans(s, c).contains(t) by {
                    assert(mid.trans(s, c).contains(t));
                }
                assert forall|s: StateId, t: StateId|
                    old(nfa).eps_preds(s).contains(t) implies #[trigger] nfa.eps_preds(
                    s,
                ).contains(t) by {
                    assert(mid.eps_preds(s).contains(t));
                }
            }
            r2
        },
        Node::Or(choice1, choice2) => {
            let ghost before = *&*nfa;
            nfa.get_mut(input).add_multi(DUMMY_TRANSITION, input);
            proof {
                assert forall|c: char| #[trigger] nfa.trans(input as int, c) == (if c
                    == DUMMY_TRANSITION {
                    before.trans(input as int, c).insert(input)
                } else {
                    before.trans(input as int, c)
                }) by {
                    assert(nfa.map_at(input as int).mm_val_set(c) == (if c == DUMMY_TRANSITION {
                        before.map_at(input as int).mm_val_set(DUMMY_TRANSITION).insert(input)
                    } else {
                        before.map_at(input as int).mm_val_set(c)
                    }));
                }
                assert(nfa.map_at(input as int).mm_inv());
                lemma_wf_after_map_update(before, *&*nfa, input as int, input, DUMMY_TRANSITION);
            }
            let ghost g1 = *&*nfa;
            proof {
                assert forall|s: int, c: char, t: StateId|
                    0 <= s < old(nfa).state_count() && c != DUMMY_TRANSITION && old(nfa).trans(
                        s,
                        c,
                    ).contains(t) implies #[trigger] g1.trans(s, c).contains(t) by {
                    if s == input as int {
                        assert(g1.trans(s, c) == (if c == DUMMY_TRANSITION {
                            before.trans(input as int, c).insert(input)
                        } else {
                            before.trans(input as int, c)
                        }));
                    } else {
                        assert(g1.map_at(s) == before.map_at(s));
                        assert(g1.trans(s, c) == before.trans(s, c));
                    }
                }
            }
            let new_output = match parse_nfa_node(tree, choice1, input, output, nfa) {
                Ok(s) => s,
                Err(e) => {
                    return Err(e);
                },
            };
            let ghost g2 = *&*nfa;
            match parse_nfa_node(tree, choice2, input, Some(new_output), nfa) {
                Ok(_) => (),
                Err(e) => {
                    return Err(e);
                },
            };
            let ghost prev = *&*nfa;
            nfa.get_mut(input).remove(DUMMY_TRANSITION);
            proof {
                assert forall|c: char, t: StateId|
                    (#[trigger] nfa.trans(input as int, c).contains(t)) implies prev.trans(
                    input as int,
                    c,
                ).contains(t) by {
                    assert(nfa.map_at(input as int).val_set(c) == (if c == DUMMY_TRANSITION {
                        Set::<StateId>::empty()
                    } else {
                        prev.map_at(input as int).val_set(c)
                    }));
                }
                assert(nfa.map_at(input as int).inv());
                lemma_wf_after_map_shrink(prev, *&*nfa, input as int);
                assert(nfa.map_at(input as int).val_set(DUMMY_TRANSITION) == Set::<
                    StateId,
                >::empty());
                assert(nfa.trans(input as int, DUMMY_TRANSITION) == Set::<StateId>::empty());
                assert forall|s: int, c: char, t: StateId|
                    0 <= s < old(nfa).state_count() && c != DUMMY_TRANSITION && old(nfa).trans(
                        s,
                        c,
                    ).contains(t) implies #[trigger] nfa.trans(s, c).contains(t) by {
                    assert(g1.trans(s, c).contains(t));
                    assert(g2.trans(s, c).contains(t));
                    assert(prev.trans(s, c).contains(t));
                    if s == input as int {
                        assert(nfa.map_at(input as int).val_set(c) == prev.map_at(
                            input as int,
                        ).val_set(c));
                    } else {
                        assert(nfa.map_at(s) == prev.map_at(s));
                        assert(nfa.trans(s, c) == prev.trans(s, c));
                    }
                }
                assert forall|s: StateId, t: StateId|
                    old(nfa).eps_preds(s).contains(t) implies #[trigger] nfa.eps_preds(
                    s,
                ).contains(t) by {
                    assert(g1.eps_preds(s) == before.eps_preds(s));
                    assert(g2.eps_preds(s).contains(t));
                    assert(prev.eps_preds(s).contains(t));
                    assert(nfa.eps_preds(s) == prev.eps_preds(s));
                }
            }
            Ok(new_output)
        },
        Node::RepeatStar(body) => {
            if nfa.num_states() == 65536 {
                return Err(CapacityError);
            }
            let loop_anchor = nfa.reuse_or_add_state(input);
            let ghost g1 = *&*nfa;
            match parse_nfa_node(tree, body, loop_anchor, Some(loop_anchor), nfa) {
                Ok(_) => (),
                Err(e) => {
                    return Err(e);
                },
            };
            let ghost g2 = *&*nfa;
            let rr = match output {
                Some(out) => {
                    nfa.add_epsilon(loop_anchor, out);
                    Ok(out)
                },
                None => Ok(loop_anchor),
            };
            proof {
                assert forall|s: int, c: char, t: StateId|
                    0 <= s < old(nfa).state_count() && c != DUMMY_TRANSITION && old(nfa).trans(
                        s,
                        c,
                    ).contains(t) implies #[trigger] nfa.trans(s, c).contains(t) by {
                    assert(g1.trans(s, c).contains(t));
                    assert(g2.trans(s, c).contains(t));
                }
                assert forall|s: StateId, t: StateId|
                    old(nfa).eps_preds(s).contains(t) implies #[trigger] nfa.eps_preds(
                    s,
                ).contains(t) by {
                    assert(g1.eps_preds(s).contains(t));
                    assert(g2.eps_preds(s).contains(t));
                }
            }
            rr
        },
        Node::RepeatPlus(body) => {
            if nfa.num_states() == 65536 {
                return Err(CapacityError);
            }
            let loop_anchor = nfa.reuse_or_add_state(input);
            let ghost g1 = *&*nfa;
            let loop_output = match parse_nfa_node(tree, body, loop_anchor, None, nfa) {
                Ok(s) => s,
                Err(e) => {
                    return Err(e);
                },
            };
            let ghost g2 = *&*nfa;
            nfa.add_epsilon(loop_output, loop_anchor);
            let ghost g3 = *&*nfa;
            let rr = match output {
                Some(out) => {
                    nfa.add_epsilon(loop_output, out);
                    Ok(out)
                },
                None => Ok(loop_output),
            };
            proof {
                assert forall|s: int, c: char, t: StateId|
                    0 <= s < old(nfa).state_count() && c != DUMMY_TRANSITION && old(nfa).trans(
                        s,
                        c,
                    ).contains(t) implies #[trigger] nfa.trans(s, c).contains(t) by {
                    assert(g1.trans(s, c).contains(t));
                    assert(g2.trans(s, c).contains(t));
                    assert(g3.trans(s, c).contains(t));
                }
                assert forall|s: StateId, t: StateId|
                    old(nfa).eps_preds(s).contains(t) implies #[trigger] nfa.eps_preds(
                    s,
                ).contains(t) by {
                    assert(g1.eps_preds(s).contains(t));
                    assert(g2.eps_preds(s).contains(t));
                    assert(g3.eps_preds(s).contains(t));
                }
            }
            rr
        },
    }
}

/// Convert an AST into an NFA via a post-order traversal.
/// See `parse_nfa_node` for the main algorithm.  State 0 is allocated
/// first and is, by construction convention, the automaton's start state;
/// the returned output state of the root traversal becomes the single
/// designated accept state.
pub fn ast_to_nfa(tree: &AST) -> (r: Result<Box<NFA>, CapacityError>)
    requires
        wf_nodes(tree@),
        tree@.len() >= 1,
    ensures
        r matches Ok(nfa) ==> nfa.wf() && nfa.state_count() >= 1 && (nfa.accept_of() as int)
            < nfa.state_count(),
        tree@.last() matches Node::Leaf(c) ==> r is Ok,
        tree@.last() matches Node::LeafCharClass(cc) ==> r is Ok,
        r matches Ok(nfa) ==> (tree@.last() matches Node::Leaf(c) ==> nfa.state_count() == 2
            && nfa.accept_of() == 1 && (forall|s: int, c2: char|
            0 <= s < 2 ==> #[trigger] nfa.trans(s, c2) == (if s == 0 && c2 == c {
                Set::<StateId>::empty().insert(1)
            } else {
                Set::<StateId>::empty()
            })) && (forall|s: StateId| #[trigger] nfa.eps_preds(s) == Set::<StateId>::empty())),
        r matches Ok(nfa) ==> (tree@.last() matches Node::LeafCharClass(cc) ==> nfa.state_count()
            == 2 && nfa.accept_of() == 1 && (forall|s: int, c2: char|
            0 <= s < 2 ==> #[trigger] nfa.trans(s, c2) == (if s == 0 && class_contains(cc, c2) {
                Set::<StateId>::empty().insert(1)
            } else {
                Set::<StateId>::empty()
            })) && (forall|s: StateId| #[trigger] nfa.eps_preds(s) == Set::<StateId>::empty())),
{
    let mut nfa = NFA::new();
    let start = nfa.add_state();
    let root_id = tree.len() - 1;
    let accept = match parse_nfa_node(tree, root_id, start, None, &mut nfa) {
        Ok(s) => s,
        Err(e) => {
            return Err(e);
        },
    };
    nfa.set_accept_state(accept);
    Ok(Box::new(nfa))
}

/// A deterministic finite automaton.
/// (Not technically a DFA--a state may leave some characters undefined,
/// and absence of a transition means reject.)
#[derive(Debug)]
pub struct DFA {
    table: Vec<Vec<(char, StateId)>>,
    accept_states: Vec<StateId>,
}

/// The destination the first matching pair of a transition row gives to a
/// character, if any.
pub open spec fn row_lookup(row: Seq<(char, StateId)>, c: char) -> Option<StateId>
    decreases row.len(),
{
    if row.len() == 0 {
        None
    } else if row[0].0 == c {
        Some(row[0].1)
    } else {
        row_lookup(row.drop_first(), c)
    }
}

impl DFA {
    /// How many states the automaton has.
    pub closed spec fn state_count(&self) -> nat {
        self.table@.len()
    }

    /// One state's transition row.
    pub closed spec fn row_at(&self, s: int) -> Seq<(char, StateId)> {
        self.table@[s]@
    }

    /// The set of accept states.
    pub closed spec fn accept_set(&self) -> Set<StateId> {
        self.accept_states@.to_set()
    }

    /// There is a start state, and every transition stays inside the table.
    pub closed spec fn wf(&self) -> bool {
        &&& self.table@.len() >= 1
        &&& self.table@.len() <= 65536
        &&& forall|s: int, i: int|
            0 <= s < self.table@.len() && 0 <= i < self.table@[s]@.len() ==> ((
            #[trigger] self.table@[s]@[i]).1 as int) < self.table@.len()
    }

    /// Whether the automaton, started in `s`, accepts the string.
    pub closed spec fn accepts_from(&self, s: StateId, str: Seq<char>) -> bool
        decreases str.len(),
    {
        if str.len() == 0 {
            self.accept_set().contains(s)
        } else {
            match row_lookup(self.row_at(s as int), str[0]) {
                None => false,
                Some(n) => self.accepts_from(n, str.drop_first()),
            }
        }
    }

    /// Whether the automaton accepts the string, walking from state 0.
    pub closed spec fn spec_accepts(&self, str: Seq<char>) -> bool {
        self.accepts_from(0, str)
    }

    /// Get a state's transition row immutably.
    pub fn get(&self, state: StateId) -> (r: &Vec<(char, StateId)>)
        requires
            (state as int) < self.state_count(),
        ensures
            r@ == self.row_at(state as int),
    {
        &self.table[state as usize]
    }

    /// Follow one character from one state.
    fn step(&self, state: StateId, c: char) -> (r: Option<StateId>)
        requires
            self.wf(),
            (state as int) < self.state_count(),
        ensures
            r == row_lookup(self.row_at(state as int), c),
            r matches Some(n) ==> (n as int) < self.state_count(),
    {
        let row = &self.table[state as usize];
        let n = row.len();
        let mut j: usize = 0;
        proof {
            assert(row@.skip(0) =~= row@);
        }
        while j < n
            invariant
                j <= n,
                n == row@.len(),
                row@ == self.row_at(state as int),
                self.wf(),
                (state as int) < self.state_count(),
                row_lookup(row@.skip(j as int), c) == row_lookup(self.row_at(state as int), c),
            decreases n - j,
        {
            proof {
                assert(row@.skip(j as int)[0] == row@[j as int]);
                assert(row@.skip(j as int).drop_first() =~= row@.skip(j as int + 1));
            }
            let pair_c = row[j].0;
            let pair_t = row[j].1;
            if pair_c == c {
                return Some(pair_t);
            }
            j += 1;
        }
        proof {
            assert(row@.skip(n as int) =~= Seq::<(char, StateId)>::empty());
        }
        None
    }

    /// Check whether a string is accepted by this DFA: walk its characters
    /// from state 0 and test membership of the final state in the accept
    /// set; a missing transition rejects at once.
    pub fn accepts(&self, input: &str) -> (r: bool)
        requires
            self.wf(),
        ensures
            r == self.spec_accepts(input@),
    {
        let chars = crate::lexer::str_chars(input);
        let n = chars.len();
        let mut state: StateId = 0;
        let mut i: usize = 0;
        proof {
            assert(input@.skip(0) =~= input@);
        }
        while i < n
            invariant
                i <= n,
                n == chars@.len(),
                chars@ == input@,
                self.wf(),
                (state as int) < self.state_count(),
                self.spec_accepts(input@) == self.accepts_from(state, input@.skip(i as int)),
            decreases n - i,
        {
            let c = crate::lexer::char_at(&chars, i);
            proof {
                assert(input@.skip(i as int)[0] == input@[i as int]);
                assert(input@.skip(i as int).drop_first() =~= input@.skip(i as int + 1));
            }
            match self.step(state, c) {
                None => {
                    return false;
                },
                Some(next) => {
                    state = next;
                },
            }
            i += 1;
        }
        proof {
            assert(input@.skip(n as int) =~= Seq::<char>::empty());
        }
        contains_u16(&self.accept_states, state)
    }
}

/// Find the first key that maps to exactly the given set of values.
/// This is where a bidirectional map would be handy.
fn find_key_by_value(map: &MultiMap<StateId, StateId>, value: &Vec<StateId>) -> (r: Option<
    StateId,
>)
    requires
        map.inv(),
    ensures
        r matches Some(k) ==> map.val_set(k) == value@.to_set(),
{
    let n = map.num_entries();
    let mut e: usize = 0;
    while e < n
        invariant
            e <= n,
            n == map.key_count(),
            map.inv(),
        decreases n - e,
    {
        let vals = map.vals_of_entry(e);
        if set_eq_u16(vals, value) {
            let k = map.key_of_entry(e);
            proof {
                lemma_mm_iteration(map);
                assert(map.val_set(map.key_at(e as int)) == map.vals_at(e as int).to_set());
            }
            return Some(k);
        }
        e += 1;
    }
    None
}

/// Whether every element of `a` also stands in `b`.
fn subset_u16(a: &Vec<u16>, b: &Vec<u16>) -> (r: bool)
    ensures
        r == a@.to_set().subset_of(b@.to_set()),
{
    let n = a.len();
    let mut i: usize = 0;
    while i < n
        invariant
            i <= n,
            n == a@.len(),
            forall|j: int| 0 <= j < i ==> b@.to_set().contains(#[trigger] a@[j]),
        decreases n - i,
    {
        if !contains_u16(b, a[i]) {
            proof {
                assert(a@.to_set().contains(a@[i as int]));
            }
            return false;
        }
        i += 1;
    }
    proof {
        assert forall|x: u16| a@.to_set().contains(x) implies b@.to_set().contains(x) by {
            let j = choose|j: int| 0 <= j < a@.len() && a@[j] == x;
            assert(b@.to_set().contains(a@[j]));
        }
    }
    true
}

/// Whether two vectors hold the same set of values.
fn set_eq_u16(a: &Vec<u16>, b: &Vec<u16>) -> (r: bool)
    ensures
        r == (a@.to_set() == b@.to_set()),
{
    let ab = subset_u16(a, b);
    let ba = subset_u16(b, a);
    if ab && ba {
        proof {
            assert(a@.to_set() =~= b@.to_set());
        }
        true
    } else {
        false
    }
}

/// Whether the two vectors share an element.
fn intersects_u16(a: &Vec<u16>, b: &Vec<u16>) -> (r: bool)
    ensures
        r == !a@.to_set().disjoint(b@.to_set()),
{
    let n = a.len();
    let mut i: usize = 0;
    while i < n
        invariant
            i <= n,
            n == a@.len(),
            forall|j: int| 0 <= j < i ==> !b@.to_set().contains(#[trigger] a@[j]),
        decreases n - i,
    {
        if contains_u16(b, a[i]) {
            proof {
                assert(a@.to_set().contains(a@[i as int]));
            }
            return true;
        }
        i += 1;
    }
    proof {
        assert forall|x: u16| a@.to_set().contains(x) implies !b@.to_set().contains(x) by {
            let j = choose|j: int| 0 <= j < a@.len() && a@[j] == x;
        }
    }
    false
}

proof fn lemma_union_bound(ms: Seq<&MultiMap<char, StateId>>, bound: int)
    requires
        forall|j: int, c: char, x: StateId|
            0 <= j < ms.len() && (#[trigger] ms[j].val_set(c).contains(x)) ==> (x as int) < bound,
    ensures
        forall|c: char, x: StateId|
            (#[trigger] union_val_set(ms, c).contains(x)) ==> (x as int) < bound,
    decreases ms.len(),
{
    if ms.len() > 0 {
        let d = ms.drop_last();
        assert forall|j: int, c: char, x: StateId|
            0 <= j < d.len() && (#[trigger] d[j].val_set(c).contains(x)) implies (x as int)
            < bound by {
            assert(d[j] == ms[j]);
            assert(ms[j].val_set(c).contains(x));
        }
        lemma_union_bound(d, bound);
        assert forall|c: char, x: StateId|
            (#[trigger] union_val_set(ms, c).contains(x)) implies (x as int) < bound by {
            if !union_val_set(d, c).contains(x) {
                assert(ms.last().val_set(c).contains(x));
                assert(ms[ms.len() - 1].val_set(c).contains(x));
            }
        }
    }
}

/// A row whose keys never repeat resolves a present character to the
/// entry that carries it.
proof fn lemma_row_lookup_found(row: Seq<(char, StateId)>, c: char, k0: int)
    requires
        0 <= k0 < row.len(),
        row[k0].0 == c,
        forall|k: int| 0 <= k < k0 ==> (#[trigger] row[k]).0 != c,
    ensures
        row_lookup(row, c) == Some(row[k0].1),
    decreases row.len(),
{
    if k0 > 0 {
        let d = row.drop_first();
        assert forall|k: int| 0 <= k < k0 - 1 implies (#[trigger] d[k]).0 != c by {
            assert(d[k] == row[k + 1]);
        }
        assert(d[k0 - 1] == row[k0]);
        lemma_row_lookup_found(d, c, k0 - 1);
    }
}

/// A character no entry carries resolves to nothing.
proof fn lemma_row_lookup_absent(row: Seq<(char, StateId)>, c: char)
    requires
        forall|k: int| 0 <= k < row.len() ==> (#[trigger] row[k]).0 != c,
    ensures
        row_lookup(row, c) is None,
    decreases row.len(),
{
    if row.len() > 0 {
        let d = row.drop_first();
        assert forall|k: int| 0 <= k < d.len() implies (#[trigger] d[k]).0 != c by {
            assert(d[k] == row[k + 1]);
        }
        lemma_row_lookup_absent(d, c);
    }
}

/// An NFA none of whose labeled transitions offers a choice: every
/// (state, character) pair has at most one destination.
pub open spec fn nfa_deterministic(nfa: &NFA) -> bool {
    forall|s: int, c: char, t1: StateId, t2: StateId|
        0 <= s < nfa.state_count() && (#[trigger] nfa.trans(s, c).contains(t1)) && (
        #[trigger] nfa.trans(s, c).contains(t2)) ==> t1 == t2
}

/// Convert an NFA into a DFA by lazy subset construction: states are
/// processed in increasing order under a growing high-water mark, and a
/// fresh "composite" state is allocated only when a transition actually
/// leads to more than one NFA state, so ids `0..N` keep their one-to-one
/// correspondence with the NFA's own states and state 0 stays the start
/// state.  An error is returned when more than 2^16 states would be
/// needed; an automaton with no nondeterministic transition always
/// converts.
pub fn nfa_to_dfa(nfa: &NFA) -> (r: Result<Box<DFA>, CapacityError>)
    requires
        nfa.wf(),
        nfa.state_count() >= 1,
    ensures
        r matches Ok(d) ==> d.wf() && d.state_count() >= nfa.state_count() && (forall|t: StateId|
            nfa.eps_preds(nfa.accept_of()).insert(nfa.accept_of()).contains(t)
                ==> #[trigger] d.accept_set().contains(t)),
        r matches Ok(d) ==> (forall|s: int, i: int, j: int|
            0 <= s < d.state_count() && 0 <= i < j < d.row_at(s).len() ==> (#[trigger] d.row_at(
                s,
            )[i]).0 != (#[trigger] d.row_at(s)[j]).0),
        r matches Ok(d) ==> (forall|s: int, c: char|
            0 <= s < nfa.state_count() ==> ((#[trigger] row_lookup(d.row_at(s), c)) is Some
                <==> nfa.trans(s, c) != Set::<StateId>::empty())),
        r matches Ok(d) ==> (forall|s: int, c: char, t: StateId|
            0 <= s < nfa.state_count() && (#[trigger] nfa.trans(s, c).contains(t)) && nfa.trans(
                s,
                c,
            ) == Set::<StateId>::empty().insert(t) ==> row_lookup(d.row_at(s), c) == Some(t)),
        r matches Ok(d) ==> (forall|t: StateId|
            (t as int) < nfa.state_count() ==> (#[trigger] d.accept_set().contains(t)
                == nfa.eps_preds(nfa.accept_of()).insert(nfa.accept_of()).contains(t))),
        nfa_deterministic(nfa) ==> r is Ok,
{
    let ncount = nfa.num_states();
    let mut highest: usize = ncount - 1;
    let mut composite_states: MultiMap<StateId, StateId> = MultiMap::new();
    let mut dfa_states: Vec<Vec<(char, StateId)>> = Vec::new();
    let mut current: usize = 0;
    while current <= highest
        invariant
            nfa.wf(),
            ncount == nfa.state_count(),
            1 <= ncount,
            ncount - 1 <= highest < 65536,
            current <= highest + 1,
            dfa_states@.len() == current,
            composite_states.inv(),
            forall|k: StateId, t: StateId|
                (#[trigger] composite_states.val_set(k).contains(t)) ==> (t as int) < ncount,
            forall|k: StateId| (k as int) < ncount ==> #[trigger] composite_states.val_set(k)
                == Set::<StateId>::empty(),
            forall|k: StateId| (k as int) > highest ==> #[trigger] composite_states.val_set(k)
                == Set::<StateId>::empty(),
            forall|k: StateId|
                ncount <= (k as int) && (k as int) <= highest ==> (
                #[trigger] composite_states.val_set(k)) != Set::<StateId>::empty(),
            forall|s: int, i: int|
                0 <= s < current && 0 <= i < dfa_states@[s]@.len() ==> ((
                #[trigger] dfa_states@[s]@[i]).1 as int) <= highest,
            forall|s: int, i: int, j: int|
                0 <= s < current && 0 <= i < j < dfa_states@[s]@.len() ==> (
                #[trigger] dfa_states@[s]@[i]).0 != (#[trigger] dfa_states@[s]@[j]).0,
            forall|s: int, c: char|
                0 <= s < current && s < ncount ==> ((#[trigger] row_lookup(dfa_states@[s]@, c))
                    is Some <==> nfa.trans(s, c) != Set::<StateId>::empty()),
            forall|s: int, c: char, t: StateId|
                0 <= s < current && s < ncount && (#[trigger] nfa.trans(s, c).contains(t))
                    && nfa.trans(s, c) == Set::<StateId>::empty().insert(t) ==> row_lookup(
                    dfa_states@[s]@,
                    c,
                ) == Some(t),
            nfa_deterministic(nfa) ==> highest == ncount - 1,
            nfa_deterministic(nfa) ==> (forall|k: StateId| #[trigger] composite_states.val_set(k)
                == Set::<StateId>::empty()),
        decreases 65536 - current,
    {
        let cset = composite_states.get_multi(current as u16);
        let trans_map: MultiMap<char, StateId> = if cset.len() == 0 {
            proof {
                if current >= ncount {
                    assert(composite_states.val_set(current as u16) != Set::<
                        StateId,
                    >::empty());
                    assert(cset@.to_set() =~= Set::<StateId>::empty());
                    assert(false);
                }
            }
            let u = nfa.get(current as u16).duplicate();
            proof {
                assert forall|c: char, x: StateId|
                    (#[trigger] u.val_set(c).contains(x)) implies (x as int) < ncount by {
                    assert(u.val_set(c) == nfa.map_at(current as int).val_set(c));
                    assert(nfa.trans(current as int, c).contains(x));
                }
            }
            u
        } else {
            let nm = cset.len();
            proof {
                assert forall|j: int| 0 <= j < cset@.len() implies ((#[trigger] cset@[j]) as int)
                    < ncount by {
                    assert(cset@.to_set().contains(cset@[j]));
                }
            }
            let mut refs: Vec<&MultiMap<char, StateId>> = Vec::new();
            let mut t: usize = 0;
            while t < nm
                invariant
                    t <= nm,
                    nm == cset@.len(),
                    nfa.wf(),
                    ncount == nfa.state_count(),
                    forall|j: int|
                        0 <= j < cset@.len() ==> ((#[trigger] cset@[j]) as int) < ncount,
                    refs@.len() == t,
                    forall|j: int| 0 <= j < t ==> (#[trigger] refs@[j]).inv(),
                    forall|j: int, c: char, x: StateId|
                        0 <= j < t && (#[trigger] refs@[j].val_set(c).contains(x)) ==> (
                        x as int) < ncount,
                decreases nm - t,
            {
                let st = cset[t];
                let m = nfa.get(st);
                proof {
                    assert(nfa.map_at(st as int).inv());
                    assert forall|c: char, x: StateId|
                        (#[trigger] m.val_set(c).contains(x)) implies (x as int) < ncount by {
                        assert(nfa.trans(st as int, c).contains(x));
                    }
                }
                refs.push(m);
                t += 1;
            }
            let u = union_multi(refs.as_slice());
            proof {
                assert(ncount <= current) by {
                    if current < ncount {
                        assert(composite_states.val_set(current as u16) == Set::<
                            StateId,
                        >::empty());
                        assert(cset@.to_set() =~= Set::<StateId>::empty());
                        assert(cset@.to_set().contains(cset@[0]));
                    }
                }
                lemma_union_bound(refs@, ncount as int);
                assert forall|c: char, x: StateId|
                    (#[trigger] u.val_set(c).contains(x)) implies (x as int) < ncount by {
                    assert(u.val_set(c) == union_val_set(refs@, c));
                }
            }
            u
        };
        proof {
            assert forall|c: char| #[trigger] trans_map.val_set(c) == (if current < ncount {
                nfa.trans(current as int, c)
            } else {
                trans_map.val_set(c)
            }) by {
                if current < ncount {
                    assert(trans_map.val_set(c) == nfa.map_at(current as int).val_set(c));
                }
            }
        }
        let mut row: Vec<(char, StateId)> = Vec::new();
        let ne = trans_map.num_entries();
        let mut e: usize = 0;
        while e < ne
            invariant
                e <= ne,
                ne == trans_map.key_count(),
                trans_map.inv(),
                forall|c: char, x: StateId|
                    (#[trigger] trans_map.val_set(c).contains(x)) ==> (x as int) < ncount,
                nfa.wf(),
                ncount == nfa.state_count(),
                1 <= ncount,
                ncount - 1 <= highest < 65536,
                current <= highest,
                dfa_states@.len() == current,
                composite_states.inv(),
                forall|k: StateId, t: StateId|
                    (#[trigger] composite_states.val_set(k).contains(t)) ==> (t as int) < ncount,
                forall|k: StateId| (k as int) < ncount ==> #[trigger] composite_states.val_set(k)
                    == Set::<StateId>::empty(),
                forall|k: StateId| (k as int) > highest ==> #[trigger] composite_states.val_set(k)
                    == Set::<StateId>::empty(),
                forall|k: StateId|
                    ncount <= (k as int) && (k as int) <= highest ==> (
                    #[trigger] composite_states.val_set(k)) != Set::<StateId>::empty(),
                forall|s: int, i: int|
                    0 <= s < current && 0 <= i < dfa_states@[s]@.len() ==> ((
                    #[trigger] dfa_states@[s]@[i]).1 as int) <= highest,
                forall|i: int| 0 <= i < row@.len() ==> ((#[trigger] row@[i]).1 as int) <= highest,
                row@.len() == e,
                forall|k: int| 0 <= k < e ==> (#[trigger] row@[k]).0 == trans_map.key_at(k),
                forall|k: int|
                    0 <= k < e && trans_map.vals_at(k).len() == 1 ==> (#[trigger] row@[k]).1
                        == trans_map.vals_at(k)[0],
                forall|c: char| #[trigger] trans_map.val_set(c) == (if current < ncount {
                    nfa.trans(current as int, c)
                } else {
                    trans_map.val_set(c)
                }),
                nfa_deterministic(nfa) ==> highest == ncount - 1,
                nfa_deterministic(nfa) ==> (forall|k: StateId|
                    #[trigger] composite_states.val_set(k) == Set::<StateId>::empty()),
            decreases ne - e,
        {
            let label = trans_map.key_of_entry(e);
            let vals = trans_map.vals_of_entry(e);
            proof {
                lemma_mm_iteration(&trans_map);
                assert(trans_map.val_set(trans_map.key_at(e as int)) == trans_map.vals_at(
                    e as int,
                ).to_set());
                assert(trans_map.vals_at(e as int).len() > 0);
            }
            if vals.len() == 1 {
                let dest = vals[0];
                proof {
                    assert(vals@.to_set().contains(vals@[0]));
                    assert(trans_map.val_set(label).contains(dest));
                }
                row.push((label, dest));
            } else {
                proof {
                    if nfa_deterministic(nfa) {
                        assert(current < ncount);
                        assert(trans_map.val_set(label) == nfa.trans(current as int, label));
                        assert(vals@ == trans_map.vals_at(e as int));
                        assert(vals@.to_set() == trans_map.val_set(label));
                        assert(vals@.len() >= 2);
                        assert(vals@.no_duplicates());
                        assert(vals@[0] != vals@[1]);
                        assert(vals@.contains(vals@[0]));
                        assert(vals@.contains(vals@[1]));
                        assert(nfa.trans(current as int, label).contains(vals@[0]));
                        assert(nfa.trans(current as int, label).contains(vals@[1]));
                        assert(false);
                    }
                }
                let copied = copy_u16s(vals);
                match find_key_by_value(&composite_states, &copied) {
                    Some(st) => {
                        proof {
                            assert(vals@.len() > 1);
                            assert(vals@.to_set().contains(vals@[0]));
                            assert(composite_states.val_set(st) != Set::<StateId>::empty());
                            assert((st as int) <= highest);
                        }
                        row.push((label, st));
                    },
                    None => {
                        if highest == 65535 {
                            return Err(CapacityError);
                        }
                        highest += 1;
                        let newid = highest as u16;
                        proof {
                            assert(composite_states.val_set(newid) == Set::<StateId>::empty());
                        }
                        let ghost cprev = *&composite_states;
                        composite_states.add_all_multi(newid, &copied);
                        proof {
                            assert forall|k: StateId| #[trigger] composite_states.val_set(k) == (
                            if k == newid {
                                cprev.val_set(newid) + copied@.to_set()
                            } else {
                                cprev.val_set(k)
                            }) by {
                                assert(composite_states.mm_val_set(k) == (if k == newid {
                                    cprev.mm_val_set(newid) + copied@.to_set()
                                } else {
                                    cprev.mm_val_set(k)
                                }));
                            }
                            assert(composite_states.mm_inv());
                            assert(vals@.to_set().contains(vals@[0]));
                            assert forall|k: StateId, t: StateId|
                                (#[trigger] composite_states.val_set(k).contains(t)) implies (
                            t as int) < ncount by {
                                if k == newid {
                                    if !cprev.val_set(newid).contains(t) {
                                        assert(copied@.to_set().contains(t));
                                        assert(trans_map.val_set(label).contains(t));
                                    }
                                }
                            }
                        }
                        proof {
                            assert(composite_states.val_set(newid).contains(vals@[0]));
                            assert(!Set::<StateId>::empty().contains(vals@[0]));
                        }
                        row.push((label, newid));
                    },
                }
            }
            e += 1;
        }
        proof {
            lemma_mm_iteration(&trans_map);
            assert forall|i: int, j: int|
                0 <= i < j < row@.len() implies (#[trigger] row@[i]).0 != (
            #[trigger] row@[j]).0 by {
                assert(row@[i].0 == trans_map.key_at(i) && row@[j].0 == trans_map.key_at(j));
            }
            if current < ncount {
                assert forall|c: char|
                    ((#[trigger] row_lookup(row@, c)) is Some) == (nfa.trans(current as int, c)
                        != Set::<StateId>::empty()) by {
                    assert(trans_map.val_set(c) == nfa.trans(current as int, c));
                    if nfa.trans(current as int, c) != Set::<StateId>::empty() {
                        let k = choose|k: int|
                            0 <= k < trans_map.key_count() && trans_map.key_at(k) == c;
                        assert(row@[k].0 == c);
                        assert forall|k2: int| 0 <= k2 < k implies (#[trigger] row@[k2]).0
                            != c by {
                            assert(row@[k2].0 == trans_map.key_at(k2));
                        }
                        lemma_row_lookup_found(row@, c, k);
                    } else {
                        assert forall|k: int| 0 <= k < row@.len() implies (#[trigger] row@[k]).0
                            != c by {
                            if row@[k].0 == c {
                                assert(trans_map.key_at(k) == c);
                                assert(trans_map.val_set(trans_map.key_at(k))
                                    == trans_map.vals_at(k).to_set());
                                assert(trans_map.vals_at(k).len() > 0);
                                assert(trans_map.vals_at(k).contains(trans_map.vals_at(k)[0]));
                                assert(trans_map.vals_at(k).to_set().contains(
                                    trans_map.vals_at(k)[0],
                                ));
                            }
                        }
                        lemma_row_lookup_absent(row@, c);
                    }
                }
                assert forall|c: char, t: StateId|
                    (#[trigger] nfa.trans(current as int, c).contains(t)) && nfa.trans(
                        current as int,
                        c,
                    ) == Set::<StateId>::empty().insert(t) implies row_lookup(row@, c) == Some(
                        t,
                    ) by {
                    assert(trans_map.val_set(c) == nfa.trans(current as int, c));
                    assert(trans_map.val_set(c).contains(t));
                    let k = choose|k: int|
                        0 <= k < trans_map.key_count() && trans_map.key_at(k) == c;
                    assert(row@[k].0 == c);
                    let vals = trans_map.vals_at(k);
                    assert(vals.to_set() == Set::<StateId>::empty().insert(t));
                    assert(vals.len() > 0);
                    assert(vals.contains(vals[0]));
                    assert(vals.to_set().contains(vals[0]));
                    assert(vals[0] == t);
                    if vals.len() >= 2 {
                        assert(vals.contains(vals[1]));
                        assert(vals.to_set().contains(vals[1]));
                        assert(vals[1] == t);
                        assert(vals.no_duplicates());
                        assert(false);
                    }
                    assert(vals.len() == 1);
                    assert(row@[k].1 == vals[0]);
                    assert forall|k2: int| 0 <= k2 < k implies (#[trigger] row@[k2]).0 != c by {
                        assert(row@[k2].0 == trans_map.key_at(k2));
                    }
                    lemma_row_lookup_found(row@, c, k);
                }
            }
        }
        let ghost states_prev = dfa_states@;
        let ghost rowv = row@;
        dfa_states.push(row);
        proof {
            assert forall|s: int, i: int, j: int|
                0 <= s < current + 1 && 0 <= i < j < dfa_states@[s]@.len() implies (
            #[trigger] dfa_states@[s]@[i]).0 != (#[trigger] dfa_states@[s]@[j]).0 by {
                if s < current {
                    assert(dfa_states@[s] == states_prev[s]);
                } else {
                    assert(dfa_states@[s]@ == rowv);
                }
            }
            assert forall|s: int, c: char|
                0 <= s < current + 1 && s < ncount implies ((#[trigger] row_lookup(
                dfa_states@[s]@,
                c,
            )) is Some) == (nfa.trans(s, c) != Set::<StateId>::empty()) by {
                if s < current {
                    assert(dfa_states@[s] == states_prev[s]);
                } else {
                    assert(dfa_states@[s]@ == rowv);
                }
            }
            assert forall|s: int, c: char, t: StateId|
                0 <= s < current + 1 && s < ncount && (#[trigger] nfa.trans(s, c).contains(t))
                    && nfa.trans(s, c) == Set::<StateId>::empty().insert(t) implies row_lookup(
                    dfa_states@[s]@,
                    c,
                ) == Some(t) by {
                if s < current {
                    assert(dfa_states@[s] == states_prev[s]);
                } else {
                    assert(dfa_states@[s]@ == rowv);
                    assert(row_lookup(rowv, c) == Some(t));
                }
            }
            assert forall|s: int, i: int|
                0 <= s < current + 1 && 0 <= i < dfa_states@[s]@.len() implies ((
            #[trigger] dfa_states@[s]@[i]).1 as int) <= highest by {
                if s < current {
                    assert(dfa_states@[s] == states_prev[s]);
                } else {
                    assert(dfa_states@[s]@ == rowv);
                }
            }
        }
        current += 1;
    }
    let nfa_accepts = nfa.accept_states();
    let mut dfa_accepts = copy_u16s(&nfa_accepts);
    proof {
        assert(dfa_accepts@.to_set() == nfa.eps_preds(nfa.accept_of()).insert(nfa.accept_of()));
    }
    let nc = composite_states.num_entries();
    let mut e: usize = 0;
    while e < nc
        invariant
            e <= nc,
            nc == composite_states.key_count(),
            composite_states.inv(),
            ncount == nfa.state_count(),
            forall|k: StateId| (k as int) < ncount ==> #[trigger] composite_states.val_set(k)
                == Set::<StateId>::empty(),
            nfa.eps_preds(nfa.accept_of()).insert(nfa.accept_of()).subset_of(
                dfa_accepts@.to_set(),
            ),
            forall|t: StateId|
                (t as int) < ncount ==> (#[trigger] dfa_accepts@.to_set().contains(t)
                    == nfa.eps_preds(nfa.accept_of()).insert(nfa.accept_of()).contains(t)),
        decreases nc - e,
    {
        let sub = composite_states.vals_of_entry(e);
        if intersects_u16(sub, &nfa_accepts) {
            let key = composite_states.key_of_entry(e);
            proof {
                lemma_mm_iteration(&composite_states);
                assert(composite_states.val_set(composite_states.key_at(e as int))
                    == composite_states.vals_at(e as int).to_set());
                assert(composite_states.vals_at(e as int).len() > 0);
                assert(composite_states.vals_at(e as int).to_set().contains(
                    composite_states.vals_at(e as int)[0],
                ));
                assert((key as int) >= ncount);
            }
            if !contains_u16(&dfa_accepts, key) {
                let ghost aprev = dfa_accepts@;
                dfa_accepts.push(key);
                proof {
                    crate::multimap::lemma_push_to_set(aprev, key);
                }
            }
        }
        e += 1;
    }
    let d = DFA { table: dfa_states, accept_states: dfa_accepts };
    proof {
        assert(d.wf());
    }
    Ok(Box::new(d))
}

/// The edges one label contributes: one per destination state.
pub open spec fn map_edge_vals(s: StateId, c: char, vals: Seq<StateId>) -> Seq<crate::graphviz::Edge> {
    Seq::new(vals.len(), |j: int| (s, vals[j], c))
}

/// The edges the first `i` labels of one state's map contribute.
pub open spec fn map_edges(m: MultiMap<char, StateId>, s: StateId, i: int) -> Seq<
    crate::graphviz::Edge,
>
    decreases i,
{
    if i <= 0 {
        Seq::empty()
    } else {
        map_edges(m, s, i - 1) + map_edge_vals(s, m.key_at(i - 1), m.vals_at(i - 1))
    }
}

/// The edges of the first `s` states of an NFA.
pub open spec fn nfa_edges(nfa: &NFA, s: int) -> Seq<crate::graphviz::Edge>
    decreases s,
{
    if s <= 0 {
        Seq::empty()
    } else {
        nfa_edges(nfa, s - 1) + map_edges(
            nfa.map_at(s - 1),
            (s - 1) as StateId,
            nfa.map_at(s - 1).key_count() as int,
        )
    }
}

impl NFA {
    /// Every labeled edge of the automaton, state by state.
    fn edges(&self) -> (r: Vec<crate::graphviz::Edge>)
        requires
            self.wf(),
        ensures
            r@ == nfa_edges(self, self.state_count() as int),
    {
        let mut out: Vec<crate::graphviz::Edge> = Vec::new();
        let n = self.num_states();
        let mut s: usize = 0;
        while s < n
            invariant
                s <= n,
                n == self.state_count(),
                self.wf(),
                out@ == nfa_edges(self, s as int),
            decreases n - s,
        {
            let m = self.get(s as StateId);
            let ne = m.num_entries();
            let mut e: usize = 0;
            while e < ne
                invariant
                    s < n,
                    n == self.state_count(),
                    self.wf(),
                    *m == self.map_at(s as int),
                    e <= ne,
                    ne == m.key_count(),
                    out@ == nfa_edges(self, s as int) + map_edges(*m, s as StateId, e as int),
                decreases ne - e,
            {
                let c = m.key_of_entry(e);
                let vals = m.vals_of_entry(e);
                let nv = vals.len();
                let mut j: usize = 0;
                while j < nv
                    invariant
                        s < n,
                        e < ne,
                        ne == m.key_count(),
                        j <= nv,
                        nv == vals@.len(),
                        vals@ == m.vals_at(e as int),
                        c == m.key_at(e as int),
                        out@ == nfa_edges(self, s as int) + map_edges(*m, s as StateId, e as int)
                            + map_edge_vals(s as StateId, c, vals@.subrange(0, j as int)),
                    decreases nv - j,
                {
                    let t = vals[j];
                    out.push(((s as StateId), t, c));
                    proof {
                        assert(map_edge_vals(s as StateId, c, vals@.subrange(0, j as int)).push(
                            ((s as StateId), t, c),
                        ) =~= map_edge_vals(s as StateId, c, vals@.subrange(0, j as int + 1)));
                        assert(out@ =~= nfa_edges(self, s as int) + map_edges(
                            *m,
                            s as StateId,
                            e as int,
                        ) + map_edge_vals(s as StateId, c, vals@.subrange(0, j as int + 1)));
                    }
                    j += 1;
                }
                proof {
                    assert(vals@.subrange(0, nv as int) =~= vals@);
                    assert(out@ =~= nfa_edges(self, s as int) + map_edges(
                        *m,
                        s as StateId,
                        e as int + 1,
                    ));
                }
                e += 1;
            }
            proof {
                assert(out@ =~= nfa_edges(self, s as int + 1));
            }
            s += 1;
        }
        out
    }

    /// Get the GraphViz representation of this NFA.
    pub fn to_graph(&self) -> (r: String)
        requires
            self.wf(),
        ensures
            exists|ends: Seq<StateId>|
                ends.to_set() == self.eps_preds(self.accept_of()).insert(self.accept_of())
                    && r@ == crate::graphviz::spec_generate(
                    0,
                    ends,
                    nfa_edges(self, self.state_count() as int),
                ),
    {
        let ends = self.accept_states();
        let es = self.edges();
        let out = crate::graphviz::generate(0, &ends, &es);
        proof {
            assert(ends@.to_set() == self.eps_preds(self.accept_of()).insert(self.accept_of())
                && out@ == crate::graphviz::spec_generate(
                0,
                ends@,
                nfa_edges(self, self.state_count() as int),
            ));
        }
        out
    }
}

/// How many entries of a boolean sequence are set.
spec fn count_true(s: Seq<bool>) -> nat
    decreases s.len(),
{
    if s.len() == 0 {
        0
    } else {
        count_true(s.drop_last()) + (if s.last() {
            1nat
        } else {
            0nat
        })
    }
}

proof fn lemma_count_true_le(s: Seq<bool>)
    ensures
        count_true(s) <= s.len(),
    decreases s.len(),
{
    if s.len() > 0 {
        lemma_count_true_le(s.drop_last());
    }
}

proof fn lemma_count_true_update(s: Seq<bool>, i: int)
    requires
        0 <= i < s.len(),
        !s[i],
    ensures
        count_true(s.update(i, true)) == count_true(s) + 1,
    decreases s.len(),
{
    let s2 = s.update(i, true);
    if i == s.len() - 1 {
        assert(s2.drop_last() =~= s.drop_last());
    } else {
        assert(s2.drop_last() =~= s.drop_last().update(i, true));
        lemma_count_true_update(s.drop_last(), i);
    }
}

/// The set of states a boolean table marks.
pub open spec fn marked_set(v: Seq<bool>) -> Set<StateId> {
    Set::new(|t: StateId| (t as int) < v.len() && v[t as int])
}

/// A set of DFA states closed under every defined transition.
pub open spec fn closed_under(d: &DFA, rs: Set<StateId>) -> bool {
    forall|s: StateId, i: int|
        rs.contains(s) && (s as int) < d.state_count() && 0 <= i < d.row_at(s as int).len()
            ==> rs.contains(#[trigger] d.row_at(s as int)[i].1)
}

/// The set of states reachable from state 0: it holds 0, follows every
/// transition, and is the least such set.
pub open spec fn is_reach_set(d: &DFA, rs: Set<StateId>) -> bool {
    &&& rs.contains(0)
    &&& closed_under(d, rs)
    &&& forall|s2: Set<StateId>|
        s2.contains(0) && #[trigger] closed_under(d, s2) ==> rs.subset_of(s2)
}

/// Overwrites one entry of a boolean table.
fn vec_set_bool(v: &mut Vec<bool>, i: usize, b: bool)
    requires
        i < old(v)@.len(),
    ensures
        final(v)@ == old(v)@.update(i as int, b),
{
    v[i] = b;
}

/// The states a boolean table marks below a bound.
spec fn marked_below(v: Seq<bool>, t: int) -> Set<StateId> {
    Set::new(|x: StateId| (x as int) < t && (x as int) < v.len() && v[x as int])
}

impl DFA {
    /// The states reachable from state 0, by a worklist walk.
    fn get_reachable(&self) -> (r: Vec<StateId>)
        requires
            self.wf(),
        ensures
            is_reach_set(self, r@.to_set()),
            r@.no_duplicates(),
            forall|t: StateId| #[trigger] r@.to_set().contains(t) ==> (t as int)
                < self.state_count(),
    {
        let n = self.table.len();
        let mut visited: Vec<bool> = Vec::new();
        let mut z: usize = 0;
        while z < n
            invariant
                z <= n,
                visited@.len() == z,
                forall|t: int| 0 <= t < z ==> !(#[trigger] visited@[t]),
            decreases n - z,
        {
            visited.push(false);
            z += 1;
        }
        let ghost v0 = visited@;
        vec_set_bool(&mut visited, 0, true);
        proof {
            lemma_count_true_update(v0, 0);
            assert(count_true(v0) == 0) by {
                lemma_count_true_zero(v0);
            }
            lemma_count_true_le(visited@);
        }
        let mut stack: Vec<StateId> = Vec::new();
        stack.push(0);
        proof {
            assert forall|x: StateId| marked_set(visited@).contains(x) implies x == 0 by {
                if (x as int) < n && x != 0 {
                    assert(visited@[x as int] == v0[x as int]);
                    assert(!v0[x as int]);
                }
            }
            assert(visited@[0] == true);
            assert(n >= 1);
            assert(marked_set(visited@).contains(0));
            assert(marked_set(visited@) =~= Set::<StateId>::empty().insert(0));
            assert(stack@ =~= Seq::<StateId>::empty().push(0));
            assert(stack@[0] == 0);
            assert(stack@.contains(0));
            assert(stack@.to_set().contains(0));
            assert forall|u: StateId, k: int|
                marked_set(visited@).contains(u) && !stack@.to_set().contains(u) && 0 <= k
                    < self.row_at(u as int).len() implies marked_set(visited@).contains(
                (#[trigger] self.row_at(u as int)[k]).1,
            ) by {
                assert(u == 0);
                assert(stack@.to_set().contains(u));
            }
        }
        while stack.len() != 0
            invariant
                self.wf(),
                n == self.state_count(),
                visited@.len() == n,
                count_true(visited@) <= n,
                marked_set(visited@).contains(0),
                stack@.no_duplicates(),
                forall|k: int|
                    0 <= k < stack@.len() ==> ((#[trigger] stack@[k]) as int) < n && marked_set(
                        visited@,
                    ).contains(stack@[k]),
                forall|s2: Set<StateId>|
                    s2.contains(0) && #[trigger] closed_under(self, s2) ==> marked_set(
                        visited@,
                    ).subset_of(s2),
                forall|s: StateId, i: int|
                    marked_set(visited@).contains(s) && !stack@.to_set().contains(s) && 0 <= i
                        < self.row_at(s as int).len() ==> marked_set(visited@).contains(
                        (#[trigger] self.row_at(s as int)[i]).1,
                    ),
            decreases 2 * (n - count_true(visited@)) + stack@.len(),
        {
            let ghost mstart = 2 * (n as int - count_true(visited@)) + stack@.len();
            let ghost stack_before = stack@;
            let s = match stack.pop() {
                Some(x) => x,
                None => {
                    proof {
                        assert(false);
                    }
                    0
                },
            };
            let ghost spop = stack@;
            proof {
                assert(stack_before =~= spop.push(s));
                crate::multimap::lemma_push_to_set(spop, s);
                assert forall|u: StateId, k: int|
                    marked_set(visited@).contains(u) && !spop.to_set().contains(u) && u != s && 0
                        <= k < self.row_at(u as int).len() implies marked_set(visited@).contains(
                    (#[trigger] self.row_at(u as int)[k]).1,
                ) by {
                    assert(!stack_before.to_set().contains(u));
                }
            }
            let row_len = self.table[s as usize].len();
            let mut i: usize = 0;
            while i < row_len
                invariant
                    self.wf(),
                    n == self.state_count(),
                    visited@.len() == n,
                    count_true(visited@) <= n,
                    (s as int) < n,
                    row_len == self.row_at(s as int).len(),
                    i <= row_len,
                    marked_set(visited@).contains(0),
                    marked_set(visited@).contains(s),
                    stack@.no_duplicates(),
                    forall|k: int|
                        0 <= k < stack@.len() ==> ((#[trigger] stack@[k]) as int) < n
                            && marked_set(visited@).contains(stack@[k]),
                    forall|s2: Set<StateId>|
                        s2.contains(0) && #[trigger] closed_under(self, s2) ==> marked_set(
                            visited@,
                        ).subset_of(s2),
                    forall|u: StateId, k: int|
                        marked_set(visited@).contains(u) && !stack@.to_set().contains(u) && u != s
                            && 0 <= k < self.row_at(u as int).len() ==> marked_set(
                            visited@,
                        ).contains((#[trigger] self.row_at(u as int)[k]).1),
                    forall|k: int|
                        0 <= k < i ==> marked_set(visited@).contains(
                            (#[trigger] self.row_at(s as int)[k]).1,
                        ),
                    2 * (n as int - count_true(visited@)) + stack@.len() <= mstart - 1,
                decreases row_len - i,
            {
                let pair = self.table[s as usize][i];
                let t = pair.1;
                proof {
                    assert(self.row_at(s as int)[i as int].1 == t);
                    assert((t as int) < n);
                }
                if !visited[t as usize] {
                    let ghost vprev = visited@;
                    let ghost sprev = stack@;
                    vec_set_bool(&mut visited, t as usize, true);
                    stack.push(t);
                    proof {
                        lemma_count_true_update(vprev, t as int);
                        lemma_count_true_le(visited@);
                        assert(marked_set(visited@) =~= marked_set(vprev).insert(t));
                        assert(!sprev.to_set().contains(t));
                        assert forall|k1: int, k2: int|
                            0 <= k1 < k2 < stack@.len() implies stack@[k1] != stack@[k2] by {
                            if k2 == stack@.len() - 1 {
                                assert(stack@[k1] == sprev[k1]);
                                assert(sprev.to_set().contains(sprev[k1]));
                            }
                        }
                        assert forall|s2: Set<StateId>|
                            s2.contains(0) && #[trigger] closed_under(self, s2) implies marked_set(
                            visited@,
                        ).subset_of(s2) by {
                            assert(marked_set(vprev).subset_of(s2));
                            assert(marked_set(vprev).contains(s));
                            assert(s2.contains(s));
                            assert(s2.contains(self.row_at(s as int)[i as int].1));
                        }
                        crate::multimap::lemma_push_to_set(sprev, t);
                        assert(stack@ =~= sprev.push(t));
                        assert forall|u: StateId, k: int|
                            marked_set(visited@).contains(u) && !stack@.to_set().contains(u) && u
                                != s && 0 <= k < self.row_at(u as int).len() implies marked_set(
                            visited@,
                        ).contains((#[trigger] self.row_at(u as int)[k]).1) by {
                            assert(u != t);
                            assert(marked_set(vprev).contains(u));
                            assert(!sprev.to_set().contains(u));
                            assert(marked_set(vprev).contains(self.row_at(u as int)[k].1));
                        }
                    }
                } else {
                    proof {
                        assert(marked_set(visited@).contains(t));
                    }
                }
                i += 1;
            }
            proof {
                assert forall|u: StateId, k: int|
                    marked_set(visited@).contains(u) && !stack@.to_set().contains(u) && 0 <= k
                        < self.row_at(u as int).len() implies marked_set(visited@).contains(
                    (#[trigger] self.row_at(u as int)[k]).1,
                ) by {
                    if u == s {
                        assert(marked_set(visited@).contains(self.row_at(s as int)[k].1));
                    }
                }
            }
        }
        proof {
            assert(stack@.to_set() =~= Set::<StateId>::empty());
            assert(closed_under(self, marked_set(visited@)));
        }
        let mut out: Vec<StateId> = Vec::new();
        let mut t: usize = 0;
        while t < n
            invariant
                self.wf(),
                t <= n,
                n == self.state_count(),
                visited@.len() == n,
                out@.no_duplicates(),
                out@.to_set() == marked_below(visited@, t as int),
                forall|x: StateId| #[trigger] out@.to_set().contains(x) ==> (x as int) < n,
                marked_set(visited@).contains(0),
                closed_under(self, marked_set(visited@)),
                forall|s2: Set<StateId>|
                    s2.contains(0) && #[trigger] closed_under(self, s2) ==> marked_set(
                        visited@,
                    ).subset_of(s2),
            decreases n - t,
        {
            if visited[t] {
                let ghost oprev = out@;
                out.push(t as StateId);
                proof {
                    assert(visited@[t as int]);
                    assert(!marked_below(visited@, t as int).contains(t as StateId));
                    assert(!oprev.to_set().contains(t as StateId));
                    assert forall|k1: int, k2: int|
                        0 <= k1 < k2 < out@.len() implies out@[k1] != out@[k2] by {
                        if k2 == out@.len() - 1 {
                            assert(out@[k1] == oprev[k1]);
                            assert(oprev.to_set().contains(oprev[k1]));
                        }
                    }
                    crate::multimap::lemma_push_to_set(oprev, t as StateId);
                    assert(out@.to_set() =~= marked_below(visited@, t as int + 1));
                }
            } else {
                proof {
                    assert(out@.to_set() =~= marked_below(visited@, t as int + 1));
                }
            }
            t += 1;
        }
        proof {
            assert(out@.to_set() =~= marked_set(visited@));
        }
        out
    }
}

proof fn lemma_count_true_zero(s: Seq<bool>)
    requires
        forall|t: int| 0 <= t < s.len() ==> !(#[trigger] s[t]),
    ensures
        count_true(s) == 0,
    decreases s.len(),
{
    if s.len() > 0 {
        lemma_count_true_zero(s.drop_last());
    }
}

/// The edges the first `i` pairs of one DFA row contribute.
pub open spec fn row_edges(row: Seq<(char, StateId)>, s: StateId, i: int) -> Seq<
    crate::graphviz::Edge,
>
    decreases i,
{
    if i <= 0 {
        Seq::empty()
    } else {
        row_edges(row, s, i - 1) + seq![(s, row[i - 1].1, row[i - 1].0)]
    }
}

/// The edges of the first `s` states of a DFA.
pub open spec fn dfa_edges(d: &DFA, s: int) -> Seq<crate::graphviz::Edge>
    decreases s,
{
    if s <= 0 {
        Seq::empty()
    } else {
        dfa_edges(d, s - 1) + row_edges(d.row_at(s - 1), (s - 1) as StateId, d.row_at(s - 1).len() as int)
    }
}

/// The first `i` edges whose two endpoints both lie in the given set.
pub open spec fn filter_reach(
    es: Seq<crate::graphviz::Edge>,
    rs: Set<StateId>,
    i: int,
) -> Seq<crate::graphviz::Edge>
    decreases i,
{
    if i <= 0 {
        Seq::empty()
    } else {
        filter_reach(es, rs, i - 1) + (if rs.contains(es[i - 1].0) && rs.contains(es[i - 1].1) {
            seq![es[i - 1]]
        } else {
            Seq::empty()
        })
    }
}

impl DFA {
    /// The accept states in the order they are stored.
    pub closed spec fn accept_seq(&self) -> Seq<StateId> {
        self.accept_states@
    }

    /// Every edge between states reachable from the start state: stale
    /// composite states left over from construction are filtered out.
    fn edges(&self) -> (r: Vec<crate::graphviz::Edge>)
        requires
            self.wf(),
        ensures
            forall|rs: Set<StateId>|
                #[trigger] is_reach_set(self, rs) ==> r@ == filter_reach(
                    dfa_edges(self, self.state_count() as int),
                    rs,
                    dfa_edges(self, self.state_count() as int).len() as int,
                ),
    {
        let mut all: Vec<crate::graphviz::Edge> = Vec::new();
        let n = self.table.len();
        let mut s: usize = 0;
        while s < n
            invariant
                s <= n,
                n == self.state_count(),
                self.wf(),
                all@ == dfa_edges(self, s as int),
            decreases n - s,
        {
            let row = &self.table[s];
            let m = row.len();
            let mut i: usize = 0;
            while i < m
                invariant
                    s < n,
                    n == self.state_count(),
                    self.wf(),
                    row@ == self.row_at(s as int),
                    i <= m,
                    m == row@.len(),
                    all@ == dfa_edges(self, s as int) + row_edges(row@, s as StateId, i as int),
                decreases m - i,
            {
                let pair = row[i];
                all.push(((s as StateId), pair.1, pair.0));
                proof {
                    assert(all@ =~= dfa_edges(self, s as int) + row_edges(
                        row@,
                        s as StateId,
                        i as int + 1,
                    ));
                }
                i += 1;
            }
            proof {
                assert(all@ =~= dfa_edges(self, s as int + 1));
            }
            s += 1;
        }
        let reach = self.get_reachable();
        let ghost rs0 = reach@.to_set();
        let mut out: Vec<crate::graphviz::Edge> = Vec::new();
        let ne = all.len();
        let mut e: usize = 0;
        while e < ne
            invariant
                e <= ne,
                ne == all@.len(),
                reach@.to_set() == rs0,
                out@ == filter_reach(all@, rs0, e as int),
            decreases ne - e,
        {
            let edge = all[e];
            let keep_from = contains_u16(&reach, edge.0);
            let keep_to = contains_u16(&reach, edge.1);
            if keep_from && keep_to {
                out.push(edge);
                proof {
                    assert(out@ =~= filter_reach(all@, rs0, e as int + 1));
                }
            } else {
                proof {
                    assert(out@ =~= filter_reach(all@, rs0, e as int + 1));
                }
            }
            e += 1;
        }
        proof {
            assert forall|rs: Set<StateId>| #[trigger] is_reach_set(self, rs) implies out@
                == filter_reach(
                dfa_edges(self, self.state_count() as int),
                rs,
                dfa_edges(self, self.state_count() as int).len() as int,
            ) by {
                assert(is_reach_set(self, rs0));
                assert(rs.subset_of(rs0));
                assert(rs0.subset_of(rs));
                assert(rs =~= rs0);
                assert(all@ == dfa_edges(self, self.state_count() as int));
                assert(e == ne);
            }
        }
        out
    }

    /// Get the GraphViz representation of this DFA, pruned to the states
    /// reachable from the start state.
    pub fn to_graph(&self) -> (r: String)
        requires
            self.wf(),
        ensures
            forall|rs: Set<StateId>|
                #[trigger] is_reach_set(self, rs) ==> r@ == crate::graphviz::spec_generate(
                    0,
                    self.accept_seq(),
                    filter_reach(
                        dfa_edges(self, self.state_count() as int),
                        rs,
                        dfa_edges(self, self.state_count() as int).len() as int,
                    ),
                ),
    {
        let es = self.edges();
        crate::graphviz::generate(0, &self.accept_states, &es)
    }
}

/// Walking two automata with the same tables from the same in-range state
/// over the same string ends the same way.
proof fn lemma_accepts_from_eq(d1: &DFA, d2: &DFA, st: StateId, str: Seq<char>)
    requires
        d1.wf(),
        d1.state_count() == d2.state_count(),
        forall|s: int| 0 <= s < d1.state_count() ==> #[trigger] d1.row_at(s) == d2.row_at(s),
        d1.accept_set() == d2.accept_set(),
        (st as int) < d1.state_count(),
    ensures
        d1.accepts_from(st, str) == d2.accepts_from(st, str),
    decreases str.len(),
{
    if str.len() > 0 {
        match row_lookup(d1.row_at(st as int), str[0]) {
            None => {},
            Some(n) => {
                lemma_row_lookup_in_range(d1, st as int, str[0]);
                lemma_accepts_from_eq(d1, d2, n, str.drop_first());
            },
        }
    }
}

/// A defined transition of a well-formed DFA stays inside the table.
proof fn lemma_row_lookup_in_range(d: &DFA, s: int, c: char)
    requires
        d.wf(),
        0 <= s < d.state_count(),
    ensures
        row_lookup(d.row_at(s), c) matches Some(n) ==> (n as int) < d.state_count(),
{
    lemma_row_lookup_member(d.row_at(s), c);
    match row_lookup(d.row_at(s), c) {
        Some(n) => {
            let i = choose|i: int|
                0 <= i < d.row_at(s).len() && d.row_at(s)[i].1 == n && d.row_at(s)[i].0 == c;
        },
        None => {},
    }
}

proof fn lemma_row_lookup_member(row: Seq<(char, StateId)>, c: char)
    ensures
        row_lookup(row, c) matches Some(n) ==> exists|i: int|
            0 <= i < row.len() && row[i].1 == n && row[i].0 == c,
    decreases row.len(),
{
    if row.len() > 0 && !(row[0].0 == c) {
        lemma_row_lookup_member(row.drop_first(), c);
        match row_lookup(row.drop_first(), c) {
            Some(n) => {
                let i = choose|i: int|
                    0 <= i < row.drop_first().len() && row.drop_first()[i].1 == n
                        && row.drop_first()[i].0 == c;
                assert(row[i + 1].1 == n && row[i + 1].0 == c);
            },
            None => {},
        }
    }
}

/// A two-state automaton whose only transition reads one fixed set of
/// characters from state 0 to the accepting state 1 accepts exactly the
/// one-character strings drawn from that set.  This carries the language
/// of a single-leaf syntax tree through subset construction.
pub proof fn lemma_single_value_dfa(nfa: &NFA, d: &DFA, cs: Set<char>)
    requires
        d.wf(),
        nfa.state_count() == 2,
        nfa.accept_of() == 1,
        forall|s: int, c2: char| 0 <= s < 2 ==> #[trigger] nfa.trans(s, c2) == (if s == 0
            && cs.contains(c2) {
            Set::<StateId>::empty().insert(1)
        } else {
            Set::<StateId>::empty()
        }),
        forall|s: StateId| #[trigger] nfa.eps_preds(s) == Set::<StateId>::empty(),
        forall|s: int, c2: char|
            0 <= s < 2 ==> ((#[trigger] row_lookup(d.row_at(s), c2)) is Some <==> nfa.trans(s, c2)
                != Set::<StateId>::empty()),
        forall|s: int, c2: char, t: StateId|
            0 <= s < 2 && (#[trigger] nfa.trans(s, c2).contains(t)) && nfa.trans(s, c2) == Set::<
                StateId,
            >::empty().insert(t) ==> row_lookup(d.row_at(s), c2) == Some(t),
        forall|t: StateId|
            (t as int) < 2 ==> (#[trigger] d.accept_set().contains(t) == nfa.eps_preds(
                nfa.accept_of(),
            ).insert(nfa.accept_of()).contains(t)),
    ensures
        forall|str: Seq<char>| #[trigger] d.spec_accepts(str) == (str.len() == 1 && cs.contains(
            str[0],
        )),
{
    assert(nfa.eps_preds(1).insert(1) == Set::<StateId>::empty().insert(1));
    assert(!Set::<StateId>::empty().insert(1).contains(0));
    assert(d.accept_set().contains(1));
    assert(!d.accept_set().contains(0));
    assert forall|str: Seq<char>| #[trigger] d.spec_accepts(str) == (str.len() == 1
        && cs.contains(str[0])) by {
        if str.len() == 0 {
            assert(d.spec_accepts(str) == d.accept_set().contains(0));
        } else {
            let c0 = str[0];
            if cs.contains(c0) {
                assert(nfa.trans(0, c0) == Set::<StateId>::empty().insert(1));
                assert(nfa.trans(0, c0).contains(1));
                assert(row_lookup(d.row_at(0), c0) == Some(1u16));
                let rest = str.drop_first();
                assert(d.spec_accepts(str) == d.accepts_from(1, rest));
                if rest.len() == 0 {
                    assert(d.accepts_from(1, rest) == d.accept_set().contains(1));
                } else {
                    assert(nfa.trans(1, rest[0]) == Set::<StateId>::empty());
                    assert(row_lookup(d.row_at(1), rest[0]) is None);
                    assert(!d.accepts_from(1, rest));
                }
            } else {
                assert(nfa.trans(0, c0) == Set::<StateId>::empty());
                assert(row_lookup(d.row_at(0), c0) is None);
                assert(!d.spec_accepts(str));
            }
        }
    }
}

/// Acceptance is a pure function of the automaton and the string: asking
/// two automata with equal tables and accept sets about equal strings,
/// any number of times and in any order, always yields the same answer.
pub proof fn lemma_accepts_deterministic(d1: &DFA, d2: &DFA, s1: Seq<char>, s2: Seq<char>)
    requires
        d1.wf(),
        d1.state_count() == d2.state_count(),
        forall|s: int| 0 <= s < d1.state_count() ==> #[trigger] d1.row_at(s) == d2.row_at(s),
        d1.accept_set() == d2.accept_set(),
        s1 == s2,
    ensures
        d1.spec_accepts(s1) == d2.spec_accepts(s2),
{
    lemma_accepts_from_eq(d1, d2, 0, s1);
}

} // verus!
