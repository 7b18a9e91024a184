//! Scan-based matching: does any contiguous substring of a text drive a
//! deterministic automaton from its start state into a final state?

use vstd::prelude::*;
use vstd::seq_lib::*;

use crate::canon;
use crate::machine::Input;
use crate::machine::MachineView;
use crate::machine::StateMachine;

verus! {

/// Whether some transition leaves `st` under the symbol `sym`.
pub open spec fn has_edge(m: MachineView, st: Seq<u64>, sym: Input) -> bool {
    exists|t: (Seq<u64>, Seq<u64>, Input)| m.trans_set().contains(t) && t.0 == st && t.2 == sym
}

/// The destination of the transition leaving `st` under `sym`; unique
/// whenever the automaton is deterministic.
pub open spec fn edge_dest(m: MachineView, st: Seq<u64>, sym: Input) -> Seq<u64> {
    (choose|t: (Seq<u64>, Seq<u64>, Input)|
        m.trans_set().contains(t) && t.0 == st && t.2 == sym).1
}

/// The state reached from `st` on reading the character `c`, chosen by
/// priority: the exact literal first, then the wildcard, then the
/// wildcard fallback; `None` when no transition applies. A transition
/// labeled with an anchor is never taken: the walk consumes characters
/// only, so an automaton whose accepting paths cross an anchor accepts
/// nothing through them.
pub open spec fn step_dest(m: MachineView, st: Seq<u64>, c: char) -> Option<Seq<u64>> {
    if has_edge(m, st, Input::Literal(c)) {
        Some(edge_dest(m, st, Input::Literal(c)))
    } else if has_edge(m, st, Input::Any) {
        Some(edge_dest(m, st, Input::Any))
    } else if has_edge(m, st, Input::AnyOther) {
        Some(edge_dest(m, st, Input::AnyOther))
    } else {
        None
    }
}

/// Whether the walk that starts in `st` at offset `i` reaches a final
/// state: one character is consumed per step, and the walk succeeds as
/// soon as it steps into a final state.
pub open spec fn accepts_from(m: MachineView, text: Seq<char>, i: int, st: Seq<u64>) -> bool
    decreases text.len() - i,
    when 0 <= i <= text.len()
{
    if i >= text.len() {
        false
    } else {
        match step_dest(m, st, text[i]) {
            None => false,
            Some(d) => m.finals_set().contains(d) || accepts_from(m, text, i + 1, d),
        }
    }
}

/// Whether some contiguous substring of `text` is accepted: the walk
/// from the start state succeeds for at least one start offset.
pub open spec fn spec_matches(m: MachineView, text: Seq<char>) -> bool {
    exists|start: int| 0 <= start < text.len() && accepts_from(m, text, start, seq![0u64])
}

impl StateMachine {
    /// The transition leaving `st` under `sym`, if any; returns its
    /// destination. Determinism makes the destination unique.
    fn find_edge(&self, st: &Vec<u64>, sym: Input) -> (r: Option<Vec<u64>>)
        requires
            self@.deterministic(),
        ensures
            match r {
                None => !has_edge(self@, st@, sym),
                Some(d) => has_edge(self@, st@, sym) && d@ == edge_dest(self@, st@, sym),
            },
    {
        let n = self.trans_len();
        let mut i: usize = 0;
        while i < n
            invariant
                n == self@.transitions.len(),
                i <= n,
                self@.deterministic(),
                forall|k: int|
                    0 <= k < i ==> !(self@.transitions[k].0 == st@ && self@.transitions[k].2
                        == sym),
            decreases n - i,
        {
            let t = self.trans_ref(i);
            if t.2 == sym && canon::state_eq(&t.0, st) {
                let d = canon::clone_state(&t.1);
                proof {
                    let tv = self@.transitions[i as int];
                    assert(self@.transitions.contains(tv));
                    assert(self@.trans_set().contains(tv) && tv.0 == st@ && tv.2 == sym);
                    let tc = choose|t: (Seq<u64>, Seq<u64>, Input)|
                        self@.trans_set().contains(t) && t.0 == st@ && t.2 == sym;
                    assert(tv == tc);
                    assert(d@ == edge_dest(self@, st@, sym));
                }
                return Some(d);
            }
            i += 1;
        }
        proof {
            if has_edge(self@, st@, sym) {
                let t = choose|t: (Seq<u64>, Seq<u64>, Input)|
                    self@.trans_set().contains(t) && t.0 == st@ && t.2 == sym;
                let k = choose|k: int|
                    0 <= k < self@.transitions.len() && self@.transitions[k] == t;
            }
        }
        None
    }

    /// Tests whether any contiguous substring of `input` drives the
    /// automaton from its start state to a final state. The caller must
    /// hand in a deterministic automaton, such as `to_dfa` returns.
    pub fn matches(&self, input: &str) -> (r: bool)
        requires
            self@.deterministic(),
        ensures
            r == spec_matches(self@, input@),
    {
        let n = input.unicode_len();
        let mut start: usize = 0;
        while start < n
            invariant
                n == input@.len(),
                start <= n,
                self@.deterministic(),
                forall|s0: int|
                    0 <= s0 < start ==> !accepts_from(self@, input@, s0, seq![0u64]),
            decreases n - start,
        {
            let mut state: Vec<u64> = Vec::new();
            state.push(0u64);
            proof {
                assert(state@ =~= seq![0u64]);
            }
            let mut index: usize = start;
            let mut hit = false;
            let mut dead = false;
            while !hit && !dead && index < n
                invariant
                    n == input@.len(),
                    self@.deterministic(),
                    start <= index <= n,
                    !hit && !dead ==> accepts_from(self@, input@, start as int, seq![0u64])
                        == accepts_from(self@, input@, index as int, state@),
                    hit ==> accepts_from(self@, input@, start as int, seq![0u64]),
                    dead ==> !accepts_from(self@, input@, start as int, seq![0u64]),
                decreases (if hit || dead { 0int } else { 1int }), n - index,
            {
                let c = input.get_char(index);
                let mut dest = self.find_edge(&state, Input::Literal(c));
                if dest.is_none() {
                    dest = self.find_edge(&state, Input::Any);
                }
                if dest.is_none() {
                    dest = self.find_edge(&state, Input::AnyOther);
                }
                match dest {
                    None => {
                        proof {
                            assert(step_dest(self@, state@, c) is None);
                        }
                        dead = true;
                    },
                    Some(d) => {
                        proof {
                            assert(step_dest(self@, state@, c) == Some(d@));
                        }
                        state = d;
                        if self.is_final(&state) {
                            hit = true;
                        } else {
                            index += 1;
                        }
                    },
                }
            }
            if hit {
                proof {
                    assert(spec_matches(self@, input@));
                }
                return true;
            }
            proof {
                if !dead {
                    assert(index == n);
                    assert(!accepts_from(self@, input@, index as int, state@));
                }
            }
            start += 1;
        }
        proof {
            if spec_matches(self@, input@) {
                let s0 = choose|s0: int|
                    0 <= s0 < input@.len() && accepts_from(self@, input@, s0, seq![0u64]);
            }
        }
        false
    }
}

} // verus!
