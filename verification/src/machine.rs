//! The automaton type: a transition set over composite states and a set of
//! final states, together with the determinism invariant and its checker.

use vstd::prelude::*;
use vstd::seq_lib::*;

verus! {

/// The symbol a transition is labeled with.
///
/// `Any` (the wildcard) only appears on automata built from a pattern,
/// before determinization; `AnyOther` (the wildcard fallback) only appears
/// on determinized automata and means "any symbol for which this state has
/// no more specific outgoing transition".
#[derive(Debug, Clone, Copy, PartialEq, Eq, Structural)]
pub enum Input {
    /// Start-of-text anchor, written `^` in a pattern.
    Start,
    /// End-of-text anchor, written `$` in a pattern.
    End,
    /// Wildcard fallback: any symbol without a more specific transition.
    AnyOther,
    /// Wildcard, written `.` in a pattern.
    Any,
    /// One specific character.
    Literal(char),
}

/// A state is a composite: a set of construction-time ids, kept as a
/// sorted, duplicate-free vector so that equal member sets compare equal.
/// During construction every state is a singleton.
pub type State = Vec<u64>;

/// One transition: (source state, destination state, symbol).
pub type Transition = (State, State, Input);

/// The mathematical view of an automaton: its transitions and final
/// states as sequences of sequences. Set-level facts are stated through
/// `trans_set` and `finals_set`.
#[verifier::ext_equal]
pub ghost struct MachineView {
    pub transitions: Seq<(Seq<u64>, Seq<u64>, Input)>,
    pub finals: Seq<Seq<u64>>,
}

impl MachineView {
    /// The transition relation as a set: duplicates collapse, order is
    /// irrelevant.
    pub open spec fn trans_set(self) -> Set<(Seq<u64>, Seq<u64>, Input)> {
        self.transitions.to_set()
    }

    /// The final-state set.
    pub open spec fn finals_set(self) -> Set<Seq<u64>> {
        self.finals.to_set()
    }

    /// The underlying vectors hold each transition and each final state
    /// exactly once, so they faithfully represent sets.
    pub open spec fn wf(self) -> bool {
        &&& forall|i: int, j: int|
            0 <= i < j < self.transitions.len() ==> self.transitions[i] != self.transitions[j]
        &&& forall|i: int, j: int|
            0 <= i < j < self.finals.len() ==> self.finals[i] != self.finals[j]
    }

    /// Every stored state — transition endpoint or final state — is in
    /// canonical form: a strictly sorted, duplicate-free id vector, so
    /// that two composites with equal member sets are the same state.
    pub open spec fn canonical_states(self) -> bool {
        &&& forall|t: (Seq<u64>, Seq<u64>, Input)|
            self.trans_set().contains(t) ==> crate::canon::strictly_sorted(t.0)
                && crate::canon::strictly_sorted(t.1)
        &&& forall|f: Seq<u64>|
            self.finals_set().contains(f) ==> crate::canon::strictly_sorted(f)
    }

    /// The determinism invariant: every source state has at most one
    /// outgoing transition per symbol, and the wildcard `Any` never
    /// shares a source with any other symbol.
    pub open spec fn deterministic(self) -> bool {
        forall|t1: (Seq<u64>, Seq<u64>, Input), t2: (Seq<u64>, Seq<u64>, Input)|
            self.trans_set().contains(t1) && self.trans_set().contains(t2) && t1.0 == t2.0 ==> {
                &&& (t1.2 == t2.2 ==> t1 == t2)
                &&& !(t1.2 == Input::Any && t2.2 != Input::Any)
            }
    }
}

/// An automaton over composite states: a set of transitions and a set of
/// final states. Built by the pattern compiler or by determinization.
#[derive(Debug)]
pub struct StateMachine {
    pub(crate) transitions: Vec<Transition>,
    pub(crate) final_states: Vec<State>,
}

impl View for StateMachine {
    type V = MachineView;

    closed spec fn view(&self) -> MachineView {
        MachineView {
            transitions: self.transitions@.map_values(|t: Transition| (t.0@, t.1@, t.2)),
            finals: self.final_states@.map_values(|s: State| s@),
        }
    }
}

impl StateMachine {
    /// The empty automaton: no transitions, no final states.
    pub fn new() -> (r: Self)
        ensures
            r@.transitions =~= Seq::<(Seq<u64>, Seq<u64>, Input)>::empty(),
            r@.finals =~= Seq::<Seq<u64>>::empty(),
            r@.wf(),
            r@.canonical_states(),
    {
        let r = Self { transitions: Vec::new(), final_states: Vec::new() };
        proof {
            assert(r@.transitions =~= Seq::<(Seq<u64>, Seq<u64>, Input)>::empty());
            assert(r@.finals =~= Seq::<Seq<u64>>::empty());
        }
        r
    }

    /// Wraps a transition list and a final-state list as an automaton.
    pub(crate) fn from_parts(transitions: Vec<Transition>, final_states: Vec<State>) -> (r: Self)
        ensures
            r@.transitions == transitions@.map_values(|t: Transition| (t.0@, t.1@, t.2)),
            r@.finals == final_states@.map_values(|s: State| s@),
    {
        Self { transitions, final_states }
    }

    /// The number of stored transitions.
    pub(crate) fn trans_len(&self) -> (n: usize)
        ensures
            n == self@.transitions.len(),
    {
        self.transitions.len()
    }

    /// The stored transition at position `i`.
    pub(crate) fn trans_ref(&self, i: usize) -> (t: &Transition)
        requires
            i < self@.transitions.len(),
        ensures
            (t.0@, t.1@, t.2) == self@.transitions[i as int],
    {
        &self.transitions[i]
    }

    /// The number of stored final states.
    pub(crate) fn finals_len(&self) -> (n: usize)
        ensures
            n == self@.finals.len(),
    {
        self.final_states.len()
    }

    /// The stored final state at position `i`.
    pub(crate) fn finals_ref(&self, i: usize) -> (s: &State)
        requires
            i < self@.finals.len(),
        ensures
            s@ == self@.finals[i as int],
    {
        &self.final_states[i]
    }

    /// Whether `st` is a final state.
    pub(crate) fn is_final(&self, st: &Vec<u64>) -> (r: bool)
        ensures
            r == self@.finals_set().contains(st@),
    {
        let r = crate::canon::contains_state(&self.final_states, st);
        proof {
            if r {
                let i = choose|i: int|
                    0 <= i < self.final_states@.len() && (#[trigger] self.final_states@[i])@
                        == st@;
                assert(self@.finals[i] == st@);
                assert(self@.finals.contains(st@));
            }
            if self@.finals_set().contains(st@) {
                let k = choose|k: int| 0 <= k < self@.finals.len() && self@.finals[k] == st@;
                assert((self.final_states@[k])@ == st@);
            }
        }
        r
    }

    /// A structural copy: same transitions, same final states.
    pub(crate) fn copy(&self) -> (r: Self)
        ensures
            r@ == self@,
    {
        let nt = self.transitions.len();
        let mut ts: Vec<Transition> = Vec::new();
        let mut i: usize = 0;
        while i < nt
            invariant
                nt == self.transitions.len(),
                i <= nt,
                ts@.len() == i,
                forall|k: int|
                    0 <= k < i ==> ((#[trigger] ts@[k]).0@, ts@[k].1@, ts@[k].2)
                        == self@.transitions[k],
            decreases nt - i,
        {
            let t = &self.transitions[i];
            ts.push((crate::canon::clone_state(&t.0), crate::canon::clone_state(&t.1), t.2));
            i += 1;
        }
        let nf = self.final_states.len();
        let mut fs: Vec<State> = Vec::new();
        let mut j: usize = 0;
        while j < nf
            invariant
                nf == self.final_states.len(),
                j <= nf,
                fs@.len() == j,
                forall|k: int| 0 <= k < j ==> (#[trigger] fs@[k])@ == self@.finals[k],
            decreases nf - j,
        {
            fs.push(crate::canon::clone_state(&self.final_states[j]));
            j += 1;
        }
        let r = Self { transitions: ts, final_states: fs };
        proof {
            assert(r@.transitions =~= self@.transitions);
            assert(r@.finals =~= self@.finals);
            assert(r@ =~= self@);
        }
        r
    }

    /// Decides the determinism invariant: for each source state appearing
    /// in the transition set, no symbol repeats, and the wildcard does not
    /// co-occur with any other symbol.
    pub fn is_dfa(&self) -> (r: bool)
        ensures
            r == self@.deterministic(),
    {
        let n = self.transitions.len();
        let mut i: usize = 0;
        while i < n
            invariant
                n == self.transitions.len(),
                i <= n,
                forall|a: int, b: int|
                    0 <= a < i && 0 <= b < n ==> !conflicts(
                        self@.transitions[a],
                        self@.transitions[b],
                    ),
            decreases n - i,
        {
            let mut j: usize = 0;
            while j < n
                invariant
                    n == self.transitions.len(),
                    i < n,
                    j <= n,
                    forall|b: int| 0 <= b < j ==> !conflicts(self@.transitions[i as int], self@.transitions[b]),
                decreases n - j,
            {
                let ti = &self.transitions[i];
                let tj = &self.transitions[j];
                if crate::canon::state_eq(&ti.0, &tj.0) {
                    if ti.2 == tj.2 {
                        if !(crate::canon::state_eq(&ti.1, &tj.1)) {
                            proof {
                                trans_set_pair(self@, i as int, j as int);
                            }
                            return false;
                        }
                    } else {
                        if ti.2 == Input::Any {
                            proof {
                                trans_set_pair(self@, i as int, j as int);
                            }
                            return false;
                        }
                    }
                }
                j += 1;
            }
            i += 1;
        }
        proof {
            assert forall|t1: (Seq<u64>, Seq<u64>, Input), t2: (Seq<u64>, Seq<u64>, Input)|
                self@.trans_set().contains(t1) && self@.trans_set().contains(t2) && t1.0 == t2.0
                implies {
                    &&& (t1.2 == t2.2 ==> t1 == t2)
                    &&& !(t1.2 == Input::Any && t2.2 != Input::Any)
                } by {
                let a = choose|a: int| 0 <= a < self@.transitions.len() && self@.transitions[a] == t1;
                let b = choose|b: int| 0 <= b < self@.transitions.len() && self@.transitions[b] == t2;
                assert(!conflicts(self@.transitions[a], self@.transitions[b]));
            }
        }
        true
    }
}

/// Two transitions from the same source break determinism when they carry
/// the same symbol but differ, or when the first is the wildcard and the
/// second is anything else.
pub open spec fn conflicts(t1: (Seq<u64>, Seq<u64>, Input), t2: (Seq<u64>, Seq<u64>, Input)) -> bool {
    t1.0 == t2.0 && {
        ||| (t1.2 == t2.2 && t1 != t2)
        ||| (t1.2 == Input::Any && t2.2 != Input::Any)
    }
}

/// A pair of indexes into the transition sequence witnesses membership of
/// both transitions in the transition set.
proof fn trans_set_pair(m: MachineView, i: int, j: int)
    requires
        0 <= i < m.transitions.len(),
        0 <= j < m.transitions.len(),
    ensures
        m.trans_set().contains(m.transitions[i]),
        m.trans_set().contains(m.transitions[j]),
{
    assert(m.transitions.contains(m.transitions[i]));
    assert(m.transitions.contains(m.transitions[j]));
}

} // verus!
