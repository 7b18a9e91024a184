//! A minimal state machine over scalar states: a transition relation
//! generic in its symbol type, with a determinism check.

use vstd::prelude::*;
use vstd::seq_lib::*;
use vstd::std_specs::cmp::PartialEqSpec;

verus! {

/// Whether the stored transitions already hold `t`, under the symbol
/// equality that `==` on the symbol type decides.
pub open spec fn holds_transition<T: PartialEq>(ts: Seq<(u64, u64, T)>, t: (u64, u64, T)) -> bool {
    exists|k: int|
        0 <= k < ts.len() && (#[trigger] ts[k]).0 == t.0 && ts[k].1 == t.1 && ts[k].2.eq_spec(
            &t.2,
        )
}

/// The determinism invariant over the symbol equality that `==` on the
/// symbol type decides: no source state has two different transitions
/// under symbols that compare equal.
pub open spec fn deterministic<T: PartialEq>(ts: Seq<(u64, u64, T)>) -> bool {
    forall|k: int, l: int|
        0 <= k < ts.len() && 0 <= l < ts.len() && k != l ==> !((#[trigger] ts[k]).0 == (
        #[trigger] ts[l]).0 && ts[k].2.eq_spec(&ts[l].2))
}

/// A state machine over scalar states: a set of transitions
/// (source, destination, symbol), generic in the symbol type.
/// Duplicates collapse: recording a transition that is already present
/// leaves the set as it is.
#[derive(Debug)]
pub struct StateMachine<T> {
    transitions: Vec<(u64, u64, T)>,
}

impl<T> View for StateMachine<T> {
    type V = Seq<(u64, u64, T)>;

    closed spec fn view(&self) -> Seq<(u64, u64, T)> {
        self.transitions@
    }
}

impl<T: Eq> StateMachine<T> {
    /// The empty state machine: no transitions.
    pub fn new() -> (r: Self)
        ensures
            r@ =~= Seq::<(u64, u64, T)>::empty(),
    {
        Self { transitions: Vec::new() }
    }

    /// Records one transition; one that is already present is left
    /// alone, so the set never holds a triple twice.
    pub fn add_transition(&mut self, from: u64, to: u64, input: T)
        ensures
            final(self)@ == old(self)@ || final(self)@ == old(self)@.push((from, to, input)),
            T::obeys_eq_spec() ==> final(self)@ == (if holds_transition(
                old(self)@,
                (from, to, input),
            ) {
                old(self)@
            } else {
                old(self)@.push((from, to, input))
            }),
    {
        let n = self.transitions.len();
        let mut i: usize = 0;
        while i < n
            invariant
                n == self@.len(),
                self@ == old(self)@,
                i <= n,
                T::obeys_eq_spec() ==> forall|k: int|
                    0 <= k < i ==> !((#[trigger] self@[k]).0 == from && self@[k].1 == to
                        && self@[k].2.eq_spec(&input)),
            decreases n - i,
        {
            let t = &self.transitions[i];
            if t.0 == from && t.1 == to && t.2 == input {
                proof {
                    if T::obeys_eq_spec() {
                        assert(self@[i as int].0 == from && self@[i as int].1 == to
                            && self@[i as int].2.eq_spec(&input));
                        assert(holds_transition(old(self)@, (from, to, input)));
                    }
                }
                return;
            }
            i += 1;
        }
        proof {
            if T::obeys_eq_spec() && holds_transition(old(self)@, (from, to, input)) {
                let k = choose|k: int|
                    0 <= k < old(self)@.len() && (#[trigger] old(self)@[k]).0 == from && old(
                        self,
                    )@[k].1 == to && old(self)@[k].2.eq_spec(&input);
            }
        }
        self.transitions.push((from, to, input));
    }

    /// Decides the determinism invariant: no source state leaves twice
    /// under equal symbols. The verdict is pinned down whenever `==` on
    /// the symbol type agrees with its specification.
    pub fn is_dfa(&self) -> (r: bool)
        ensures
            T::obeys_eq_spec() ==> r == deterministic(self@),
    {
        let n = self.transitions.len();
        let mut k: usize = 0;
        while k < n
            invariant
                n == self@.len(),
                self@ == self.transitions@,
                k <= n,
                T::obeys_eq_spec() ==> forall|a: int, b: int|
                    0 <= a < k && 0 <= b < n && a != b ==> !((#[trigger] self@[a]).0 == (
                    #[trigger] self@[b]).0 && self@[a].2.eq_spec(&self@[b].2)),
            decreases n - k,
        {
            let mut l: usize = 0;
            while l < n
                invariant
                    n == self@.len(),
                    self@ == self.transitions@,
                    k < n,
                    l <= n,
                    T::obeys_eq_spec() ==> forall|b: int|
                        0 <= b < l && b != k ==> !((#[trigger] self@[b]).0 == self@[k as int].0
                            && self@[k as int].2.eq_spec(&self@[b].2)),
                decreases n - l,
            {
                if l != k {
                    let tk = &self.transitions[k];
                    let tl = &self.transitions[l];
                    if tk.0 == tl.0 && tk.2 == tl.2 {
                        proof {
                            if T::obeys_eq_spec() {
                                assert(self@[k as int].0 == self@[l as int].0 && self@[k as int].2
                                    .eq_spec(&self@[l as int].2));
                            }
                        }
                        return false;
                    }
                    proof {
                        if T::obeys_eq_spec() {
                            assert(!(self@[l as int].0 == self@[k as int].0 && self@[k as int].2
                                .eq_spec(&self@[l as int].2)));
                        }
                    }
                }
                l += 1;
            }
            k += 1;
        }
        true
    }
}

} // verus!
