//! Subset construction: turning any automaton into one that satisfies the
//! determinism invariant, without mutating the input.

use vstd::prelude::*;
use vstd::seq_lib::*;

use crate::canon;
use crate::canon::canon_states_below;
use crate::canon::is_canon;
use crate::canon::lemma_canon_states_below_finite;
use crate::canon::strictly_sorted;
use crate::machine::Input;
use crate::machine::MachineView;
use crate::machine::State;
use crate::machine::StateMachine;
use crate::machine::Transition;

verus! {

/// The start state of every walk: the singleton composite holding the
/// construction-time start id.
pub open spec fn start_state() -> Seq<u64> {
    seq![0u64]
}

/// Whether two composite states share at least one member id.
pub open spec fn shares_member(a: Seq<u64>, b: Seq<u64>) -> bool {
    exists|x: u64| a.contains(x) && b.contains(x)
}

/// Whether some transition of `m` departs from a member of `s` under the
/// symbol `sym`.
pub open spec fn has_sym(m: MachineView, s: Seq<u64>, sym: Input) -> bool {
    exists|t: (Seq<u64>, Seq<u64>, Input)|
        m.trans_set().contains(t) && t.2 == sym && shares_member(t.0, s)
}

/// The member ids gathered for `sym` from the composite `s`: the union of
/// the destinations of every transition that departs from a member of `s`
/// under `sym`.
pub open spec fn gathered(m: MachineView, s: Seq<u64>, sym: Input) -> Set<u64> {
    Set::new(
        |d: u64|
            exists|t: (Seq<u64>, Seq<u64>, Input)|
                m.trans_set().contains(t) && t.2 == sym && shares_member(t.0, s) && t.1.contains(
                    d,
                ),
    )
}

/// The destination member set for the output symbol `sym`, after the
/// wildcard merge: when the composite has a wildcard entry, its
/// destinations are folded into every more specific entry, and the
/// wildcard itself leaves again as the fallback symbol.
pub open spec fn merged(m: MachineView, s: Seq<u64>, sym: Input) -> Set<u64> {
    if sym == Input::AnyOther && has_sym(m, s, Input::Any) {
        gathered(m, s, Input::Any)
    } else if sym != Input::AnyOther && has_sym(m, s, Input::Any) {
        gathered(m, s, sym) + gathered(m, s, Input::Any)
    } else {
        gathered(m, s, sym)
    }
}

/// Whether the determinized automaton has an outgoing transition under
/// `sym` from the composite `s`: the wildcard never appears in the
/// output, and the fallback appears in its place.
pub open spec fn out_sym(m: MachineView, s: Seq<u64>, sym: Input) -> bool {
    if sym == Input::Any {
        false
    } else if sym == Input::AnyOther {
        has_sym(m, s, Input::AnyOther) || has_sym(m, s, Input::Any)
    } else {
        has_sym(m, s, sym)
    }
}

/// Whether `e` is exactly the transition that subset construction emits
/// from the composite `e.0` under the symbol `e.2`.
pub open spec fn edge_ok(m: MachineView, e: (Seq<u64>, Seq<u64>, Input)) -> bool {
    out_sym(m, e.0, e.2) && is_canon(e.1, merged(m, e.0, e.2))
}

/// Whether the composite `s2` is one subset-construction step away from
/// the composite `s`.
pub open spec fn step_rel(m: MachineView, s: Seq<u64>, s2: Seq<u64>) -> bool {
    exists|sym: Input| out_sym(m, s, sym) && is_canon(s2, merged(m, s, sym))
}

/// Whether the composite `s` is discovered by subset construction: some
/// chain of steps leads from the start composite to it.
pub open spec fn reachable(m: MachineView, s: Seq<u64>) -> bool {
    exists|chain: Seq<Seq<u64>>|
        {
            &&& chain.len() >= 1
            &&& chain[0] == start_state()
            &&& chain.last() == s
            &&& forall|i: int|
                0 <= i < chain.len() - 1 ==> #[trigger] step_rel(m, chain[i], chain[i + 1])
        }
}

/// Whether the composite `f` shares a member with some final state of the
/// original automaton.
pub open spec fn shares_final(m: MachineView, f: Seq<u64>) -> bool {
    exists|g: Seq<u64>| m.finals_set().contains(g) && shares_member(f, g)
}

/// What subset construction guarantees of its output `d` for an input
/// `m`: every transition is the correct merged, canonicalized edge of a
/// discovered composite; the start composite's edges are all present; the
/// output is closed under following its own edges; and its final states
/// are exactly the composite states of the output — the endpoints of its
/// transitions — that share a member with a final state of the input.
pub open spec fn dfa_built(m: MachineView, d: MachineView) -> bool {
    &&& forall|e: (Seq<u64>, Seq<u64>, Input)|
        #[trigger] d.trans_set().contains(e) ==> edge_ok(m, e) && reachable(m, e.0)
    &&& forall|sym: Input|
        out_sym(m, start_state(), sym) ==> exists|e: (Seq<u64>, Seq<u64>, Input)|
            d.trans_set().contains(e) && e.0 == start_state() && e.2 == sym
    &&& forall|e: (Seq<u64>, Seq<u64>, Input), sym: Input|
        d.trans_set().contains(e) && out_sym(m, e.1, sym) ==> exists|
            e2: (Seq<u64>, Seq<u64>, Input),
        |
            d.trans_set().contains(e2) && e2.0 == e.1 && e2.2 == sym
    &&& d.finals_set() == Set::new(
        |f: Seq<u64>|
            (exists|e: (Seq<u64>, Seq<u64>, Input)|
                d.trans_set().contains(e) && (e.0 == f || e.1 == f)) && shares_final(m, f),
    )
}

/// What determinization promises: the output satisfies the determinism
/// invariant; an input that already satisfies it comes back unchanged;
/// any other input yields exactly the discovered closure of its merged
/// edges, with every state in canonical form.
pub open spec fn determinizes_to(input: MachineView, output: MachineView) -> bool {
    &&& output.deterministic()
    &&& input.deterministic() ==> output == input
    &&& !input.deterministic() ==> output.wf() && dfa_built(input, output)
        && output.canonical_states()
}

/// The idempotence law: determinizing is a no-op on every determinized
/// automaton, so a second determinization returns the first one's output
/// with the same transition set and final-state set.
pub proof fn lemma_determinize_idempotent(a: MachineView, d1: MachineView, d2: MachineView)
    requires
        determinizes_to(a, d1),
        determinizes_to(d1, d2),
    ensures
        d2 == d1,
{
}

/// The determinism law: every determinized automaton satisfies the
/// determinism invariant, which is exactly what the determinism checker
/// decides.
pub proof fn lemma_determinized_is_dfa(a: MachineView, d: MachineView)
    requires
        determinizes_to(a, d),
    ensures
        d.deterministic(),
{
}

/// The view of a stored transition.
pub open spec fn tview(t: Transition) -> (Seq<u64>, Seq<u64>, Input) {
    (t.0@, t.1@, t.2)
}

/// The views of a list of stored states.
pub open spec fn sviews(l: Seq<Vec<u64>>) -> Seq<Seq<u64>> {
    l.map_values(|s: Vec<u64>| s@)
}

/// The start composite is discovered by the one-element chain.
pub proof fn lemma_reach_start(m: MachineView)
    ensures
        reachable(m, start_state()),
{
    let chain = seq![start_state()];
    assert(chain[0] == start_state() && chain.last() == start_state());
    assert(forall|i: int|
        0 <= i < chain.len() - 1 ==> #[trigger] step_rel(m, chain[i], chain[i + 1]));
}

/// A correct edge of a discovered composite discovers its destination.
pub proof fn lemma_reach_step(m: MachineView, e: (Seq<u64>, Seq<u64>, Input))
    requires
        reachable(m, e.0),
        edge_ok(m, e),
    ensures
        reachable(m, e.1),
{
    let chain = choose|chain: Seq<Seq<u64>>|
        {
            &&& chain.len() >= 1
            &&& chain[0] == start_state()
            &&& chain.last() == e.0
            &&& forall|i: int|
                0 <= i < chain.len() - 1 ==> #[trigger] step_rel(m, chain[i], chain[i + 1])
        };
    let chain2 = chain.push(e.1);
    assert(step_rel(m, e.0, e.1)) by {
        assert(out_sym(m, e.0, e.2) && is_canon(e.1, merged(m, e.0, e.2)));
    }
    assert forall|i: int| 0 <= i < chain2.len() - 1 implies #[trigger] step_rel(
        m,
        chain2[i],
        chain2[i + 1],
    ) by {
        if i < chain.len() - 1 {
            assert(step_rel(m, chain[i], chain[i + 1]));
            assert(chain2[i] == chain[i] && chain2[i + 1] == chain[i + 1]);
        } else {
            assert(chain2[i] == chain.last() && chain2[i + 1] == e.1);
        }
    }
    assert(chain2.len() >= 1 && chain2[0] == start_state() && chain2.last() == e.1);
}

/// Every discovered composite is canonical: the start composite is a
/// singleton, and every step target is a canonical spelling.
pub proof fn lemma_reachable_sorted(m: MachineView, s: Seq<u64>)
    requires
        reachable(m, s),
    ensures
        strictly_sorted(s),
{
    let chain = choose|chain: Seq<Seq<u64>>|
        {
            &&& chain.len() >= 1
            &&& chain[0] == start_state()
            &&& chain.last() == s
            &&& forall|i: int|
                0 <= i < chain.len() - 1 ==> #[trigger] step_rel(m, chain[i], chain[i + 1])
        };
    if chain.len() == 1 {
        assert(s == start_state());
        assert(strictly_sorted(start_state()));
    } else {
        let i = chain.len() - 2;
        assert(step_rel(m, chain[i], chain[i + 1]));
        let sym = choose|sym: Input|
            out_sym(m, chain[i], sym) && is_canon(chain[i + 1], merged(m, chain[i], sym));
        assert(strictly_sorted(chain[i + 1]));
        assert(chain[i + 1] == chain.last());
    }
}

/// The construction contract forces canonical states throughout the
/// output: sources are discovered composites, destinations are canonical
/// spellings, and final states are endpoints of transitions.
pub proof fn lemma_built_canonical(m: MachineView, d: MachineView)
    requires
        dfa_built(m, d),
    ensures
        d.canonical_states(),
{
    assert forall|t: (Seq<u64>, Seq<u64>, Input)|
        d.trans_set().contains(t) implies strictly_sorted(t.0) && strictly_sorted(t.1) by {
        assert(edge_ok(m, t) && reachable(m, t.0));
        lemma_reachable_sorted(m, t.0);
        assert(is_canon(t.1, merged(m, t.0, t.2)));
    }
    assert forall|f: Seq<u64>| d.finals_set().contains(f) implies strictly_sorted(f) by {
        let fset = Set::new(
            |f: Seq<u64>|
                (exists|e: (Seq<u64>, Seq<u64>, Input)|
                    d.trans_set().contains(e) && (e.0 == f || e.1 == f)) && shares_final(m, f),
        );
        assert(fset.contains(f));
        let e = choose|e: (Seq<u64>, Seq<u64>, Input)|
            d.trans_set().contains(e) && (e.0 == f || e.1 == f);
        assert(edge_ok(m, e) && reachable(m, e.0));
        lemma_reachable_sorted(m, e.0);
        assert(is_canon(e.1, merged(m, e.0, e.2)));
    }
}

/// The gathered member set restricted to the first `k` stored
/// transitions; used to walk the transition list in order.
spec fn gathered_upto(m: MachineView, s: Seq<u64>, sym: Input, k: int) -> Set<u64> {
    Set::new(
        |d: u64|
            exists|i: int|
                0 <= i < k && #[trigger] m.transitions[i].2 == sym && shares_member(
                    m.transitions[i].0,
                    s,
                ) && m.transitions[i].1.contains(d),
    )
}

/// Whether some transition among the first `k` departs from a member of
/// `s` under `sym`; used to walk the transition list in order.
spec fn has_sym_upto(m: MachineView, s: Seq<u64>, sym: Input, k: int) -> bool {
    exists|i: int|
        0 <= i < k && #[trigger] m.transitions[i].2 == sym && shares_member(m.transitions[i].0, s)
}

/// Whether the symbol `x` occurs in the list `l`.
fn contains_input(l: &Vec<Input>, x: Input) -> (r: bool)
    ensures
        r == l@.contains(x),
{
    let n = l.len();
    let mut i: usize = 0;
    while i < n
        invariant
            n == l.len(),
            i <= n,
            forall|k: int| 0 <= k < i ==> l@[k] != x,
        decreases n - i,
    {
        if l[i] == x {
            return true;
        }
        i += 1;
    }
    proof {
        if l@.contains(x) {
            let k = choose|k: int| 0 <= k < l@.len() && l@[k] == x;
        }
    }
    false
}

/// Whether two composite states share a member, decided by scanning.
fn shares(a: &Vec<u64>, b: &Vec<u64>) -> (r: bool)
    ensures
        r == shares_member(a@, b@),
{
    let n = a.len();
    let mut i: usize = 0;
    while i < n
        invariant
            n == a.len(),
            i <= n,
            forall|k: int| 0 <= k < i ==> !b@.contains(a@[k]),
        decreases n - i,
    {
        if canon::contains_id(b, a[i]) {
            proof {
                assert(a@.contains(a@[i as int]));
            }
            return true;
        }
        i += 1;
    }
    proof {
        if shares_member(a@, b@) {
            let x = choose|x: u64| a@.contains(x) && b@.contains(x);
            let k = choose|k: int| 0 <= k < a@.len() && a@[k] == x;
        }
    }
    false
}

impl StateMachine {
    /// Whether some transition departs from a member of `s` under `sym`.
    fn has_sym_exec(&self, s: &Vec<u64>, sym: Input) -> (r: bool)
        ensures
            r == has_sym(self@, s@, sym),
    {
        let n = self.trans_len();
        let mut i: usize = 0;
        while i < n
            invariant
                n == self@.transitions.len(),
                i <= n,
                forall|k: int|
                    0 <= k < i ==> !(self@.transitions[k].2 == sym && shares_member(
                        self@.transitions[k].0,
                        s@,
                    )),
            decreases n - i,
        {
            let t = self.trans_ref(i);
            if t.2 == sym && shares(&t.0, s) {
                proof {
                    let tv = self@.transitions[i as int];
                    assert(self@.transitions.contains(tv));
                    assert(self@.trans_set().contains(tv));
                    assert(tv.0 == t.0@ && tv.2 == t.2);
                    assert(tv.2 == sym && shares_member(tv.0, s@));
                }
                return true;
            }
            i += 1;
        }
        proof {
            if has_sym(self@, s@, sym) {
                let t = choose|t: (Seq<u64>, Seq<u64>, Input)|
                    self@.trans_set().contains(t) && t.2 == sym && shares_member(t.0, s@);
                let k = choose|k: int|
                    0 <= k < self@.transitions.len() && self@.transitions[k] == t;
            }
        }
        false
    }

    /// The canonical spelling of the member set gathered for `sym` from
    /// the composite `s`.
    fn gather_dests(&self, s: &Vec<u64>, sym: Input) -> (r: Vec<u64>)
        ensures
            is_canon(r@, gathered(self@, s@, sym)),
    {
        let n = self.trans_len();
        let mut r: Vec<u64> = Vec::new();
        let mut i: usize = 0;
        while i < n
            invariant
                n == self@.transitions.len(),
                i <= n,
                strictly_sorted(r@),
                forall|d: u64| r@.contains(d) <==> gathered_upto(self@, s@, sym, i as int).contains(d),
            decreases n - i,
        {
            let t = self.trans_ref(i);
            if t.2 == sym && shares(&t.0, s) {
                let dn = t.1.len();
                let mut j: usize = 0;
                while j < dn
                    invariant
                        dn == t.1.len(),
                        j <= dn,
                        (t.0@, t.1@, t.2) == self@.transitions[i as int],
                        i < n == self@.transitions.len(),
                        self@.transitions[i as int].2 == sym,
                        shares_member(self@.transitions[i as int].0, s@),
                        strictly_sorted(r@),
                        forall|d: u64|
                            r@.contains(d) <==> (gathered_upto(self@, s@, sym, i as int).contains(d)
                                || t.1@.subrange(0, j as int).contains(d)),
                    decreases dn - j,
                {
                    let ghost pre = r@;
                    let ghost x = t.1@[j as int];
                    canon::sorted_insert(&mut r, t.1[j]);
                    proof {
                        let g = gathered_upto(self@, s@, sym, i as int);
                        let sub_j = t.1@.subrange(0, j as int);
                        let sub_j1 = t.1@.subrange(0, j + 1);
                        assert forall|d: u64| r@.contains(d) implies (g.contains(d)
                            || sub_j1.contains(d)) by {
                            if pre.contains(d) {
                                if sub_j.contains(d) {
                                    let k = choose|k: int|
                                        0 <= k < sub_j.len() && sub_j[k] == d;
                                    assert(sub_j1[k] == d);
                                }
                            } else {
                                assert(d == x);
                                assert(sub_j1[j as int] == x);
                            }
                        }
                        assert forall|d: u64| g.contains(d) || sub_j1.contains(d) implies
                            r@.contains(d) by {
                            if g.contains(d) {
                                assert(pre.contains(d));
                            } else {
                                let k = choose|k: int| 0 <= k < sub_j1.len() && sub_j1[k] == d;
                                if k < j {
                                    assert(sub_j[k] == d);
                                    assert(pre.contains(d));
                                } else {
                                    assert(d == x);
                                }
                            }
                        }
                    }
                    j += 1;
                }
                proof {
                    assert(t.1@.subrange(0, dn as int) =~= t.1@);
                    assert forall|d: u64|
                        r@.contains(d) <==> gathered_upto(self@, s@, sym, i + 1).contains(d) by {
                        if gathered_upto(self@, s@, sym, i + 1).contains(d) {
                            let k = choose|k: int|
                                0 <= k < i + 1 && #[trigger] self@.transitions[k].2 == sym
                                    && shares_member(self@.transitions[k].0, s@)
                                    && self@.transitions[k].1.contains(d);
                            if k == i {
                                assert(t.1@.contains(d));
                            } else {
                                assert(gathered_upto(self@, s@, sym, i as int).contains(d));
                            }
                        }
                        if r@.contains(d) {
                            if t.1@.contains(d) {
                                assert(self@.transitions[i as int].1.contains(d));
                                assert(gathered_upto(self@, s@, sym, i + 1).contains(d));
                            }
                        }
                    }
                }
            } else {
                proof {
                    assert forall|d: u64|
                        gathered_upto(self@, s@, sym, i + 1).contains(d) <==> gathered_upto(
                            self@,
                            s@,
                            sym,
                            i as int,
                        ).contains(d) by {
                        if gathered_upto(self@, s@, sym, i + 1).contains(d) {
                            let k = choose|k: int|
                                0 <= k < i + 1 && #[trigger] self@.transitions[k].2 == sym
                                    && shares_member(self@.transitions[k].0, s@)
                                    && self@.transitions[k].1.contains(d);
                            assert(k < i);
                        }
                    }
                }
            }
            i += 1;
        }
        proof {
            assert forall|d: u64|
                gathered_upto(self@, s@, sym, n as int).contains(d) <==> gathered(
                    self@,
                    s@,
                    sym,
                ).contains(d) by {
                if gathered_upto(self@, s@, sym, n as int).contains(d) {
                    let k = choose|k: int|
                        0 <= k < n && #[trigger] self@.transitions[k].2 == sym && shares_member(
                            self@.transitions[k].0,
                            s@,
                        ) && self@.transitions[k].1.contains(d);
                    assert(self@.transitions.contains(self@.transitions[k]));
                    assert(self@.trans_set().contains(self@.transitions[k]));
                }
                if gathered(self@, s@, sym).contains(d) {
                    let t = choose|t: (Seq<u64>, Seq<u64>, Input)|
                        self@.trans_set().contains(t) && t.2 == sym && shares_member(t.0, s@)
                            && t.1.contains(d);
                    let k = choose|k: int|
                        0 <= k < self@.transitions.len() && self@.transitions[k] == t;
                }
            }
        }
        r
    }

    /// The distinct symbols under which some transition departs from a
    /// member of `s`.
    fn symbols_of(&self, s: &Vec<u64>) -> (syms: Vec<Input>)
        ensures
            forall|sym: Input| syms@.contains(sym) <==> has_sym(self@, s@, sym),
            forall|k: int, l: int| 0 <= k < l < syms@.len() ==> syms@[k] != syms@[l],
    {
        let n = self.trans_len();
        let mut syms: Vec<Input> = Vec::new();
        let mut i: usize = 0;
        while i < n
            invariant
                n == self@.transitions.len(),
                i <= n,
                forall|sym: Input| syms@.contains(sym) <==> has_sym_upto(self@, s@, sym, i as int),
                forall|k: int, l: int| 0 <= k < l < syms@.len() ==> syms@[k] != syms@[l],
            decreases n - i,
        {
            let t = self.trans_ref(i);
            if shares(&t.0, s) {
                if !contains_input(&syms, t.2) {
                    let ghost pre = syms@;
                    syms.push(t.2);
                    proof {
                        assert forall|sym: Input| syms@.contains(sym) implies has_sym_upto(
                            self@,
                            s@,
                            sym,
                            i + 1,
                        ) by {
                            let k = choose|k: int| 0 <= k < syms@.len() && syms@[k] == sym;
                            if k < pre.len() {
                                assert(pre.contains(sym));
                                assert(has_sym_upto(self@, s@, sym, i as int));
                                let w = choose|w: int|
                                    0 <= w < i && #[trigger] self@.transitions[w].2 == sym
                                        && shares_member(self@.transitions[w].0, s@);
                            } else {
                                assert(sym == t.2);
                                assert(self@.transitions[i as int].2 == sym && shares_member(
                                    self@.transitions[i as int].0,
                                    s@,
                                ));
                            }
                        }
                        assert forall|sym: Input| has_sym_upto(self@, s@, sym, i + 1) implies
                            syms@.contains(sym) by {
                            let w = choose|w: int|
                                0 <= w < i + 1 && #[trigger] self@.transitions[w].2 == sym
                                    && shares_member(self@.transitions[w].0, s@);
                            if w < i {
                                assert(has_sym_upto(self@, s@, sym, i as int));
                                assert(pre.contains(sym));
                                let k = choose|k: int| 0 <= k < pre.len() && pre[k] == sym;
                                assert(syms@[k] == sym);
                            } else {
                                assert(sym == t.2);
                                assert(syms@[pre.len() as int] == sym);
                            }
                        }
                        assert forall|k: int, l: int|
                            0 <= k < l < syms@.len() implies syms@[k] != syms@[l] by {
                            if l == pre.len() {
                                assert(!pre.contains(t.2));
                                assert(pre[k] != t.2);
                            }
                        }
                    }
                } else {
                    proof {
                        assert(self@.transitions[i as int].2 == t.2 && shares_member(
                            self@.transitions[i as int].0,
                            s@,
                        ));
                        assert forall|sym: Input| has_sym_upto(self@, s@, sym, i + 1) implies
                            syms@.contains(sym) by {
                            let w = choose|w: int|
                                0 <= w < i + 1 && #[trigger] self@.transitions[w].2 == sym
                                    && shares_member(self@.transitions[w].0, s@);
                            if w < i {
                                assert(has_sym_upto(self@, s@, sym, i as int));
                            } else {
                                assert(sym == t.2);
                                assert(has_sym_upto(self@, s@, sym, i as int));
                            }
                        }
                        assert forall|sym: Input| syms@.contains(sym) implies has_sym_upto(
                            self@,
                            s@,
                            sym,
                            i + 1,
                        ) by {
                            assert(has_sym_upto(self@, s@, sym, i as int));
                            let w = choose|w: int|
                                0 <= w < i && #[trigger] self@.transitions[w].2 == sym
                                    && shares_member(self@.transitions[w].0, s@);
                        }
                    }
                }
            } else {
                proof {
                    assert forall|sym: Input| has_sym_upto(self@, s@, sym, i + 1) implies
                        has_sym_upto(self@, s@, sym, i as int) by {
                        let w = choose|w: int|
                            0 <= w < i + 1 && #[trigger] self@.transitions[w].2 == sym
                                && shares_member(self@.transitions[w].0, s@);
                        assert(w != i);
                    }
                }
            }
            i += 1;
        }
        proof {
            assert forall|sym: Input| has_sym_upto(self@, s@, sym, n as int) <==> has_sym(
                self@,
                s@,
                sym,
            ) by {
                if has_sym_upto(self@, s@, sym, n as int) {
                    let w = choose|w: int|
                        0 <= w < n && #[trigger] self@.transitions[w].2 == sym && shares_member(
                            self@.transitions[w].0,
                            s@,
                        );
                    assert(self@.transitions.contains(self@.transitions[w]));
                    assert(self@.trans_set().contains(self@.transitions[w]));
                }
                if has_sym(self@, s@, sym) {
                    let t = choose|t: (Seq<u64>, Seq<u64>, Input)|
                        self@.trans_set().contains(t) && t.2 == sym && shares_member(t.0, s@);
                    let w = choose|w: int|
                        0 <= w < self@.transitions.len() && self@.transitions[w] == t;
                }
            }
        }
        syms
    }

    /// The transition emitted from `s` under a symbol that leaves under
    /// its own name: its destination is the gathered member set, with the
    /// wildcard's destinations folded in when the composite has one.
    fn emit_edge(&self, s: &Vec<u64>, sym: Input, has_any: bool) -> (e: Transition)
        requires
            has_any == has_sym(self@, s@, Input::Any),
            sym != Input::Any,
            !(has_any && sym == Input::AnyOther),
            out_sym(self@, s@, sym),
        ensures
            e.0@ == s@,
            e.2 == sym,
            edge_ok(self@, (e.0@, e.1@, e.2)),
    {
        let mut dest = self.gather_dests(s, sym);
        let ghost base = dest@;
        if has_any {
            let any_dest = self.gather_dests(s, Input::Any);
            let ghost anyv = any_dest@;
            canon::union_into(&mut dest, &any_dest);
            proof {
                assert forall|y: u64| dest@.contains(y) <==> merged(self@, s@, sym).contains(
                    y,
                ) by {
                    assert(dest@.contains(y) == (base.contains(y) || anyv.contains(y)));
                    assert(base.contains(y) == gathered(self@, s@, sym).contains(y));
                    assert(anyv.contains(y) == gathered(self@, s@, Input::Any).contains(y));
                }
            }
        } else {
            proof {
                assert(merged(self@, s@, sym) == gathered(self@, s@, sym));
            }
        }
        proof {
            assert(is_canon(dest@, merged(self@, s@, sym)));
        }
        (canon::clone_state(s), dest, sym)
    }

    /// The fallback transition that replaces the wildcard entry of a
    /// composite: it leaves as `AnyOther` with the wildcard's own
    /// destinations.
    fn emit_wild_edge(&self, s: &Vec<u64>) -> (e: Transition)
        requires
            has_sym(self@, s@, Input::Any),
        ensures
            e.0@ == s@,
            e.2 == Input::AnyOther,
            edge_ok(self@, (e.0@, e.1@, e.2)),
    {
        let dest = self.gather_dests(s, Input::Any);
        proof {
            assert(merged(self@, s@, Input::AnyOther) == gathered(self@, s@, Input::Any));
            assert(out_sym(self@, s@, Input::AnyOther));
        }
        (canon::clone_state(s), dest, Input::AnyOther)
    }

    /// All transitions that subset construction emits from the composite
    /// `s`: one per output symbol, each with the merged, canonicalized
    /// destination.
    #[verifier::rlimit(50)]
    fn process_state(&self, s: &Vec<u64>) -> (edges: Vec<Transition>)
        ensures
            forall|k: int|
                0 <= k < edges@.len() ==> (#[trigger] edges@[k]).0@ == s@ && edges@[k].2
                    != Input::Any && edge_ok(self@, (edges@[k].0@, edges@[k].1@, edges@[k].2)),
            forall|k: int, l: int| 0 <= k < l < edges@.len() ==> edges@[k].2 != edges@[l].2,
            forall|sym: Input|
                out_sym(self@, s@, sym) ==> exists|k: int|
                    0 <= k < edges@.len() && (#[trigger] edges@[k]).2 == sym,
    {
        let syms = self.symbols_of(s);
        let has_any = self.has_sym_exec(s, Input::Any);
        let mut edges: Vec<Transition> = Vec::new();
        let ns = syms.len();
        let mut idx: usize = 0;
        while idx < ns
            invariant
                ns == syms@.len(),
                idx <= ns,
                forall|sym: Input| syms@.contains(sym) <==> has_sym(self@, s@, sym),
                forall|k: int, l: int| 0 <= k < l < syms@.len() ==> syms@[k] != syms@[l],
                has_any == has_sym(self@, s@, Input::Any),
                forall|k: int|
                    0 <= k < edges@.len() ==> (#[trigger] edges@[k]).0@ == s@ && edges@[k].2
                        != Input::Any && (has_any ==> edges@[k].2 != Input::AnyOther) && edge_ok(
                        self@,
                        (edges@[k].0@, edges@[k].1@, edges@[k].2),
                    ),
                forall|k: int, l: int| 0 <= k < l < edges@.len() ==> edges@[k].2 != edges@[l].2,
                forall|k: int|
                    0 <= k < edges@.len() ==> exists|j: int|
                        0 <= j < idx && syms@[j] == (#[trigger] edges@[k]).2,
                forall|j: int|
                    0 <= j < idx && (#[trigger] syms@[j]) != Input::Any && !(has_any && syms@[j]
                        == Input::AnyOther) ==> exists|k: int|
                        0 <= k < edges@.len() && (#[trigger] edges@[k]).2 == syms@[j],
            decreases ns - idx,
        {
            let sym = syms[idx];
            if sym == Input::Any || (has_any && sym == Input::AnyOther) {
                // The wildcard entry never leaves as itself, and an
                // existing fallback entry is superseded by the wildcard's
                // own destinations below.
            } else {
                proof {
                    assert(syms@[idx as int] == sym);
                    assert(syms@.contains(sym));
                    assert(out_sym(self@, s@, sym));
                }
                let e = self.emit_edge(s, sym, has_any);
                let ghost pre = edges@;
                edges.push(e);
                proof {
                    assert forall|k: int, l: int|
                        0 <= k < l < edges@.len() implies edges@[k].2 != edges@[l].2 by {
                        if l == pre.len() {
                            let jk = choose|jk: int|
                                0 <= jk < idx && syms@[jk] == (pre[k]).2;
                            assert(syms@[jk] != syms@[idx as int]);
                        }
                    }
                    assert forall|k: int| 0 <= k < edges@.len() implies exists|j: int|
                        0 <= j < idx + 1 && syms@[j] == (#[trigger] edges@[k]).2 by {
                        if k < pre.len() {
                            let jk = choose|jk: int|
                                0 <= jk < idx && syms@[jk] == (pre[k]).2;
                            assert(0 <= jk < idx + 1 && syms@[jk] == edges@[k].2);
                        } else {
                            assert(0 <= idx < idx + 1 && syms@[idx as int] == edges@[k].2);
                        }
                    }
                    assert forall|j: int|
                        0 <= j < idx + 1 && (#[trigger] syms@[j]) != Input::Any && !(has_any
                            && syms@[j] == Input::AnyOther) implies exists|k: int|
                            0 <= k < edges@.len() && (#[trigger] edges@[k]).2 == syms@[j] by {
                        if j == idx {
                            assert(edges@[pre.len() as int].2 == syms@[j]);
                        } else {
                            let k = choose|k: int|
                                0 <= k < pre.len() && (#[trigger] pre[k]).2 == syms@[j];
                            assert(edges@[k].2 == syms@[j]);
                        }
                    }
                }
            }
            proof {
                if syms@[idx as int] == Input::Any || (has_any && syms@[idx as int]
                    == Input::AnyOther) {
                    assert forall|j: int|
                        0 <= j < idx + 1 && (#[trigger] syms@[j]) != Input::Any && !(has_any
                            && syms@[j] == Input::AnyOther) implies exists|k: int|
                            0 <= k < edges@.len() && (#[trigger] edges@[k]).2 == syms@[j] by {
                        assert(j != idx);
                    }
                }
            }
            idx += 1;
        }
        let ghost after_loop = edges@;
        if has_any {
            let e = self.emit_wild_edge(s);
            let ghost pre = edges@;
            edges.push(e);
            proof {
                assert forall|k: int, l: int|
                    0 <= k < l < edges@.len() implies edges@[k].2 != edges@[l].2 by {
                    if l == pre.len() {
                        assert(pre[k].2 != Input::AnyOther);
                    }
                }
            }
        }
        proof {
            assert forall|sym: Input| out_sym(self@, s@, sym) implies exists|k: int|
                0 <= k < edges@.len() && (#[trigger] edges@[k]).2 == sym by {
                if sym == Input::AnyOther && has_any {
                    assert(edges@[edges@.len() - 1].2 == Input::AnyOther);
                } else {
                    assert(has_sym(self@, s@, sym));
                    assert(syms@.contains(sym));
                    let j = choose|j: int| 0 <= j < syms@.len() && syms@[j] == sym;
                    assert(syms@[j] != Input::Any && !(has_any && syms@[j] == Input::AnyOther));
                    let k = choose|k: int|
                        0 <= k < after_loop.len() && (#[trigger] after_loop[k]).2 == syms@[j];
                    assert(edges@[k].2 == sym);
                }
            }
        }
        edges
    }

    /// Whether the composite `d` shares a member with some final state.
    fn shares_any_final(&self, d: &Vec<u64>) -> (r: bool)
        ensures
            r == shares_final(self@, d@),
    {
        let n = self.finals_len();
        let mut i: usize = 0;
        while i < n
            invariant
                n == self@.finals.len(),
                i <= n,
                forall|k: int| 0 <= k < i ==> !shares_member(d@, #[trigger] self@.finals[k]),
            decreases n - i,
        {
            let g = self.finals_ref(i);
            if shares(d, g) {
                proof {
                    assert(self@.finals.contains(self@.finals[i as int]));
                }
                return true;
            }
            i += 1;
        }
        proof {
            if shares_final(self@, d@) {
                let g = choose|g: Seq<u64>|
                    self@.finals_set().contains(g) && shares_member(d@, g);
                let k = choose|k: int| 0 <= k < self@.finals.len() && self@.finals[k] == g;
            }
        }
        false
    }

    /// Runs the worklist discovery: processes every composite reachable
    /// from the start composite, emitting its merged, canonicalized
    /// edges. Returns the emitted transitions together with the views of
    /// the processed composites.
    #[verifier::rlimit(100)]
    #[verifier::loop_isolation(false)]
    fn discover(&self) -> (res: (Vec<Transition>, Ghost<Seq<Seq<u64>>>))
        ensures
            batch_invariants(self@, res.0@, res.1@, Seq::<Seq<u64>>::empty()),
            forall|i: int| 0 <= i < res.1@.len() ==> reachable(self@, #[trigger] res.1@[i]),
    {
        let ghost m = self@;
        let mut start: Vec<u64> = Vec::new();
        start.push(0u64);
        proof {
            assert(start@ =~= start_state());
        }
        let mut worklist: Vec<Vec<u64>> = Vec::new();
        worklist.push(start);
        let mut processed: Vec<Vec<u64>> = Vec::new();
        let mut out_trans: Vec<Transition> = Vec::new();
        proof {
            lemma_reach_start(m);
            lemma_canon_states_below_finite(crate::canon::id_bound());
            assert(sviews(worklist@) =~= seq![start_state()]);
            assert(strictly_sorted(start_state()));
            assert(sviews(worklist@)[0] == start_state());
            assert(sviews(worklist@).contains(start_state()));
        }
        while worklist.len() > 0
            invariant
                m == self@,
                sviews(processed@).no_duplicates(),
                forall|i: int, j: int|
                    0 <= i < j < worklist@.len() ==> (#[trigger] worklist@[i])@ != (
                    #[trigger] worklist@[j])@,
                forall|i: int|
                    0 <= i < worklist@.len() ==> !sviews(processed@).contains(
                        (#[trigger] worklist@[i])@,
                    ),
                forall|i: int|
                    0 <= i < worklist@.len() ==> strictly_sorted((#[trigger] worklist@[i])@),
                forall|i: int|
                    0 <= i < processed@.len() ==> strictly_sorted((#[trigger] processed@[i])@),
                batch_invariants(
                    m,
                    out_trans@,
                    sviews(processed@),
                    sviews(worklist@),
                ),
                forall|i: int| 0 <= i < worklist@.len() ==> reachable(m, (#[trigger] worklist@[i])@),
                forall|i: int|
                    0 <= i < processed@.len() ==> reachable(m, (#[trigger] processed@[i])@),
                processed@.len() <= canon_states_below(crate::canon::id_bound()).len(),
            decreases canon_states_below(crate::canon::id_bound()).len() - processed@.len(),
        {
            let ghost w_pre = worklist@;
            let s = worklist.pop().unwrap();
            let ghost sv = s@;
            let ghost w_startv = sviews(worklist@);
            proof {
                assert(sv == (w_pre[w_pre.len() - 1])@);
                assert(reachable(m, sv));
                assert(strictly_sorted(sv));
                assert(!sviews(processed@).contains(sv)) by {
                    if sviews(processed@).contains(sv) {
                        assert(!sviews(processed@).contains((w_pre[w_pre.len() - 1])@));
                    }
                }
                assert forall|x: Seq<u64>| sviews(w_pre).contains(x) implies (x == sv || w_startv.contains(x)) by {
                    let i = choose|i: int| 0 <= i < sviews(w_pre).len() && sviews(w_pre)[i] == x;
                    if i < w_pre.len() - 1 {
                        assert(w_startv[i] == x);
                    }
                }
            }
            let edges = self.process_state(&s);
            let ghost p_pre = sviews(processed@);
            let ghost o_pre = out_trans@;
            processed.push(s);
            proof {
                assert(sviews(processed@) =~= p_pre.push(sv));
                assert(sviews(processed@).no_duplicates()) by {
                    assert(!p_pre.contains(sv));
                }
                let all = canon_states_below(crate::canon::id_bound());
                let pnew = sviews(processed@);
                pnew.unique_seq_to_set();
                assert forall|x: Seq<u64>| pnew.to_set().contains(x) implies all.contains(x) by {
                    let i = choose|i: int| 0 <= i < pnew.len() && pnew[i] == x;
                    assert(strictly_sorted((processed@[i])@));
                }
                vstd::set_lib::lemma_len_subset(pnew.to_set(), all);
                assert(processed@.len() <= all.len());
            }
            let ne = edges.len();
            let mut k: usize = 0;
            while k < ne
                invariant
                    k <= ne,
                    forall|i: int, j: int|
                        0 <= i < j < worklist@.len() ==> (#[trigger] worklist@[i])@ != (
                        #[trigger] worklist@[j])@,
                    forall|i: int|
                        0 <= i < worklist@.len() ==> !sviews(processed@).contains(
                            (#[trigger] worklist@[i])@,
                        ),
                    forall|i: int|
                        0 <= i < worklist@.len() ==> strictly_sorted((#[trigger] worklist@[i])@),
                    forall|i: int|
                        0 <= i < worklist@.len() ==> reachable(m, (#[trigger] worklist@[i])@),
                    worklist@.len() >= w_startv.len(),
                    forall|i: int| 0 <= i < w_startv.len() ==> (#[trigger] worklist@[i])@ == w_startv[i],
                    out_trans@.len() == o_pre.len() + k,
                    forall|l: int| 0 <= l < o_pre.len() ==> #[trigger] out_trans@[l] == o_pre[l],
                    forall|j: int|
                        0 <= j < k ==> tview(#[trigger] out_trans@[o_pre.len() + j]) == tview(
                            edges@[j],
                        ),
                    forall|j: int|
                        0 <= j < k ==> sviews(processed@).contains(
                            tview(#[trigger] edges@[j]).1,
                        ) || sviews(worklist@).contains(tview(edges@[j]).1),
                decreases ne - k,
            {
                let ghost w_iter = worklist@;
                let e = &edges[k];
                let in_p = canon::contains_state(&processed, &e.1);
                let in_w = canon::contains_state(&worklist, &e.1);
                if !in_p && !in_w {
                    worklist.push(canon::clone_state(&e.1));
                    proof {
                        assert((e.1)@ == tview(edges@[k as int]).1);
                        assert(edge_ok(m, tview(edges@[k as int])));
                        assert(tview(edges@[k as int]).0 == sv);
                        lemma_reach_step(m, tview(edges@[k as int]));
                        assert(strictly_sorted((e.1)@)) by {
                            assert(is_canon(
                                tview(edges@[k as int]).1,
                                merged(m, sv, tview(edges@[k as int]).2),
                            ));
                        }
                        assert forall|i: int|
                            0 <= i < worklist@.len() implies !sviews(processed@).contains(
                            (#[trigger] worklist@[i])@,
                        ) by {
                            if i == w_iter.len() {
                                if sviews(processed@).contains((e.1)@) {
                                    let ii = choose|ii: int|
                                        0 <= ii < sviews(processed@).len() && sviews(processed@)[ii]
                                            == (e.1)@;
                                    assert((processed@[ii])@ == (e.1)@);
                                }
                            }
                        }
                        assert forall|i: int, j: int|
                            0 <= i < j < worklist@.len() implies (#[trigger] worklist@[i])@ != (
                        #[trigger] worklist@[j])@ by {
                            if j == w_iter.len() {
                                assert((worklist@[i])@ != (e.1)@);
                            }
                        }
                    }
                }
                let ghost o_mid = out_trans@;
                out_trans.push((canon::clone_state(&e.0), canon::clone_state(&e.1), e.2));
                proof {
                    assert(tview(out_trans@[o_mid.len() as int]) == tview(edges@[k as int]));
                    assert forall|j: int| 0 <= j < k + 1 implies sviews(processed@).contains(
                        tview(#[trigger] edges@[j]).1,
                    ) || sviews(worklist@).contains(tview(edges@[j]).1) by {
                        if j == k {
                            if in_p {
                                let ii = choose|ii: int|
                                    0 <= ii < processed@.len() && (#[trigger] processed@[ii])@ == (
                                    e.1)@;
                                assert(sviews(processed@)[ii] == (e.1)@);
                            } else if in_w {
                                let ii = choose|ii: int|
                                    0 <= ii < w_iter.len() && (#[trigger] w_iter[ii])@ == (e.1)@;
                                assert((worklist@[ii])@ == (e.1)@);
                                assert(sviews(worklist@)[ii] == (e.1)@);
                            } else {
                                assert((worklist@[worklist@.len() - 1])@ == (e.1)@);
                                assert(sviews(worklist@)[worklist@.len() - 1] == (e.1)@);
                            }
                        } else {
                            if !sviews(processed@).contains(tview(edges@[j]).1) {
                                let ii = choose|ii: int|
                                    0 <= ii < w_iter.len() && sviews(w_iter)[ii] == tview(
                                        edges@[j],
                                    ).1;
                                assert((worklist@[ii])@ == (w_iter[ii])@);
                                assert(sviews(worklist@)[ii] == tview(edges@[j]).1);
                            }
                        }
                    }
                }
                k += 1;
            }
            proof {
                lemma_absorb_batch(
                    m,
                    sv,
                    p_pre,
                    sviews(processed@),
                    o_pre,
                    out_trans@,
                    edges@,
                    sviews(w_pre),
                    w_startv,
                    sviews(worklist@),
                );
            }
        }
        proof {
            assert(sviews(worklist@) =~= Seq::<Seq<u64>>::empty());
            assert forall|i: int| 0 <= i < sviews(processed@).len() implies reachable(
                m,
                #[trigger] sviews(processed@)[i],
            ) by {
                assert(sviews(processed@)[i] == (processed@[i])@);
            }
        }
        (out_trans, Ghost(sviews(processed@)))
    }

    /// Collects the final states of the determinized automaton: every
    /// distinct destination of an emitted transition that shares a
    /// member with a final state of the input.
    #[verifier::rlimit(100)]
    #[verifier::loop_isolation(false)]
    /// Collects `st` when it shares a member with a final state of the
    /// input and is not collected yet; an already-collected state and a
    /// state sharing nothing are left alone.
    fn record_final(&self, finals: &mut Vec<State>, st: &Vec<u64>)
        requires
            forall|k1: int, k2: int|
                0 <= k1 < k2 < old(finals)@.len() ==> (#[trigger] old(finals)@[k1])@ != (
                #[trigger] old(finals)@[k2])@,
        ensures
            forall|k1: int, k2: int|
                0 <= k1 < k2 < final(finals)@.len() ==> (#[trigger] final(finals)@[k1])@ != (
                #[trigger] final(finals)@[k2])@,
            forall|l: int|
                0 <= l < old(finals)@.len() ==> #[trigger] final(finals)@[l] == old(finals)@[l],
            final(finals)@.len() == old(finals)@.len() || (final(finals)@.len() == old(
                finals,
            )@.len() + 1 && (final(finals)@.last())@ == st@ && shares_final(self@, st@)),
            shares_final(self@, st@) ==> exists|kk: int|
                0 <= kk < final(finals)@.len() && (#[trigger] final(finals)@[kk])@ == st@,
            !shares_final(self@, st@) ==> final(finals)@ == old(finals)@,
    {
        if self.shares_any_final(st) {
            if !canon::contains_state(finals, st) {
                let ghost f_pre = finals@;
                finals.push(canon::clone_state(st));
                proof {
                    assert((finals@[f_pre.len() as int])@ == st@);
                    assert forall|k1: int, k2: int|
                        0 <= k1 < k2 < finals@.len() implies (#[trigger] finals@[k1])@ != (
                    #[trigger] finals@[k2])@ by {
                        if k2 == f_pre.len() {
                            assert((f_pre[k1])@ != st@);
                        }
                    }
                }
            }
        }
    }

    fn collect_finals(&self, out_trans: &Vec<Transition>) -> (finals: Vec<State>)
        ensures
            finals_ok(self@, out_trans@, finals@, out_trans@.len() as int),
    {
        let ghost m = self@;
        let nt = out_trans.len();
        let mut finals: Vec<State> = Vec::new();
        let mut fi: usize = 0;
        while fi < nt
            invariant
                m == self@,
                nt == out_trans@.len(),
                fi <= nt,
                finals_ok(m, out_trans@, finals@, fi as int),
            decreases nt - fi,
        {
            let ghost f_pre = finals@;
            self.record_final(&mut finals, &out_trans[fi].0);
            let ghost f_mid = finals@;
            self.record_final(&mut finals, &out_trans[fi].1);
            proof {
                let t = tview(out_trans@[fi as int]);
                assert(((out_trans@[fi as int]).0)@ == t.0);
                assert(((out_trans@[fi as int]).1)@ == t.1);
                // Each collected entry is a covered endpoint that shares.
                assert forall|kk: int| 0 <= kk < finals@.len() implies exists|j: int|
                    0 <= j < fi + 1 && (tview(out_trans@[j]).0 == (#[trigger] finals@[kk])@
                        || tview(out_trans@[j]).1 == finals@[kk]@) && shares_final(
                        m,
                        finals@[kk]@,
                    ) by {
                    if kk < f_pre.len() {
                        assert(finals@[kk] == f_pre[kk]);
                        let j = choose|j: int|
                            0 <= j < fi && (tview(out_trans@[j]).0 == (#[trigger] f_pre[kk])@
                                || tview(out_trans@[j]).1 == f_pre[kk]@) && shares_final(
                                m,
                                f_pre[kk]@,
                            );
                        assert(0 <= j < fi + 1 && (tview(out_trans@[j]).0 == finals@[kk]@
                            || tview(out_trans@[j]).1 == finals@[kk]@) && shares_final(
                            m,
                            finals@[kk]@,
                        ));
                    } else if kk < f_mid.len() {
                        assert(finals@[kk] == f_mid[kk]);
                        assert((f_mid[kk])@ == t.0 && shares_final(m, t.0));
                    } else {
                        assert((finals@[kk])@ == t.1 && shares_final(m, t.1));
                    }
                }
                // Every sharing endpoint of a covered transition is collected.
                assert forall|j: int|
                    0 <= j < fi + 1 && shares_final(m, tview(#[trigger] out_trans@[j]).0)
                    implies exists|kk: int|
                        0 <= kk < finals@.len() && (#[trigger] finals@[kk])@ == tview(
                            out_trans@[j],
                        ).0 by {
                    if j < fi {
                        let kk = choose|kk: int|
                            0 <= kk < f_pre.len() && (#[trigger] f_pre[kk])@ == tview(
                                out_trans@[j],
                            ).0;
                        assert(f_mid[kk] == f_pre[kk]);
                        assert((finals@[kk])@ == tview(out_trans@[j]).0);
                    } else {
                        let kk = choose|kk: int|
                            0 <= kk < f_mid.len() && (#[trigger] f_mid[kk])@ == t.0;
                        assert((finals@[kk])@ == t.0);
                    }
                }
                assert forall|j: int|
                    0 <= j < fi + 1 && shares_final(m, tview(#[trigger] out_trans@[j]).1)
                    implies exists|kk: int|
                        0 <= kk < finals@.len() && (#[trigger] finals@[kk])@ == tview(
                            out_trans@[j],
                        ).1 by {
                    if j < fi {
                        let kk = choose|kk: int|
                            0 <= kk < f_pre.len() && (#[trigger] f_pre[kk])@ == tview(
                                out_trans@[j],
                            ).1;
                        assert(f_mid[kk] == f_pre[kk]);
                        assert((finals@[kk])@ == tview(out_trans@[j]).1);
                    } else {
                        let kk = choose|kk: int|
                            0 <= kk < finals@.len() && (#[trigger] finals@[kk])@ == t.1;
                    }
                }
            }
            fi += 1;
        }
        finals
    }

    /// Determinizes the automaton by subset construction, returning a
    /// new, independently owned automaton that satisfies the determinism
    /// invariant. An input that already satisfies the invariant is
    /// returned as a structural copy, so determinization is idempotent;
    /// otherwise the output holds exactly the correct merged edges of the
    /// composites discovered from the start composite, closed under its
    /// own transitions, and its final states are exactly its composite
    /// states that share a member with a final state of the input.
    #[verifier::rlimit(100)]
    #[verifier::loop_isolation(false)]
    pub fn to_dfa(&self) -> (r: StateMachine)
        ensures
            determinizes_to(self@, r@),
    {
        let ghost m = self@;
        if self.is_dfa() {
            return self.copy();
        }
        let (out_trans, pg) = self.discover();
        let ghost p_fin = pg@;
        let finals = self.collect_finals(&out_trans);
        let ghost o_fin = out_trans@;
        let ghost f_fin = finals@;
        let r = StateMachine::from_parts(out_trans, finals);
        proof {
            assert forall|k2: int| 0 <= k2 < o_fin.len() implies #[trigger] r@.transitions[k2]
                == tview(o_fin[k2]) by {}
            assert forall|k2: int| 0 <= k2 < f_fin.len() implies #[trigger] r@.finals[k2] == (
            f_fin[k2])@ by {}
            lemma_assemble(m, o_fin, f_fin, p_fin, r@);
            lemma_built_canonical(m, r@);
        }
        r
    }
}


/// The facts that the discovery loop maintains about the transitions it
/// has emitted so far: they are duplicate-free, mutually non-conflicting,
/// correct merged edges whose sources are processed composites, whose
/// destinations are processed or still queued, with every processed
/// composite's outgoing edges fully present, and the start composite
/// processed or queued.
pub open spec fn batch_invariants(
    m: MachineView,
    o: Seq<Transition>,
    pv: Seq<Seq<u64>>,
    wv: Seq<Seq<u64>>,
) -> bool {
    &&& forall|k: int, l: int|
        0 <= k < l < o.len() ==> tview(#[trigger] o[k]) != tview(#[trigger] o[l])
    &&& forall|k: int, l: int|
        0 <= k < o.len() && 0 <= l < o.len() ==> !crate::machine::conflicts(
            tview(#[trigger] o[k]),
            tview(#[trigger] o[l]),
        )
    &&& forall|k: int| 0 <= k < o.len() ==> edge_ok(m, tview(#[trigger] o[k]))
    &&& forall|k: int| 0 <= k < o.len() ==> pv.contains(tview(#[trigger] o[k]).0)
    &&& forall|p: Seq<u64>, sym: Input|
        pv.contains(p) && out_sym(m, p, sym) ==> exists|k: int|
            0 <= k < o.len() && tview(#[trigger] o[k]).0 == p && tview(o[k]).2 == sym
    &&& forall|k: int|
        0 <= k < o.len() ==> pv.contains(tview(#[trigger] o[k]).1) || wv.contains(
            tview(o[k]).1,
        )
    &&& pv.contains(start_state()) || wv.contains(start_state())
}

/// The facts that the final-state collection maintains over the first
/// `upto` emitted transitions: the collected list is duplicate-free, each
/// entry is an endpoint — source or destination — of some covered
/// transition and shares a member with a final state of the input, and
/// every such endpoint is collected.
pub open spec fn finals_ok(
    m: MachineView,
    o: Seq<Transition>,
    f: Seq<State>,
    upto: int,
) -> bool {
    &&& forall|k1: int, k2: int|
        0 <= k1 < k2 < f.len() ==> (#[trigger] f[k1])@ != (#[trigger] f[k2])@
    &&& forall|kk: int|
        0 <= kk < f.len() ==> exists|j: int|
            0 <= j < upto && (tview(o[j]).0 == (#[trigger] f[kk])@ || tview(o[j]).1 == f[kk]@)
                && shares_final(m, f[kk]@)
    &&& forall|j: int|
        0 <= j < upto && shares_final(m, tview(#[trigger] o[j]).0) ==> exists|kk: int|
            0 <= kk < f.len() && (#[trigger] f[kk])@ == tview(o[j]).0
    &&& forall|j: int|
        0 <= j < upto && shares_final(m, tview(#[trigger] o[j]).1) ==> exists|kk: int|
            0 <= kk < f.len() && (#[trigger] f[kk])@ == tview(o[j]).1
}

/// One worklist round preserves the discovery-loop facts: the composite
/// `sv` moves from the worklist to the processed list, and its batch of
/// emitted edges joins the output.
#[verifier::rlimit(100)]
proof fn lemma_absorb_batch(
    m: MachineView,
    sv: Seq<u64>,
    p_pre: Seq<Seq<u64>>,
    pnow: Seq<Seq<u64>>,
    o_pre: Seq<Transition>,
    onow: Seq<Transition>,
    ev: Seq<Transition>,
    w_prev: Seq<Seq<u64>>,
    w_startv: Seq<Seq<u64>>,
    wnow: Seq<Seq<u64>>,
)
    requires
        pnow == p_pre.push(sv),
        !p_pre.contains(sv),
        batch_invariants(m, o_pre, p_pre, w_prev),
        forall|x: Seq<u64>| w_prev.contains(x) ==> x == sv || w_startv.contains(x),
        onow.len() == o_pre.len() + ev.len(),
        forall|l: int| 0 <= l < o_pre.len() ==> #[trigger] onow[l] == o_pre[l],
        forall|j: int|
            0 <= j < ev.len() ==> tview(#[trigger] onow[o_pre.len() + j]) == tview(ev[j]),
        wnow.len() >= w_startv.len(),
        forall|i: int| 0 <= i < w_startv.len() ==> #[trigger] wnow[i] == w_startv[i],
        forall|j: int|
            0 <= j < ev.len() ==> pnow.contains(tview(#[trigger] ev[j]).1) || wnow.contains(
                tview(ev[j]).1,
            ),
        forall|j: int|
            0 <= j < ev.len() ==> tview(#[trigger] ev[j]).0 == sv && tview(ev[j]).2 != Input::Any
                && edge_ok(m, tview(ev[j])),
        forall|j1: int, j2: int| 0 <= j1 < j2 < ev.len() ==> (#[trigger] ev[j1]).2 != (#[trigger] ev[j2]).2,
        forall|sym: Input|
            out_sym(m, sv, sym) ==> exists|j: int|
                0 <= j < ev.len() && (#[trigger] ev[j]).2 == sym,
    ensures
        batch_invariants(m, onow, pnow, wnow),
{
    assert forall|x: Seq<u64>| p_pre.contains(x) implies pnow.contains(x) by {
        let i = choose|i: int| 0 <= i < p_pre.len() && p_pre[i] == x;
        assert(pnow[i] == x);
    }
    assert(pnow.contains(sv)) by {
        assert(pnow[pnow.len() - 1] == sv);
    }
    assert forall|j: int| 0 <= j < ev.len() implies tview(#[trigger] ev[j]).2 == (ev[j]).2 by {}
    // Edge correctness and source membership.
    assert forall|k2: int| 0 <= k2 < onow.len() implies edge_ok(m, tview(#[trigger] onow[k2]))
        && pnow.contains(tview(onow[k2]).0) && tview(onow[k2]).2 != Input::Any by {
        if k2 >= o_pre.len() {
            let j = k2 - o_pre.len();
            assert(tview(onow[o_pre.len() + j]) == tview(ev[j]));
        } else {
            assert(edge_ok(m, tview(o_pre[k2])));
            assert(p_pre.contains(tview(o_pre[k2]).0));
            assert(!crate::machine::conflicts(tview(o_pre[k2]), tview(o_pre[k2])));
            if tview(o_pre[k2]).2 == Input::Any {
                let p = tview(o_pre[k2]).0;
                assert(out_sym(m, p, tview(o_pre[k2]).2));
            }
        }
    }
    // No duplicates.
    assert forall|k2: int, l2: int| 0 <= k2 < l2 < onow.len() implies tview(#[trigger] onow[k2])
        != tview(#[trigger] onow[l2]) by {
        if l2 < o_pre.len() {
            assert(tview(o_pre[k2]) != tview(o_pre[l2]));
        } else if k2 >= o_pre.len() {
            let j1 = k2 - o_pre.len();
            let j2 = l2 - o_pre.len();
            assert(tview(onow[o_pre.len() + j1]) == tview(ev[j1]));
            assert(tview(onow[o_pre.len() + j2]) == tview(ev[j2]));
            assert((ev[j1]).2 != (ev[j2]).2);
        } else {
            let j2 = l2 - o_pre.len();
            assert(tview(onow[o_pre.len() + j2]) == tview(ev[j2]));
            assert(tview(ev[j2]).0 == sv);
            assert(p_pre.contains(tview(o_pre[k2]).0));
        }
    }
    // No conflicts.
    assert forall|k2: int, l2: int|
        0 <= k2 < onow.len() && 0 <= l2 < onow.len() implies !crate::machine::conflicts(
        tview(#[trigger] onow[k2]),
        tview(#[trigger] onow[l2]),
    ) by {
        if k2 < o_pre.len() && l2 < o_pre.len() {
            assert(!crate::machine::conflicts(tview(o_pre[k2]), tview(o_pre[l2])));
        } else if k2 >= o_pre.len() && l2 >= o_pre.len() {
            let j1 = k2 - o_pre.len();
            let j2 = l2 - o_pre.len();
            assert(tview(onow[o_pre.len() + j1]) == tview(ev[j1]));
            assert(tview(onow[o_pre.len() + j2]) == tview(ev[j2]));
            if j1 != j2 {
                if j1 < j2 {
                    assert((ev[j1]).2 != (ev[j2]).2);
                } else {
                    assert((ev[j2]).2 != (ev[j1]).2);
                }
            }
        } else if k2 < o_pre.len() {
            let j2 = l2 - o_pre.len();
            assert(tview(onow[o_pre.len() + j2]) == tview(ev[j2]));
            assert(tview(ev[j2]).0 == sv);
            assert(p_pre.contains(tview(o_pre[k2]).0));
        } else {
            let j1 = k2 - o_pre.len();
            assert(tview(onow[o_pre.len() + j1]) == tview(ev[j1]));
            assert(tview(ev[j1]).0 == sv);
            assert(p_pre.contains(tview(o_pre[l2]).0));
        }
    }
    // Completeness for every processed composite.
    assert forall|p: Seq<u64>, sym: Input|
        pnow.contains(p) && out_sym(m, p, sym) implies exists|k2: int|
            0 <= k2 < onow.len() && tview(#[trigger] onow[k2]).0 == p && tview(onow[k2]).2
                == sym by {
        if p == sv {
            let j = choose|j: int| 0 <= j < ev.len() && (#[trigger] ev[j]).2 == sym;
            assert(tview(onow[o_pre.len() + j]) == tview(ev[j]));
            assert(tview(onow[o_pre.len() + j]).0 == sv);
            assert(tview(onow[o_pre.len() + j]).2 == sym);
        } else {
            let i = choose|i: int| 0 <= i < pnow.len() && pnow[i] == p;
            assert(i < p_pre.len());
            assert(p_pre.contains(p)) by {
                assert(p_pre[i] == p);
            }
            let k2 = choose|k2: int|
                0 <= k2 < o_pre.len() && tview(#[trigger] o_pre[k2]).0 == p && tview(
                    o_pre[k2],
                ).2 == sym;
            assert(onow[k2] == o_pre[k2]);
        }
    }
    // Destinations stay processed or queued.
    assert forall|k2: int| 0 <= k2 < onow.len() implies pnow.contains(
        tview(#[trigger] onow[k2]).1,
    ) || wnow.contains(tview(onow[k2]).1) by {
        if k2 >= o_pre.len() {
            let j = k2 - o_pre.len();
            assert(tview(onow[o_pre.len() + j]) == tview(ev[j]));
        } else {
            assert(p_pre.contains(tview(o_pre[k2]).1) || w_prev.contains(tview(o_pre[k2]).1));
            let d = tview(o_pre[k2]).1;
            if w_prev.contains(d) && d != sv {
                assert(w_startv.contains(d));
                let i = choose|i: int| 0 <= i < w_startv.len() && w_startv[i] == d;
                assert(wnow[i] == d);
                assert(wnow.contains(d));
            }
        }
    }
    // The start composite stays processed or queued.
    assert(pnow.contains(start_state()) || wnow.contains(start_state())) by {
        if !p_pre.contains(start_state()) {
            assert(w_prev.contains(start_state()));
            if start_state() != sv {
                assert(w_startv.contains(start_state()));
                let i = choose|i: int|
                    0 <= i < w_startv.len() && w_startv[i] == start_state();
                assert(wnow[i] == start_state());
            }
        }
    }
}

/// At the end of discovery the emitted transitions and collected final
/// states make a well-formed automaton that satisfies the determinism
/// invariant and the construction contract.
#[verifier::rlimit(100)]
proof fn lemma_assemble(
    m: MachineView,
    o_fin: Seq<Transition>,
    f_fin: Seq<State>,
    p_fin: Seq<Seq<u64>>,
    rv: MachineView,
)
    requires
        rv.transitions.len() == o_fin.len(),
        forall|k2: int| 0 <= k2 < o_fin.len() ==> #[trigger] rv.transitions[k2] == tview(o_fin[k2]),
        rv.finals.len() == f_fin.len(),
        forall|k2: int| 0 <= k2 < f_fin.len() ==> #[trigger] rv.finals[k2] == (f_fin[k2])@,
        batch_invariants(m, o_fin, p_fin, Seq::<Seq<u64>>::empty()),
        forall|i: int| 0 <= i < p_fin.len() ==> reachable(m, #[trigger] p_fin[i]),
        finals_ok(m, o_fin, f_fin, o_fin.len() as int),
    ensures
        rv.deterministic(),
        rv.wf(),
        dfa_built(m, rv),
{
    // Every member of the transition set corresponds to an index.
    assert forall|t: (Seq<u64>, Seq<u64>, Input)| rv.trans_set().contains(t) implies exists|
        k2: int,
    |
        0 <= k2 < o_fin.len() && t == tview(#[trigger] o_fin[k2]) by {
        let k2 = choose|k2: int| 0 <= k2 < rv.transitions.len() && rv.transitions[k2] == t;
        assert(t == tview(o_fin[k2]));
    }
    assert forall|k2: int| 0 <= k2 < o_fin.len() implies rv.trans_set().contains(
        tview(#[trigger] o_fin[k2]),
    ) by {
        assert(rv.transitions[k2] == tview(o_fin[k2]));
        assert(rv.transitions.contains(tview(o_fin[k2])));
    }
    // The determinism invariant.
    assert forall|t1: (Seq<u64>, Seq<u64>, Input), t2: (Seq<u64>, Seq<u64>, Input)|
        rv.trans_set().contains(t1) && rv.trans_set().contains(t2) && t1.0 == t2.0 implies {
            &&& (t1.2 == t2.2 ==> t1 == t2)
            &&& !(t1.2 == Input::Any && t2.2 != Input::Any)
        } by {
        let k1 = choose|k1: int| 0 <= k1 < o_fin.len() && t1 == tview(#[trigger] o_fin[k1]);
        let k2 = choose|k2: int| 0 <= k2 < o_fin.len() && t2 == tview(#[trigger] o_fin[k2]);
        assert(!crate::machine::conflicts(tview(o_fin[k1]), tview(o_fin[k2])));
    }
    // Well-formedness: both lists are duplicate-free.
    assert forall|i: int, j: int| 0 <= i < j < rv.transitions.len() implies rv.transitions[i]
        != rv.transitions[j] by {
        assert(tview(o_fin[i]) != tview(o_fin[j]));
    }
    assert forall|i: int, j: int| 0 <= i < j < rv.finals.len() implies rv.finals[i]
        != rv.finals[j] by {
        assert((f_fin[i])@ != (f_fin[j])@);
    }
    // The construction contract.
    assert forall|e: (Seq<u64>, Seq<u64>, Input)| rv.trans_set().contains(e) implies edge_ok(
        m,
        e,
    ) && reachable(m, e.0) by {
        let k2 = choose|k2: int| 0 <= k2 < o_fin.len() && e == tview(#[trigger] o_fin[k2]);
        assert(edge_ok(m, tview(o_fin[k2])));
        assert(p_fin.contains(tview(o_fin[k2]).0));
        let i = choose|i: int| 0 <= i < p_fin.len() && p_fin[i] == tview(o_fin[k2]).0;
        assert(reachable(m, p_fin[i]));
    }
    assert forall|sym: Input| out_sym(m, start_state(), sym) implies exists|
        e: (Seq<u64>, Seq<u64>, Input),
    |
        rv.trans_set().contains(e) && e.0 == start_state() && e.2 == sym by {
        assert(p_fin.contains(start_state()));
        let k2 = choose|k2: int|
            0 <= k2 < o_fin.len() && tview(#[trigger] o_fin[k2]).0 == start_state() && tview(
                o_fin[k2],
            ).2 == sym;
        assert(rv.trans_set().contains(tview(o_fin[k2])));
    }
    assert forall|e: (Seq<u64>, Seq<u64>, Input), sym: Input|
        rv.trans_set().contains(e) && out_sym(m, e.1, sym) implies exists|
            e2: (Seq<u64>, Seq<u64>, Input),
        |
            rv.trans_set().contains(e2) && e2.0 == e.1 && e2.2 == sym by {
        let k2 = choose|k2: int| 0 <= k2 < o_fin.len() && e == tview(#[trigger] o_fin[k2]);
        assert(p_fin.contains(tview(o_fin[k2]).1));
        let k3 = choose|k3: int|
            0 <= k3 < o_fin.len() && tview(#[trigger] o_fin[k3]).0 == e.1 && tview(o_fin[k3]).2
                == sym;
        assert(rv.trans_set().contains(tview(o_fin[k3])));
    }
    // The final states are exactly the transition endpoints that share
    // a member with a final state of the input.
    let fset = Set::new(
        |f: Seq<u64>|
            (exists|e: (Seq<u64>, Seq<u64>, Input)|
                rv.trans_set().contains(e) && (e.0 == f || e.1 == f)) && shares_final(m, f),
    );
    assert forall|f: Seq<u64>| rv.finals_set().contains(f) implies fset.contains(f) by {
        let kk = choose|kk: int| 0 <= kk < rv.finals.len() && rv.finals[kk] == f;
        assert((f_fin[kk])@ == f);
        let j = choose|j: int|
            0 <= j < o_fin.len() && (tview(o_fin[j]).0 == (#[trigger] f_fin[kk])@ || tview(
                o_fin[j],
            ).1 == f_fin[kk]@) && shares_final(m, f_fin[kk]@);
        assert(rv.trans_set().contains(tview(o_fin[j])));
        assert(tview(o_fin[j]).0 == f || tview(o_fin[j]).1 == f);
    }
    assert forall|f: Seq<u64>| fset.contains(f) implies rv.finals_set().contains(f) by {
        let e = choose|e: (Seq<u64>, Seq<u64>, Input)|
            rv.trans_set().contains(e) && (e.0 == f || e.1 == f);
        let k2 = choose|k2: int| 0 <= k2 < o_fin.len() && e == tview(#[trigger] o_fin[k2]);
        if e.0 == f {
            assert(shares_final(m, tview(o_fin[k2]).0));
            let kk = choose|kk: int|
                0 <= kk < f_fin.len() && (#[trigger] f_fin[kk])@ == tview(o_fin[k2]).0;
            assert(rv.finals[kk] == f);
            assert(rv.finals.contains(f));
        } else {
            assert(shares_final(m, tview(o_fin[k2]).1));
            let kk = choose|kk: int|
                0 <= kk < f_fin.len() && (#[trigger] f_fin[kk])@ == tview(o_fin[k2]).1;
            assert(rv.finals[kk] == f);
            assert(rv.finals.contains(f));
        }
    }
    assert(rv.finals_set() =~= fset);
}

} // verus!
