//! Compiling a pattern string into a nondeterministic automaton: one
//! pass over the pattern, handling literals, the wildcard, anchors,
//! grouping, alternation and zero-or-more repetition. Malformed patterns
//! are rejected with the position of the offending character.

use vstd::prelude::*;
use vstd::seq_lib::*;

use crate::machine::Input;
use crate::machine::MachineView;
use crate::machine::State;
use crate::machine::StateMachine;
use crate::machine::Transition;

verus! {

/// Why a pattern is rejected.
#[derive(Debug, Clone, Copy, PartialEq, Eq, Structural)]
pub enum PatternError {
    /// The pattern has no characters.
    EmptyPattern,
    /// The closing parenthesis at this position has no matching `(`.
    UnmatchedClose(usize),
    /// The opening parenthesis at this position is never closed.
    UnmatchedOpen(usize),
    /// The repetition operator at this position has no unit to repeat.
    MisplacedStar(usize),
}

/// The symbol a pattern character stands for.
pub open spec fn sym_of(c: char) -> Input {
    if c == '^' {
        Input::Start
    } else if c == '$' {
        Input::End
    } else if c == '.' {
        Input::Any
    } else {
        Input::Literal(c)
    }
}

/// Whether the pattern character emits a transition of its own.
pub open spec fn emits(c: char) -> bool {
    c != '(' && c != ')' && c != '|' && c != '*'
}

/// The first fault at or after position `i`, with `opens` holding the
/// positions of the parentheses still open.
pub open spec fn scan_error(s: Seq<char>, i: int, opens: Seq<int>) -> Option<PatternError>
    decreases s.len() - i,
    when 0 <= i
{
    if i >= s.len() {
        if opens.len() > 0 {
            Some(PatternError::UnmatchedOpen(opens.last() as usize))
        } else {
            None
        }
    } else if s[i] == ')' && opens.len() == 0 {
        Some(PatternError::UnmatchedClose(i as usize))
    } else if s[i] == '*' && (i == 0 || s[i - 1] == '(' || s[i - 1] == '|' || s[i - 1] == '*'
        || !(exists|j: int| 0 <= j < i && emits(#[trigger] s[j]))) {
        Some(PatternError::MisplacedStar(i as usize))
    } else if s[i] == '(' {
        scan_error(s, i + 1, opens.push(i))
    } else if s[i] == ')' {
        scan_error(s, i + 1, opens.drop_last())
    } else {
        scan_error(s, i + 1, opens)
    }
}

/// The first fault of a pattern: an empty pattern, a parenthesis without
/// its partner, or a repetition operator with nothing to repeat.
pub open spec fn pattern_error(s: Seq<char>) -> Option<PatternError> {
    if s.len() == 0 {
        Some(PatternError::EmptyPattern)
    } else {
        scan_error(s, 0, Seq::<int>::empty())
    }
}

/// The compiler's running state: the transitions emitted so far (over
/// scalar construction-time ids), the frontier the next transition
/// departs from, the transition emitted last (repetition rewrites it),
/// the frontiers of the open groups, the accept points of alternation
/// branches not yet merged, and whether a group has just closed.
pub ghost struct BState {
    pub trans: Seq<(u64, u64, Input)>,
    pub frontier: u64,
    pub last: Option<(u64, u64, Input)>,
    pub groups: Seq<u64>,
    pub leaves: Seq<u64>,
    pub closed: bool,
}

/// The compiler's state before the first character.
pub open spec fn init_state() -> BState {
    BState {
        trans: Seq::empty(),
        frontier: 0,
        last: None,
        groups: Seq::empty(),
        leaves: Seq::empty(),
        closed: false,
    }
}

/// Whether `id` is an endpoint of some emitted transition.
pub open spec fn used_id(ts: Seq<(u64, u64, Input)>, id: u64) -> bool {
    exists|k: int| 0 <= k < ts.len() && ((#[trigger] ts[k]).0 == id || ts[k].1 == id)
}

/// Whether `id` is the first id at or past `start` that no transition
/// uses yet: the id the compiler mints for the next destination.
pub open spec fn is_minted(ts: Seq<(u64, u64, Input)>, start: u64, id: u64) -> bool {
    id >= start && !used_id(ts, id) && (forall|x: u64| start <= x < id ==> used_id(ts, x))
}

/// The id minted for the next destination.
pub open spec fn minted(ts: Seq<(u64, u64, Input)>, start: u64) -> u64 {
    choose|id: u64| is_minted(ts, start, id)
}

/// The id minted is unique.
pub proof fn lemma_minted_unique(ts: Seq<(u64, u64, Input)>, start: u64, id1: u64, id2: u64)
    requires
        is_minted(ts, start, id1),
        is_minted(ts, start, id2),
    ensures
        id1 == id2,
{
    if id1 < id2 {
        assert(used_id(ts, id1));
    }
    if id2 < id1 {
        assert(used_id(ts, id2));
    }
}

/// Inserting into the transition set: duplicates collapse.
pub open spec fn insert_t(ts: Seq<(u64, u64, Input)>, t: (u64, u64, Input)) -> Seq<
    (u64, u64, Input),
> {
    if ts.contains(t) {
        ts
    } else {
        ts.push(t)
    }
}

/// Removing a transition from the set: the first occurrence leaves.
pub open spec fn remove_t(ts: Seq<(u64, u64, Input)>, t: (u64, u64, Input)) -> Seq<
    (u64, u64, Input),
> {
    match ts.index_of_first(t) {
        Some(j) => ts.remove(j),
        None => ts,
    }
}

/// The transitions that fan the pending alternation leaves from `i` on
/// into the destination `dest` under `sym`.
pub open spec fn fan_in(
    ts: Seq<(u64, u64, Input)>,
    leaves: Seq<u64>,
    dest: u64,
    sym: Input,
    i: int,
) -> Seq<(u64, u64, Input)>
    decreases leaves.len() - i,
    when 0 <= i
{
    if i >= leaves.len() {
        ts
    } else {
        fan_in(insert_t(ts, (leaves[i], dest, sym)), leaves, dest, sym, i + 1)
    }
}

/// One step of the compiler: the state after reading `c`. Repetition
/// retracts the transition emitted last and reinserts it as a self-loop;
/// the frontier returns to that transition's source, so the next
/// character departs from the repeated unit's own re-entry point.
pub open spec fn step(st: BState, c: char) -> BState {
    if c == '*' {
        let lt = st.last.unwrap();
        let loop_t = (lt.0, lt.0, lt.2);
        BState {
            trans: insert_t(remove_t(st.trans, lt), loop_t),
            frontier: lt.0,
            last: Some(loop_t),
            groups: st.groups,
            leaves: st.leaves,
            closed: st.closed,
        }
    } else if c == '(' {
        BState { groups: st.groups.push(st.frontier), ..st }
    } else if c == ')' {
        BState { groups: st.groups.drop_last(), closed: true, ..st }
    } else if c == '|' {
        BState {
            leaves: st.leaves.push(st.frontier),
            frontier: if st.groups.len() > 0 {
                st.groups.last()
            } else {
                0
            },
            closed: false,
            ..st
        }
    } else {
        let sym = sym_of(c);
        let dest = minted(st.trans, (st.frontier + 1) as u64);
        let base = insert_t(st.trans, (st.frontier, dest, sym));
        if st.closed {
            BState {
                trans: fan_in(base, st.leaves, dest, sym, 0),
                frontier: dest,
                last: if st.leaves.len() > 0 {
                    Some((st.leaves.last(), dest, sym))
                } else {
                    Some((st.frontier, dest, sym))
                },
                groups: st.groups,
                leaves: Seq::empty(),
                closed: false,
            }
        } else {
            BState {
                trans: base,
                frontier: dest,
                last: Some((st.frontier, dest, sym)),
                groups: st.groups,
                leaves: st.leaves,
                closed: false,
            }
        }
    }
}

/// The compiler's state after the first `i` characters.
pub open spec fn build_fold(s: Seq<char>, i: int) -> BState
    decreases i,
    when 0 <= i <= s.len()
{
    if i <= 0 {
        init_state()
    } else {
        step(build_fold(s, i - 1), s[i - 1])
    }
}

/// Appends the members of `xs` from `i` on that are not yet present.
pub open spec fn merge_unique(l: Seq<u64>, xs: Seq<u64>, i: int) -> Seq<u64>
    decreases xs.len() - i,
    when 0 <= i
{
    if i >= xs.len() {
        l
    } else if l.contains(xs[i]) {
        merge_unique(l, xs, i + 1)
    } else {
        merge_unique(l.push(xs[i]), xs, i + 1)
    }
}

/// The nondeterministic automaton a well-formed pattern compiles to:
/// every construction-time id becomes a singleton composite state, and
/// the final states are the last frontier together with the alternation
/// leaves still pending at the end.
pub open spec fn nfa_of(s: Seq<char>) -> MachineView {
    let st = build_fold(s, s.len() as int);
    MachineView {
        transitions: st.trans.map_values(
            |t: (u64, u64, Input)| (seq![t.0], seq![t.1], t.2),
        ),
        finals: merge_unique(seq![st.frontier], st.leaves, 0).map_values(|id: u64| seq![id]),
    }
}

/// Inserting a fresh transition below the id bound keeps the set
/// duplicate-free and bounded.
proof fn lemma_insert_t_props(ts: Seq<(u64, u64, Input)>, t: (u64, u64, Input), hw: int)
    requires
        forall|k: int, l: int| 0 <= k < l < ts.len() ==> ts[k] != ts[l],
        forall|k: int| 0 <= k < ts.len() ==> (#[trigger] ts[k]).0 < hw && ts[k].1 < hw,
        t.0 < hw,
        t.1 < hw,
    ensures
        forall|k: int, l: int|
            0 <= k < l < insert_t(ts, t).len() ==> insert_t(ts, t)[k] != insert_t(ts, t)[l],
        forall|k: int|
            0 <= k < insert_t(ts, t).len() ==> (#[trigger] insert_t(ts, t)[k]).0 < hw && insert_t(
                ts,
                t,
            )[k].1 < hw,
        insert_t(ts, t).contains(t),
        forall|x: (u64, u64, Input)| ts.contains(x) ==> insert_t(ts, t).contains(x),
{
    let r = insert_t(ts, t);
    assert forall|x: (u64, u64, Input)| ts.contains(x) implies r.contains(x) by {
        let k = choose|k: int| 0 <= k < ts.len() && ts[k] == x;
        assert(r[k] == x);
    }
    if ts.contains(t) {
        let k = choose|k: int| 0 <= k < ts.len() && ts[k] == t;
    } else {
        assert(r[ts.len() as int] == t);
        assert forall|k: int, l: int| 0 <= k < l < r.len() implies r[k] != r[l] by {
            if l == ts.len() {
                assert(r[k] == ts[k]);
                if ts[k] == t {
                    assert(ts.contains(t));
                }
            }
        }
    }
}

/// Removing a transition keeps the set duplicate-free and bounded.
proof fn lemma_remove_t_props(ts: Seq<(u64, u64, Input)>, t: (u64, u64, Input), hw: int)
    requires
        ts.contains(t),
        forall|k: int, l: int| 0 <= k < l < ts.len() ==> ts[k] != ts[l],
        forall|k: int| 0 <= k < ts.len() ==> (#[trigger] ts[k]).0 < hw && ts[k].1 < hw,
    ensures
        forall|k: int, l: int|
            0 <= k < l < remove_t(ts, t).len() ==> remove_t(ts, t)[k] != remove_t(ts, t)[l],
        forall|k: int|
            0 <= k < remove_t(ts, t).len() ==> (#[trigger] remove_t(ts, t)[k]).0 < hw && remove_t(
                ts,
                t,
            )[k].1 < hw,
{
    ts.index_of_first_ensures(t);
    let j = ts.index_of_first(t).unwrap();
    assert(0 <= j < ts.len() && ts[j] == t);
    let r = remove_t(ts, t);
    assert forall|k: int, l: int| 0 <= k < l < r.len() implies r[k] != r[l] by {
        if k < j {
            assert(r[k] == ts[k]);
        } else {
            assert(r[k] == ts[k + 1]);
        }
        if l < j {
            assert(r[l] == ts[l]);
        } else {
            assert(r[l] == ts[l + 1]);
        }
    }
    assert forall|k: int| 0 <= k < r.len() implies (#[trigger] r[k]).0 < hw && r[k].1 < hw by {
        if k < j {
            assert(r[k] == ts[k]);
        } else {
            assert(r[k] == ts[k + 1]);
        }
    }
}

/// Whether `id` is an endpoint of some stored transition.
fn is_used(ts: &Vec<(u64, u64, Input)>, id: u64) -> (r: bool)
    ensures
        r == used_id(ts@, id),
{
    let n = ts.len();
    let mut i: usize = 0;
    while i < n
        invariant
            n == ts@.len(),
            i <= n,
            forall|k: int| 0 <= k < i ==> !((#[trigger] ts@[k]).0 == id || ts@[k].1 == id),
        decreases n - i,
    {
        if ts[i].0 == id || ts[i].1 == id {
            return true;
        }
        i += 1;
    }
    false
}

/// Whether the transition `t` is stored.
fn has_triple(ts: &Vec<(u64, u64, Input)>, t: (u64, u64, Input)) -> (r: bool)
    ensures
        r == ts@.contains(t),
{
    let n = ts.len();
    let mut i: usize = 0;
    while i < n
        invariant
            n == ts@.len(),
            i <= n,
            forall|k: int| 0 <= k < i ==> (#[trigger] ts@[k]) != t,
        decreases n - i,
    {
        if ts[i].0 == t.0 && ts[i].1 == t.1 && ts[i].2 == t.2 {
            proof {
                assert(ts@[i as int] == t);
            }
            return true;
        }
        i += 1;
    }
    proof {
        if ts@.contains(t) {
            let k = choose|k: int| 0 <= k < ts@.len() && ts@[k] == t;
        }
    }
    false
}

/// Stores `t` unless it is already present.
fn insert_triple(ts: &mut Vec<(u64, u64, Input)>, t: (u64, u64, Input))
    ensures
        final(ts)@ == insert_t(old(ts)@, t),
        final(ts)@.contains(t),
{
    if !has_triple(ts, t) {
        ts.push(t);
        proof {
            assert(ts@[ts@.len() - 1] == t);
        }
    }
}

/// Removes the stored transition `t`.
fn remove_triple(ts: &mut Vec<(u64, u64, Input)>, t: (u64, u64, Input))
    requires
        old(ts)@.contains(t),
    ensures
        final(ts)@ == remove_t(old(ts)@, t),
{
    let n = ts.len();
    let mut i: usize = 0;
    while i < n
        invariant
            n == ts@.len(),
            i <= n,
            ts@ == old(ts)@,
            forall|k: int| 0 <= k < i ==> (#[trigger] ts@[k]) != t,
        decreases n - i,
    {
        if ts[i].0 == t.0 && ts[i].1 == t.1 && ts[i].2 == t.2 {
            proof {
                assert(ts@[i as int] == t);
                ts@.index_of_first_ensures(t);
                let j = ts@.index_of_first(t).unwrap();
                assert(0 <= j < ts@.len() && ts@[j] == t);
                if j > i as int {
                    assert(ts@[i as int] != t);
                }
                assert(j == i as int);
            }
            ts.remove(i);
            return;
        }
        i += 1;
    }
    proof {
        let k = choose|k: int| 0 <= k < ts@.len() && ts@[k] == t;
        assert(false);
    }
}

/// Mints the first id at or past `start` that no stored transition
/// uses; `hw` bounds every id in use.
fn mint_id(ts: &Vec<(u64, u64, Input)>, start: u64, Ghost(hw): Ghost<int>) -> (id: u64)
    requires
        forall|k: int| 0 <= k < ts@.len() ==> (#[trigger] ts@[k]).0 < hw && ts@[k].1 < hw,
        0 <= hw <= u64::MAX,
    ensures
        is_minted(ts@, start, id),
        start <= hw ==> id <= hw,
{
    let ghost cap: int = if start as int >= hw {
        start as int
    } else {
        hw
    };
    let mut cand: u64 = start;
    loop
        invariant
            start <= cand,
            cand as int <= cap,
            forall|k: int| 0 <= k < ts@.len() ==> (#[trigger] ts@[k]).0 < hw && ts@[k].1 < hw,
            0 <= hw <= u64::MAX,
            cap == if start as int >= hw {
                start as int
            } else {
                hw
            },
            forall|x: u64| start <= x < cand ==> used_id(ts@, x),
        decreases cap - cand,
    {
        if !is_used(ts, cand) {
            return cand;
        }
        proof {
            if cand as int >= cap {
                assert forall|k: int|
                    0 <= k < ts@.len() implies !((#[trigger] ts@[k]).0 == cand || ts@[k].1
                    == cand) by {}
                assert(!used_id(ts@, cand));
            }
            assert((cand as int) < cap);
        }
        cand = cand + 1;
    }
}

impl StateMachine {
    /// Compiles a pattern into a nondeterministic automaton, or reports
    /// the first fault of a malformed pattern.
    #[verifier::loop_isolation(false)]
    #[verifier::rlimit(100)]
    pub fn build_nfa(s: &str) -> (r: Result<StateMachine, PatternError>)
        ensures
            match r {
                Ok(machine) => pattern_error(s@) is None && machine@ == nfa_of(s@)
                    && machine@.wf() && machine@.canonical_states(),
                Err(e) => pattern_error(s@) == Some(e),
            },
    {
        let n = s.unicode_len();
        if n == 0 {
            return Err(PatternError::EmptyPattern);
        }
        // First pass: reject a malformed pattern with its position.
        let mut opens: Vec<usize> = Vec::new();
        let mut seen_emit = false;
        let mut i: usize = 0;
        proof {
            assert(opens@.map_values(|p: usize| p as int) =~= Seq::<int>::empty());
        }
        while i < n
            invariant
                n == s@.len(),
                0 < n,
                i <= n,
                scan_error(s@, 0, Seq::<int>::empty()) == scan_error(
                    s@,
                    i as int,
                    opens@.map_values(|p: usize| p as int),
                ),
                seen_emit == exists|j: int| 0 <= j < i && emits(#[trigger] s@[j]),
            decreases n - i,
        {
            let ghost opens_g = opens@.map_values(|p: usize| p as int);
            let c = s.get_char(i);
            if c == ')' && opens.len() == 0 {
                proof {
                    assert(opens_g.len() == 0);
                }
                return Err(PatternError::UnmatchedClose(i));
            }
            if c == '*' {
                let prev_special = if i == 0 {
                    true
                } else {
                    let p = s.get_char(i - 1);
                    p == '(' || p == '|' || p == '*'
                };
                if prev_special || !seen_emit {
                    return Err(PatternError::MisplacedStar(i));
                }
            }
            if c == '(' {
                opens.push(i);
                proof {
                    assert(opens@.map_values(|p: usize| p as int) =~= opens_g.push(i as int));
                }
            } else if c == ')' {
                opens.pop();
                proof {
                    assert(opens@.map_values(|p: usize| p as int) =~= opens_g.drop_last());
                }
            }
            proof {
                if c != '(' && c != ')' {
                    assert(opens@.map_values(|p: usize| p as int) =~= opens_g);
                }
                assert(seen_emit || emits(c) == (exists|j: int|
                    0 <= j < i + 1 && emits(#[trigger] s@[j]))) by {
                    if emits(c) {
                        assert(emits(s@[i as int]));
                    } else {
                        if exists|j: int| 0 <= j < i + 1 && emits(#[trigger] s@[j]) {
                            let j = choose|j: int| 0 <= j < i + 1 && emits(#[trigger] s@[j]);
                            assert(j < i);
                        }
                    }
                }
            }
            if c != '(' && c != ')' && c != '|' && c != '*' {
                seen_emit = true;
            }
            i += 1;
        }
        if opens.len() > 0 {
            let pos = opens[opens.len() - 1];
            proof {
                let opens_g = opens@.map_values(|p: usize| p as int);
                assert(opens_g.last() == pos as int);
            }
            return Err(PatternError::UnmatchedOpen(pos));
        }
        proof {
            let opens_g = opens@.map_values(|p: usize| p as int);
            assert(opens_g.len() == 0);
            assert(pattern_error(s@) is None);
        }
        // Second pass: run the compiler.
        let mut trans: Vec<(u64, u64, Input)> = Vec::new();
        let mut frontier: u64 = 0;
        let mut last: Option<(u64, u64, Input)> = None;
        let mut groups: Vec<u64> = Vec::new();
        let mut leaves: Vec<u64> = Vec::new();
        let mut closed = false;
        let ghost mut hw: int = 1;
        let ghost mut opens_g: Seq<int> = Seq::empty();
        let mut i: usize = 0;
        proof {
            assert(build_fold(s@, 0) == init_state());
        }
        while i < n
            invariant
                n == s@.len(),
                0 < n,
                i <= n,
                trans@ == build_fold(s@, i as int).trans,
                frontier == build_fold(s@, i as int).frontier,
                last == build_fold(s@, i as int).last,
                groups@ == build_fold(s@, i as int).groups,
                leaves@ == build_fold(s@, i as int).leaves,
                closed == build_fold(s@, i as int).closed,
                forall|k: int, l: int| 0 <= k < l < trans@.len() ==> trans@[k] != trans@[l],
                1 <= hw <= i + 1,
                frontier < hw,
                forall|k: int| 0 <= k < trans@.len() ==> (#[trigger] trans@[k]).0 < hw
                    && trans@[k].1 < hw,
                forall|k: int| 0 <= k < groups@.len() ==> (#[trigger] groups@[k]) < hw,
                forall|k: int| 0 <= k < leaves@.len() ==> (#[trigger] leaves@[k]) < hw,
                last matches Some(t) ==> t.0 < hw && t.1 < hw && trans@.contains(t),
                (last is Some) == exists|j: int| 0 <= j < i && emits(#[trigger] s@[j]),
                groups@.len() == opens_g.len(),
                scan_error(s@, i as int, opens_g) is None,
            decreases n - i,
        {
            let ghost st = build_fold(s@, i as int);
            proof {
                assert(build_fold(s@, i + 1) == step(st, s@[i as int]));
            }
            let c = s.get_char(i);
            if c == '*' {
                proof {
                    assert(!(i == 0 || s@[i - 1] == '(' || s@[i - 1] == '|' || s@[i - 1] == '*'
                        || !(exists|j: int| 0 <= j < i && emits(#[trigger] s@[j]))));
                    assert(last is Some);
                }
                let lt = last.unwrap();
                let loop_t = (lt.0, lt.0, lt.2);
                proof {
                    lemma_remove_t_props(st.trans, lt, hw);
                    lemma_insert_t_props(remove_t(st.trans, lt), loop_t, hw);
                }
                remove_triple(&mut trans, lt);
                insert_triple(&mut trans, loop_t);
                frontier = lt.0;
                last = Some(loop_t);
            } else if c == '(' {
                groups.push(frontier);
                proof {
                    opens_g = opens_g.push(i as int);
                }
            } else if c == ')' {
                groups.pop();
                closed = true;
                proof {
                    assert(groups@ =~= st.groups.drop_last());
                    opens_g = opens_g.drop_last();
                }
            } else if c == '|' {
                leaves.push(frontier);
                if groups.len() > 0 {
                    frontier = groups[groups.len() - 1];
                    proof {
                        assert(frontier == st.groups.last());
                    }
                } else {
                    frontier = 0;
                }
                closed = false;
            } else {
                let sym = if c == '^' {
                    Input::Start
                } else if c == '$' {
                    Input::End
                } else if c == '.' {
                    Input::Any
                } else {
                    Input::Literal(c)
                };
                proof {
                    assert(sym == sym_of(c));
                    assert(frontier as int + 1 <= hw);
                }
                let dest = mint_id(&trans, frontier + 1, Ghost(hw));
                proof {
                    let sp = minted(st.trans, (st.frontier + 1) as u64);
                    assert(is_minted(st.trans, (st.frontier + 1) as u64, dest));
                    lemma_minted_unique(st.trans, (st.frontier + 1) as u64, dest, sp);
                }
                let ghost hw2: int = if dest as int + 1 > hw {
                    dest as int + 1
                } else {
                    hw
                };
                let main_t = (frontier, dest, sym);
                proof {
                    lemma_insert_t_props(st.trans, main_t, hw2);
                }
                insert_triple(&mut trans, main_t);
                if closed {
                    let ghost base = insert_t(st.trans, (st.frontier, dest, sym));
                    let nl = leaves.len();
                    let mut li: usize = 0;
                    while li < nl
                        invariant
                            nl == st.leaves.len(),
                            li <= nl,
                            leaves@ == st.leaves,
                            fan_in(trans@, st.leaves, dest, sym, li as int) == fan_in(
                                base,
                                st.leaves,
                                dest,
                                sym,
                                0,
                            ),
                            forall|k: int, l: int|
                                0 <= k < l < trans@.len() ==> trans@[k] != trans@[l],
                            forall|k: int|
                                0 <= k < trans@.len() ==> (#[trigger] trans@[k]).0 < hw2
                                    && trans@[k].1 < hw2,
                            trans@.contains((st.frontier, dest, sym)),
                            forall|j: int|
                                0 <= j < li ==> trans@.contains(
                                    (#[trigger] st.leaves[j], dest, sym),
                                ),
                        decreases nl - li,
                    {
                        proof {
                            lemma_insert_t_props(
                                trans@,
                                (st.leaves[li as int], dest, sym),
                                hw2,
                            );
                        }
                        insert_triple(&mut trans, (leaves[li], dest, sym));
                        li += 1;
                    }
                    proof {
                        assert(trans@ == fan_in(base, st.leaves, dest, sym, 0));
                    }
                    if nl > 0 {
                        last = Some((leaves[nl - 1], dest, sym));
                        proof {
                            assert(st.leaves.last() == st.leaves[nl - 1]);
                        }
                    } else {
                        last = Some(main_t);
                    }
                    leaves.clear();
                } else {
                    last = Some(main_t);
                }
                closed = false;
                frontier = dest;
                proof {
                    hw = hw2;
                }
            }
            proof {
                if emits(s@[i as int]) {
                    assert(exists|j: int| 0 <= j < i + 1 && emits(#[trigger] s@[j])) by {
                        assert(emits(s@[i as int]));
                    }
                } else {
                    if exists|j: int| 0 <= j < i + 1 && emits(#[trigger] s@[j]) {
                        let j = choose|j: int| 0 <= j < i + 1 && emits(#[trigger] s@[j]);
                        assert(j < i);
                    }
                }
            }
            i += 1;
        }
        proof {
            assert(trans@ == build_fold(s@, n as int).trans);
        }
        // Assemble the automaton: singleton composite states, and the
        // final states from the last frontier and the pending leaves.
        let mut fin_ids: Vec<u64> = Vec::new();
        fin_ids.push(frontier);
        let nl = leaves.len();
        let mut li: usize = 0;
        while li < nl
            invariant
                nl == leaves@.len(),
                li <= nl,
                forall|k: int, l: int| 0 <= k < l < fin_ids@.len() ==> fin_ids@[k] != fin_ids@[l],
                merge_unique(fin_ids@, leaves@, li as int) == merge_unique(
                    seq![build_fold(s@, n as int).frontier],
                    build_fold(s@, n as int).leaves,
                    0,
                ),
                leaves@ == build_fold(s@, n as int).leaves,
            decreases nl - li,
        {
            if !crate::canon::contains_id(&fin_ids, leaves[li]) {
                fin_ids.push(leaves[li]);
            }
            li += 1;
        }
        let nt = trans.len();
        let mut transitions: Vec<Transition> = Vec::new();
        let mut k: usize = 0;
        while k < nt
            invariant
                nt == trans@.len(),
                k <= nt,
                transitions@.len() == k,
                forall|kk: int|
                    0 <= kk < k ==> (#[trigger] transitions@[kk]).0@ == seq![trans@[kk].0]
                        && transitions@[kk].1@ == seq![trans@[kk].1] && transitions@[kk].2
                        == trans@[kk].2,
            decreases nt - k,
        {
            let t = trans[k];
            let mut a: Vec<u64> = Vec::new();
            a.push(t.0);
            let mut b: Vec<u64> = Vec::new();
            b.push(t.1);
            proof {
                assert(a@ =~= seq![trans@[k as int].0]);
                assert(b@ =~= seq![trans@[k as int].1]);
            }
            transitions.push((a, b, t.2));
            k += 1;
        }
        let nf = fin_ids.len();
        let mut final_states: Vec<State> = Vec::new();
        let mut k2: usize = 0;
        while k2 < nf
            invariant
                nf == fin_ids@.len(),
                k2 <= nf,
                final_states@.len() == k2,
                forall|kk: int|
                    0 <= kk < k2 ==> (#[trigger] final_states@[kk])@ == seq![fin_ids@[kk]],
            decreases nf - k2,
        {
            let mut f: Vec<u64> = Vec::new();
            f.push(fin_ids[k2]);
            proof {
                assert(f@ =~= seq![fin_ids@[k2 as int]]);
            }
            final_states.push(f);
            k2 += 1;
        }
        let ghost scalar_trans = trans@;
        let ghost scalar_fins = fin_ids@;
        let machine = StateMachine::from_parts(transitions, final_states);
        proof {
            let target = nfa_of(s@);
            assert(machine@.transitions =~= target.transitions);
            assert(merge_unique(scalar_fins, build_fold(s@, n as int).leaves, nl as int)
                == scalar_fins);
            assert(machine@.finals =~= target.finals);
            assert(machine@ =~= target);
            assert forall|x: int, y: int|
                0 <= x < y < machine@.transitions.len() implies machine@.transitions[x]
                    != machine@.transitions[y] by {
                assert(scalar_trans[x] != scalar_trans[y]);
                assert(machine@.transitions[x].0[0] == scalar_trans[x].0);
                assert(machine@.transitions[x].1[0] == scalar_trans[x].1);
                assert(machine@.transitions[y].0[0] == scalar_trans[y].0);
                assert(machine@.transitions[y].1[0] == scalar_trans[y].1);
            }
            assert forall|x: int, y: int|
                0 <= x < y < machine@.finals.len() implies machine@.finals[x]
                    != machine@.finals[y] by {
                assert(scalar_fins[x] != scalar_fins[y]);
                assert(machine@.finals[x][0] == scalar_fins[x]);
                assert(machine@.finals[y][0] == scalar_fins[y]);
            }
            // Every state is a singleton id vector, hence canonical.
            assert forall|t: (Seq<u64>, Seq<u64>, Input)|
                machine@.trans_set().contains(t) implies crate::canon::strictly_sorted(t.0)
                    && crate::canon::strictly_sorted(t.1) by {
                let k = choose|k: int|
                    0 <= k < machine@.transitions.len() && machine@.transitions[k] == t;
                assert(t.0.len() == 1 && t.1.len() == 1);
            }
            assert forall|f: Seq<u64>| machine@.finals_set().contains(f)
                implies crate::canon::strictly_sorted(f) by {
                let k = choose|k: int| 0 <= k < machine@.finals.len() && machine@.finals[k] == f;
                assert(f.len() == 1);
            }
        }
        Ok(machine)
    }

    /// Compiles a pattern and determinizes the result, as parsing a
    /// pattern string does: the returned automaton always satisfies the
    /// determinism invariant and is ready for matching.
    pub fn from_pattern(s: &str) -> (r: Result<StateMachine, PatternError>)
        ensures
            match r {
                Ok(machine) => {
                    &&& pattern_error(s@) is None
                    &&& machine@.deterministic()
                    &&& machine@.canonical_states()
                    &&& nfa_of(s@).deterministic() ==> machine@ == nfa_of(s@)
                    &&& !nfa_of(s@).deterministic() ==> machine@.wf()
                        && crate::determinize::dfa_built(nfa_of(s@), machine@)
                },
                Err(e) => pattern_error(s@) == Some(e),
            },
    {
        match Self::build_nfa(s) {
            Ok(nfa) => Ok(nfa.to_dfa()),
            Err(e) => Err(e),
        }
    }
}

impl core::str::FromStr for StateMachine {
    type Err = PatternError;

    fn from_str(s: &str) -> Result<Self, Self::Err> {
        StateMachine::from_pattern(s)
    }
}

} // verus!
