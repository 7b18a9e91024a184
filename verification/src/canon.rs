//! Small verified utilities on composite states: equality, membership,
//! and the canonical (sorted, duplicate-free) form of a member set.

use vstd::prelude::*;
use vstd::set_lib::*;

verus! {

/// A sorted, duplicate-free sequence: the canonical spelling of a set of
/// state ids.
pub open spec fn strictly_sorted(s: Seq<u64>) -> bool {
    forall|i: int, j: int| 0 <= i < j < s.len() ==> s[i] < s[j]
}

/// `q` is the canonical spelling of the member set `m`.
pub open spec fn is_canon(q: Seq<u64>, m: Set<u64>) -> bool {
    strictly_sorted(q) && forall|x: u64|
        #![trigger q.contains(x)]
        #![trigger m.contains(x)]
        q.contains(x) <==> m.contains(x)
}

/// Every id lies below this bound.
pub open spec fn id_bound() -> int {
    0x10000000000000000
}

/// All canonical states over ids below `b`: the universe that subset
/// construction discovers its composites in.
pub open spec fn canon_states_below(b: int) -> Set<Seq<u64>> {
    Set::new(|q: Seq<u64>| strictly_sorted(q) && forall|x: u64| q.contains(x) ==> x < b)
}

/// The universe of canonical states is finite: a worklist that only ever
/// records fresh canonical states must run dry.
pub proof fn lemma_canon_states_below_finite(b: int)
    requires
        0 <= b <= id_bound(),
    ensures
        canon_states_below(b).finite(),
    decreases b,
{
    broadcast use vstd::set::group_set_axioms;

    if b == 0 {
        assert forall|q: Seq<u64>| canon_states_below(0).contains(q) implies q
            == Seq::<u64>::empty() by {
            if q.len() > 0 {
                assert(q.contains(q[0]));
            }
            assert(q =~= Seq::<u64>::empty());
        }
        assert(canon_states_below(0) =~= Set::empty().insert(Seq::<u64>::empty()));
    } else {
        lemma_canon_states_below_finite(b - 1);
        let prev = canon_states_below(b - 1);
        let last = (b - 1) as u64;
        let f = |q: Seq<u64>| q.push(last);
        let with_last = prev.map(f);
        prev.lemma_map_finite(f);
        assert forall|q: Seq<u64>| canon_states_below(b).contains(q) implies prev.union(
            with_last,
        ).contains(q) by {
            if q.contains(last) {
                let ln = q.len() as int;
                let k = choose|k: int| 0 <= k < ln && q[k] == last;
                if k < ln - 1 {
                    assert(q[k] < q[ln - 1]);
                    assert(q.contains(q[ln - 1]));
                    assert(false);
                }
                assert(k == ln - 1);
                let front = q.subrange(0, ln - 1);
                assert forall|x: u64| front.contains(x) implies x < b - 1 by {
                    let i = choose|i: int| 0 <= i < front.len() && front[i] == x;
                    assert(q[i] == x);
                    assert(q[i] < q[ln - 1]);
                }
                assert(prev.contains(front));
                assert(q =~= front.push(last));
                assert(q == f(front));
                assert(with_last.contains(q));
            } else {
                assert forall|x: u64| q.contains(x) implies x < b - 1 by {
                    assert(x != last);
                }
                assert(prev.contains(q));
            }
        }
        lemma_set_subset_finite(prev.union(with_last), canon_states_below(b));
    }
}

/// Element-for-element equality of two states.
pub fn state_eq(a: &Vec<u64>, b: &Vec<u64>) -> (r: bool)
    ensures
        r == (a@ == b@),
{
    if a.len() != b.len() {
        proof {
            assert(a@ != b@);
        }
        return false;
    }
    let n = a.len();
    let mut i: usize = 0;
    while i < n
        invariant
            n == a.len(),
            n == b.len(),
            i <= n,
            forall|k: int| 0 <= k < i ==> a@[k] == b@[k],
        decreases n - i,
    {
        if a[i] != b[i] {
            proof {
                assert(a@[i as int] != b@[i as int]);
            }
            return false;
        }
        i += 1;
    }
    proof {
        assert(a@ =~= b@);
    }
    true
}

/// Folds every member of `other` into the sorted, duplicate-free state
/// `acc`: afterwards `acc` spells the union of the two member sets.
pub fn union_into(acc: &mut Vec<u64>, other: &Vec<u64>)
    requires
        strictly_sorted(old(acc)@),
    ensures
        strictly_sorted(final(acc)@),
        forall|y: u64|
            #![trigger final(acc)@.contains(y)]
            #![trigger old(acc)@.contains(y)]
            #![trigger other@.contains(y)]
            final(acc)@.contains(y) <==> (old(acc)@.contains(y) || other@.contains(y)),
{
    let n = other.len();
    let mut i: usize = 0;
    while i < n
        invariant
            n == other.len(),
            i <= n,
            strictly_sorted(acc@),
            forall|y: u64|
                acc@.contains(y) <==> (old(acc)@.contains(y) || other@.subrange(
                    0,
                    i as int,
                ).contains(y)),
        decreases n - i,
    {
        let ghost pre = acc@;
        let ghost x = other@[i as int];
        sorted_insert(acc, other[i]);
        proof {
            let sub_i = other@.subrange(0, i as int);
            let sub_i1 = other@.subrange(0, i + 1);
            assert forall|y: u64| acc@.contains(y) implies (old(acc)@.contains(y)
                || sub_i1.contains(y)) by {
                if pre.contains(y) {
                    if sub_i.contains(y) {
                        let k = choose|k: int| 0 <= k < sub_i.len() && sub_i[k] == y;
                        assert(sub_i1[k] == y);
                    }
                } else {
                    assert(y == x);
                    assert(sub_i1[i as int] == x);
                }
            }
            assert forall|y: u64| old(acc)@.contains(y) || sub_i1.contains(y) implies
                acc@.contains(y) by {
                if !old(acc)@.contains(y) {
                    let k = choose|k: int| 0 <= k < sub_i1.len() && sub_i1[k] == y;
                    if k < i {
                        assert(sub_i[k] == y);
                        assert(pre.contains(y));
                    } else {
                        assert(y == x);
                    }
                }
            }
        }
        i += 1;
    }
    proof {
        assert(other@.subrange(0, n as int) =~= other@);
    }
}

/// An element-for-element copy of a state.
pub fn clone_state(s: &Vec<u64>) -> (r: Vec<u64>)
    ensures
        r@ == s@,
{
    let n = s.len();
    let mut r: Vec<u64> = Vec::new();
    let mut i: usize = 0;
    while i < n
        invariant
            n == s.len(),
            i <= n,
            r@ == s@.subrange(0, i as int),
        decreases n - i,
    {
        r.push(s[i]);
        proof {
            assert(r@ =~= s@.subrange(0, i + 1));
        }
        i += 1;
    }
    proof {
        assert(r@ =~= s@);
    }
    r
}

/// Whether the state `x` occurs in the list `l`.
pub fn contains_state(l: &Vec<Vec<u64>>, x: &Vec<u64>) -> (r: bool)
    ensures
        r == exists|i: int| 0 <= i < l@.len() && (#[trigger] l@[i])@ == x@,
{
    let n = l.len();
    let mut i: usize = 0;
    while i < n
        invariant
            n == l.len(),
            i <= n,
            forall|k: int| 0 <= k < i ==> (#[trigger] l@[k])@ != x@,
        decreases n - i,
    {
        if state_eq(&l[i], x) {
            return true;
        }
        i += 1;
    }
    false
}

/// Whether the id `x` occurs in the state `s`.
pub fn contains_id(s: &Vec<u64>, x: u64) -> (r: bool)
    ensures
        r == s@.contains(x),
{
    let n = s.len();
    let mut i: usize = 0;
    while i < n
        invariant
            n == s.len(),
            i <= n,
            forall|k: int| 0 <= k < i ==> s@[k] != x,
        decreases n - i,
    {
        if s[i] == x {
            return true;
        }
        i += 1;
    }
    proof {
        if s@.contains(x) {
            let k = choose|k: int| 0 <= k < s@.len() && s@[k] == x;
        }
    }
    false
}

/// Inserts `x` into the sorted, duplicate-free state `s`, keeping it
/// sorted and duplicate-free; a present member is left alone.
#[verifier::rlimit(50)]
pub fn sorted_insert(s: &mut Vec<u64>, x: u64)
    requires
        strictly_sorted(old(s)@),
    ensures
        strictly_sorted(final(s)@),
        forall|y: u64|
            #![trigger final(s)@.contains(y)]
            #![trigger old(s)@.contains(y)]
            final(s)@.contains(y) <==> (old(s)@.contains(y) || y == x),
{
    let n = s.len();
    let mut i: usize = 0;
    while i < n
        invariant
            n == s.len(),
            i <= n,
            s@ == old(s)@,
            strictly_sorted(s@),
            forall|k: int| 0 <= k < i ==> s@[k] < x,
        decreases n - i,
    {
        if s[i] == x {
            proof {
                assert(old(s)@.contains(x));
            }
            return;
        }
        if s[i] > x {
            let ghost pre = s@;
            s.insert(i, x);
            proof {
                assert forall|a: int, b: int| 0 <= a < b < s@.len() implies s@[a] < s@[b] by {
                    if b > i {
                        assert(s@[b] == pre[b - 1]);
                        if b - 1 > i {
                            assert(pre[i as int] < pre[b - 1]);
                        }
                        assert(x < pre[b - 1]);
                    }
                    if a < i {
                        assert(s@[a] == pre[a]);
                        assert(pre[a] < x);
                    }
                    if a > i {
                        assert(s@[a] == pre[a - 1]);
                        assert(pre[a - 1] < pre[b - 1]);
                    }
                }
                assert(pre == old(s)@);
                assert forall|y: u64|
                    #![trigger s@.contains(y)]
                    #![trigger old(s)@.contains(y)]
                    s@.contains(y) <==> (old(s)@.contains(y) || y == x) by {
                    if s@.contains(y) {
                        let k = choose|k: int| 0 <= k < s@.len() && s@[k] == y;
                        if k < i {
                            assert(pre[k] == y);
                            assert(pre.contains(y));
                        } else if k > i {
                            assert(pre[k - 1] == y);
                            assert(pre.contains(y));
                        }
                    }
                    if old(s)@.contains(y) {
                        let k = choose|k: int| 0 <= k < pre.len() && pre[k] == y;
                        if k < i {
                            assert(s@[k] == y);
                        } else {
                            assert(s@[k + 1] == y);
                        }
                        assert(s@.contains(y));
                    }
                    if y == x {
                        assert(s@[i as int] == x);
                        assert(s@.contains(y));
                    }
                }
            }
            return;
        }
        i += 1;
    }
    let ghost pre = s@;
    s.push(x);
    proof {
        assert forall|y: u64| s@.contains(y) implies (pre.contains(y) || y == x) by {
            let k = choose|k: int| 0 <= k < s@.len() && s@[k] == y;
            if k < pre.len() {
                assert(pre[k] == y);
            }
        }
        assert forall|y: u64| pre.contains(y) || y == x implies s@.contains(y) by {
            if y == x {
                assert(s@[pre.len() as int] == x);
            } else {
                let k = choose|k: int| 0 <= k < pre.len() && pre[k] == y;
                assert(s@[k] == y);
            }
        }
    }
}

} // verus!
