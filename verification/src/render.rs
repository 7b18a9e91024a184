//! Rendering an automaton as a directed-graph text description: one
//! labeled edge per transition, and a distinguishing shape for every
//! final state.

use vstd::prelude::*;
use vstd::seq_lib::*;

use crate::machine::Input;
use crate::machine::MachineView;
use crate::machine::StateMachine;

verus! {

/// The decimal digit character for `d`.
pub open spec fn digit_char(d: nat) -> char {
    if d == 0 {
        '0'
    } else if d == 1 {
        '1'
    } else if d == 2 {
        '2'
    } else if d == 3 {
        '3'
    } else if d == 4 {
        '4'
    } else if d == 5 {
        '5'
    } else if d == 6 {
        '6'
    } else if d == 7 {
        '7'
    } else if d == 8 {
        '8'
    } else {
        '9'
    }
}

/// The decimal spelling of `n`.
pub open spec fn dec_digits(n: nat) -> Seq<char>
    decreases n,
{
    if n < 10 {
        seq![digit_char(n)]
    } else {
        dec_digits(n / 10).push(digit_char(n % 10))
    }
}

/// The member ids of a composite state from position `i` on, separated
/// by commas.
pub open spec fn ids_label(s: Seq<u64>, i: int) -> Seq<char>
    decreases s.len() - i,
    when 0 <= i
{
    if i >= s.len() {
        Seq::empty()
    } else {
        (if i > 0 {
            seq![',', ' ']
        } else {
            Seq::<char>::empty()
        }) + dec_digits(s[i] as nat) + ids_label(s, i + 1)
    }
}

/// A composite state's label: its member ids in brackets.
pub open spec fn state_label(s: Seq<u64>) -> Seq<char> {
    seq!['['] + ids_label(s, 0) + seq![']']
}

/// A symbol's label: the anchors keep their pattern spelling, both
/// wildcard kinds render as the dot glyph, and a literal is quoted.
pub open spec fn input_label(sym: Input) -> Seq<char> {
    match sym {
        Input::Start => seq!['^'],
        Input::End => seq!['$'],
        Input::Any => seq!['.'],
        Input::AnyOther => seq!['.'],
        Input::Literal(c) => seq!['\'', c, '\''],
    }
}

/// One edge of the graph description.
pub open spec fn edge_line(t: (Seq<u64>, Seq<u64>, Input)) -> Seq<char> {
    seq!['"'] + state_label(t.0) + "\" -> \""@ + state_label(t.1) + "\" [ label=\""@
        + input_label(t.2) + "\" ]\n"@
}

/// One final-state mark of the graph description.
pub open spec fn final_line(f: Seq<u64>) -> Seq<char> {
    seq!['"'] + state_label(f) + "\" [ shape=doublecircle ]\n"@
}

/// The edges from position `i` on.
pub open spec fn edges_text(ts: Seq<(Seq<u64>, Seq<u64>, Input)>, i: int) -> Seq<char>
    decreases ts.len() - i,
    when 0 <= i
{
    if i >= ts.len() {
        Seq::empty()
    } else {
        edge_line(ts[i]) + edges_text(ts, i + 1)
    }
}

/// The final-state marks from position `i` on.
pub open spec fn finals_text(fs: Seq<Seq<u64>>, i: int) -> Seq<char>
    decreases fs.len() - i,
    when 0 <= i
{
    if i >= fs.len() {
        Seq::empty()
    } else {
        final_line(fs[i]) + finals_text(fs, i + 1)
    }
}

/// The whole graph description of an automaton.
pub open spec fn dot_of(m: MachineView) -> Seq<char> {
    "digraph graphname{\n"@ + edges_text(m.transitions, 0) + finals_text(m.finals, 0)
        + seq!['}']
}

/// Relies on String::push: appends exactly the one character.
#[verifier::external_body]
fn push_char(s: &mut String, c: char)
    ensures
        final(s)@ == old(s)@.push(c),
{
    s.push(c);
}

/// Appends the decimal spelling of `n`.
fn push_dec(s: &mut String, n: u64)
    ensures
        final(s)@ == old(s)@ + dec_digits(n as nat),
    decreases n,
{
    if n >= 10 {
        push_dec(s, n / 10);
    }
    let d = n % 10;
    let c = if d == 0 {
        '0'
    } else if d == 1 {
        '1'
    } else if d == 2 {
        '2'
    } else if d == 3 {
        '3'
    } else if d == 4 {
        '4'
    } else if d == 5 {
        '5'
    } else if d == 6 {
        '6'
    } else if d == 7 {
        '7'
    } else if d == 8 {
        '8'
    } else {
        '9'
    };
    proof {
        assert(c == digit_char((n % 10) as nat));
    }
    push_char(s, c);
    proof {
        if n < 10 {
            assert(n % 10 == n);
            assert(dec_digits(n as nat) =~= seq![digit_char(n as nat)]);
            assert(final(s)@ =~= old(s)@ + dec_digits(n as nat));
        } else {
            assert(final(s)@ =~= old(s)@ + dec_digits((n / 10) as nat).push(
                digit_char((n % 10) as nat),
            ));
        }
    }
}

/// Appends a composite state's label.
fn push_state(s: &mut String, st: &Vec<u64>)
    ensures
        final(s)@ == old(s)@ + state_label(st@),
{
    push_char(s, '[');
    let n = st.len();
    let mut i: usize = 0;
    while i < n
        invariant
            n == st@.len(),
            i <= n,
            s@ + ids_label(st@, i as int) == old(s)@ + seq!['['] + ids_label(st@, 0),
        decreases n - i,
    {
        let ghost pre = s@;
        if i > 0 {
            push_char(s, ',');
            push_char(s, ' ');
        }
        push_dec(s, st[i]);
        proof {
            if i > 0 {
                assert(s@ =~= pre + seq![',', ' '] + dec_digits(st@[i as int] as nat));
            } else {
                assert(s@ =~= pre + Seq::<char>::empty() + dec_digits(st@[i as int] as nat));
            }
            assert(ids_label(st@, i as int) == (if i > 0 {
                seq![',', ' ']
            } else {
                Seq::<char>::empty()
            }) + dec_digits(st@[i as int] as nat) + ids_label(st@, i + 1));
            assert(s@ + ids_label(st@, i + 1) =~= pre + ids_label(st@, i as int));
        }
        i += 1;
    }
    proof {
        assert(ids_label(st@, n as int) =~= Seq::<char>::empty());
        assert(s@ =~= old(s)@ + seq!['['] + ids_label(st@, 0));
    }
    push_char(s, ']');
    proof {
        assert(final(s)@ =~= old(s)@ + state_label(st@));
    }
}

/// Appends a symbol's label.
fn push_input(s: &mut String, sym: Input)
    ensures
        final(s)@ == old(s)@ + input_label(sym),
{
    match sym {
        Input::Start => {
            push_char(s, '^');
            proof {
                assert(final(s)@ =~= old(s)@ + input_label(sym));
            }
        },
        Input::End => {
            push_char(s, '$');
            proof {
                assert(final(s)@ =~= old(s)@ + input_label(sym));
            }
        },
        Input::Any => {
            push_char(s, '.');
            proof {
                assert(final(s)@ =~= old(s)@ + input_label(sym));
            }
        },
        Input::AnyOther => {
            push_char(s, '.');
            proof {
                assert(final(s)@ =~= old(s)@ + input_label(sym));
            }
        },
        Input::Literal(c) => {
            push_char(s, '\'');
            push_char(s, c);
            push_char(s, '\'');
            proof {
                assert(final(s)@ =~= old(s)@ + input_label(sym));
            }
        },
    }
}

impl StateMachine {
    /// Renders the automaton as a directed-graph text description:
    /// every transition becomes one labeled edge, and every final state
    /// is marked with a distinguishing shape.
    pub fn to_dot(&self) -> (r: String)
        ensures
            r@ == dot_of(self@),
    {
        let mut out = String::new();
        out.append("digraph graphname{\n");
        proof {
            assert(out@ =~= "digraph graphname{\n"@);
        }
        let ghost header = "digraph graphname{\n"@;
        let nt = self.trans_len();
        let mut i: usize = 0;
        while i < nt
            invariant
                nt == self@.transitions.len(),
                i <= nt,
                out@ + edges_text(self@.transitions, i as int) == header + edges_text(
                    self@.transitions,
                    0,
                ),
            decreases nt - i,
        {
            let ghost pre = out@;
            let t = self.trans_ref(i);
            push_char(&mut out, '"');
            push_state(&mut out, &t.0);
            out.append("\" -> \"");
            push_state(&mut out, &t.1);
            out.append("\" [ label=\"");
            push_input(&mut out, t.2);
            out.append("\" ]\n");
            proof {
                let tv = self@.transitions[i as int];
                assert(tv == ((t.0)@, (t.1)@, t.2));
                assert(out@ =~= pre + edge_line(tv));
                assert(edges_text(self@.transitions, i as int) == edge_line(tv) + edges_text(
                    self@.transitions,
                    i + 1,
                ));
                assert(out@ + edges_text(self@.transitions, i + 1) =~= pre + edges_text(
                    self@.transitions,
                    i as int,
                ));
            }
            i += 1;
        }
        proof {
            assert(edges_text(self@.transitions, nt as int) =~= Seq::<char>::empty());
            assert(out@ =~= header + edges_text(self@.transitions, 0));
        }
        let ghost mid = out@;
        let nf = self.finals_len();
        let mut j: usize = 0;
        while j < nf
            invariant
                nf == self@.finals.len(),
                j <= nf,
                out@ + finals_text(self@.finals, j as int) == mid + finals_text(self@.finals, 0),
            decreases nf - j,
        {
            let ghost pre = out@;
            let f = self.finals_ref(j);
            push_char(&mut out, '"');
            push_state(&mut out, f);
            out.append("\" [ shape=doublecircle ]\n");
            proof {
                let fv = self@.finals[j as int];
                assert(fv == f@);
                assert(out@ =~= pre + final_line(fv));
                assert(finals_text(self@.finals, j as int) == final_line(fv) + finals_text(
                    self@.finals,
                    j + 1,
                ));
                assert(out@ + finals_text(self@.finals, j + 1) =~= pre + finals_text(
                    self@.finals,
                    j as int,
                ));
            }
            j += 1;
        }
        proof {
            assert(finals_text(self@.finals, nf as int) =~= Seq::<char>::empty());
            assert(out@ =~= mid + finals_text(self@.finals, 0));
        }
        push_char(&mut out, '}');
        proof {
            assert(out@ =~= dot_of(self@));
        }
        out
    }
}

} // verus!
