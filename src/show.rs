// Formulas in the notation of LaTeX.

use vstd::prelude::*;

use crate::expression::{lemma_terms_of, term_of, terms_of, Expression, Term};
use crate::magnitude::{display_of, push_chars};
use crate::text::string_of;

verus! {

/// Whether `t` is shown without parentheses where it stands inside another
/// formula.
pub open spec fn is_atom(t: Term) -> bool {
    t is Mag || t is Var || t is Unit || t is Sqrt || t is Rand || t is Not
}

/// A formula in the notation of LaTeX.
pub open spec fn show_text(t: Term) -> Seq<char>
    decreases t, 0nat,
{
    match t {
        Term::Mag(m) => if m.wf() {
            display_of(m)
        } else {
            "?"@
        },
        Term::Var(n) => n,
        Term::Add(s) => show_sum(s),
        Term::Neg(x) => "-"@ + group_text(*x),
        Term::Prod(s) => show_joined(s, " \\cdot "@),
        Term::Div(a, b) => " \\frac{"@ + show_text(*a) + "}{"@ + show_text(*b) + "} "@,
        Term::Unit(x, _) => show_text(*x),
        Term::Sqrt(x) => "\\sqrt{"@ + show_text(*x) + "}"@,
        Term::Rand(a, b) => "\\operatorname{rand}("@ + group_text(*a) + ", "@ + group_text(*b) + ")"@,
        Term::And(s) => show_joined(s, " && "@),
        Term::Or(s) => show_joined(s, " || "@),
        Term::Not(x) => "\\operatorname{not}("@ + show_text(*x) + ")"@,
        Term::Eq(s) => show_joined(s, " == "@),
        Term::Neq(s) => show_joined(s, " \\not= "@),
        Term::Le(s) => show_joined(s, " < "@),
        Term::Leq(s) => show_joined(s, " \\leq "@),
        Term::Ge(s) => show_joined(s, " > "@),
        Term::Geq(s) => show_joined(s, " \\geq "@),
    }
}

/// `t` as an operand: in parentheses unless it is an atom.
pub open spec fn group_text(t: Term) -> Seq<char>
    decreases t, 1nat,
{
    if is_atom(t) {
        show_text(t)
    } else {
        "( "@ + show_text(t) + " )"@
    }
}

/// The operands of `s`, each as an operand, with `sep` between them.
pub open spec fn show_joined(s: Seq<Term>, sep: Seq<char>) -> Seq<char>
    decreases s, 2nat,
{
    if s.len() == 0 {
        Seq::empty()
    } else if s.len() == 1 {
        group_text(s[0])
    } else {
        show_joined(s.subrange(0, s.len() - 1), sep) + sep + group_text(s[s.len() - 1])
    }
}

/// A sum: `+` between the terms, except before a negated term, which shows
/// its own sign.
pub open spec fn show_sum(s: Seq<Term>) -> Seq<char>
    decreases s, 2nat,
{
    if s.len() == 0 {
        Seq::empty()
    } else if s.len() == 1 {
        group_text(s[0])
    } else if s[s.len() - 1] is Neg {
        show_sum(s.subrange(0, s.len() - 1)) + group_text(s[s.len() - 1])
    } else {
        show_sum(s.subrange(0, s.len() - 1)) + " + "@ + group_text(s[s.len() - 1])
    }
}

fn is_atom_exec(e: &Expression) -> (r: bool)
    ensures
        r == is_atom(e@),
{
    match e {
        Expression::Magnitude(_) | Expression::Variable(_) | Expression::Unit(_, _)
        | Expression::Sqrt(_) | Expression::Rand(_, _) | Expression::Not(_) => true,
        _ => false,
    }
}

fn push_string(out: &mut Vec<char>, s: &String)
    ensures
        final(out)@ == old(out)@ + s@,
{
    push_chars(out, s.as_str());
}

fn show_into(e: &Expression, out: &mut Vec<char>)
    ensures
        final(out)@ == old(out)@ + show_text(e@),
    decreases e, 0nat,
{
    let ghost o0 = out@;
    match e {
        Expression::Magnitude(m) => {
            if m.is_wf() {
                let t = m.show();
                push_string(out, &t);
            } else {
                push_chars(out, "?");
            }
        },
        Expression::Variable(n) => push_string(out, n),
        Expression::Add(v) => sum_into(v, out),
        Expression::Neg(x) => {
            push_chars(out, "-");
            group_into(x, out);
        },
        Expression::Prod(v) => joined_into(v, " \\cdot ", out),
        Expression::Div(a, b) => {
            push_chars(out, " \\frac{");
            show_into(a, out);
            push_chars(out, "}{");
            show_into(b, out);
            push_chars(out, "} ");
        },
        Expression::Unit(x, _) => show_into(x, out),
        Expression::Sqrt(x) => {
            push_chars(out, "\\sqrt{");
            show_into(x, out);
            push_chars(out, "}");
        },
        Expression::Rand(a, b) => {
            push_chars(out, "\\operatorname{rand}(");
            group_into(a, out);
            push_chars(out, ", ");
            group_into(b, out);
            push_chars(out, ")");
        },
        Expression::And(v) => joined_into(v, " && ", out),
        Expression::Or(v) => joined_into(v, " || ", out),
        Expression::Not(x) => {
            push_chars(out, "\\operatorname{not}(");
            show_into(x, out);
            push_chars(out, ")");
        },
        Expression::Eq(v) => joined_into(v, " == ", out),
        Expression::Neq(v) => joined_into(v, " \\not= ", out),
        Expression::Le(v) => joined_into(v, " < ", out),
        Expression::Leq(v) => joined_into(v, " \\leq ", out),
        Expression::Ge(v) => joined_into(v, " > ", out),
        Expression::Geq(v) => joined_into(v, " \\geq ", out),
    }
    assert(out@ =~= o0 + show_text(e@));
}

fn group_into(e: &Expression, out: &mut Vec<char>)
    ensures
        final(out)@ == old(out)@ + group_text(e@),
    decreases e, 1nat,
{
    let ghost o0 = out@;
    if is_atom_exec(e) {
        show_into(e, out);
    } else {
        push_chars(out, "( ");
        show_into(e, out);
        push_chars(out, " )");
        assert(out@ =~= o0 + group_text(e@));
    }
}

fn joined_into(v: &Vec<Expression>, sep: &str, out: &mut Vec<char>)
    ensures
        final(out)@ == old(out)@ + show_joined(terms_of(v@), sep@),
    decreases v, 2nat,
{
    let ghost o0 = out@;
    let ghost t = terms_of(v@);
    proof {
        lemma_terms_of(v@);
        assert(t.subrange(0, 0) =~= Seq::<Term>::empty());
        assert(out@ =~= o0 + show_joined(t.subrange(0, 0), sep@));
    }
    let mut i: usize = 0;
    while i < v.len()
        invariant
            i <= v@.len(),
            t == terms_of(v@),
            t.len() == v@.len(),
            forall|j: int| 0 <= j < v@.len() ==> #[trigger] t[j] == term_of(v@[j]),
            out@ == o0 + show_joined(t.subrange(0, i as int), sep@),
        decreases v@.len() - i,
    {
        let ghost p = t.subrange(0, i + 1);
        proof {
            assert(p.subrange(0, p.len() - 1) =~= t.subrange(0, i as int));
        }
        if i > 0 {
            push_chars(out, sep);
        }
        group_into(&v[i], out);
        proof {
            if i == 0 {
                assert(t.subrange(0, 0) =~= Seq::<Term>::empty());
                assert(out@ =~= o0 + show_joined(p, sep@));
            } else {
                assert(out@ =~= o0 + show_joined(p, sep@));
            }
        }
        i = i + 1;
    }
    assert(t.subrange(0, v@.len() as int) =~= t);
}

fn sum_into(v: &Vec<Expression>, out: &mut Vec<char>)
    ensures
        final(out)@ == old(out)@ + show_sum(terms_of(v@)),
    decreases v, 2nat,
{
    let ghost o0 = out@;
    let ghost t = terms_of(v@);
    proof {
        lemma_terms_of(v@);
        assert(t.subrange(0, 0) =~= Seq::<Term>::empty());
        assert(out@ =~= o0 + show_sum(t.subrange(0, 0)));
    }
    let mut i: usize = 0;
    while i < v.len()
        invariant
            i <= v@.len(),
            t == terms_of(v@),
            t.len() == v@.len(),
            forall|j: int| 0 <= j < v@.len() ==> #[trigger] t[j] == term_of(v@[j]),
            out@ == o0 + show_sum(t.subrange(0, i as int)),
        decreases v@.len() - i,
    {
        let ghost p = t.subrange(0, i + 1);
        proof {
            assert(p.subrange(0, p.len() - 1) =~= t.subrange(0, i as int));
            assert(p[p.len() - 1] == t[i as int]);
        }
        let negated = match &v[i] {
            Expression::Neg(_) => true,
            _ => false,
        };
        if i > 0 && !negated {
            push_chars(out, " + ");
        }
        group_into(&v[i], out);
        proof {
            if i == 0 {
                assert(t.subrange(0, 0) =~= Seq::<Term>::empty());
            }
            assert(out@ =~= o0 + show_sum(p));
        }
        i = i + 1;
    }
    assert(t.subrange(0, v@.len() as int) =~= t);
}

impl Expression {
    /// The formula in the notation of LaTeX; see `show_text`.
    pub fn show(&self) -> (r: String)
        ensures
            r@ == show_text(self@),
    {
        let mut out: Vec<char> = Vec::new();
        show_into(self, &mut out);
        assert(out@ =~= show_text(self@));
        string_of(out.as_slice())
    }
}

} // verus!
