// Formulas as trees, their mathematical view, and the combinators that keep
// sums, products and chains flat and signs in front.

use vstd::prelude::*;

use crate::magnitude::{Magnitude, MagnitudeView};

verus! {

/// An arithmetic or logical formula over magnitudes and named variables.
///
/// The n-ary variants are kept flat: an `Add` never holds an `Add` built by
/// the combinators below, and a group of one collapses to its element.
#[derive(Debug)]
pub enum Expression {
    Magnitude(Magnitude),
    Variable(String),
    Add(Vec<Expression>),
    Neg(Box<Expression>),
    Prod(Vec<Expression>),
    Div(Box<Expression>, Box<Expression>),
    Unit(Box<Expression>, String),
    Sqrt(Box<Expression>),
    Rand(Box<Expression>, Box<Expression>),
    And(Vec<Expression>),
    Or(Vec<Expression>),
    Not(Box<Expression>),
    Eq(Vec<Expression>),
    Neq(Vec<Expression>),
    Le(Vec<Expression>),
    Leq(Vec<Expression>),
    Ge(Vec<Expression>),
    Geq(Vec<Expression>),
}

/// What an expression stands for: the same tree over mathematical values.
pub enum Term {
    Mag(MagnitudeView),
    Var(Seq<char>),
    Add(Seq<Term>),
    Neg(Box<Term>),
    Prod(Seq<Term>),
    Div(Box<Term>, Box<Term>),
    Unit(Box<Term>, Seq<char>),
    Sqrt(Box<Term>),
    Rand(Box<Term>, Box<Term>),
    And(Seq<Term>),
    Or(Seq<Term>),
    Not(Box<Term>),
    Eq(Seq<Term>),
    Neq(Seq<Term>),
    Le(Seq<Term>),
    Leq(Seq<Term>),
    Ge(Seq<Term>),
    Geq(Seq<Term>),
}

pub open spec fn term_of(e: Expression) -> Term
    decreases e,
{
    match e {
        Expression::Magnitude(m) => Term::Mag(m@),
        Expression::Variable(n) => Term::Var(n@),
        Expression::Add(v) => Term::Add(terms_of(v@)),
        Expression::Neg(x) => Term::Neg(Box::new(term_of(*x))),
        Expression::Prod(v) => Term::Prod(terms_of(v@)),
        Expression::Div(a, b) => Term::Div(Box::new(term_of(*a)), Box::new(term_of(*b))),
        Expression::Unit(x, u) => Term::Unit(Box::new(term_of(*x)), u@),
        Expression::Sqrt(x) => Term::Sqrt(Box::new(term_of(*x))),
        Expression::Rand(a, b) => Term::Rand(Box::new(term_of(*a)), Box::new(term_of(*b))),
        Expression::And(v) => Term::And(terms_of(v@)),
        Expression::Or(v) => Term::Or(terms_of(v@)),
        Expression::Not(x) => Term::Not(Box::new(term_of(*x))),
        Expression::Eq(v) => Term::Eq(terms_of(v@)),
        Expression::Neq(v) => Term::Neq(terms_of(v@)),
        Expression::Le(v) => Term::Le(terms_of(v@)),
        Expression::Leq(v) => Term::Leq(terms_of(v@)),
        Expression::Ge(v) => Term::Ge(terms_of(v@)),
        Expression::Geq(v) => Term::Geq(terms_of(v@)),
    }
}

pub open spec fn terms_of(s: Seq<Expression>) -> Seq<Term>
    decreases s,
{
    if s.len() == 0 {
        Seq::empty()
    } else {
        terms_of(s.subrange(0, s.len() - 1)).push(term_of(s[s.len() - 1]))
    }
}

impl View for Expression {
    type V = Term;

    open spec fn view(&self) -> Term {
        term_of(*self)
    }
}

pub proof fn lemma_terms_of(s: Seq<Expression>)
    ensures
        terms_of(s).len() == s.len(),
        forall|i: int| 0 <= i < s.len() ==> #[trigger] terms_of(s)[i] == term_of(s[i]),
    decreases s.len(),
{
    if s.len() > 0 {
        lemma_terms_of(s.subrange(0, s.len() - 1));
    }
}

pub proof fn lemma_terms_of_append(a: Seq<Expression>, b: Seq<Expression>)
    ensures
        terms_of(a + b) == terms_of(a) + terms_of(b),
{
    lemma_terms_of(a);
    lemma_terms_of(b);
    lemma_terms_of(a + b);
    assert(terms_of(a + b) =~= terms_of(a) + terms_of(b));
}

/// The operators whose nested uses are merged into one group.
#[derive(Debug, Clone, Copy, PartialEq, Eq, Structural)]
pub enum Chain {
    Add,
    Prod,
    And,
    Or,
    Eq,
    Le,
    Leq,
    Ge,
    Geq,
    Neq,
}

/// The operands of `t` as a group of `op`: its own operands where it is such a
/// group, else `t` alone.
pub open spec fn items(t: Term, op: Chain) -> Seq<Term> {
    match (op, t) {
        (Chain::Add, Term::Add(s)) => s,
        (Chain::Prod, Term::Prod(s)) => s,
        (Chain::And, Term::And(s)) => s,
        (Chain::Or, Term::Or(s)) => s,
        (Chain::Eq, Term::Eq(s)) => s,
        (Chain::Le, Term::Le(s)) => s,
        (Chain::Leq, Term::Leq(s)) => s,
        (Chain::Ge, Term::Ge(s)) => s,
        (Chain::Geq, Term::Geq(s)) => s,
        (Chain::Neq, Term::Neq(s)) => s,
        (_, t) => seq![t],
    }
}

pub open spec fn is_group(t: Term, op: Chain) -> bool {
    match (op, t) {
        (Chain::Add, Term::Add(_)) => true,
        (Chain::Prod, Term::Prod(_)) => true,
        (Chain::And, Term::And(_)) => true,
        (Chain::Or, Term::Or(_)) => true,
        (Chain::Eq, Term::Eq(_)) => true,
        (Chain::Le, Term::Le(_)) => true,
        (Chain::Leq, Term::Leq(_)) => true,
        (Chain::Ge, Term::Ge(_)) => true,
        (Chain::Geq, Term::Geq(_)) => true,
        (Chain::Neq, Term::Neq(_)) => true,
        _ => false,
    }
}

/// The group of `op` over `s`; a group of one is its element.
pub open spec fn grouped(op: Chain, s: Seq<Term>) -> Term {
    if s.len() == 1 {
        s[0]
    } else {
        match op {
            Chain::Add => Term::Add(s),
            Chain::Prod => Term::Prod(s),
            Chain::And => Term::And(s),
            Chain::Or => Term::Or(s),
            Chain::Eq => Term::Eq(s),
            Chain::Le => Term::Le(s),
            Chain::Leq => Term::Leq(s),
            Chain::Ge => Term::Ge(s),
            Chain::Geq => Term::Geq(s),
            Chain::Neq => Term::Neq(s),
        }
    }
}

/// `a op b`, with the operands of either side merged into one group.
pub open spec fn combined(op: Chain, a: Term, b: Term) -> Term {
    grouped(op, items(a, op) + items(b, op))
}

/// `t` regrouped as a group of `op`.
pub open spec fn flattened(t: Term, op: Chain) -> Term {
    grouped(op, items(t, op))
}

fn ungroup(e: Expression, op: Chain) -> (r: Vec<Expression>)
    ensures
        terms_of(r@) == items(e@, op),
{
    proof {
        lemma_terms_of(seq![e]);
        assert(terms_of(seq![e]) =~= seq![e@]);
    }
    match (op, e) {
        (Chain::Add, Expression::Add(v)) => v,
        (Chain::Prod, Expression::Prod(v)) => v,
        (Chain::And, Expression::And(v)) => v,
        (Chain::Or, Expression::Or(v)) => v,
        (Chain::Eq, Expression::Eq(v)) => v,
        (Chain::Le, Expression::Le(v)) => v,
        (Chain::Leq, Expression::Leq(v)) => v,
        (Chain::Ge, Expression::Ge(v)) => v,
        (Chain::Geq, Expression::Geq(v)) => v,
        (Chain::Neq, Expression::Neq(v)) => v,
        (_, e) => {
            let r = vec![e];
            assert(r@ =~= seq![e]);
            r
        },
    }
}

fn group(op: Chain, v: Vec<Expression>) -> (r: Expression)
    ensures
        r@ == grouped(op, terms_of(v@)),
{
    proof {
        lemma_terms_of(v@);
    }
    if v.len() == 1 {
        let mut v = v;
        match v.pop() {
            Some(x) => x,
            None => Expression::Add(v),
        }
    } else {
        match op {
        Chain::Add => Expression::Add(v),
        Chain::Prod => Expression::Prod(v),
        Chain::And => Expression::And(v),
        Chain::Or => Expression::Or(v),
        Chain::Eq => Expression::Eq(v),
        Chain::Le => Expression::Le(v),
        Chain::Leq => Expression::Leq(v),
        Chain::Ge => Expression::Ge(v),
        Chain::Geq => Expression::Geq(v),
        Chain::Neq => Expression::Neq(v),
        }
    }
}

/// `a op b` for a chaining operator: the operands of either side that are
/// already groups of `op` are merged into one group.
pub fn combine(op: Chain, a: Expression, b: Expression) -> (r: Expression)
    ensures
        r@ == combined(op, a@, b@),
{
    let mut x = ungroup(a, op);
    let mut y = ungroup(b, op);
    let ghost (x0, y0) = (x@, y@);
    x.append(&mut y);
    proof {
        lemma_terms_of_append(x0, y0);
    }
    group(op, x)
}

/// Regroups `e` as a group of `op`: a group of one becomes its element.
pub fn flatten(e: Expression, op: Chain) -> (r: Expression)
    ensures
        r@ == flattened(e@, op),
{
    let v = ungroup(e, op);
    group(op, v)
}

/// Flattening is idempotent: flattening an already flattened expression gives
/// it back. (A group of one operand that is itself a group of one is the
/// exception: each flattening strips one level.)
pub proof fn lemma_flatten_idempotent(t: Term, op: Chain)
    requires
        !(is_group(t, op) && items(t, op).len() == 1),
    ensures
        flattened(flattened(t, op), op) == flattened(t, op),
{
    let s = items(t, op);
    if is_group(t, op) {
        if s.len() != 1 {
            assert(items(grouped(op, s), op) == s);
        }
    } else {
        assert(s == seq![t]);
        assert(grouped(op, s) == t);
        assert(items(t, op) == s);
    }
}

/// `-t`: a negation cancels, and a sum is negated term by term.
pub open spec fn negated(t: Term) -> Term
    decreases t,
{
    match t {
        Term::Add(s) => Term::Add(negated_all(s)),
        Term::Neg(x) => *x,
        _ => Term::Neg(Box::new(t)),
    }
}

pub open spec fn negated_all(s: Seq<Term>) -> Seq<Term>
    decreases s,
{
    if s.len() == 0 {
        Seq::empty()
    } else {
        negated_all(s.subrange(0, s.len() - 1)).push(negated(s[s.len() - 1]))
    }
}

/// No negation of a negation or of a sum, in `t` or in the terms of a sum.
pub open spec fn sign_normal(t: Term) -> bool
    decreases t,
{
    match t {
        Term::Add(s) => all_sign_normal(s),
        Term::Neg(x) => !(*x is Neg) && !(*x is Add),
        _ => true,
    }
}

pub open spec fn all_sign_normal(s: Seq<Term>) -> bool
    decreases s,
{
    if s.len() == 0 {
        true
    } else {
        all_sign_normal(s.subrange(0, s.len() - 1)) && sign_normal(s[s.len() - 1])
    }
}

/// Negating twice gives back any expression in which no negation wraps a
/// negation or a sum (the only shapes that a negation does not keep).
pub proof fn lemma_neg_involutive(t: Term)
    requires
        sign_normal(t),
    ensures
        negated(negated(t)) == t,
    decreases t,
{
    match t {
        Term::Add(s) => {
            lemma_neg_all_involutive(s);
        },
        _ => {},
    }
}

proof fn lemma_neg_all_involutive(s: Seq<Term>)
    requires
        all_sign_normal(s),
    ensures
        negated_all(negated_all(s)) == s,
    decreases s,
{
    if s.len() > 0 {
        let p = s.subrange(0, s.len() - 1);
        lemma_neg_all_involutive(p);
        lemma_neg_involutive(s[s.len() - 1]);
        lemma_negated_all_len(p);
        let n = negated_all(s);
        assert(n.subrange(0, n.len() - 1) =~= negated_all(p));
        assert(negated_all(negated_all(s)) =~= s);
    }
}

proof fn lemma_negated_all_len(s: Seq<Term>)
    ensures
        negated_all(s).len() == s.len(),
    decreases s,
{
    if s.len() > 0 {
        lemma_negated_all_len(s.subrange(0, s.len() - 1));
    }
}

/// `-e`; see `negated`.
pub fn neg_expression(e: Expression) -> (r: Expression)
    ensures
        r@ == negated(e@),
    decreases e,
{
    match e {
        Expression::Add(v) => {
            let ghost v0 = v@;
            let mut rest = v;
            let mut out: Vec<Expression> = Vec::new();
            let ghost mut i: int = 0;
            proof {
                lemma_terms_of(v0);
            }
            while rest.len() > 0
                invariant
                    0 <= i <= v0.len(),
                    rest@ == v0.subrange(i, v0.len() as int),
                    terms_of(out@) == negated_all(terms_of(v0).subrange(0, i)),
                    out@.len() == i,
                    terms_of(v0).len() == v0.len(),
                    forall|j: int| 0 <= j < v0.len() ==> #[trigger] terms_of(v0)[j] == term_of(v0[j]),
                    forall|j: int| 0 <= j < v0.len() ==> decreases_to!(e => #[trigger] v0[j]),
                decreases rest.len(),
            {
                let x = rest.remove(0);
                let y = neg_expression(x);
                let ghost o0 = out@;
                out.push(y);
                proof {
                    assert(out@.subrange(0, out@.len() - 1) =~= o0);
                    assert(terms_of(out@) == terms_of(o0).push(y@));
                    assert(terms_of(v0).subrange(0, i + 1).subrange(0, i) =~= terms_of(v0).subrange(0, i));
                    i = i + 1;
                    assert(rest@ =~= v0.subrange(i, v0.len() as int));
                }
            }
            proof {
                assert(terms_of(v0).subrange(0, v0.len() as int) =~= terms_of(v0));
            }
            Expression::Add(out)
        },
        Expression::Neg(x) => *x,
        e => Expression::Neg(Box::new(e)),
    }
}

/// `t` without one leading negation, and whether there was one.
pub open spec fn unsigned(t: Term) -> (bool, Term) {
    match t {
        Term::Neg(x) => (true, *x),
        _ => (false, t),
    }
}

fn unsign(e: Expression) -> (r: (bool, Expression))
    ensures
        (r.0, r.1@) == unsigned(e@),
{
    match e {
        Expression::Neg(x) => (true, *x),
        e => (false, e),
    }
}

/// `a * b`: the signs of both sides are taken out and put back once in front,
/// and the factors of both sides are merged into one product.
pub open spec fn product(a: Term, b: Term) -> Term {
    let (na, ua) = unsigned(a);
    let (nb, ub) = unsigned(b);
    let p = combined(Chain::Prod, ua, ub);
    if na != nb {
        Term::Neg(Box::new(p))
    } else {
        p
    }
}

pub fn prod_expression(a: Expression, b: Expression) -> (r: Expression)
    ensures
        r@ == product(a@, b@),
{
    let (na, ua) = unsign(a);
    let (nb, ub) = unsign(b);
    let p = combine(Chain::Prod, ua, ub);
    if na != nb {
        Expression::Neg(Box::new(p))
    } else {
        p
    }
}

/// A side of a division as a numerator and a denominator; a side that is no
/// quotient has the empty product as denominator.
pub open spec fn fraction(t: Term) -> (Term, Term) {
    match t {
        Term::Div(n, d) => (*n, *d),
        _ => (t, Term::Prod(Seq::empty())),
    }
}

/// `a / b`: signs are taken out and put back once in front, and both sides
/// are read as fractions, so that `(n1 / d1) / (n2 / d2)` is
/// `(n1 * d2) / (d1 * n2)`.
pub open spec fn quotient(a: Term, b: Term) -> Term {
    let (na, ua) = unsigned(a);
    let (nb, ub) = unsigned(b);
    let (n1, d1) = fraction(ua);
    let (n2, d2) = fraction(ub);
    let q = Term::Div(Box::new(product(n1, d2)), Box::new(product(d1, n2)));
    if na != nb {
        Term::Neg(Box::new(q))
    } else {
        q
    }
}

fn split_fraction(e: Expression) -> (r: (Expression, Expression))
    ensures
        (r.0@, r.1@) == fraction(e@),
{
    match e {
        Expression::Div(n, d) => (*n, *d),
        e => {
            let empty: Vec<Expression> = Vec::new();
            proof {
                assert(terms_of(empty@) =~= Seq::<Term>::empty());
            }
            (e, Expression::Prod(empty))
        },
    }
}

pub fn div_expression(a: Expression, b: Expression) -> (r: Expression)
    ensures
        r@ == quotient(a@, b@),
{
    let (na, ua) = unsign(a);
    let (nb, ub) = unsign(b);
    let (n1, d1) = split_fraction(ua);
    let (n2, d2) = split_fraction(ub);
    let ghost (t1, t2) = (unsigned(a@), unsigned(b@));
    assert(t1.1 == ua@ && t2.1 == ub@);
    assert(fraction(t1.1) == (n1@, d1@));
    assert(fraction(t2.1) == (n2@, d2@));
    let p1 = prod_expression(n1, d2);
    let p2 = prod_expression(d1, n2);
    let q = Expression::Div(Box::new(p1), Box::new(p2));
    assert(q@ == Term::Div(Box::new(p1@), Box::new(p2@)));
    if na != nb {
        Expression::Neg(Box::new(q))
    } else {
        q
    }
}

/// `not t`: a negation cancels.
pub open spec fn inverted(t: Term) -> Term {
    match t {
        Term::Not(x) => *x,
        _ => Term::Not(Box::new(t)),
    }
}

pub fn not_expression(e: Expression) -> (r: Expression)
    ensures
        r@ == inverted(e@),
{
    match e {
        Expression::Not(x) => *x,
        e => Expression::Not(Box::new(e)),
    }
}

fn copy_all(v: &Vec<Expression>) -> (r: Vec<Expression>)
    ensures
        terms_of(r@) == terms_of(v@),
    decreases v, 0nat,
{
    let mut r: Vec<Expression> = Vec::new();
    let mut i: usize = 0;
    proof {
        lemma_terms_of(v@);
    }
    while i < v.len()
        invariant
            i <= v@.len(),
            r@.len() == i,
            terms_of(v@).len() == v@.len(),
            forall|j: int| 0 <= j < v@.len() ==> #[trigger] terms_of(v@)[j] == term_of(v@[j]),
            terms_of(r@) == terms_of(v@).subrange(0, i as int),
        decreases v@.len() - i,
    {
        let x = v[i].copy();
        let ghost r0 = r@;
        r.push(x);
        proof {
            assert(r@.subrange(0, r@.len() - 1) =~= r0);
            assert(terms_of(v@).subrange(0, i + 1) =~= terms_of(v@).subrange(0, i as int).push(term_of(v@[i as int])));
        }
        i = i + 1;
    }
    proof {
        assert(terms_of(v@).subrange(0, v@.len() as int) =~= terms_of(v@));
    }
    r
}

impl Expression {
    /// A copy of this expression.
    pub fn copy(&self) -> (r: Expression)
        ensures
            r@ == self@,
        decreases self, 1nat,
    {
        match self {
            Expression::Magnitude(m) => Expression::Magnitude(m.copy()),
            Expression::Variable(n) => Expression::Variable(n.clone()),
            Expression::Add(v) => Expression::Add(copy_all(v)),
            Expression::Neg(x) => Expression::Neg(Box::new((**x).copy())),
            Expression::Prod(v) => Expression::Prod(copy_all(v)),
            Expression::Div(a, b) => Expression::Div(Box::new((**a).copy()), Box::new((**b).copy())),
            Expression::Unit(x, u) => Expression::Unit(Box::new((**x).copy()), u.clone()),
            Expression::Sqrt(x) => Expression::Sqrt(Box::new((**x).copy())),
            Expression::Rand(a, b) => Expression::Rand(Box::new((**a).copy()), Box::new((**b).copy())),
            Expression::And(v) => Expression::And(copy_all(v)),
            Expression::Or(v) => Expression::Or(copy_all(v)),
            Expression::Not(x) => Expression::Not(Box::new((**x).copy())),
            Expression::Eq(v) => Expression::Eq(copy_all(v)),
            Expression::Neq(v) => Expression::Neq(copy_all(v)),
            Expression::Le(v) => Expression::Le(copy_all(v)),
            Expression::Leq(v) => Expression::Leq(copy_all(v)),
            Expression::Ge(v) => Expression::Ge(copy_all(v)),
            Expression::Geq(v) => Expression::Geq(copy_all(v)),
        }
    }
}

pub proof fn lemma_terms_push(v: Seq<Expression>, x: Expression)
    ensures
        terms_of(v.push(x)) == terms_of(v).push(term_of(x)),
{
    assert(v.push(x).subrange(0, v.len() as int) =~= v);
}

pub proof fn lemma_terms_pop(v: Seq<Expression>)
    requires
        v.len() > 0,
    ensures
        terms_of(v.drop_last()) == terms_of(v).drop_last(),
        terms_of(v).last() == term_of(v.last()),
        terms_of(v).len() == v.len(),
{
    lemma_terms_of(v);
    lemma_terms_of(v.drop_last());
    assert(terms_of(v.drop_last()) =~= terms_of(v).drop_last());
}

/// Takes the expression on top of `stack`.
pub fn pop_term(stack: &mut Vec<Expression>) -> (r: Expression)
    requires
        old(stack)@.len() > 0,
    ensures
        terms_of(final(stack)@) == terms_of(old(stack)@).drop_last(),
        r@ == terms_of(old(stack)@).last(),
        final(stack)@.len() == old(stack)@.len() - 1,
{
    proof {
        lemma_terms_pop(stack@);
    }
    match stack.pop() {
        Some(x) => x,
        None => Expression::Add(Vec::new()),
    }
}

/// Puts `x` on top of `stack`.
pub fn push_term(stack: &mut Vec<Expression>, x: Expression)
    ensures
        terms_of(final(stack)@) == terms_of(old(stack)@).push(x@),
        final(stack)@.len() == old(stack)@.len() + 1,
{
    proof {
        lemma_terms_push(stack@, x);
    }
    stack.push(x);
}

} // verus!
