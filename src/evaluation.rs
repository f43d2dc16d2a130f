// Variables bound to expressions, and the value of an expression: exact
// rational arithmetic with unit checks, comparisons, logic, and seeded draws.

use vstd::prelude::*;

use rand::{RngCore, SeedableRng};

use crate::error::Error;
use crate::expression::{items, lemma_terms_of, product, quotient, terms_of, Chain, Expression, Term};
use crate::magnitude::{
    lemma_reduced_value, view_of, close, compatible, compatible_units, cross_diff, negation_of, product_of, quotient_of, root_of,
    sum_of, unknown, unknown_unit, Magnitude, MagnitudeView,
};
use vstd::string::StringExecFns;

verus! {

/// A name bound to an expression.
pub struct Binding {
    pub name: String,
    pub value: Expression,
}

/// Variables and what they stand for; a later binding of a name hides an
/// earlier one.
pub struct Dictionary {
    pub entries: Vec<Binding>,
}

pub open spec fn bindings_of(s: Seq<Binding>) -> Seq<(Seq<char>, Term)>
    decreases s.len(),
{
    if s.len() == 0 {
        Seq::empty()
    } else {
        bindings_of(s.drop_last()).push((s.last().name@, s.last().value@))
    }
}

impl View for Dictionary {
    type V = Seq<(Seq<char>, Term)>;

    open spec fn view(&self) -> Seq<(Seq<char>, Term)> {
        bindings_of(self.entries@)
    }
}

pub proof fn lemma_bindings_of(s: Seq<Binding>)
    ensures
        bindings_of(s).len() == s.len(),
        forall|i: int| 0 <= i < s.len() ==> #[trigger] bindings_of(s)[i] == (s[i].name@, s[i].value@),
    decreases s.len(),
{
    if s.len() > 0 {
        lemma_bindings_of(s.drop_last());
    }
}

/// What `name` stands for in `d`: its last binding.
pub open spec fn lookup(d: Seq<(Seq<char>, Term)>, name: Seq<char>) -> Option<Term>
    decreases d.len(),
{
    if d.len() == 0 {
        None
    } else if d.last().0 == name {
        Some(d.last().1)
    } else {
        lookup(d.drop_last(), name)
    }
}

pub open spec fn bool_unit() -> Seq<char> {
    seq!['b', 'o', 'o', 'l']
}

pub open spec fn true_value() -> MagnitudeView {
    MagnitudeView { negative: false, num: 1, den: 1, unit: bool_unit() }
}

pub open spec fn false_value() -> MagnitudeView {
    MagnitudeView { negative: false, num: 0, den: 1, unit: bool_unit() }
}

pub open spec fn is_true(m: MagnitudeView) -> bool {
    !m.negative && m.num == m.den && m.unit == bool_unit()
}

pub open spec fn truth(b: bool) -> MagnitudeView {
    if b {
        true_value()
    } else {
        false_value()
    }
}

/// The value that a fold of `op` starts from.
pub open spec fn fold_start(op: Chain) -> MagnitudeView {
    match op {
        Chain::Add => MagnitudeView { negative: false, num: 0, den: 1, unit: unknown_unit() },
        Chain::Prod => MagnitudeView { negative: false, num: 1, den: 1, unit: unknown_unit() },
        Chain::And => true_value(),
        Chain::Or => false_value(),
        _ => true_value(),
    }
}

/// Whether `a op b` holds for a comparison.
pub open spec fn holds(op: Chain, a: MagnitudeView, b: MagnitudeView) -> bool {
    match op {
        Chain::Eq => cross_diff(a, b) == 0,
        Chain::Le => cross_diff(a, b) < 0,
        Chain::Leq => cross_diff(a, b) <= 0,
        Chain::Ge => cross_diff(a, b) > 0,
        Chain::Neq => cross_diff(a, b) != 0,
        _ => cross_diff(a, b) >= 0,
    }
}

pub open spec fn is_comparison(op: Chain) -> bool {
    op is Eq || op is Le || op is Leq || op is Ge || op is Geq || op is Neq
}

/// One step of a fold: the accumulated value `a` meets the next operand `b`.
/// The flag says whether a chain of comparisons still holds.
pub open spec fn fold_step(op: Chain, a: MagnitudeView, b: MagnitudeView, first: bool) -> Result<(bool, MagnitudeView), Error> {
    match op {
        Chain::Add => match compatible(a.unit, b.unit) {
            None => Err(Error::UnitMismatch),
            Some(u) => match sum_of(a, b, u) {
                Ok(m) => Ok((true, m)),
                Err(e) => Err(e),
            },
        },
        Chain::Prod => match product_of(a, b, unknown_unit()) {
            Ok(m) => Ok((true, m)),
            Err(e) => Err(e),
        },
        Chain::And => Ok((true, if is_true(a) { b } else { a })),
        Chain::Or => Ok((true, if !is_true(a) { b } else { a })),
        _ => if first {
            Ok((true, b))
        } else if compatible(a.unit, b.unit) is None {
            Err(Error::UnitMismatch)
        } else {
            Ok((holds(op, a, b), b))
        },
    }
}

/// The draw that the random source gives for a seed.
pub uninterp spec fn seeded_draw(seed: u64) -> u64;

/// The seed after one draw.
pub open spec fn next_seed(seed: u64) -> u64 {
    if seed == u64::MAX {
        0
    } else {
        (seed + 1) as u64
    }
}

/// Relies on rand's `StdRng::seed_from_u64` and `RngCore::next_u64`: the word
/// drawn depends on the seed alone.
#[verifier::external_body]
fn draw(seed: u64) -> (r: u64)
    ensures
        r == seeded_draw(seed),
{
    rand::rngs::StdRng::seed_from_u64(seed).next_u64()
}

/// A value in `[lo, hi)`: `lo + (hi - lo) * f / 2^32`, with `f` the high half
/// of the drawn word.
pub open spec fn drawn(lo: MagnitudeView, hi: MagnitudeView, unit: Seq<char>, word: u64) -> Result<MagnitudeView, Error> {
    let f = MagnitudeView { negative: false, num: (word / 0x1_0000_0000) as nat, den: 0x1_0000_0000, unit };
    match sum_of(hi, negation_of(lo), unit) {
        Err(e) => Err(e),
        Ok(diff) => match product_of(diff, f, unit) {
            Err(e) => Err(e),
            Ok(scaled) => sum_of(lo, scaled, unit),
        },
    }
}

/// The value of `t` where the variables stand for what `d` binds them to. A
/// variable is followed through at most `fuel` bindings; random draws take
/// their seeds from `seed` on, and the seed after the last draw is returned.
pub open spec fn eval(t: Term, d: Seq<(Seq<char>, Term)>, fuel: nat, seed: u64) -> (Result<MagnitudeView, Error>, u64)
    decreases fuel, t,
{
    match t {
        Term::Mag(m) => if m.wf() {
            (Ok(m), seed)
        } else {
            (Err(Error::Malformed), seed)
        },
        Term::Var(name) => match lookup(d, name) {
            None => (Err(Error::UnboundReference), seed),
            Some(x) => if fuel == 0 {
                (Err(Error::CyclicReference), seed)
            } else {
                eval(x, d, (fuel - 1) as nat, seed)
            },
        },
        Term::Add(s) => folded(Chain::Add, eval_fold(Chain::Add, s, d, fuel, seed)),
        Term::Prod(s) => folded(Chain::Prod, eval_fold(Chain::Prod, s, d, fuel, seed)),
        Term::And(s) => folded(Chain::And, eval_fold(Chain::And, s, d, fuel, seed)),
        Term::Or(s) => folded(Chain::Or, eval_fold(Chain::Or, s, d, fuel, seed)),
        Term::Eq(s) => folded(Chain::Eq, eval_fold(Chain::Eq, s, d, fuel, seed)),
        Term::Le(s) => folded(Chain::Le, eval_fold(Chain::Le, s, d, fuel, seed)),
        Term::Leq(s) => folded(Chain::Leq, eval_fold(Chain::Leq, s, d, fuel, seed)),
        Term::Ge(s) => folded(Chain::Ge, eval_fold(Chain::Ge, s, d, fuel, seed)),
        Term::Geq(s) => folded(Chain::Geq, eval_fold(Chain::Geq, s, d, fuel, seed)),
        Term::Neq(s) => folded(Chain::Neq, eval_fold(Chain::Neq, s, d, fuel, seed)),
        Term::Neg(x) => {
            let (r, s1) = eval(*x, d, fuel, seed);
            match r {
                Ok(m) => (Ok(negation_of(m)), s1),
                Err(e) => (Err(e), s1),
            }
        },
        Term::Div(a, b) => {
            let (r1, s1) = eval(*a, d, fuel, seed);
            match r1 {
                Err(e) => (Err(e), s1),
                Ok(x) => {
                    let (r2, s2) = eval(*b, d, fuel, s1);
                    match r2 {
                        Err(e) => (Err(e), s2),
                        Ok(y) => (quotient_of(x, y, unknown_unit()), s2),
                    }
                },
            }
        },
        Term::Unit(x, u) => {
            let (r, s1) = eval(*x, d, fuel, seed);
            match r {
                Err(e) => (Err(e), s1),
                Ok(m) => match compatible(m.unit, u) {
                    None => (Err(Error::UnitMismatch), s1),
                    Some(v) => (Ok(MagnitudeView { unit: v, ..m }), s1),
                },
            }
        },
        Term::Sqrt(x) => {
            let (r, s1) = eval(*x, d, fuel, seed);
            match r {
                Err(e) => (Err(e), s1),
                Ok(m) => (root_of(m, unknown_unit()), s1),
            }
        },
        Term::Rand(a, b) => {
            let (r1, s1) = eval(*a, d, fuel, seed);
            match r1 {
                Err(e) => (Err(e), s1),
                Ok(lo) => {
                    let (r2, s2) = eval(*b, d, fuel, s1);
                    match r2 {
                        Err(e) => (Err(e), s2),
                        Ok(hi) => match compatible(lo.unit, hi.unit) {
                            None => (Err(Error::UnitMismatch), s2),
                            Some(u) => (drawn(lo, hi, u, seeded_draw(s2)), next_seed(s2)),
                        },
                    }
                },
            }
        },
        Term::Not(x) => {
            let (r, s1) = eval(*x, d, fuel, seed);
            match r {
                Err(e) => (Err(e), s1),
                Ok(m) => (Ok(truth(!is_true(m))), s1),
            }
        },
    }
}

/// The operands of `s` folded from the left, each evaluated in turn; a chain
/// of comparisons that fails stops there.
pub open spec fn eval_fold(op: Chain, s: Seq<Term>, d: Seq<(Seq<char>, Term)>, fuel: nat, seed: u64) -> (Result<(bool, MagnitudeView), Error>, u64)
    decreases fuel, s,
{
    if s.len() == 0 {
        (Ok((true, fold_start(op))), seed)
    } else {
        let (acc, s1) = eval_fold(op, s.subrange(0, s.len() - 1), d, fuel, seed);
        match acc {
            Err(e) => (Err(e), s1),
            Ok((going, a)) => if !going {
                (Ok((false, a)), s1)
            } else {
                let (x, s2) = eval(s[s.len() - 1], d, fuel, s1);
                match x {
                    Err(e) => (Err(e), s2),
                    Ok(b) => (fold_step(op, a, b, s.len() == 1), s2),
                }
            },
        }
    }
}

/// The value of a fold: the accumulated value, or the truth of a chain of
/// comparisons.
pub open spec fn folded(op: Chain, r: (Result<(bool, MagnitudeView), Error>, u64)) -> (Result<MagnitudeView, Error>, u64) {
    match r.0 {
        Err(e) => (Err(e), r.1),
        Ok((going, m)) => if is_comparison(op) {
            (Ok(truth(going)), r.1)
        } else {
            (Ok(m), r.1)
        },
    }
}

pub open spec fn fold_view(r: Result<(bool, Magnitude), Error>) -> Result<(bool, MagnitudeView), Error> {
    match r {
        Ok((g, m)) => Ok((g, m@)),
        Err(e) => Err(e),
    }
}

fn bool_string() -> (r: String)
    ensures
        r@ == bool_unit(),
{
    proof {
        reveal_strlit("bool");
    }
    let r = String::from_str("bool");
    assert(r@ =~= bool_unit());
    r
}

/// The magnitude that stands for `b`.
pub fn truth_value(b: bool) -> (r: Magnitude)
    ensures
        r@ == truth(b),
        r.wf(),
{
    Magnitude { negative: false, num: if b { 1 } else { 0 }, den: 1, unit: bool_string() }
}

pub fn is_true_value(m: &Magnitude) -> (r: bool)
    ensures
        r == is_true(m@),
{
    let b = bool_string();
    !m.negative && m.num == m.den && m.unit == b
}

fn start_value(op: Chain) -> (r: Magnitude)
    ensures
        r@ == fold_start(op),
        r.wf(),
{
    match op {
        Chain::Add => Magnitude { negative: false, num: 0, den: 1, unit: unknown() },
        Chain::Prod => Magnitude { negative: false, num: 1, den: 1, unit: unknown() },
        Chain::Or => truth_value(false),
        _ => truth_value(true),
    }
}

fn step_value(op: Chain, a: Magnitude, b: Magnitude, first: bool) -> (r: Result<(bool, Magnitude), Error>)
    requires
        a.wf(),
        b.wf(),
    ensures
        fold_view(r) == fold_step(op, a@, b@, first),
        r matches Ok((_, m)) ==> m.wf(),
{
    match op {
        Chain::Add => match compatible_units(&a.unit, &b.unit) {
            None => Err(Error::UnitMismatch),
            Some(u) => match a.add_value(&b, u) {
                Ok(m) => Ok((true, m)),
                Err(e) => Err(e),
            },
        },
        Chain::Prod => match a.mul_value(&b, unknown()) {
            Ok(m) => Ok((true, m)),
            Err(e) => Err(e),
        },
        Chain::And => Ok((true, if is_true_value(&a) { b } else { a })),
        Chain::Or => Ok((true, if !is_true_value(&a) { b } else { a })),
        _ => {
            if first {
                Ok((true, b))
            } else if compatible_units(&a.unit, &b.unit).is_none() {
                Err(Error::UnitMismatch)
            } else {
                let c = a.compare(&b);
                let h = match op {
                    Chain::Eq => c == 0,
                    Chain::Le => c == -1,
                    Chain::Leq => c != 1,
                    Chain::Ge => c == 1,
                    Chain::Neq => c != 0,
                    _ => c != -1,
                };
                Ok((h, b))
            }
        },
    }
}

impl Dictionary {
    /// An empty dictionary.
    pub fn new() -> (r: Dictionary)
        ensures
            r@ == Seq::<(Seq<char>, Term)>::empty(),
    {
        let r = Dictionary { entries: Vec::new() };
        assert(r@ =~= Seq::<(Seq<char>, Term)>::empty());
        r
    }

    /// Where the last binding of `name` stands.
    pub fn find(&self, name: &String) -> (r: Option<usize>)
        ensures
            match r {
                Some(i) => i < self.entries@.len() && lookup(self@, name@) == Some(self.entries@[i as int].value@)
                    && self.entries@[i as int].name@ == name@,
                None => lookup(self@, name@) is None,
            },
    {
        let mut i: usize = self.entries.len();
        proof {
            assert(self.entries@.subrange(0, i as int) =~= self.entries@);
        }
        while i > 0
            invariant
                i <= self.entries@.len(),
                lookup(self@, name@) == lookup(bindings_of(self.entries@.subrange(0, i as int)), name@),
            decreases i,
        {
            let ghost p = self.entries@.subrange(0, i as int);
            assert(p.drop_last() =~= self.entries@.subrange(0, i - 1));
            assert(bindings_of(p).drop_last() =~= bindings_of(p.drop_last()));
            if self.entries[i - 1].name == *name {
                return Some(i - 1);
            }
            i = i - 1;
        }
        None
    }
}

pub open spec fn is_unary_spec(e: &Expression) -> bool {
    e is Neg || e is Unit || e is Sqrt || e is Not
}

#[verifier::when_used_as_spec(is_unary_spec)]
fn is_unary(e: &Expression) -> (r: bool)
    ensures
        r == is_unary_spec(e),
{
    match e {
        Expression::Neg(_) | Expression::Unit(_, _) | Expression::Sqrt(_) | Expression::Not(_) => true,
        _ => false,
    }
}

pub open spec fn is_binary(e: &Expression) -> bool {
    e is Div || e is Rand
}

fn eval_term(e: &Expression, d: &Dictionary, fuel: u64, seed: u64) -> (r: (Result<Magnitude, Error>, u64))
    ensures
        (view_of(r.0), r.1) == eval(e@, d@, fuel as nat, seed),
        r.0 matches Ok(m) ==> m.wf(),
    decreases fuel, e, 2nat,
{
    match e {
        Expression::Magnitude(m) => {
            if m.is_wf() {
                (Ok(m.copy()), seed)
            } else {
                (Err(Error::Malformed), seed)
            }
        },
        Expression::Variable(name) => match d.find(name) {
            None => (Err(Error::UnboundReference), seed),
            Some(i) => {
                if fuel == 0 {
                    (Err(Error::CyclicReference), seed)
                } else {
                    eval_term(&d.entries[i].value, d, fuel - 1, seed)
                }
            },
        },
        Expression::Add(v) => fold_result(Chain::Add, eval_fold_exec(Chain::Add, v, d, fuel, seed)),
        Expression::Prod(v) => fold_result(Chain::Prod, eval_fold_exec(Chain::Prod, v, d, fuel, seed)),
        Expression::And(v) => fold_result(Chain::And, eval_fold_exec(Chain::And, v, d, fuel, seed)),
        Expression::Or(v) => fold_result(Chain::Or, eval_fold_exec(Chain::Or, v, d, fuel, seed)),
        Expression::Eq(v) => fold_result(Chain::Eq, eval_fold_exec(Chain::Eq, v, d, fuel, seed)),
        Expression::Le(v) => fold_result(Chain::Le, eval_fold_exec(Chain::Le, v, d, fuel, seed)),
        Expression::Leq(v) => fold_result(Chain::Leq, eval_fold_exec(Chain::Leq, v, d, fuel, seed)),
        Expression::Ge(v) => fold_result(Chain::Ge, eval_fold_exec(Chain::Ge, v, d, fuel, seed)),
        Expression::Geq(v) => fold_result(Chain::Geq, eval_fold_exec(Chain::Geq, v, d, fuel, seed)),
        Expression::Neq(v) => fold_result(Chain::Neq, eval_fold_exec(Chain::Neq, v, d, fuel, seed)),
        _ => {
            if is_unary(e) {
                eval_unary(e, d, fuel, seed)
            } else {
                eval_binary(e, d, fuel, seed)
            }
        },
    }
}

fn eval_unary(e: &Expression, d: &Dictionary, fuel: u64, seed: u64) -> (r: (Result<Magnitude, Error>, u64))
    requires
        is_unary(e),
    ensures
        (view_of(r.0), r.1) == eval(e@, d@, fuel as nat, seed),
        r.0 matches Ok(m) ==> m.wf(),
    decreases fuel, e, 1nat,
{
    match e {
        Expression::Neg(x) => {
            let (r, s1) = eval_term(x, d, fuel, seed);
            match r {
                Ok(m) => (Ok(m.neg_value()), s1),
                Err(e) => (Err(e), s1),
            }
        },
        Expression::Unit(x, u) => {
            let (r, s1) = eval_term(x, d, fuel, seed);
            match r {
                Err(e) => (Err(e), s1),
                Ok(m) => match compatible_units(&m.unit, u) {
                    None => (Err(Error::UnitMismatch), s1),
                    Some(v) => (Ok(m.with_unit(v)), s1),
                },
            }
        },
        Expression::Sqrt(x) => {
            let (r, s1) = eval_term(x, d, fuel, seed);
            match r {
                Err(e) => (Err(e), s1),
                Ok(m) => (m.sqrt_value(unknown()), s1),
            }
        },
        Expression::Not(x) => {
            let (r, s1) = eval_term(x, d, fuel, seed);
            match r {
                Err(e) => (Err(e), s1),
                Ok(m) => (Ok(truth_value(!is_true_value(&m))), s1),
            }
        },
        _ => (Err(Error::Malformed), seed),
    }
}

fn eval_binary(e: &Expression, d: &Dictionary, fuel: u64, seed: u64) -> (r: (Result<Magnitude, Error>, u64))
    requires
        is_binary(e),
    ensures
        (view_of(r.0), r.1) == eval(e@, d@, fuel as nat, seed),
        r.0 matches Ok(m) ==> m.wf(),
    decreases fuel, e, 1nat,
{
    match e {
        Expression::Div(a, b) => {
            let (r1, s1) = eval_term(a, d, fuel, seed);
            match r1 {
                Err(e) => (Err(e), s1),
                Ok(x) => {
                    let (r2, s2) = eval_term(b, d, fuel, s1);
                    match r2 {
                        Err(e) => (Err(e), s2),
                        Ok(y) => (x.div_value(&y, unknown()), s2),
                    }
                },
            }
        },
        Expression::Rand(a, b) => {
            let (r1, s1) = eval_term(a, d, fuel, seed);
            match r1 {
                Err(e) => (Err(e), s1),
                Ok(lo) => {
                    let (r2, s2) = eval_term(b, d, fuel, s1);
                    match r2 {
                        Err(e) => (Err(e), s2),
                        Ok(hi) => match compatible_units(&lo.unit, &hi.unit) {
                            None => (Err(Error::UnitMismatch), s2),
                            Some(u) => {
                                let word = draw(s2);
                                let next = if s2 == u64::MAX { 0 } else { s2 + 1 };
                                (draw_between(&lo, &hi, u, word), next)
                            },
                        },
                    }
                },
            }
        },
        _ => (Err(Error::Malformed), seed),
    }
}

fn draw_between(lo: &Magnitude, hi: &Magnitude, unit: String, word: u64) -> (r: Result<Magnitude, Error>)
    requires
        lo.wf(),
        hi.wf(),
    ensures
        view_of(r) == drawn(lo@, hi@, unit@, word),
        r matches Ok(m) ==> m.wf(),
{
    let f = Magnitude { negative: false, num: word / 0x1_0000_0000, den: 0x1_0000_0000, unit: unit.clone() };
    match hi.add_value(&lo.neg_value(), unit.clone()) {
        Err(e) => Err(e),
        Ok(diff) => match diff.mul_value(&f, unit.clone()) {
            Err(e) => Err(e),
            Ok(scaled) => lo.add_value(&scaled, unit),
        },
    }
}

fn fold_result(op: Chain, r: (Result<(bool, Magnitude), Error>, u64)) -> (q: (Result<Magnitude, Error>, u64))
    requires
        r.0 matches Ok((_, m)) ==> m.wf(),
    ensures
        (view_of(q.0), q.1) == folded(op, (fold_view(r.0), r.1)),
        q.0 matches Ok(m) ==> m.wf(),
{
    match r.0 {
        Err(e) => (Err(e), r.1),
        Ok((going, m)) => {
            let c = match op {
                Chain::Eq | Chain::Le | Chain::Leq | Chain::Ge | Chain::Geq | Chain::Neq => true,
                _ => false,
            };
            if c {
                (Ok(truth_value(going)), r.1)
            } else {
                (Ok(m), r.1)
            }
        },
    }
}

fn eval_fold_exec(op: Chain, v: &Vec<Expression>, d: &Dictionary, fuel: u64, seed: u64) -> (r: (Result<(bool, Magnitude), Error>, u64))
    ensures
        (fold_view(r.0), r.1) == eval_fold(op, terms_of(v@), d@, fuel as nat, seed),
        r.0 matches Ok((_, m)) ==> m.wf(),
    decreases fuel, v, 0nat,
{
    let mut acc: Result<(bool, Magnitude), Error> = Ok((true, start_value(op)));
    let mut st = seed;
    let mut i: usize = 0;
    proof {
        lemma_terms_of(v@);
        assert(terms_of(v@).subrange(0, 0) =~= Seq::<Term>::empty());
    }
    while i < v.len()
        invariant
            i <= v@.len(),
            terms_of(v@).len() == v@.len(),
            forall|j: int| 0 <= j < v@.len() ==> #[trigger] terms_of(v@)[j] == term_of_at(v, j),
            (fold_view(acc), st) == eval_fold(op, terms_of(v@).subrange(0, i as int), d@, fuel as nat, seed),
            acc matches Ok((_, m)) ==> m.wf(),
        decreases v@.len() - i,
    {
        let ghost t = terms_of(v@).subrange(0, i + 1);
        assert(t.subrange(0, t.len() - 1) =~= terms_of(v@).subrange(0, i as int));
        acc = match acc {
            Err(e) => Err(e),
            Ok((going, a)) => {
                if !going {
                    Ok((false, a))
                } else {
                    let (x, s2) = eval_term(&v[i], d, fuel, st);
                    st = s2;
                    match x {
                        Err(e) => Err(e),
                        Ok(b) => step_value(op, a, b, i == 0),
                    }
                }
            },
        };
        i = i + 1;
    }
    proof {
        assert(terms_of(v@).subrange(0, v@.len() as int) =~= terms_of(v@));
    }
    (acc, st)
}

pub open spec fn term_of_at(v: &Vec<Expression>, j: int) -> Term {
    v@[j]@
}


impl Expression {
    /// The value of this expression, where the variables stand for what `dict`
    /// binds them to. `rand` draws its values from `seed`, which is left where
    /// the draws ended. A variable that leads back to itself is reported, not
    /// followed for ever.
    pub fn value(&self, dict: &Dictionary, seed: &mut u64) -> (r: Result<Magnitude, Error>)
        ensures
            (view_of(r), *final(seed)) == eval(self@, dict@, dict.entries@.len() as nat, *old(seed)),
            r matches Ok(m) ==> m.wf(),
    {
        let (r, s) = eval_term(self, dict, dict.entries.len() as u64, *seed);
        *seed = s;
        r
    }
}

impl Dictionary {
    /// Binds `name` to `value`, after the bindings already there.
    pub fn push(&mut self, name: String, value: Expression)
        ensures
            final(self)@ == old(self)@.push((name@, value@)),
    {
        let ghost e0 = self.entries@;
        self.entries.push(Binding { name, value });
        assert(self.entries@.drop_last() =~= e0);
    }
}

/// Binding `name` to `t` in `d`: a new name is bound; a bound name keeps its
/// binding where both values agree within `1 / 100000` and have the same
/// unit, and is a conflict otherwise.
pub open spec fn bind_outcome(d: Seq<(Seq<char>, Term)>, name: Seq<char>, t: Term, seed: u64) -> (Result<Seq<(Seq<char>, Term)>, Error>, u64) {
    match lookup(d, name) {
        None => (Ok(d.push((name, t))), seed),
        Some(bound) => {
            let fuel = d.len() as nat;
            let (r1, s1) = eval(t, d, fuel, seed);
            match r1 {
                Err(e) => (Err(e), s1),
                Ok(a) => {
                    let (r2, s2) = eval(bound, d, fuel, s1);
                    match r2 {
                        Err(e) => (Err(e), s2),
                        Ok(b) => if close(a, b) && a.unit == b.unit {
                            (Ok(d), s2)
                        } else {
                            (Err(Error::BindingConflict), s2)
                        },
                    }
                },
            }
        },
    }
}

impl Dictionary {
    /// Binds `name` to `value`; see `bind_outcome`. Values are evaluated with
    /// draws from `seed`.
    pub fn bind(&mut self, name: String, value: Expression, seed: &mut u64) -> (r: Result<(), Error>)
        ensures
            ({
                let (o, s) = bind_outcome(old(self)@, name@, value@, *old(seed));
                &&& *final(seed) == s
                &&& match o {
                    Ok(d) => r is Ok && final(self)@ == d,
                    Err(e) => r == Err::<(), Error>(e) && final(self)@ == old(self)@,
                }
            }),
            lookup(old(self)@, name@) is None ==> r is Ok,
    {
        match self.find(&name) {
            None => {
                self.push(name, value);
                Ok(())
            },
            Some(i) => {
                proof {
                    lemma_bindings_of(self.entries@);
                }
                let ghost s0 = *seed;
                let ra = value.value(self, seed);
                let ghost s1 = *seed;
                let a = match ra {
                    Ok(m) => m,
                    Err(e) => {
                        assert(eval(value@, self@, self.entries@.len() as nat, s0).0 == Err::<MagnitudeView, Error>(e));
                        return Err(e);
                    },
                };
                let rb = self.entries[i].value.value(self, seed);
                let b = match rb {
                    Ok(m) => m,
                    Err(e) => {
                        assert(eval(self.entries@[i as int].value@, self@, self.entries@.len() as nat, s1).0 == Err::<MagnitudeView, Error>(e));
                        return Err(e);
                    },
                };
                if a.is_close(&b) && a.unit == b.unit {
                    Ok(())
                } else {
                    Err(Error::BindingConflict)
                }
            },
        }
    }
}

impl Dictionary {
    /// A copy of this dictionary.
    pub fn copy(&self) -> (r: Dictionary)
        ensures
            r@ == self@,
    {
        let mut r = Dictionary::new();
        let mut i: usize = 0;
        proof {
            lemma_bindings_of(self.entries@);
            assert(self@.subrange(0, 0) =~= r@);
        }
        while i < self.entries.len()
            invariant
                i <= self.entries@.len(),
                self@.len() == self.entries@.len(),
                forall|j: int| 0 <= j < self.entries@.len() ==> #[trigger] self@[j] == (self.entries@[j].name@, self.entries@[j].value@),
                r@ == self@.subrange(0, i as int),
            decreases self.entries@.len() - i,
        {
            let b = &self.entries[i];
            r.push(b.name.clone(), b.value.copy());
            i = i + 1;
            assert(r@ =~= self@.subrange(0, i as int));
        }
        assert(self@.subrange(0, self@.len() as int) =~= self@);
        r
    }
}

impl Dictionary {
    /// Adds copies of the bindings of `other` after those of `self`.
    pub fn extend(&mut self, other: &Dictionary)
        ensures
            final(self)@ == old(self)@ + other@,
    {
        let mut i: usize = 0;
        proof {
            lemma_bindings_of(other.entries@);
            assert(old(self)@ + other@.subrange(0, 0) =~= old(self)@);
        }
        while i < other.entries.len()
            invariant
                i <= other.entries@.len(),
                other@.len() == other.entries@.len(),
                forall|j: int| 0 <= j < other.entries@.len() ==> #[trigger] other@[j] == (other.entries@[j].name@, other.entries@[j].value@),
                self@ == old(self)@ + other@.subrange(0, i as int),
            decreases other.entries@.len() - i,
        {
            let b = &other.entries[i];
            self.push(b.name.clone(), b.value.copy());
            i = i + 1;
            assert(self@ =~= old(self)@ + other@.subrange(0, i as int));
        }
        assert(other@.subrange(0, other@.len() as int) =~= other@);
    }
}

proof fn lemma_quotient_of_magnitudes(a: MagnitudeView, b: MagnitudeView)
    ensures
        product(quotient(Term::Mag(a), Term::Mag(b)), Term::Mag(b))
            == Term::Prod(seq![Term::Div(Box::new(Term::Mag(a)), Box::new(Term::Mag(b))), Term::Mag(b)]),
{
    let ta = Term::Mag(a);
    let tb = Term::Mag(b);
    let empty = Term::Prod(Seq::empty());
    assert(items(ta, Chain::Prod) + items(empty, Chain::Prod) =~= seq![ta]);
    assert(product(ta, empty) == ta);
    assert(items(empty, Chain::Prod) + items(tb, Chain::Prod) =~= seq![tb]);
    assert(product(empty, tb) == tb);
    let q = Term::Div(Box::new(ta), Box::new(tb));
    assert(quotient(ta, tb) == q);
    assert(items(q, Chain::Prod) + items(tb, Chain::Prod) =~= seq![q, tb]);
}

/// Dividing a magnitude `a` by `b` and multiplying by `b` again gives the
/// value of `a` back, exactly; the only way it can fail is a numerator or a
/// denominator too large on the way.
pub proof fn lemma_division_identity(a: MagnitudeView, b: MagnitudeView, d: Seq<(Seq<char>, Term)>, fuel: nat, seed: u64)
    requires
        a.wf(),
        b.wf(),
        b.num != 0,
    ensures
        ({
            let (r, _) = eval(product(quotient(Term::Mag(a), Term::Mag(b)), Term::Mag(b)), d, fuel, seed);
            &&& (r matches Ok(m) ==> cross_diff(m, a) == 0)
            &&& (r matches Err(e) ==> e == Error::Overflow)
        }),
{
    lemma_quotient_of_magnitudes(a, b);
    let ta = Term::Mag(a);
    let tb = Term::Mag(b);
    let q = Term::Div(Box::new(ta), Box::new(tb));
    let s = seq![q, tb];
    let unk = unknown_unit();
    assert(s.subrange(0, 1) =~= seq![q]);
    assert(seq![q].subrange(0, 0) =~= Seq::<Term>::empty());
    assert(s.subrange(0, 2 - 1) =~= seq![q]);
    assert(eval(ta, d, fuel, seed) == (Ok::<MagnitudeView, Error>(a), seed));
    assert(eval(tb, d, fuel, seed) == (Ok::<MagnitudeView, Error>(b), seed));
    let qr = quotient_of(a, b, unk);
    assert(eval(q, d, fuel, seed) == (qr, seed));
    let one = fold_start(Chain::Prod);
    let s1 = seq![q];
    assert(s1.subrange(0, s1.len() - 1) =~= Seq::<Term>::empty());
    assert(eval_fold(Chain::Prod, Seq::<Term>::empty(), d, fuel, seed) == (Ok::<(bool, MagnitudeView), Error>((true, one)), seed));
    assert(s1[s1.len() - 1] == q);
    assert(s.subrange(0, s.len() - 1) =~= s1);
    assert(s[s.len() - 1] == tb);
    assert(eval(Term::Prod(s), d, fuel, seed) == folded(Chain::Prod, eval_fold(Chain::Prod, s, d, fuel, seed)));
    if qr is Err {
        assert(qr->Err_0 == Error::Overflow);
        assert(eval_fold(Chain::Prod, s1, d, fuel, seed) == (Err::<(bool, MagnitudeView), Error>(qr->Err_0), seed));
        assert(eval_fold(Chain::Prod, s, d, fuel, seed) == (Err::<(bool, MagnitudeView), Error>(qr->Err_0), seed));
    }
    let (r, _) = eval(Term::Prod(s), d, fuel, seed);
    if qr is Ok {
        let qv = qr->Ok_0;
        let n_q: int = if b.negative { -(a.numer() * b.den) } else { a.numer() * b.den };
        let d_q: int = (a.den * b.num) as int;
        assert(d_q > 0) by (nonlinear_arith)
            requires a.den > 0, b.num > 0, d_q == a.den * b.num;
        lemma_reduced_value(n_q, d_q, unk);
        let pr = product_of(one, qv, unk);
        assert(one.numer() * qv.numer() == qv.numer()) by (nonlinear_arith)
            requires one.numer() == 1;
        assert(one.den * qv.den == qv.den) by (nonlinear_arith)
            requires one.den == 1;
        if pr is Err {
            assert(eval_fold(Chain::Prod, s1, d, fuel, seed) == (Err::<(bool, MagnitudeView), Error>(Error::Overflow), seed));
            assert(eval_fold(Chain::Prod, s, d, fuel, seed) == (Err::<(bool, MagnitudeView), Error>(Error::Overflow), seed));
        }
        if pr is Ok {
            let pv = pr->Ok_0;
            lemma_reduced_value(qv.numer(), qv.den as int, unk);
            assert(eval_fold(Chain::Prod, seq![q], d, fuel, seed) == (Ok::<(bool, MagnitudeView), Error>((true, pv)), seed));
            let mr = product_of(pv, b, unk);
            assert(eval_fold(Chain::Prod, s, d, fuel, seed) == (fold_step(Chain::Prod, pv, b, false), seed));
            if mr is Err {
                assert(mr->Err_0 == Error::Overflow);
                assert(r == Err::<MagnitudeView, Error>(Error::Overflow));
            }
            if mr is Ok {
                let mv = mr->Ok_0;
                assert(pv.den * b.den > 0) by (nonlinear_arith)
                    requires pv.den > 0, b.den > 0;
                lemma_reduced_value(pv.numer() * b.numer(), (pv.den * b.den) as int, unk);
                assert(r == Ok::<MagnitudeView, Error>(mv));
                let (mm, md, pp, pd, qq, qd) = (mv.numer(), mv.den as int, pv.numer(), pv.den as int, qv.numer(), qv.den as int);
                let (aa, ad, bb, bd, bn) = (a.numer(), a.den as int, b.numer(), b.den as int, b.num as int);
                assert(qq * ad * bb == aa * bd * qd) by (nonlinear_arith)
                    requires
                        qq * (ad * bn) == n_q * qd,
                        n_q == (if b.negative { -(aa * bd) } else { aa * bd }),
                        bb == (if b.negative { -bn } else { bn }),
                ;
                let x = pd * bd * qd;
                let l1 = mm * (pd * bd);
                let r1 = (pp * bb) * md;
                assert(mm * ad * x == l1 * (ad * qd)) by (nonlinear_arith)
                    requires x == pd * bd * qd, l1 == mm * (pd * bd);
                assert(l1 * (ad * qd) == r1 * (ad * qd)) by (nonlinear_arith)
                    requires l1 == r1;
                assert(r1 * (ad * qd) == (pp * qd) * (bb * md * ad)) by (nonlinear_arith)
                    requires r1 == (pp * bb) * md;
                let l2 = pp * qd;
                let r2 = qq * pd;
                assert(l2 * (bb * md * ad) == r2 * (bb * md * ad)) by (nonlinear_arith)
                    requires l2 == r2;
                assert(r2 * (bb * md * ad) == (qq * ad * bb) * (pd * md)) by (nonlinear_arith)
                    requires r2 == qq * pd;
                let l3 = qq * ad * bb;
                let r3 = aa * bd * qd;
                assert(l3 * (pd * md) == r3 * (pd * md)) by (nonlinear_arith)
                    requires l3 == r3;
                assert(r3 * (pd * md) == aa * md * x) by (nonlinear_arith)
                    requires r3 == aa * bd * qd, x == pd * bd * qd;
                assert(mm * ad * (pd * bd * qd) == aa * md * (pd * bd * qd));
                assert(pd * bd * qd > 0) by (nonlinear_arith)
                    requires pd > 0, bd > 0, qd > 0;
                assert(mm * ad == aa * md) by (nonlinear_arith)
                    requires
                        mm * ad * (pd * bd * qd) == aa * md * (pd * bd * qd),
                        pd * bd * qd > 0,
                ;
            }
        }
    }
}

/// Binding a new name to a value binds it; binding it again to the same
/// value keeps the binding; binding it to a value that differs by more than
/// `1 / 100000`, or in its unit, is a conflict.
pub proof fn lemma_rebinding(d: Seq<(Seq<char>, Term)>, name: Seq<char>, m: MagnitudeView, m2: MagnitudeView, seed: u64)
    requires
        m.wf(),
        m2.wf(),
        lookup(d, name) is None,
    ensures
        bind_outcome(d, name, Term::Mag(m), seed).0 == Ok::<Seq<(Seq<char>, Term)>, Error>(d.push((name, Term::Mag(m)))),
        bind_outcome(d.push((name, Term::Mag(m))), name, Term::Mag(m), seed).0
            == Ok::<Seq<(Seq<char>, Term)>, Error>(d.push((name, Term::Mag(m)))),
        !(close(m2, m) && m2.unit == m.unit) ==> bind_outcome(d.push((name, Term::Mag(m))), name, Term::Mag(m2), seed).0
            == Err::<Seq<(Seq<char>, Term)>, Error>(Error::BindingConflict),
{
    let d1 = d.push((name, Term::Mag(m)));
    assert(d1.last() == (name, Term::Mag(m)));
    assert(lookup(d1, name) == Some(Term::Mag(m)));
    assert(cross_diff(m, m) == 0);
    assert(close(m, m));
}

} // verus!
