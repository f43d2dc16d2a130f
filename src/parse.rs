// Postfix formulas: words, operators, macros, and the stack machine that
// builds an expression.

use vstd::prelude::*;

use crate::error::Error;
use crate::evaluation::{eval, lemma_division_identity, lookup, Dictionary};
use crate::expression::{
    combine, combined, div_expression, inverted, lemma_terms_of, neg_expression, negated,
    not_expression, pop_term, prod_expression, product, push_term, quotient, terms_of, Chain,
    Expression, Term,
};
use crate::macros::{macro_lookup, Macros};
use crate::magnitude::{cross_diff, negation_of, fits, is_numeral, numeral_parts, numeral_value, reduced, strip_underscores, Magnitude, MagnitudeView};
use crate::text::{chars_of, string_of};

verus! {

/// How deep macro bodies may expand into each other.
pub const MACRO_DEPTH: u64 = 64;

pub open spec fn is_separator(c: char) -> bool {
    c == ' ' || c == '\n' || c == '\t'
}

/// The tokens read so far from `s`, and the token being read.
pub open spec fn split_state(s: Seq<char>) -> (Seq<Seq<char>>, Seq<char>)
    decreases s.len(),
{
    if s.len() == 0 {
        (Seq::empty(), Seq::empty())
    } else {
        let (done, cur) = split_state(s.drop_last());
        if is_separator(s.last()) {
            if cur.len() > 0 {
                (done.push(cur), Seq::empty())
            } else {
                (done, cur)
            }
        } else {
            (done, cur.push(s.last()))
        }
    }
}

/// The words of `s`, separated by blanks, tabs and line breaks.
pub open spec fn tokens(s: Seq<char>) -> Seq<Seq<char>> {
    let (done, cur) = split_state(s);
    if cur.len() > 0 {
        done.push(cur)
    } else {
        done
    }
}

pub open spec fn words_of(v: Seq<Vec<char>>) -> Seq<Seq<char>> {
    v.map_values(|t: Vec<char>| t@)
}

pub fn tokenize(s: &str) -> (r: Vec<Vec<char>>)
    ensures
        words_of(r@) == tokens(s@),
{
    let cs = chars_of(s);
    let mut done: Vec<Vec<char>> = Vec::new();
    let mut cur: Vec<char> = Vec::new();
    let mut i: usize = 0;
    while i < cs.len()
        invariant
            cs@ == s@,
            i <= cs@.len(),
            (words_of(done@), cur@) == split_state(cs@.subrange(0, i as int)),
        decreases cs@.len() - i,
    {
        let c = cs[i];
        assert(cs@.subrange(0, i + 1).drop_last() =~= cs@.subrange(0, i as int));
        if c == ' ' || c == '\n' || c == '\t' {
            if cur.len() > 0 {
                let ghost d0 = done@;
                let ghost c0 = cur@;
                done.push(cur);
                cur = Vec::new();
                assert(words_of(done@) =~= words_of(d0).push(c0));
                assert(cur@ =~= Seq::<char>::empty());
            }
        } else {
            cur.push(c);
        }
        i = i + 1;
    }
    assert(cs@.subrange(0, cs@.len() as int) =~= cs@);
    if cur.len() > 0 {
        let ghost d0 = done@;
        let ghost c0 = cur@;
        done.push(cur);
        assert(words_of(done@) =~= words_of(d0).push(c0));
    }
    done
}

/// The operators of the expression language.
#[derive(Debug, Clone, Copy, PartialEq, Eq, Structural)]
pub enum Op {
    Bind,
    Fetch,
    SetUnit,
    NoUnit,
    Plus,
    Minus,
    Negate,
    Times,
    Over,
    Root,
    Random,
    And,
    Or,
    Not,
    Equal,
    Unequal,
    Less,
    LessEqual,
    Greater,
    GreaterEqual,
    Trace,
}

/// The operator that a token names.
pub open spec fn op_of(t: Seq<char>) -> Option<Op> {
    if t == seq!['!'] {
        Some(Op::Bind)
    } else if t == seq!['@'] {
        Some(Op::Fetch)
    } else if t == seq![':'] {
        Some(Op::SetUnit)
    } else if t == seq![':', ':'] {
        Some(Op::NoUnit)
    } else if t == seq!['+'] {
        Some(Op::Plus)
    } else if t == seq!['-'] {
        Some(Op::Minus)
    } else if t == seq!['n', 'e', 'g'] {
        Some(Op::Negate)
    } else if t == seq!['*'] {
        Some(Op::Times)
    } else if t == seq!['/'] {
        Some(Op::Over)
    } else if t == seq!['s', 'q', 'r', 't'] {
        Some(Op::Root)
    } else if t == seq!['r', 'a', 'n', 'd'] {
        Some(Op::Random)
    } else if t == seq!['a', 'n', 'd'] {
        Some(Op::And)
    } else if t == seq!['o', 'r'] {
        Some(Op::Or)
    } else if t == seq!['n', 'o', 't'] {
        Some(Op::Not)
    } else if t == seq!['=', '='] {
        Some(Op::Equal)
    } else if t == seq!['!', '='] {
        Some(Op::Unequal)
    } else if t == seq!['<'] {
        Some(Op::Less)
    } else if t == seq!['<', '='] {
        Some(Op::LessEqual)
    } else if t == seq!['>'] {
        Some(Op::Greater)
    } else if t == seq!['>', '='] {
        Some(Op::GreaterEqual)
    } else if t == seq!['d', 'e', 'b', 'u', 'g'] || t == seq!['.'] {
        Some(Op::Trace)
    } else {
        None
    }
}

fn word1(t: &Vec<char>, c0: char) -> (r: bool)
    ensures
        r == (t@ == seq![c0]),
{
    let r = t.len() == 1 && t[0] == c0;
    assert(r ==> t@ =~= seq![c0]);
    r
}

fn word2(t: &Vec<char>, c0: char, c1: char) -> (r: bool)
    ensures
        r == (t@ == seq![c0, c1]),
{
    let r = t.len() == 2 && t[0] == c0 && t[1] == c1;
    assert(r ==> t@ =~= seq![c0, c1]);
    r
}

fn word3(t: &Vec<char>, c0: char, c1: char, c2: char) -> (r: bool)
    ensures
        r == (t@ == seq![c0, c1, c2]),
{
    let r = t.len() == 3 && t[0] == c0 && t[1] == c1 && t[2] == c2;
    assert(r ==> t@ =~= seq![c0, c1, c2]);
    r
}

fn word4(t: &Vec<char>, c0: char, c1: char, c2: char, c3: char) -> (r: bool)
    ensures
        r == (t@ == seq![c0, c1, c2, c3]),
{
    let r = t.len() == 4 && t[0] == c0 && t[1] == c1 && t[2] == c2 && t[3] == c3;
    assert(r ==> t@ =~= seq![c0, c1, c2, c3]);
    r
}

fn word5(t: &Vec<char>, c0: char, c1: char, c2: char, c3: char, c4: char) -> (r: bool)
    ensures
        r == (t@ == seq![c0, c1, c2, c3, c4]),
{
    let r = t.len() == 5 && t[0] == c0 && t[1] == c1 && t[2] == c2 && t[3] == c3 && t[4] == c4;
    assert(r ==> t@ =~= seq![c0, c1, c2, c3, c4]);
    r
}

fn op_code(t: &Vec<char>) -> (r: Option<Op>)
    ensures
        r == op_of(t@),
{
    if word1(t, '!') {
        Some(Op::Bind)
    } else if word1(t, '@') {
        Some(Op::Fetch)
    } else if word1(t, ':') {
        Some(Op::SetUnit)
    } else if word2(t, ':', ':') {
        Some(Op::NoUnit)
    } else if word1(t, '+') {
        Some(Op::Plus)
    } else if word1(t, '-') {
        Some(Op::Minus)
    } else if word3(t, 'n', 'e', 'g') {
        Some(Op::Negate)
    } else if word1(t, '*') {
        Some(Op::Times)
    } else if word1(t, '/') {
        Some(Op::Over)
    } else if word4(t, 's', 'q', 'r', 't') {
        Some(Op::Root)
    } else if word4(t, 'r', 'a', 'n', 'd') {
        Some(Op::Random)
    } else if word3(t, 'a', 'n', 'd') {
        Some(Op::And)
    } else if word2(t, 'o', 'r') {
        Some(Op::Or)
    } else if word3(t, 'n', 'o', 't') {
        Some(Op::Not)
    } else if word2(t, '=', '=') {
        Some(Op::Equal)
    } else if word2(t, '!', '=') {
        Some(Op::Unequal)
    } else if word1(t, '<') {
        Some(Op::Less)
    } else if word2(t, '<', '=') {
        Some(Op::LessEqual)
    } else if word1(t, '>') {
        Some(Op::Greater)
    } else if word2(t, '>', '=') {
        Some(Op::GreaterEqual)
    } else if word5(t, 'd', 'e', 'b', 'u', 'g') || word1(t, '.') {
        Some(Op::Trace)
    } else {
        None
    }
}

/// The value that a numeral token stands for, if the token is one.
pub open spec fn parsed(t: Seq<char>) -> Option<MagnitudeView> {
    match numeral_value(t) {
        Some((n, d, u)) => if fits(n, d) {
            Some(reduced(n, d, u)->Ok_0)
        } else {
            None
        },
        None => None,
    }
}

/// A literal goes on the stack as its size, negated where it is negative.
pub open spec fn literal(m: MagnitudeView) -> Term {
    if m.negative {
        Term::Neg(Box::new(Term::Mag(MagnitudeView { negative: false, ..m })))
    } else {
        Term::Mag(m)
    }
}

/// The result of a binary operator on `a` (below) and `b` (on top).
pub open spec fn binary(op: Op, a: Term, b: Term) -> Term {
    match op {
        Op::Plus => combined(Chain::Add, a, b),
        Op::Minus => combined(Chain::Add, a, negated(b)),
        Op::Times => product(a, b),
        Op::Over => quotient(a, b),
        Op::Random => Term::Rand(Box::new(a), Box::new(b)),
        Op::And => combined(Chain::And, a, b),
        Op::Or => combined(Chain::Or, a, b),
        Op::Equal => combined(Chain::Eq, a, b),
        Op::Unequal => combined(Chain::Neq, a, b),
        Op::Less => combined(Chain::Le, a, b),
        Op::LessEqual => combined(Chain::Leq, a, b),
        Op::Greater => combined(Chain::Ge, a, b),
        _ => combined(Chain::Geq, a, b),
    }
}

pub open spec fn is_binary_op(op: Op) -> bool {
    op is Plus || op is Minus || op is Times || op is Over || op is Random || op is And || op is Or
        || op is Equal || op is Unequal || op is Less || op is LessEqual || op is Greater
        || op is GreaterEqual
}

/// The result of a unary operator on `a`.
pub open spec fn unary(op: Op, a: Term) -> Term {
    match op {
        Op::Negate => negated(a),
        Op::Root => Term::Sqrt(Box::new(a)),
        Op::Not => inverted(a),
        _ => Term::Unit(Box::new(a), Seq::empty()),
    }
}

pub open spec fn is_unary_op(op: Op) -> bool {
    op is Negate || op is Root || op is Not || op is NoUnit
}

/// What an operator does to the stack and to the local variables.
pub open spec fn apply(op: Op, st: Seq<Term>, loc: Seq<(Seq<char>, Term)>) -> Result<(Seq<Term>, Seq<(Seq<char>, Term)>), Error> {
    let n = st.len();
    if op is Trace {
        Ok((st, loc))
    } else if is_unary_op(op) {
        if n < 1 {
            Err(Error::StackImbalance)
        } else {
            Ok((st.drop_last().push(unary(op, st.last())), loc))
        }
    } else if op is Fetch {
        if n < 1 {
            Err(Error::StackImbalance)
        } else {
            match st.last() {
                Term::Var(name) => match lookup(loc, name) {
                    Some(v) => Ok((st.drop_last().push(v), loc)),
                    None => Err(Error::UnboundReference),
                },
                _ => Err(Error::NotAName),
            }
        }
    } else if n < 2 {
        Err(Error::StackImbalance)
    } else {
        let a = st[n - 2];
        let b = st[n - 1];
        let rest = st.subrange(0, n - 2);
        if op is Bind {
            match b {
                Term::Var(name) => Ok((rest, loc.push((name, a)))),
                _ => Err(Error::NotAName),
            }
        } else if op is SetUnit {
            match b {
                Term::Var(u) => Ok((rest.push(Term::Unit(Box::new(a), u)), loc)),
                _ => Err(Error::NotAName),
            }
        } else {
            Ok((rest.push(binary(op, a, b)), loc))
        }
    }
}

/// The stack and the local variables after the tokens `ts`, from `stack` and
/// no local variables. A macro expands in place, with local variables of its
/// own, at most `depth` levels deep.
pub open spec fn run(ts: Seq<Seq<char>>, stack: Seq<Term>, m: Seq<(Seq<char>, Seq<char>)>, depth: nat) -> Result<(Seq<Term>, Seq<(Seq<char>, Term)>), Error>
    decreases depth, ts.len(),
{
    if ts.len() == 0 {
        Ok((stack, Seq::empty()))
    } else {
        match run(ts.drop_last(), stack, m, depth) {
            Err(e) => Err(e),
            Ok((st, loc)) => step(ts.last(), st, loc, m, depth),
        }
    }
}

/// What one token does: a numeral is pushed (one too large to hold is an
/// overflow), an operator applied, a macro expanded, and any other word
/// pushed as a variable.
pub open spec fn step(t: Seq<char>, st: Seq<Term>, loc: Seq<(Seq<char>, Term)>, m: Seq<(Seq<char>, Seq<char>)>, depth: nat) -> Result<(Seq<Term>, Seq<(Seq<char>, Term)>), Error>
    decreases depth, 0nat,
{
    match parsed(t) {
        Some(v) => Ok((st.push(literal(v)), loc)),
        None => if numeral_parts(strip_underscores(t)) is Some {
            Err(Error::Overflow)
        } else {
            match op_of(t) {
                Some(op) => apply(op, st, loc),
                None => match macro_lookup(m, t) {
                    Some(body) => if depth == 0 {
                        Err(Error::MacroCycle)
                    } else {
                        match run(tokens(body), st, m, (depth - 1) as nat) {
                            Ok((st2, _)) => Ok((st2, loc)),
                            Err(e) => Err(e),
                        }
                    },
                    None => Ok((st.push(Term::Var(t)), loc)),
                },
            }
        },
    }
}

/// The expression that the text `s` writes: exactly one value must remain.
pub open spec fn parse(s: Seq<char>, m: Seq<(Seq<char>, Seq<char>)>) -> Result<Term, Error> {
    match run(tokens(s), Seq::empty(), m, MACRO_DEPTH as nat) {
        Err(e) => Err(e),
        Ok((st, _)) => if st.len() == 1 {
            Ok(st[0])
        } else {
            Err(Error::StackImbalance)
        },
    }
}

fn binary_exec(op: Op, a: Expression, b: Expression) -> (r: Expression)
    ensures
        r@ == binary(op, a@, b@),
{
    match op {
        Op::Plus => combine(Chain::Add, a, b),
        Op::Minus => combine(Chain::Add, a, neg_expression(b)),
        Op::Times => prod_expression(a, b),
        Op::Over => div_expression(a, b),
        Op::Random => Expression::Rand(Box::new(a), Box::new(b)),
        Op::And => combine(Chain::And, a, b),
        Op::Or => combine(Chain::Or, a, b),
        Op::Equal => combine(Chain::Eq, a, b),
        Op::Unequal => combine(Chain::Neq, a, b),
        Op::Less => combine(Chain::Le, a, b),
        Op::LessEqual => combine(Chain::Leq, a, b),
        Op::Greater => combine(Chain::Ge, a, b),
        _ => combine(Chain::Geq, a, b),
    }
}

fn unary_exec(op: Op, a: Expression) -> (r: Expression)
    ensures
        r@ == unary(op, a@),
{
    match op {
        Op::Negate => neg_expression(a),
        Op::Root => Expression::Sqrt(Box::new(a)),
        Op::Not => not_expression(a),
        _ => Expression::Unit(Box::new(a), String::new()),
    }
}

fn apply_op(op: Op, stack: &mut Vec<Expression>, loc: &mut Dictionary) -> (r: Result<(), Error>)
    ensures
        match apply(op, terms_of(old(stack)@), old(loc)@) {
            Ok((st, l)) => r is Ok && terms_of(final(stack)@) == st && final(loc)@ == l,
            Err(e) => r == Err::<(), Error>(e),
        },
{
    proof {
        lemma_terms_of(stack@);
    }
    let is_unary = match op {
        Op::Negate | Op::Root | Op::Not | Op::NoUnit => true,
        _ => false,
    };
    if op == Op::Trace {
        Ok(())
    } else if is_unary {
        if stack.len() < 1 {
            return Err(Error::StackImbalance);
        }
        let a = pop_term(stack);
        push_term(stack, unary_exec(op, a));
        Ok(())
    } else if op == Op::Fetch {
        if stack.len() < 1 {
            return Err(Error::StackImbalance);
        }
        let b = pop_term(stack);
        match b {
            Expression::Variable(name) => match loc.find(&name) {
                Some(i) => {
                    let v = loc.entries[i].value.copy();
                    push_term(stack, v);
                    Ok(())
                },
                None => Err(Error::UnboundReference),
            },
            _ => Err(Error::NotAName),
        }
    } else if stack.len() < 2 {
        Err(Error::StackImbalance)
    } else {
        let ghost st0 = terms_of(stack@);
        let b = pop_term(stack);
        let a = pop_term(stack);
        proof {
            assert(st0.drop_last().drop_last() =~= st0.subrange(0, st0.len() - 2));
        }
        if op == Op::Bind {
            match b {
                Expression::Variable(name) => {
                    loc.push(name, a);
                    Ok(())
                },
                _ => Err(Error::NotAName),
            }
        } else if op == Op::SetUnit {
            match b {
                Expression::Variable(u) => {
                    push_term(stack, Expression::Unit(Box::new(a), u));
                    Ok(())
                },
                _ => Err(Error::NotAName),
            }
        } else {
            push_term(stack, binary_exec(op, a, b));
            Ok(())
        }
    }
}

fn literal_exec(m: Magnitude) -> (r: Expression)
    ensures
        r@ == literal(m@),
{
    if m.negative {
        let ghost v = m@;
        let a = Magnitude { negative: false, num: m.num, den: m.den, unit: m.unit };
        assert(a@ == (MagnitudeView { negative: false, ..v }));
        let inner = Expression::Magnitude(a);
        assert(inner@ == Term::Mag(a@));
        let r = Expression::Neg(Box::new(inner));
        assert(r@ == Term::Neg(Box::new(Term::Mag(a@))));
        r
    } else {
        Expression::Magnitude(m)
    }
}

fn step_token(t: &Vec<char>, stack: &mut Vec<Expression>, loc: &mut Dictionary, macros: &Macros, depth: u64) -> (r: Result<(), Error>)
    ensures
        match step(t@, terms_of(old(stack)@), old(loc)@, macros.table(), depth as nat) {
            Ok((st, l)) => r is Ok && terms_of(final(stack)@) == st && final(loc)@ == l,
            Err(e) => r == Err::<(), Error>(e),
        },
    decreases depth, 0nat,
{
    let word = string_of(t.as_slice());
    match Magnitude::get(word.as_str()) {
        Some(m) => {
            push_term(stack, literal_exec(m));
            return Ok(());
        },
        None => {
            if is_numeral(word.as_str()) {
                return Err(Error::Overflow);
            }
        },
    }
    match op_code(t) {
        Some(op) => {
            return apply_op(op, stack, loc);
        },
        None => {},
    }
    match macros.get(t) {
        Some(body) => {
            if depth == 0 {
                Err(Error::MacroCycle)
            } else {
                let toks = tokenize(body.as_str());
                inject(&toks, stack, macros, depth - 1)
            }
        },
        None => {
            push_term(stack, Expression::Variable(word));
            Ok(())
        },
    }
}

proof fn lemma_run_stays_err(ts: Seq<Seq<char>>, stack: Seq<Term>, m: Seq<(Seq<char>, Seq<char>)>, depth: nat, i: int, e: Error)
    requires
        0 <= i <= ts.len(),
        run(ts.subrange(0, i), stack, m, depth) == Err::<(Seq<Term>, Seq<(Seq<char>, Term)>), Error>(e),
    ensures
        run(ts, stack, m, depth) == Err::<(Seq<Term>, Seq<(Seq<char>, Term)>), Error>(e),
    decreases ts.len() - i,
{
    if i < ts.len() {
        let p = ts.subrange(0, i + 1);
        assert(p.drop_last() =~= ts.subrange(0, i));
        lemma_run_stays_err(ts, stack, m, depth, i + 1, e);
    } else {
        assert(ts.subrange(0, i) =~= ts);
    }
}

/// Runs the tokens `ts` on `stack`, with local variables of their own.
fn inject(ts: &Vec<Vec<char>>, stack: &mut Vec<Expression>, macros: &Macros, depth: u64) -> (r: Result<(), Error>)
    ensures
        match run(words_of(ts@), terms_of(old(stack)@), macros.table(), depth as nat) {
            Ok((st, _)) => r is Ok && terms_of(final(stack)@) == st,
            Err(e) => r == Err::<(), Error>(e),
        },
    decreases depth, 1nat,
{
    let mut loc = Dictionary::new();
    let mut i: usize = 0;
    let ghost w = words_of(ts@);
    let ghost st0 = terms_of(stack@);
    proof {
        assert(w.subrange(0, 0) =~= Seq::<Seq<char>>::empty());
    }
    while i < ts.len()
        invariant
            i <= ts@.len(),
            w == words_of(ts@),
            w.len() == ts@.len(),
            st0 == terms_of(old(stack)@),
            run(w.subrange(0, i as int), st0, macros.table(), depth as nat) == Ok::<(Seq<Term>, Seq<(Seq<char>, Term)>), Error>((terms_of(stack@), loc@)),
        decreases ts@.len() - i,
    {
        let ghost p = w.subrange(0, i + 1);
        proof {
            assert(p.drop_last() =~= w.subrange(0, i as int));
            assert(p.last() == ts@[i as int]@);
        }
        let r = step_token(&ts[i], stack, &mut loc, macros, depth);
        match r {
            Err(e) => {
                proof {
                    lemma_run_stays_err(w, st0, macros.table(), depth as nat, i + 1, e);
                }
                return Err(e);
            },
            Ok(()) => {},
        }
        i = i + 1;
    }
    proof {
        assert(w.subrange(0, w.len() as int) =~= w);
    }
    Ok(())
}

impl Expression {
    /// Reads an expression written in postfix notation (`"2 3 +"`,
    /// `"R1 R2 * R1 R2 + /"`), expanding the macros of `macros`.
    pub fn from(string: &str, macros: &Macros) -> (r: Result<Expression, Error>)
        ensures
            match parse(string@, macros.table()) {
                Ok(t) => r matches Ok(e) && e@ == t,
                Err(x) => r matches Err(y) && y == x,
            },
    {
        let toks = tokenize(string);
        let mut stack: Vec<Expression> = Vec::new();
        proof {
            assert(terms_of(stack@) =~= Seq::<Term>::empty());
        }
        match inject(&toks, &mut stack, macros, MACRO_DEPTH) {
            Err(e) => Err(e),
            Ok(()) => {
                proof {
                    lemma_terms_of(stack@);
                }
                if stack.len() == 1 {
                    Ok(pop_term(&mut stack))
                } else {
                    Err(Error::StackImbalance)
                }
            },
        }
    }
}

/// The law of division and multiplication on literals as the parser pushes
/// them (`"a b / b *"`, a negative numeral as a negation): the value of `a`
/// comes back exactly, or the evaluation overflows.
pub proof fn lemma_literal_division_identity(a: MagnitudeView, b: MagnitudeView, d: Seq<(Seq<char>, Term)>, fuel: nat, seed: u64)
    requires
        a.wf(),
        b.wf(),
        b.num != 0,
    ensures
        ({
            let (r, _) = eval(product(quotient(literal(a), literal(b)), literal(b)), d, fuel, seed);
            &&& (r matches Ok(m) ==> cross_diff(m, a) == 0)
            &&& (r matches Err(e) ==> e == Error::Overflow)
        }),
{
    let ua = MagnitudeView { negative: false, ..a };
    let ub = MagnitudeView { negative: false, ..b };
    lemma_division_identity(ua, ub, d, fuel, seed);
    let q0 = quotient(Term::Mag(ua), Term::Mag(ub));
    let p0 = product(q0, Term::Mag(ub));
    assert(q0 is Div);
    let q = quotient(literal(a), literal(b));
    assert(q == (if a.negative != b.negative { Term::Neg(Box::new(q0)) } else { q0 }));
    let t = product(q, literal(b));
    assert(t == (if a.negative { Term::Neg(Box::new(p0)) } else { p0 }));
    if a.negative {
        let (r0, _) = eval(p0, d, fuel, seed);
        if r0 is Ok {
            let m = r0->Ok_0;
            assert(cross_diff(m, ua) == 0);
            assert(ua.numer() == a.num);
            assert(a.numer() == -(a.num as int));
            let nm = negation_of(m);
            if m.num == 0 {
                assert(m.numer() == 0);
                let (an, md) = (a.num as int, m.den as int);
                assert(0 * (ua.den as int) == 0);
                assert(an * md == 0);
                assert((-an) * md == 0) by (nonlinear_arith)
                    requires an * md == 0;
                assert(nm.numer() == 0 && nm.den == m.den);
                assert(cross_diff(nm, a) == 0 * (a.den as int) - (-an) * md);
            }
            let (x, y, z, w) = (m.numer(), ua.den as int, ua.numer(), m.den as int);
            assert(nm.numer() == -x);
            assert((-x) * y - (-z) * w == -(x * y - z * w)) by (nonlinear_arith);
        }
    } else {
        assert(ua == a);
        assert(ub == b || b.negative);
    }
}

} // verus!
