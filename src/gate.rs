// Passage text: escapes, `{{ ... }}` interpolations of formulas, and the
// text, follow and note zones of a gate.

use vstd::prelude::*;

use crate::error::Error;
use crate::evaluation::{bind_outcome, eval, lemma_bindings_of, Dictionary};
use crate::expression::{Expression, Term};
use crate::macros::Macros;
use crate::magnitude::{decimal_text, display_of, is_digit, is_letter, is_space, push_chars, MagnitudeView};
use crate::show::show_text;
use crate::parse::parse;
use crate::passage::Gate;
use crate::text::{chars_of, string_of};

verus! {

/// `s` with each occurrence of the pair `a b`, read from the left, replaced
/// by `r`.
pub open spec fn replace_pair(s: Seq<char>, a: char, b: char, r: Seq<char>) -> Seq<char>
    decreases s.len(),
{
    if s.len() < 2 {
        s
    } else if s[0] == a && s[1] == b {
        r + replace_pair(s.subrange(2, s.len() as int), a, b, r)
    } else {
        seq![s[0]] + replace_pair(s.drop_first(), a, b, r)
    }
}

/// Escaped backslashes and braces (`\\`, `\{`, `\}`) hidden from the
/// interpolation markers.
pub open spec fn encoded(s: Seq<char>) -> Seq<char> {
    replace_pair(
        replace_pair(replace_pair(s, '\\', '\\', seq!['\\', '0']), '\\', '{', seq!['\\', 'a']),
        '\\',
        '}',
        seq!['\\', 'b'],
    )
}

/// The inverse of `encoded`, which also turns the escapes into the characters
/// they stand for.
pub open spec fn decoded(s: Seq<char>) -> Seq<char> {
    replace_pair(
        replace_pair(replace_pair(s, '\\', 'b', seq!['}']), '\\', 'a', seq!['{']),
        '\\',
        '0',
        seq!['\\'],
    )
}

fn replace_pair_exec(s: &Vec<char>, a: char, b: char, r: &Vec<char>) -> (out: Vec<char>)
    ensures
        out@ == replace_pair(s@, a, b, r@),
{
    let mut out: Vec<char> = Vec::new();
    let mut i: usize = 0;
    let n = s.len();
    proof {
        assert(s@.subrange(0, n as int) =~= s@);
    }
    while i < n
        invariant
            n == s@.len(),
            i <= n,
            out@ + replace_pair(s@.subrange(i as int, n as int), a, b, r@) == replace_pair(s@, a, b, r@),
        decreases n - i,
    {
        let ghost rest = s@.subrange(i as int, n as int);
        if i + 1 < n && s[i] == a && s[i + 1] == b {
            let ghost o0 = out@;
            let mut j: usize = 0;
            while j < r.len()
                invariant
                    j <= r@.len(),
                    out@ == o0 + r@.subrange(0, j as int),
                decreases r@.len() - j,
            {
                out.push(r[j]);
                j = j + 1;
                assert(out@ =~= o0 + r@.subrange(0, j as int));
            }
            assert(r@.subrange(0, r@.len() as int) =~= r@);
            assert(rest.subrange(2, rest.len() as int) =~= s@.subrange(i + 2, n as int));
            assert(o0 + (r@ + replace_pair(s@.subrange(i + 2, n as int), a, b, r@)) =~= out@ + replace_pair(s@.subrange(i + 2, n as int), a, b, r@));
            i = i + 2;
        } else {
            let ghost o0 = out@;
            out.push(s[i]);
            if i + 1 < n {
                assert(rest.drop_first() =~= s@.subrange(i + 1, n as int));
                assert(o0 + (seq![s@[i as int]] + replace_pair(s@.subrange(i + 1, n as int), a, b, r@)) =~= out@ + replace_pair(s@.subrange(i + 1, n as int), a, b, r@));
            } else {
                assert(rest =~= seq![s@[i as int]]);
                assert(s@.subrange(i + 1, n as int) =~= Seq::<char>::empty());
                assert(out@ =~= o0 + rest);
                assert(out@ + replace_pair(s@.subrange(i + 1, n as int), a, b, r@) =~= out@);
            }
            i = i + 1;
        }
    }
    assert(s@.subrange(n as int, n as int) =~= Seq::<char>::empty());
    assert(out@ + Seq::<char>::empty() =~= out@);
    out
}

/// Hides the escapes of `s`; see `encoded`.
pub fn encode_line(s: &Vec<char>) -> (r: Vec<char>)
    ensures
        r@ == encoded(s@),
{
    let r0 = vec!['\\', '0'];
    let r1 = vec!['\\', 'a'];
    let r2 = vec!['\\', 'b'];
    assert(r0@ =~= seq!['\\', '0']);
    assert(r1@ =~= seq!['\\', 'a']);
    assert(r2@ =~= seq!['\\', 'b']);
    let a = replace_pair_exec(s, '\\', '\\', &r0);
    let b = replace_pair_exec(&a, '\\', '{', &r1);
    replace_pair_exec(&b, '\\', '}', &r2)
}

/// Restores the escapes of `s`; see `decoded`.
pub fn decode_line(s: &Vec<char>) -> (r: Vec<char>)
    ensures
        r@ == decoded(s@),
{
    let r0 = vec!['}'];
    let r1 = vec!['{'];
    let r2 = vec!['\\'];
    assert(r0@ =~= seq!['}']);
    assert(r1@ =~= seq!['{']);
    assert(r2@ =~= seq!['\\']);
    let a = replace_pair_exec(s, '\\', 'b', &r0);
    let b = replace_pair_exec(&a, '\\', 'a', &r1);
    replace_pair_exec(&b, '\\', '0', &r2)
}

/// The first `k >= i` where the pair `a b` starts in `t`, or `t.len()`.
pub open spec fn find_pair(t: Seq<char>, i: int, a: char, b: char) -> int
    decreases t.len() - i,
{
    if i < 0 || i + 1 >= t.len() {
        t.len() as int
    } else if t[i] == a && t[i + 1] == b {
        i
    } else {
        find_pair(t, i + 1, a, b)
    }
}

fn find_pair_exec(t: &Vec<char>, i: usize, a: char, b: char) -> (k: usize)
    ensures
        k == find_pair(t@, i as int, a, b),
        k <= t@.len(),
        k < t@.len() ==> i <= k && k + 1 < t@.len(),
{
    let mut k: usize = i;
    while k < t.len() && t.len() - k > 1 && !(t[k] == a && t[k + 1] == b)
        invariant
            i <= k,
            find_pair(t@, i as int, a, b) == find_pair(t@, k as int, a, b),
        decreases t@.len() - k,
    {
        k = k + 1;
    }
    if k < t.len() && t.len() - k > 1 {
        k
    } else {
        t.len()
    }
}

pub open spec fn is_blank(c: char) -> bool {
    c == ' ' || c == '\t'
}

/// Number of white-space characters at the start of `s`.
pub open spec fn lead_space(s: Seq<char>) -> nat
    decreases s.len(),
{
    if s.len() > 0 && is_space(s[0]) {
        1 + lead_space(s.drop_first())
    } else {
        0
    }
}

/// Number of white-space characters at the end of `s`.
pub open spec fn trail_space(s: Seq<char>) -> nat
    decreases s.len(),
{
    if s.len() > 0 && is_space(s.last()) {
        1 + trail_space(s.drop_last())
    } else {
        0
    }
}

/// `s` without white space at either end.
pub open spec fn trimmed(s: Seq<char>) -> Seq<char> {
    let r = s.subrange(lead_space(s) as int, s.len() as int);
    r.subrange(0, r.len() - trail_space(r))
}

proof fn lemma_lead_space(s: Seq<char>)
    ensures
        lead_space(s) <= s.len(),
    decreases s.len(),
{
    if s.len() > 0 && is_space(s[0]) {
        lemma_lead_space(s.drop_first());
    }
}

proof fn lemma_trail_space(s: Seq<char>)
    ensures
        trail_space(s) <= s.len(),
    decreases s.len(),
{
    if s.len() > 0 && is_space(s.last()) {
        lemma_trail_space(s.drop_last());
    }
}

fn is_space_char(c: char) -> (r: bool)
    ensures
        r == is_space(c),
{
    c == ' ' || c == '\t' || c == '\n' || c == '\r'
}

fn slice(s: &Vec<char>, a: usize, b: usize) -> (r: Vec<char>)
    requires
        a <= b <= s@.len(),
    ensures
        r@ == s@.subrange(a as int, b as int),
{
    let mut r: Vec<char> = Vec::new();
    let mut i: usize = a;
    while i < b
        invariant
            a <= i <= b,
            b <= s@.len(),
            r@ == s@.subrange(a as int, i as int),
        decreases b - i,
    {
        r.push(s[i]);
        i = i + 1;
        assert(r@ =~= s@.subrange(a as int, i as int));
    }
    r
}

fn trim(s: &Vec<char>) -> (r: Vec<char>)
    ensures
        r@ == trimmed(s@),
{
    let mut a: usize = 0;
    proof {
        assert(s@.subrange(0, 0 + s@.len() - 0) =~= s@);
    }
    while a < s.len() && is_space_char(s[a])
        invariant
            a <= s@.len(),
            lead_space(s@) == a + lead_space(s@.subrange(a as int, s@.len() as int)),
        decreases s@.len() - a,
    {
        assert(s@.subrange(a as int, s@.len() as int).drop_first() =~= s@.subrange(a + 1, s@.len() as int));
        a = a + 1;
    }
    let ghost r0 = s@.subrange(a as int, s@.len() as int);
    let mut b: usize = s.len();
    proof {
        assert(r0.subrange(0, r0.len() as int) =~= r0);
    }
    while b > a && is_space_char(s[b - 1])
        invariant
            a <= b <= s@.len(),
            r0 == s@.subrange(a as int, s@.len() as int),
            trail_space(r0) == (s@.len() - b) + trail_space(s@.subrange(a as int, b as int)),
        decreases b,
    {
        assert(s@.subrange(a as int, b as int).drop_last() =~= s@.subrange(a as int, b - 1));
        b = b - 1;
    }
    proof {
        assert(r0.subrange(0, r0.len() - trail_space(r0)) =~= s@.subrange(a as int, b as int));
    }
    slice(s, a, b)
}

pub open spec fn has_blank(s: Seq<char>) -> bool {
    exists|i: int| 0 <= i < s.len() && is_blank(#[trigger] s[i])
}

/// The binding name and the formula of an interpolation: `name = formula`
/// where the text before the first `=` is one word, else no name.
pub open spec fn split_binding(rest: Seq<char>) -> (Seq<char>, Seq<char>) {
    let tr = trimmed(rest);
    let q = first_eq(tr);
    if q < tr.len() {
        let name = trimmed(tr.subrange(0, q));
        if name.len() > 0 && !has_blank(name) {
            (name, trimmed(tr.subrange(q + 1, tr.len() as int)))
        } else {
            (Seq::empty(), tr)
        }
    } else {
        (Seq::empty(), tr)
    }
}

/// The position of the first `=` in `s`, or `s.len()`.
pub open spec fn first_eq(s: Seq<char>) -> int
    decreases s.len(),
{
    if s.len() == 0 {
        0
    } else if s[0] == '=' {
        0
    } else {
        1 + first_eq(s.drop_first())
    }
}

fn first_eq_exec(s: &Vec<char>) -> (q: usize)
    ensures
        q == first_eq(s@),
        q <= s@.len(),
{
    let mut q: usize = 0;
    assert(s@.subrange(0, s@.len() as int) =~= s@);
    while q < s.len() && s[q] != '='
        invariant
            q <= s@.len(),
            first_eq(s@) == q + first_eq(s@.subrange(q as int, s@.len() as int)),
        decreases s@.len() - q,
    {
        assert(s@.subrange(q as int, s@.len() as int).drop_first() =~= s@.subrange(q + 1, s@.len() as int));
        q = q + 1;
    }
    q
}

fn has_blank_exec(s: &Vec<char>) -> (r: bool)
    ensures
        r == has_blank(s@),
{
    let mut i: usize = 0;
    while i < s.len()
        invariant
            i <= s@.len(),
            forall|j: int| 0 <= j < i ==> !is_blank(#[trigger] s@[j]),
        decreases s@.len() - i,
    {
        if s[i] == ' ' || s[i] == '\t' {
            assert(is_blank(s@[i as int]));
            return true;
        }
        i = i + 1;
    }
    false
}

fn split_binding_exec(rest: &Vec<char>) -> (r: (Vec<char>, Vec<char>))
    ensures
        (r.0@, r.1@) == split_binding(rest@),
{
    let tr = trim(rest);
    let q = first_eq_exec(&tr);
    if q < tr.len() {
        let name = trim(&slice(&tr, 0, q));
        if name.len() > 0 && !has_blank_exec(&name) {
            let e = trim(&slice(&tr, q + 1, tr.len()));
            return (name, e);
        }
    }
    (Vec::new(), tr)
}

pub type Bindings = Seq<(Seq<char>, Term)>;

pub open spec fn is_alnum(c: char) -> bool {
    is_digit(c) || is_letter(c)
}

pub open spec fn no_alnum(s: Seq<char>) -> bool {
    forall|i: int| 0 <= i < s.len() ==> !is_alnum(#[trigger] s[i])
}

/// A line whose only content is one interpolation is shown in display mode.
pub open spec fn is_display_line(t: Seq<char>) -> bool {
    let k = find_pair(t, 0, '{', '{');
    let j = find_pair(t, k + 2, '}', '}');
    &&& k < t.len()
    &&& j < t.len()
    &&& no_alnum(t.subrange(0, k))
    &&& no_alnum(t.subrange(j + 2, t.len() as int))
    &&& find_pair(t, j + 2, '}', '}') >= t.len()
}

/// The markers around a formula: `[[[ ... ]]]` in display mode, else
/// `((( ... )))`.
pub open spec fn markers(display: bool) -> (Seq<char>, Seq<char>) {
    if display {
        ("[[[ "@, " ]]]"@)
    } else {
        ("((( "@, " )))"@)
    }
}

/// A value as a bare number: its sign and its size to nine decimals; an
/// integer exactly.
pub open spec fn raw_text(v: MagnitudeView) -> Seq<char> {
    (if v.negative { seq!['-'] } else { Seq::empty() }) + decimal_text(v.num, v.den, 9)
}

/// What the interpolation `{{c}}` gives: `c` is a mode character, an
/// optional `name =` and a formula. The formula is evaluated where the mode
/// asks for its value (`.` the value, `,` the formula, `;` both, `!` the bare
/// number, `_` nothing), after `name` is bound to it.
#[verifier::opaque]
pub open spec fn interpolate(c: Seq<char>, d: Bindings, m: Seq<(Seq<char>, Seq<char>)>, seed: u64, display: bool) -> (Result<(Seq<char>, Bindings), Error>, u64) {
    if c.len() == 0 {
        (Err(Error::Malformed), seed)
    } else {
        let mode = c[0];
        let (name, expr) = split_binding(c.subrange(1, c.len() as int));
        match parse(decoded(expr), m) {
            Err(e) => (Err(e), seed),
            Ok(term) => {
                let nm = decoded(name);
                let (rb, s1) = if name.len() > 0 { bind_outcome(d, nm, term, seed) } else { (Ok(d), seed) };
                match rb {
                    Err(e) => (Err(e), s1),
                    Ok(d1) => interpolation_output(mode, name.len() > 0, nm, term, d1, s1, display),
                }
            },
        }
    }
}

/// What an interpolation of the given mode shows, once its binding is made.
pub open spec fn interpolation_output(mode: char, named: bool, nm: Seq<char>, term: Term, d1: Bindings, s1: u64, display: bool) -> (Result<(Seq<char>, Bindings), Error>, u64) {
    let (start, end) = markers(display);
    let label: Seq<char> = if named { nm + " = "@ } else { Seq::empty() };
    if mode == ',' {
        (Ok((start + label + show_text(term) + end, d1)), s1)
    } else if !(mode == '.' || mode == ';' || mode == '!') {
        (Ok((Seq::empty(), d1)), s1)
    } else {
        let (rv, s2) = eval(term, d1, d1.len() as nat, s1);
        match rv {
            Err(e) => (Err(e), s2),
            Ok(v) => if mode == '.' {
                (Ok((start + label + display_of(v) + end, d1)), s2)
            } else if mode == ';' {
                (Ok((start + label + show_text(term) + " = "@ + display_of(v) + end, d1)), s2)
            } else {
                let bare: Seq<char> = if named { nm + "="@ } else { Seq::empty() };
                (Ok((bare + raw_text(v), d1)), s2)
            },
        }
    }
}

pub open spec fn prepend(o: Seq<char>, r: (Result<(Seq<char>, Bindings), Error>, u64)) -> (Result<(Seq<char>, Bindings), Error>, u64) {
    match r.0 {
        Ok((x, d)) => (Ok((o + x, d)), r.1),
        Err(e) => (Err(e), r.1),
    }
}

/// The encoded line `t` from position `i` on, with its interpolations
/// replaced by what they give; the text between them is decoded.
pub open spec fn process_from(t: Seq<char>, i: int, d: Bindings, m: Seq<(Seq<char>, Seq<char>)>, seed: u64, display: bool) -> (Result<(Seq<char>, Bindings), Error>, u64)
    decreases t.len() - i,
{
    if i < 0 || i > t.len() {
        (Ok((Seq::empty(), d)), seed)
    } else {
        let k = find_pair(t, i, '{', '{');
        let j = find_pair(t, k + 2, '}', '}');
        if k >= t.len() || j >= t.len() || k < i || k + 2 > j || j + 2 > t.len() {
            (Ok((decoded(t.subrange(i, t.len() as int)), d)), seed)
        } else {
            let (r1, s1) = interpolate(t.subrange(k + 2, j), d, m, seed, display);
            match r1 {
                Err(e) => (Err(e), s1),
                Ok((o, d1)) => prepend(decoded(t.subrange(i, k)) + o, process_from(t, j + 2, d1, m, s1, display)),
            }
        }
    }
}

/// A line of text with its interpolations done.
pub open spec fn processed_line(line: Seq<char>, d: Bindings, m: Seq<(Seq<char>, Seq<char>)>, seed: u64) -> (Result<(Seq<char>, Bindings), Error>, u64) {
    let t = encoded(line);
    process_from(t, 0, d, m, seed, is_display_line(t))
}

fn no_alnum_exec(s: &Vec<char>, a: usize, b: usize) -> (r: bool)
    requires
        a <= b <= s@.len(),
    ensures
        r == no_alnum(s@.subrange(a as int, b as int)),
{
    let mut i: usize = a;
    while i < b
        invariant
            a <= i <= b <= s@.len(),
            forall|j: int| a <= j < i ==> !is_alnum(#[trigger] s@[j]),
        decreases b - i,
    {
        let c = s[i];
        if ('0' <= c && c <= '9') || ('a' <= c && c <= 'z') || ('A' <= c && c <= 'Z') {
            assert(s@.subrange(a as int, b as int)[i - a] == c);
            return false;
        }
        i = i + 1;
    }
    assert forall|j: int| 0 <= j < b - a implies !is_alnum(#[trigger] s@.subrange(a as int, b as int)[j]) by {
        assert(s@.subrange(a as int, b as int)[j] == s@[a + j]);
    }
    true
}

fn is_display_exec(t: &Vec<char>) -> (r: bool)
    ensures
        r == is_display_line(t@),
{
    let k = find_pair_exec(t, 0, '{', '{');
    if k >= t.len() {
        return false;
    }
    let j = find_pair_exec(t, k + 2, '}', '}');
    if j >= t.len() {
        return false;
    }
    no_alnum_exec(t, 0, k) && no_alnum_exec(t, j + 2, t.len()) && find_pair_exec(t, j + 2, '}', '}') >= t.len()
}

fn push_vec(out: &mut Vec<char>, more: &Vec<char>)
    ensures
        final(out)@ == old(out)@ + more@,
{
    let mut j: usize = 0;
    while j < more.len()
        invariant
            j <= more@.len(),
            out@ == old(out)@ + more@.subrange(0, j as int),
        decreases more@.len() - j,
    {
        out.push(more[j]);
        j = j + 1;
        assert(out@ =~= old(out)@ + more@.subrange(0, j as int));
    }
    assert(more@.subrange(0, more@.len() as int) =~= more@);
}

fn raw_number(out: &mut Vec<char>, v: &crate::magnitude::Magnitude)
    requires
        v.wf(),
    ensures
        final(out)@ == old(out)@ + raw_text(v@),
{
    let ghost o0 = out@;
    if v.negative {
        out.push('-');
    }
    crate::magnitude::push_fixed(out, v.num, v.den);
    assert(out@ =~= o0 + raw_text(v@));
}

fn interpolate_exec(c: &Vec<char>, d: &mut Dictionary, macros: &Macros, seed: &mut u64, display: bool) -> (r: Result<Vec<char>, Error>)
    ensures
        ({
            let (o, s) = interpolate(c@, old(d)@, macros.table(), *old(seed), display);
            &&& *final(seed) == s
            &&& match o {
                Ok((text, d1)) => r matches Ok(x) && x@ == text && final(d)@ == d1,
                Err(e) => r == Err::<Vec<char>, Error>(e),
            }
        }),
{
    proof {
        reveal(interpolate);
    }
    if c.len() == 0 {
        return Err(Error::Malformed);
    }
    let mode = c[0];
    let (name, expr) = split_binding_exec(&slice(c, 1, c.len()));
    let expr_text = string_of(decode_line(&expr).as_slice());
    let term = match Expression::from(expr_text.as_str(), macros) {
        Ok(t) => t,
        Err(e) => {
            return Err(e);
        },
    };
    let nm = decode_line(&name);
    if name.len() > 0 {
        let bound = d.bind(string_of(nm.as_slice()), term.copy(), seed);
        match bound {
            Err(e) => {
                return Err(e);
            },
            Ok(()) => {},
        }
    }
    interpolation_output_exec(mode, name.len() > 0, &nm, &term, d, seed, display)
}

fn interpolation_output_exec(mode: char, named: bool, nm: &Vec<char>, term: &Expression, d: &Dictionary, seed: &mut u64, display: bool) -> (r: Result<Vec<char>, Error>)
    ensures
        ({
            let (o, s) = interpolation_output(mode, named, nm@, term@, d@, *old(seed), display);
            &&& *final(seed) == s
            &&& match o {
                Ok((text, d1)) => r matches Ok(x) && x@ == text && d1 == d@,
                Err(e) => r == Err::<Vec<char>, Error>(e),
            }
        }),
{
    proof {
        lemma_bindings_of(d.entries@);
    }
    let mut out: Vec<char> = Vec::new();
    let (start, end) = marker_math(display);
    if mode == ',' {
        push_chars(&mut out, start);
        if named {
            push_vec(&mut out, nm);
            push_chars(&mut out, " = ");
        }
        push_chars(&mut out, term.show().as_str());
        push_chars(&mut out, end);
        assert(out@ =~= markers(display).0 + (if named { nm@ + " = "@ } else { Seq::<char>::empty() }) + show_text(term@) + markers(display).1);
        return Ok(out);
    }
    if !(mode == '.' || mode == ';' || mode == '!') {
        return Ok(out);
    }
    let v = match term.value(d, seed) {
        Ok(v) => v,
        Err(e) => {
            return Err(e);
        },
    };
    if mode == '!' {
        if named {
            push_vec(&mut out, nm);
            push_chars(&mut out, "=");
        }
        raw_number(&mut out, &v);
        assert(out@ =~= (if named { nm@ + "="@ } else { Seq::<char>::empty() }) + raw_text(v@));
        return Ok(out);
    }
    push_chars(&mut out, start);
    if named {
        push_vec(&mut out, nm);
        push_chars(&mut out, " = ");
    }
    if mode == ';' {
        push_chars(&mut out, term.show().as_str());
        push_chars(&mut out, " = ");
    }
    push_chars(&mut out, v.show().as_str());
    push_chars(&mut out, end);
    proof {
        let label: Seq<char> = if named { nm@ + " = "@ } else { Seq::<char>::empty() };
        if mode == ';' {
            assert(out@ =~= markers(display).0 + label + show_text(term@) + " = "@ + display_of(v@) + markers(display).1);
        } else {
            assert(out@ =~= markers(display).0 + label + display_of(v@) + markers(display).1);
        }
    }
    Ok(out)
}

/// Replaces the interpolations of `line` by what they give; see
/// `processed_line`. Bindings made by the line go to `vars`.
#[verifier::rlimit(50)]
pub fn process_line(line: &Vec<char>, vars: &mut Dictionary, macros: &Macros, seed: &mut u64) -> (r: Result<Vec<char>, Error>)
    ensures
        ({
            let (o, s) = processed_line(line@, old(vars)@, macros.table(), *old(seed));
            &&& *final(seed) == s
            &&& match o {
                Ok((text, d1)) => r matches Ok(x) && x@ == text && final(vars)@ == d1,
                Err(e) => r == Err::<Vec<char>, Error>(e),
            }
        }),
{
    let t = encode_line(line);
    let display = is_display_exec(&t);
    let mut out: Vec<char> = Vec::new();
    let mut i: usize = 0;
    let ghost goal = processed_line(line@, vars@, macros.table(), *seed);
    proof {
        assert(prepend(out@, process_from(t@, 0, vars@, macros.table(), *seed, display)) =~= goal) by {
            let r = process_from(t@, 0, vars@, macros.table(), *seed, display);
            match r.0 {
                Ok((x, d)) => {
                    assert(Seq::<char>::empty() + x =~= x);
                },
                Err(e) => {},
            }
        }
    }
    loop
        invariant
            i <= t@.len(),
            goal == processed_line(line@, old(vars)@, macros.table(), *old(seed)),
            prepend(out@, process_from(t@, i as int, vars@, macros.table(), *seed, display)) == goal,
        decreases t@.len() - i,
    {
        let k = find_pair_exec(&t, i, '{', '{');
        let j = if k < t.len() { find_pair_exec(&t, k + 2, '}', '}') } else { t.len() };
        if k >= t.len() || j >= t.len() {
            let ghost o0 = out@;
            let rest = decode_line(&slice(&t, i, t.len()));
            push_vec(&mut out, &rest);
            proof {
                assert(process_from(t@, i as int, vars@, macros.table(), *seed, display)
                    == (Ok::<(Seq<char>, Bindings), Error>((decoded(t@.subrange(i as int, t@.len() as int)), vars@)), *seed));
                assert(o0 + (decoded(t@.subrange(i as int, t@.len() as int))) =~= out@);
            }
            return Ok(out);
        }
        let ghost o0 = out@;
        let before = decode_line(&slice(&t, i, k));
        let piece = slice(&t, k + 2, j);
        let ghost d0 = vars@;
        let ghost s0 = *seed;
        match interpolate_exec(&piece, vars, macros, seed, display) {
            Err(e) => {
                proof {
                    assert(process_from(t@, i as int, d0, macros.table(), s0, display).0 == Err::<(Seq<char>, Bindings), Error>(e));
                }
                return Err(e);
            },
            Ok(o) => {
                push_vec(&mut out, &before);
                push_vec(&mut out, &o);
                proof {
                    let rest = process_from(t@, j + 2, vars@, macros.table(), *seed, display);
                    match rest.0 {
                        Ok((x, d)) => {
                            assert(o0 + (before@ + o@ + x) =~= out@ + x);
                        },
                        Err(e) => {},
                    }
                }
            },
        }
        i = j + 2;
    }
}

/// The lines read so far from `s`, and the line being read.
pub open spec fn line_state(s: Seq<char>) -> (Seq<Seq<char>>, Seq<char>)
    decreases s.len(),
{
    if s.len() == 0 {
        (Seq::empty(), Seq::empty())
    } else {
        let (done, cur) = line_state(s.drop_last());
        if s.last() == '\n' {
            (done.push(cur), Seq::empty())
        } else {
            (done, cur.push(s.last()))
        }
    }
}

/// The lines of `s`, split at line breaks.
pub open spec fn lines_of(s: Seq<char>) -> Seq<Seq<char>> {
    let (done, cur) = line_state(s);
    done.push(cur)
}

/// Lines joined with line breaks.
pub open spec fn join_lines(s: Seq<Seq<char>>) -> Seq<char>
    decreases s.len(),
{
    if s.len() == 0 {
        Seq::empty()
    } else if s.len() == 1 {
        s[0]
    } else {
        join_lines(s.drop_last()) + seq!['\n'] + s.last()
    }
}

/// The lines of the three zones of a gate, and the zone being filled
/// (0 text, 1 follow, 2 note).
pub type Zones = (Seq<Seq<char>>, Seq<Seq<char>>, Seq<Seq<char>>, nat);

pub open spec fn add_line(z: Zones, zone: nat, line: Seq<char>) -> Zones {
    if zone == 0 {
        (z.0.push(line), z.1, z.2, zone)
    } else if zone == 1 {
        (z.0, z.1.push(line), z.2, zone)
    } else {
        (z.0, z.1, z.2.push(line), zone)
    }
}

pub open spec fn starts_with3(s: Seq<char>, c: char) -> bool {
    s.len() >= 3 && s[0] == c && s[1] == c && s[2] == c
}

/// One line of a gate: a line that starts with `!` goes verbatim into the
/// current zone; `___`, `...` and `---` start the text, follow and note
/// zones; the rest of the line is processed.
pub open spec fn gate_line(line: Seq<char>, z: Zones, d: Bindings, m: Seq<(Seq<char>, Seq<char>)>, seed: u64) -> (Result<(Zones, Bindings), Error>, u64) {
    if line.len() > 0 && line[0] == '!' {
        (Ok((add_line(z, z.3, line.drop_first()), d)), seed)
    } else {
        let zone: nat = if starts_with3(line, '_') { 0 } else if starts_with3(line, '.') { 1 } else if starts_with3(line, '-') { 2 } else { z.3 };
        let rest = if starts_with3(line, '_') || starts_with3(line, '.') || starts_with3(line, '-') {
            line.subrange(3, line.len() as int)
        } else {
            line
        };
        let (r, s1) = processed_line(rest, d, m, seed);
        match r {
            Err(e) => (Err(e), s1),
            Ok((o, d1)) => (Ok((add_line(z, zone, o), d1)), s1),
        }
    }
}

pub open spec fn gate_fold(ls: Seq<Seq<char>>, d: Bindings, m: Seq<(Seq<char>, Seq<char>)>, seed: u64) -> (Result<(Zones, Bindings), Error>, u64)
    decreases ls.len(),
{
    if ls.len() == 0 {
        (Ok(((Seq::empty(), Seq::empty(), Seq::empty(), 0), d)), seed)
    } else {
        let (r, s1) = gate_fold(ls.drop_last(), d, m, seed);
        match r {
            Err(e) => (Err(e), s1),
            Ok((z, d1)) => gate_line(ls.last(), z, d1, m, s1),
        }
    }
}

/// The zones of text read from `s`, and the bindings after it.
pub open spec fn gate_of(s: Seq<char>, d: Bindings, m: Seq<(Seq<char>, Seq<char>)>, seed: u64) -> (Result<(Seq<char>, Seq<char>, Seq<char>, Bindings), Error>, u64) {
    let (r, s1) = gate_fold(lines_of(s), d, m, seed);
    match r {
        Err(e) => (Err(e), s1),
        Ok((z, d1)) => (Ok((join_lines(z.0), join_lines(z.1), join_lines(z.2), d1)), s1),
    }
}

fn split_lines(s: &str) -> (r: Vec<Vec<char>>)
    ensures
        r@.map_values(|l: Vec<char>| l@) == lines_of(s@),
{
    let cs = chars_of(s);
    let mut done: Vec<Vec<char>> = Vec::new();
    let mut cur: Vec<char> = Vec::new();
    let mut i: usize = 0;
    while i < cs.len()
        invariant
            cs@ == s@,
            i <= cs@.len(),
            (done@.map_values(|l: Vec<char>| l@), cur@) == line_state(cs@.subrange(0, i as int)),
        decreases cs@.len() - i,
    {
        assert(cs@.subrange(0, i + 1).drop_last() =~= cs@.subrange(0, i as int));
        if cs[i] == '\n' {
            let ghost d0 = done@;
            let ghost c0 = cur@;
            done.push(cur);
            cur = Vec::new();
            assert(done@.map_values(|l: Vec<char>| l@) =~= d0.map_values(|l: Vec<char>| l@).push(c0));
            assert(cur@ =~= Seq::<char>::empty());
        } else {
            cur.push(cs[i]);
        }
        i = i + 1;
    }
    assert(cs@.subrange(0, cs@.len() as int) =~= cs@);
    let ghost d0 = done@;
    let ghost c0 = cur@;
    done.push(cur);
    assert(done@.map_values(|l: Vec<char>| l@) =~= d0.map_values(|l: Vec<char>| l@).push(c0));
    done
}

fn join_exec(ls: &Vec<Vec<char>>) -> (r: String)
    ensures
        r@ == join_lines(ls@.map_values(|l: Vec<char>| l@)),
{
    let ghost v = ls@.map_values(|l: Vec<char>| l@);
    let mut out: Vec<char> = Vec::new();
    let mut i: usize = 0;
    assert(v.subrange(0, 0) =~= Seq::<Seq<char>>::empty());
    while i < ls.len()
        invariant
            i <= ls@.len(),
            v == ls@.map_values(|l: Vec<char>| l@),
            out@ == join_lines(v.subrange(0, i as int)),
        decreases ls@.len() - i,
    {
        let ghost p = v.subrange(0, i + 1);
        assert(p.drop_last() =~= v.subrange(0, i as int));
        if i > 0 {
            out.push('\n');
        } else {
            assert(p =~= seq![v[0]]);
        }
        push_vec(&mut out, &ls[i]);
        i = i + 1;
    }
    assert(v.subrange(0, ls@.len() as int) =~= v);
    string_of(out.as_slice())
}

pub open spec fn zone_lines(z: &(Vec<Vec<char>>, Vec<Vec<char>>, Vec<Vec<char>>, u8)) -> Zones {
    (
        z.0@.map_values(|l: Vec<char>| l@),
        z.1@.map_values(|l: Vec<char>| l@),
        z.2@.map_values(|l: Vec<char>| l@),
        z.3 as nat,
    )
}

fn add_line_exec(z: &mut (Vec<Vec<char>>, Vec<Vec<char>>, Vec<Vec<char>>, u8), zone: u8, line: Vec<char>)
    requires
        zone <= 2,
    ensures
        zone_lines(final(z)) == add_line(zone_lines(old(z)), zone as nat, line@),
        final(z).3 <= 2,
{
    let ghost l = line@;
    if zone == 0 {
        z.0.push(line);
    } else if zone == 1 {
        z.1.push(line);
    } else {
        z.2.push(line);
    }
    z.3 = zone;
    assert(zone_lines(z) =~~= add_line(zone_lines(old(z)), zone as nat, l));
}

fn starts3(s: &Vec<char>, c: char) -> (r: bool)
    ensures
        r == starts_with3(s@, c),
{
    s.len() >= 3 && s[0] == c && s[1] == c && s[2] == c
}

impl Gate {
    /// Reads a gate from `string`; see `gate_of`. Bindings made while
    /// reading go to a copy of `variables`, which is returned too.
    pub fn from(string: &str, variables: &Dictionary, macros: &Macros, seed: &mut u64) -> (r: Result<(Gate, Dictionary), Error>)
        ensures
            ({
                let (o, s) = gate_of(string@, variables@, macros.table(), *old(seed));
                &&& *final(seed) == s
                &&& match o {
                    Ok((t, f, n, d)) => r matches Ok((g, dict)) && g@.text == t && g@.follow == f && g@.note == n && dict@ == d,
                    Err(e) => r matches Err(x) && x == e,
                }
            }),
    {
        let ls = split_lines(string);
        let mut vars = variables.copy();
        let mut z: (Vec<Vec<char>>, Vec<Vec<char>>, Vec<Vec<char>>, u8) = (Vec::new(), Vec::new(), Vec::new(), 0);
        let ghost lv = ls@.map_values(|l: Vec<char>| l@);
        let ghost s0 = *seed;
        let mut i: usize = 0;
        proof {
            assert(lv.subrange(0, 0) =~= Seq::<Seq<char>>::empty());
            assert(zone_lines(&z) =~~= (Seq::<Seq<char>>::empty(), Seq::<Seq<char>>::empty(), Seq::<Seq<char>>::empty(), 0nat));
        }
        while i < ls.len()
            invariant
                i <= ls@.len(),
                lv == ls@.map_values(|l: Vec<char>| l@),
                lv == lines_of(string@),
                s0 == *old(seed),
                z.3 <= 2,
                gate_fold(lv.subrange(0, i as int), variables@, macros.table(), s0) == (Ok::<(Zones, Bindings), Error>((zone_lines(&z), vars@)), *seed),
            decreases ls@.len() - i,
        {
            let ghost p = lv.subrange(0, i + 1);
            assert(p.drop_last() =~= lv.subrange(0, i as int));
            let line = &ls[i];
            if line.len() > 0 && line[0] == '!' {
                let verbatim = slice(line, 1, line.len());
                assert(verbatim@ =~= line@.drop_first());
                let zone = z.3;
                add_line_exec(&mut z, zone, verbatim);
            } else {
                let zone: u8 = if starts3(line, '_') { 0 } else if starts3(line, '.') { 1 } else if starts3(line, '-') { 2 } else { z.3 };
                let rest = if starts3(line, '_') || starts3(line, '.') || starts3(line, '-') {
                    slice(line, 3, line.len())
                } else {
                    slice(line, 0, line.len())
                };
                assert(rest@ =~= (if starts_with3(line@, '_') || starts_with3(line@, '.') || starts_with3(line@, '-') { line@.subrange(3, line@.len() as int) } else { line@ }));
                let ghost d_before = vars@;
                let ghost s_before = *seed;
                let ghost z_before = zone_lines(&z);
                match process_line(&rest, &mut vars, macros, seed) {
                    Err(e) => {
                        proof {
                            assert(p.last() == line@);
                            assert(processed_line(rest@, d_before, macros.table(), s_before).0 == Err::<(Seq<char>, Bindings), Error>(e));
                            assert(gate_line(line@, z_before, d_before, macros.table(), s_before) == (Err::<(Zones, Bindings), Error>(e), *seed));
                            assert(gate_fold(p, variables@, macros.table(), s0) == (Err::<(Zones, Bindings), Error>(e), *seed));
                            lemma_gate_fold_err(lv, variables@, macros.table(), s0, i + 1, e, *seed);
                        }
                        return Err(e);
                    },
                    Ok(o) => {
                        add_line_exec(&mut z, zone, o);
                    },
                }
            }
            i = i + 1;
        }
        assert(lv.subrange(0, ls@.len() as int) =~= lv);
        let text = join_exec(&z.0);
        let follow = join_exec(&z.1);
        let note = join_exec(&z.2);
        Ok((Gate { text, follow, note }, vars))
    }
}

proof fn lemma_gate_fold_err(ls: Seq<Seq<char>>, d: Bindings, m: Seq<(Seq<char>, Seq<char>)>, seed: u64, i: int, e: Error, s: u64)
    requires
        0 <= i <= ls.len(),
        gate_fold(ls.subrange(0, i), d, m, seed) == (Err::<(Zones, Bindings), Error>(e), s),
    ensures
        gate_fold(ls, d, m, seed) == (Err::<(Zones, Bindings), Error>(e), s),
    decreases ls.len() - i,
{
    if i < ls.len() {
        let p = ls.subrange(0, i + 1);
        assert(p.drop_last() =~= ls.subrange(0, i));
        lemma_gate_fold_err(ls, d, m, seed, i + 1, e, s);
    } else {
        assert(ls.subrange(0, i) =~= ls);
    }
}

/// The markers around a formula; see `markers`.
pub fn marker_math(displaymode: bool) -> (r: (&'static str, &'static str))
    ensures
        (r.0@, r.1@) == markers(displaymode),
{
    if displaymode {
        ("[[[ ", " ]]]")
    } else {
        ("((( ", " )))")
    }
}

} // verus!
