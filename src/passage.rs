// Passages and how they compose, their expansion into trees of every way
// through them, exercises, passage titles, and the choices at each node.

use vstd::prelude::*;

use crate::error::Error;
use crate::text::{decimal, push_decimal, string_of};

verus! {

/// A block of narrative: the text that offers a choice, the text that follows
/// it, and a note shown on a side branch.
pub struct Gate {
    pub text: String,
    pub follow: String,
    pub note: String,
}

pub struct GateView {
    pub text: Seq<char>,
    pub follow: Seq<char>,
    pub note: Seq<char>,
}

impl View for Gate {
    type V = GateView;

    open spec fn view(&self) -> GateView {
        GateView { text: self.text@, follow: self.follow@, note: self.note@ }
    }
}

pub open spec fn gates_of(v: Seq<Gate>) -> Seq<GateView> {
    v.map_values(|g: Gate| g@)
}

impl Gate {
    /// A gate with no text.
    pub fn new() -> (r: Gate)
        ensures
            r@.text.len() == 0 && r@.follow.len() == 0 && r@.note.len() == 0,
    {
        Gate { text: String::new(), follow: String::new(), note: String::new() }
    }

    pub fn copy(&self) -> (r: Gate)
        ensures
            r@ == self@,
    {
        Gate { text: self.text.clone(), follow: self.follow.clone(), note: self.note.clone() }
    }

    pub fn has_note(&self) -> (r: bool)
        ensures
            r == (self@.note.len() > 0),
    {
        self.note.as_str().unicode_len() > 0
    }

    pub fn is_empty(&self) -> (r: bool)
        ensures
            r == (self@.text.len() == 0),
    {
        self.text.as_str().unicode_len() == 0
    }
}

fn copy_gates(v: &Vec<Gate>) -> (r: Vec<Gate>)
    ensures
        gates_of(r@) == gates_of(v@),
{
    let mut r: Vec<Gate> = Vec::new();
    let mut i: usize = 0;
    while i < v.len()
        invariant
            i <= v@.len(),
            r@.len() == i,
            gates_of(r@) == gates_of(v@.subrange(0, i as int)),
        decreases v@.len() - i,
    {
        let g = v[i].copy();
        let ghost r0 = r@;
        r.push(g);
        assert(gates_of(r@) =~= gates_of(r0).push(g@));
        assert(gates_of(v@.subrange(0, i + 1)) =~= gates_of(v@.subrange(0, i as int)).push(v@[i as int]@));
        i = i + 1;
    }
    assert(v@.subrange(0, v@.len() as int) =~= v@);
    r
}

/// One passage of the exercise: its gate, with the wrong choices shown
/// before and after it.
pub struct Passage {
    pub previous_bad: Vec<Gate>,
    pub text: Gate,
    pub post_bad: Vec<Gate>,
}

pub struct PassageView {
    pub previous_bad: Seq<GateView>,
    pub text: GateView,
    pub post_bad: Seq<GateView>,
}

impl View for Passage {
    type V = PassageView;

    open spec fn view(&self) -> PassageView {
        PassageView {
            previous_bad: gates_of(self.previous_bad@),
            text: self.text@,
            post_bad: gates_of(self.post_bad@),
        }
    }
}

impl Passage {
    pub fn copy(&self) -> (r: Passage)
        ensures
            r@ == self@,
    {
        Passage {
            previous_bad: copy_gates(&self.previous_bad),
            text: self.text.copy(),
            post_bad: copy_gates(&self.post_bad),
        }
    }

    pub fn is_empty(&self) -> (r: bool)
        ensures
            r == (self@.text.text.len() == 0),
    {
        self.text.is_empty()
    }
}

/// How passages compose, as written: one passage, a sequence, concurrent
/// branches taken in any order, or alternatives of which one is taken.
pub enum PassageElem {
    Passage(Passage),
    Sequence(Vec<PassageElem>),
    Concurrent(Vec<PassageElem>),
    Alternative(Vec<PassageElem>),
}

pub enum ElemView {
    Leaf(PassageView),
    Sequence(Seq<ElemView>),
    Concurrent(Seq<ElemView>),
    Alternative(Seq<ElemView>),
}

pub open spec fn elem_of(e: PassageElem) -> ElemView
    decreases e,
{
    match e {
        PassageElem::Passage(p) => ElemView::Leaf(p@),
        PassageElem::Sequence(v) => ElemView::Sequence(elems_of(v@)),
        PassageElem::Concurrent(v) => ElemView::Concurrent(elems_of(v@)),
        PassageElem::Alternative(v) => ElemView::Alternative(elems_of(v@)),
    }
}

pub open spec fn elems_of(s: Seq<PassageElem>) -> Seq<ElemView>
    decreases s,
{
    if s.len() == 0 {
        Seq::empty()
    } else {
        elems_of(s.subrange(0, s.len() - 1)).push(elem_of(s[s.len() - 1]))
    }
}

impl View for PassageElem {
    type V = ElemView;

    open spec fn view(&self) -> ElemView {
        elem_of(*self)
    }
}

pub proof fn lemma_elems_of(s: Seq<PassageElem>)
    ensures
        elems_of(s).len() == s.len(),
        forall|i: int| 0 <= i < s.len() ==> #[trigger] elems_of(s)[i] == elem_of(s[i]),
    decreases s.len(),
{
    if s.len() > 0 {
        lemma_elems_of(s.subrange(0, s.len() - 1));
    }
}

/// A passage and the ways the exercise goes on after it; a node without
/// children ends the exercise.
pub struct PassageTree(pub Passage, pub Vec<PassageTree>);

pub struct TreeView {
    pub passage: PassageView,
    pub children: Seq<TreeView>,
}

pub open spec fn tree_of(t: PassageTree) -> TreeView
    decreases t,
{
    TreeView { passage: t.0@, children: trees_of(t.1@) }
}

pub open spec fn trees_of(s: Seq<PassageTree>) -> Seq<TreeView>
    decreases s,
{
    if s.len() == 0 {
        Seq::empty()
    } else {
        trees_of(s.subrange(0, s.len() - 1)).push(tree_of(s[s.len() - 1]))
    }
}

impl View for PassageTree {
    type V = TreeView;

    open spec fn view(&self) -> TreeView {
        tree_of(*self)
    }
}

pub proof fn lemma_trees_of(s: Seq<PassageTree>)
    ensures
        trees_of(s).len() == s.len(),
        forall|i: int| 0 <= i < s.len() ==> #[trigger] trees_of(s)[i] == tree_of(s[i]),
    decreases s.len(),
{
    if s.len() > 0 {
        lemma_trees_of(s.subrange(0, s.len() - 1));
    }
}

pub proof fn lemma_trees_push(v: Seq<PassageTree>, x: PassageTree)
    ensures
        trees_of(v.push(x)) == trees_of(v).push(tree_of(x)),
{
    assert(v.push(x).subrange(0, v.len() as int) =~= v);
}

pub proof fn lemma_trees_append(a: Seq<PassageTree>, b: Seq<PassageTree>)
    ensures
        trees_of(a + b) == trees_of(a) + trees_of(b),
{
    lemma_trees_of(a);
    lemma_trees_of(b);
    lemma_trees_of(a + b);
    assert(trees_of(a + b) =~= trees_of(a) + trees_of(b));
}

pub open spec fn node(p: PassageView, children: Seq<TreeView>) -> TreeView {
    TreeView { passage: p, children }
}

/// `t` with the forest `b` hung under each of its ends.
pub open spec fn graft(t: TreeView, b: Seq<TreeView>) -> TreeView
    decreases t,
{
    if t.children.len() == 0 {
        node(t.passage, b)
    } else {
        node(t.passage, graft_all(t.children, b))
    }
}

pub open spec fn graft_all(s: Seq<TreeView>, b: Seq<TreeView>) -> Seq<TreeView>
    decreases s,
{
    if s.len() == 0 {
        Seq::empty()
    } else {
        graft_all(s.subrange(0, s.len() - 1), b).push(graft(s[s.len() - 1], b))
    }
}

pub proof fn lemma_graft_all(s: Seq<TreeView>, b: Seq<TreeView>)
    ensures
        graft_all(s, b).len() == s.len(),
        forall|i: int| 0 <= i < s.len() ==> #[trigger] graft_all(s, b)[i] == graft(s[i], b),
    decreases s.len(),
{
    if s.len() > 0 {
        lemma_graft_all(s.subrange(0, s.len() - 1), b);
    }
}

/// Every sequence and every concurrent group holds at least one element
/// (alternatives may be empty: they offer no way through).
pub open spec fn elem_wf(e: ElemView) -> bool
    decreases e,
{
    match e {
        ElemView::Leaf(_) => true,
        ElemView::Sequence(s) => s.len() > 0 && elems_wf(s),
        ElemView::Concurrent(s) => s.len() > 0 && elems_wf(s),
        ElemView::Alternative(s) => elems_wf(s),
    }
}

pub open spec fn elems_wf(s: Seq<ElemView>) -> bool
    decreases s,
{
    if s.len() == 0 {
        true
    } else {
        elems_wf(s.subrange(0, s.len() - 1)) && elem_wf(s[s.len() - 1])
    }
}

/// No alternatives without branches, in `e` or below it.
pub open spec fn alternatives_filled(e: ElemView) -> bool
    decreases e,
{
    match e {
        ElemView::Leaf(_) => true,
        ElemView::Sequence(s) => all_alternatives_filled(s),
        ElemView::Concurrent(s) => all_alternatives_filled(s),
        ElemView::Alternative(s) => s.len() > 0 && all_alternatives_filled(s),
    }
}

pub open spec fn all_alternatives_filled(s: Seq<ElemView>) -> bool
    decreases s,
{
    if s.len() == 0 {
        true
    } else {
        all_alternatives_filled(s.subrange(0, s.len() - 1)) && alternatives_filled(s[s.len() - 1])
    }
}

pub proof fn lemma_all_alternatives_filled(s: Seq<ElemView>)
    requires
        all_alternatives_filled(s),
    ensures
        forall|i: int| 0 <= i < s.len() ==> #[trigger] alternatives_filled(s[i]),
    decreases s.len(),
{
    if s.len() > 0 {
        lemma_all_alternatives_filled(s.subrange(0, s.len() - 1));
        assert forall|i: int| 0 <= i < s.len() implies #[trigger] alternatives_filled(s[i]) by {
            if i < s.len() - 1 {
                assert(s.subrange(0, s.len() - 1)[i] == s[i]);
            }
        }
    }
}

/// Every way through `e`, as a forest of trees.
pub open spec fn expand(e: ElemView) -> Seq<TreeView>
    decreases e, 1nat,
{
    match e {
        ElemView::Leaf(p) => seq![node(p, Seq::empty())],
        ElemView::Sequence(s) => expand_seq(s),
        ElemView::Alternative(s) => expand_alt(s),
        ElemView::Concurrent(s) => concurrent(expand_each(s)),
    }
}

/// A sequence: the forest of each element hung under the ends of the forest
/// of the elements before it.
pub open spec fn expand_seq(s: Seq<ElemView>) -> Seq<TreeView>
    decreases s, 0nat,
{
    if s.len() == 0 {
        Seq::empty()
    } else if s.len() == 1 {
        expand(s[0])
    } else {
        graft_all(expand_seq(s.subrange(0, s.len() - 1)), expand(s[s.len() - 1]))
    }
}

/// Alternatives: the forests of all of them, one after the other.
pub open spec fn expand_alt(s: Seq<ElemView>) -> Seq<TreeView>
    decreases s, 0nat,
{
    if s.len() == 0 {
        Seq::empty()
    } else {
        expand_alt(s.subrange(0, s.len() - 1)) + expand(s[s.len() - 1])
    }
}

pub open spec fn expand_each(s: Seq<ElemView>) -> Seq<Seq<TreeView>>
    decreases s, 0nat,
{
    if s.len() == 0 {
        Seq::empty()
    } else {
        expand_each(s.subrange(0, s.len() - 1)).push(expand(s[s.len() - 1]))
    }
}

/// Concurrent branches, given the forest of each: any branch may come first,
/// and the rest follow in every order.
pub open spec fn concurrent(fs: Seq<Seq<TreeView>>) -> Seq<TreeView>
    decreases fs.len(), fs.len() + 1,
{
    if fs.len() == 0 {
        Seq::empty()
    } else if fs.len() == 1 {
        fs[0]
    } else {
        concurrent_from(fs, 0)
    }
}

/// The branches `i..` of `concurrent(fs)`, each followed by all orders of the
/// others.
pub open spec fn concurrent_from(fs: Seq<Seq<TreeView>>, i: int) -> Seq<TreeView>
    decreases fs.len(), fs.len() - i,
{
    if i < 0 || i >= fs.len() || fs.len() <= 1 {
        Seq::empty()
    } else {
        graft_all(fs[i], concurrent(fs.remove(i))) + concurrent_from(fs, i + 1)
    }
}

pub open spec fn forests_of(fs: Seq<Vec<PassageTree>>) -> Seq<Seq<TreeView>> {
    fs.map_values(|f: Vec<PassageTree>| trees_of(f@))
}

pub proof fn lemma_elems_wf(s: Seq<ElemView>)
    requires
        elems_wf(s),
    ensures
        forall|i: int| 0 <= i < s.len() ==> #[trigger] elem_wf(s[i]),
    decreases s.len(),
{
    if s.len() > 0 {
        lemma_elems_wf(s.subrange(0, s.len() - 1));
        assert forall|i: int| 0 <= i < s.len() implies #[trigger] elem_wf(s[i]) by {
            if i < s.len() - 1 {
                assert(s.subrange(0, s.len() - 1)[i] == s[i]);
            }
        }
    }
}

impl PassageTree {
    /// A copy of this tree.
    pub fn copy(&self) -> (r: PassageTree)
        ensures
            r@ == self@,
        decreases self, 1nat,
    {
        PassageTree(self.0.copy(), copy_forest(&self.1))
    }

    /// A tree of one passage, with no continuation.
    pub fn new(passage: Passage) -> (r: PassageTree)
        ensures
            r@ == node(passage@, Seq::empty()),
    {
        let r = PassageTree(passage, Vec::new());
        assert(trees_of(r.1@) =~= Seq::<TreeView>::empty());
        r
    }
}

/// A copy of a forest.
pub fn copy_forest(v: &Vec<PassageTree>) -> (r: Vec<PassageTree>)
    ensures
        trees_of(r@) == trees_of(v@),
    decreases v, 0nat,
{
    let mut r: Vec<PassageTree> = Vec::new();
    let mut i: usize = 0;
    proof {
        lemma_trees_of(v@);
    }
    while i < v.len()
        invariant
            i <= v@.len(),
            r@.len() == i,
            trees_of(v@).len() == v@.len(),
            forall|j: int| 0 <= j < v@.len() ==> #[trigger] trees_of(v@)[j] == tree_of(v@[j]),
            trees_of(r@) == trees_of(v@).subrange(0, i as int),
        decreases v@.len() - i,
    {
        let x = v[i].copy();
        proof {
            lemma_trees_push(r@, x);
            assert(trees_of(v@).subrange(0, i + 1) =~= trees_of(v@).subrange(0, i as int).push(tree_of(v@[i as int])));
        }
        r.push(x);
        i = i + 1;
    }
    proof {
        assert(trees_of(v@).subrange(0, v@.len() as int) =~= trees_of(v@));
    }
    r
}

/// `t` with a copy of `b` hung under each of its ends.
pub fn concatenate_tree(t: &PassageTree, b: &Vec<PassageTree>) -> (r: PassageTree)
    ensures
        r@ == graft(t@, trees_of(b@)),
    decreases t, 1nat,
{
    proof {
        lemma_trees_of(t.1@);
    }
    if t.1.len() == 0 {
        PassageTree(t.0.copy(), copy_forest(b))
    } else {
        PassageTree(t.0.copy(), concatenate_all(&t.1, b))
    }
}

/// Each tree of `s` with a copy of `b` hung under its ends.
pub fn concatenate_all(s: &Vec<PassageTree>, b: &Vec<PassageTree>) -> (r: Vec<PassageTree>)
    ensures
        trees_of(r@) == graft_all(trees_of(s@), trees_of(b@)),
    decreases s, 0nat,
{
    let ghost bv = trees_of(b@);
    let mut r: Vec<PassageTree> = Vec::new();
    let mut i: usize = 0;
    proof {
        lemma_trees_of(s@);
        assert(trees_of(s@).subrange(0, 0) =~= Seq::<TreeView>::empty());
    }
    while i < s.len()
        invariant
            i <= s@.len(),
            trees_of(s@).len() == s@.len(),
            forall|j: int| 0 <= j < s@.len() ==> #[trigger] trees_of(s@)[j] == tree_of(s@[j]),
            bv == trees_of(b@),
            trees_of(r@) == graft_all(trees_of(s@).subrange(0, i as int), bv),
        decreases s@.len() - i,
    {
        let x = concatenate_tree(&s[i], b);
        proof {
            lemma_trees_push(r@, x);
            let p = trees_of(s@).subrange(0, i + 1);
            assert(p.subrange(0, p.len() - 1) =~= trees_of(s@).subrange(0, i as int));
            assert(p[i as int] == tree_of(s@[i as int]));
            assert(graft_all(p, bv) == graft_all(trees_of(s@).subrange(0, i as int), bv).push(graft(p[i as int], bv)));
        }
        r.push(x);
        i = i + 1;
    }
    proof {
        assert(trees_of(s@).subrange(0, s@.len() as int) =~= trees_of(s@));
    }
    r
}

/// Whether every group of `e` holds at least one element.
pub fn is_well_formed(e: &PassageElem) -> (r: bool)
    ensures
        r == elem_wf(e@),
    decreases e, 1nat,
{
    match e {
        PassageElem::Passage(_) => true,
        PassageElem::Sequence(v) => v.len() > 0 && all_well_formed(v),
        PassageElem::Concurrent(v) => v.len() > 0 && all_well_formed(v),
        PassageElem::Alternative(v) => all_well_formed(v),
    }
}

fn all_well_formed(v: &Vec<PassageElem>) -> (r: bool)
    ensures
        r == elems_wf(elems_of(v@)),
    decreases v, 0nat,
{
    proof {
        lemma_elems_of(v@);
        assert(elems_of(v@).subrange(0, 0) =~= Seq::<ElemView>::empty());
    }
    let mut i: usize = 0;
    while i < v.len()
        invariant
            i <= v@.len(),
            elems_of(v@).len() == v@.len(),
            forall|j: int| 0 <= j < v@.len() ==> #[trigger] elems_of(v@)[j] == elem_of(v@[j]),
            elems_wf(elems_of(v@).subrange(0, i as int)),
        decreases v@.len() - i,
    {
        let ghost p = elems_of(v@).subrange(0, i + 1);
        proof {
            assert(p.subrange(0, p.len() - 1) =~= elems_of(v@).subrange(0, i as int));
        }
        if !is_well_formed(&v[i]) {
            proof {
                assert(!elems_wf(p));
                lemma_elems_wf_prefix(elems_of(v@), i + 1);
            }
            return false;
        }
        i = i + 1;
    }
    proof {
        assert(elems_of(v@).subrange(0, v@.len() as int) =~= elems_of(v@));
    }
    true
}

proof fn lemma_elems_wf_prefix(s: Seq<ElemView>, k: int)
    requires
        0 <= k <= s.len(),
        !elems_wf(s.subrange(0, k)),
    ensures
        !elems_wf(s),
    decreases s.len() - k,
{
    if k < s.len() {
        let p = s.subrange(0, k + 1);
        assert(p.subrange(0, p.len() - 1) =~= s.subrange(0, k));
        lemma_elems_wf_prefix(s, k + 1);
    } else {
        assert(s.subrange(0, k) =~= s);
    }
}

/// The forests of `fs` but the one at `k`, copied.
fn without(fs: &Vec<Vec<PassageTree>>, k: usize) -> (r: Vec<Vec<PassageTree>>)
    requires
        k < fs@.len(),
    ensures
        forests_of(r@) == forests_of(fs@).remove(k as int),
        r@.len() == fs@.len() - 1,
{
    let mut r: Vec<Vec<PassageTree>> = Vec::new();
    let mut i: usize = 0;
    let ghost f = forests_of(fs@);
    while i < fs.len()
        invariant
            i <= fs@.len(),
            k < fs@.len(),
            f == forests_of(fs@),
            r@.len() == (if i <= k { i as int } else { i - 1 }),
            forests_of(r@) == (if i <= k { f.subrange(0, i as int) } else { f.remove(k as int).subrange(0, i - 1) }),
        decreases fs@.len() - i,
    {
        if i != k {
            let c = copy_forest(&fs[i]);
            let ghost r0 = r@;
            r.push(c);
            assert(forests_of(r@) =~= forests_of(r0).push(trees_of(c@)));
        }
        i = i + 1;
        assert(forests_of(r@) =~= (if i <= k { f.subrange(0, i as int) } else { f.remove(k as int).subrange(0, i - 1) }));
    }
    assert(f.remove(k as int).subrange(0, fs@.len() - 1) =~= f.remove(k as int));
    r
}

fn append_trees(out: &mut Vec<PassageTree>, more: Vec<PassageTree>)
    ensures
        trees_of(final(out)@) == trees_of(old(out)@) + trees_of(more@),
{
    let mut more = more;
    let ghost (a, b) = (out@, more@);
    out.append(&mut more);
    proof {
        lemma_trees_append(a, b);
    }
}

/// Every order of the concurrent branches whose forests are `fs`.
fn concurrent_trees(fs: &Vec<Vec<PassageTree>>) -> (r: Vec<PassageTree>)
    ensures
        trees_of(r@) == concurrent(forests_of(fs@)),
    decreases fs@.len(),
{
    let ghost f = forests_of(fs@);
    if fs.len() == 0 {
        let r: Vec<PassageTree> = Vec::new();
        assert(trees_of(r@) =~= Seq::<TreeView>::empty());
        return r;
    }
    if fs.len() == 1 {
        return copy_forest(&fs[0]);
    }
    let mut out: Vec<PassageTree> = Vec::new();
    let mut i: usize = 0;
    proof {
        assert(trees_of(out@) =~= Seq::<TreeView>::empty());
        assert(Seq::<TreeView>::empty() + concurrent_from(f, 0) =~= concurrent_from(f, 0));
    }
    while i < fs.len()
        invariant
            2 <= fs@.len(),
            i <= fs@.len(),
            f == forests_of(fs@),
            trees_of(out@) + concurrent_from(f, i as int) == concurrent(f),
        decreases fs@.len() - i,
    {
        let rest = without(fs, i);
        let sub = concurrent_trees(&rest);
        let part = concatenate_all(&fs[i], &sub);
        let ghost o0 = trees_of(out@);
        append_trees(&mut out, part);
        proof {
            assert(o0 + (trees_of(part@) + concurrent_from(f, i + 1)) =~= trees_of(out@) + concurrent_from(f, i + 1));
        }
        i = i + 1;
    }
    assert(trees_of(out@) + concurrent_from(f, fs@.len() as int) =~= trees_of(out@));
    out
}

fn expand_exec(e: &PassageElem) -> (r: Vec<PassageTree>)
    requires
        elem_wf(e@),
    ensures
        trees_of(r@) == expand(e@),
    decreases e, 1nat,
{
    match e {
        PassageElem::Passage(p) => {
            let mut r: Vec<PassageTree> = Vec::new();
            let t = PassageTree::new(p.copy());
            proof {
                lemma_trees_push(r@, t);
                assert(trees_of(r@) =~= Seq::<TreeView>::empty());
            }
            r.push(t);
            assert(trees_of(r@) =~= seq![node(p@, Seq::empty())]);
            r
        },
        PassageElem::Sequence(v) => expand_sequence(v),
        PassageElem::Alternative(v) => expand_alternatives(v),
        PassageElem::Concurrent(v) => {
            let fs = expand_all(v);
            concurrent_trees(&fs)
        },
    }
}

fn expand_sequence(v: &Vec<PassageElem>) -> (r: Vec<PassageTree>)
    requires
        v@.len() > 0,
        elems_wf(elems_of(v@)),
    ensures
        trees_of(r@) == expand_seq(elems_of(v@)),
    decreases v, 0nat,
{
    let ghost s = elems_of(v@);
    proof {
        lemma_elems_of(v@);
        lemma_elems_wf(s);
        assert(s.subrange(0, 1).len() == 1);
        assert(s.subrange(0, 1)[0] == s[0]);
    }
    let mut out = expand_exec(&v[0]);
    let mut i: usize = 1;
    while i < v.len()
        invariant
            1 <= i <= v@.len(),
            s == elems_of(v@),
            s.len() == v@.len(),
            forall|j: int| 0 <= j < v@.len() ==> #[trigger] s[j] == elem_of(v@[j]),
            forall|j: int| 0 <= j < s.len() ==> #[trigger] elem_wf(s[j]),
            trees_of(out@) == expand_seq(s.subrange(0, i as int)),
        decreases v@.len() - i,
    {
        assert(elem_wf(s[i as int]));
        let next = expand_exec(&v[i]);
        proof {
            let p = s.subrange(0, i + 1);
            assert(p.subrange(0, p.len() - 1) =~= s.subrange(0, i as int));
            assert(p[p.len() - 1] == s[i as int]);
        }
        out = concatenate_all(&out, &next);
        i = i + 1;
    }
    assert(s.subrange(0, v@.len() as int) =~= s);
    out
}

fn expand_alternatives(v: &Vec<PassageElem>) -> (r: Vec<PassageTree>)
    requires
        elems_wf(elems_of(v@)),
    ensures
        trees_of(r@) == expand_alt(elems_of(v@)),
    decreases v, 0nat,
{
    let ghost s = elems_of(v@);
    proof {
        lemma_elems_of(v@);
        lemma_elems_wf(s);
    }
    let mut out: Vec<PassageTree> = Vec::new();
    let mut i: usize = 0;
    assert(trees_of(out@) =~= expand_alt(s.subrange(0, 0)));
    while i < v.len()
        invariant
            i <= v@.len(),
            s == elems_of(v@),
            s.len() == v@.len(),
            forall|j: int| 0 <= j < v@.len() ==> #[trigger] s[j] == elem_of(v@[j]),
            forall|j: int| 0 <= j < s.len() ==> #[trigger] elem_wf(s[j]),
            trees_of(out@) == expand_alt(s.subrange(0, i as int)),
        decreases v@.len() - i,
    {
        assert(elem_wf(s[i as int]));
        let next = expand_exec(&v[i]);
        proof {
            let p = s.subrange(0, i + 1);
            assert(p.subrange(0, p.len() - 1) =~= s.subrange(0, i as int));
            assert(p[p.len() - 1] == s[i as int]);
        }
        append_trees(&mut out, next);
        i = i + 1;
    }
    assert(s.subrange(0, v@.len() as int) =~= s);
    out
}

fn expand_all(v: &Vec<PassageElem>) -> (r: Vec<Vec<PassageTree>>)
    requires
        elems_wf(elems_of(v@)),
    ensures
        forests_of(r@) == expand_each(elems_of(v@)),
    decreases v, 0nat,
{
    let ghost s = elems_of(v@);
    proof {
        lemma_elems_of(v@);
        lemma_elems_wf(s);
    }
    let mut out: Vec<Vec<PassageTree>> = Vec::new();
    let mut i: usize = 0;
    assert(forests_of(out@) =~= expand_each(s.subrange(0, 0)));
    while i < v.len()
        invariant
            i <= v@.len(),
            s == elems_of(v@),
            s.len() == v@.len(),
            forall|j: int| 0 <= j < v@.len() ==> #[trigger] s[j] == elem_of(v@[j]),
            forall|j: int| 0 <= j < s.len() ==> #[trigger] elem_wf(s[j]),
            forests_of(out@) == expand_each(s.subrange(0, i as int)),
        decreases v@.len() - i,
    {
        assert(elem_wf(s[i as int]));
        let next = expand_exec(&v[i]);
        proof {
            let p = s.subrange(0, i + 1);
            assert(p.subrange(0, p.len() - 1) =~= s.subrange(0, i as int));
            assert(p[p.len() - 1] == s[i as int]);
        }
        let ghost o0 = out@;
        out.push(next);
        assert(forests_of(out@) =~= forests_of(o0).push(trees_of(next@)));
        i = i + 1;
    }
    assert(s.subrange(0, v@.len() as int) =~= s);
    out
}

impl PassageTree {
    /// Every way through `elem`, as a forest: a passage is one tree, a
    /// sequence hangs each element under the ends of the ones before it,
    /// alternatives stand side by side, and concurrent branches come in every
    /// order. A sequence or a concurrent group without elements is
    /// malformed; alternatives without branches give no tree.
    pub fn from(elem: &PassageElem) -> (r: Result<Vec<PassageTree>, Error>)
        ensures
            match r {
                Ok(v) => elem_wf(elem@) && trees_of(v@) == expand(elem@),
                Err(e) => !elem_wf(elem@) && e == Error::Malformed,
            },
    {
        if is_well_formed(elem) {
            Ok(expand_exec(elem))
        } else {
            Err(Error::Malformed)
        }
    }
}

pub open spec fn leaf(p: PassageView) -> TreeView {
    node(p, Seq::empty())
}

/// Two concurrent passages expand to exactly two trees: `a` then `b`, and
/// `b` then `a`.
pub proof fn lemma_two_concurrent(a: PassageView, b: PassageView)
    ensures
        expand(ElemView::Concurrent(seq![ElemView::Leaf(a), ElemView::Leaf(b)]))
            == seq![node(a, seq![leaf(b)]), node(b, seq![leaf(a)])],
{
    let s = seq![ElemView::Leaf(a), ElemView::Leaf(b)];
    let fa = seq![leaf(a)];
    let fb = seq![leaf(b)];
    assert(s.subrange(0, 1).subrange(0, 0) =~= Seq::<ElemView>::empty());
    assert(s.subrange(0, 1) =~= seq![ElemView::Leaf(a)]);
    assert(s.subrange(0, 1)[0] == ElemView::Leaf(a));
    assert(expand(ElemView::Leaf(a)) == fa);
    assert(expand(ElemView::Leaf(b)) == fb);
    assert(expand_each(s.subrange(0, 1).subrange(0, 0)) =~= Seq::<Seq<TreeView>>::empty());
    assert(expand_each(s.subrange(0, 1)) =~= seq![fa]);
    assert(s.subrange(0, 2 - 1) =~= s.subrange(0, 1));
    assert(expand_each(s) =~= seq![fa, fb]);
    let fs = seq![fa, fb];
    assert(fs.remove(0) =~= seq![fb]);
    assert(fs.remove(1) =~= seq![fa]);
    assert(concurrent(seq![fb]) == fb);
    assert(concurrent(seq![fa]) == fa);
    assert(fa.subrange(0, 0) =~= Seq::<TreeView>::empty());
    assert(fb.subrange(0, 0) =~= Seq::<TreeView>::empty());
    assert(graft(leaf(a), fb) == node(a, fb));
    assert(graft(leaf(b), fa) == node(b, fa));
    lemma_graft_all(fa, fb);
    lemma_graft_all(fb, fa);
    assert(graft_all(fa, fb) =~= seq![node(a, fb)]);
    assert(graft_all(fb, fa) =~= seq![node(b, fa)]);
    assert(concurrent_from(fs, 2) == Seq::<TreeView>::empty());
    assert(concurrent_from(fs, 1) =~= seq![node(b, fa)]);
    assert(concurrent_from(fs, 0) =~= seq![node(a, fb), node(b, fa)]);
}

/// A sequence of an element and a passage hangs the passage under every end
/// of the element's forest, and under nothing else.
pub proof fn lemma_sequence_then_passage(x: ElemView, c: PassageView)
    ensures
        expand(ElemView::Sequence(seq![x, ElemView::Leaf(c)])) == graft_all(expand(x), seq![leaf(c)]),
{
    let s = seq![x, ElemView::Leaf(c)];
    assert(s.subrange(0, 1) =~= seq![x]);
    assert(s.subrange(0, 1)[0] == x);
    assert(expand_seq(s.subrange(0, 1)) == expand(x));
    assert(expand(ElemView::Leaf(c)) == seq![leaf(c)]);
    assert(s[1] == ElemView::Leaf(c));
}

pub proof fn lemma_expand_each(s: Seq<ElemView>)
    ensures
        expand_each(s).len() == s.len(),
        forall|i: int| 0 <= i < s.len() ==> #[trigger] expand_each(s)[i] == expand(s[i]),
    decreases s.len(),
{
    if s.len() > 0 {
        lemma_expand_each(s.subrange(0, s.len() - 1));
    }
}

proof fn lemma_expand_seq_len(s: Seq<ElemView>)
    requires
        s.len() >= 1,
    ensures
        expand_seq(s).len() == expand(s[0]).len(),
    decreases s.len(),
{
    if s.len() > 1 {
        let p = s.subrange(0, s.len() - 1);
        lemma_expand_seq_len(p);
        lemma_graft_all(expand_seq(p), expand(s[s.len() - 1]));
    }
}

proof fn lemma_expand_alt_len(s: Seq<ElemView>)
    requires
        forall|i: int| 0 <= i < s.len() ==> #[trigger] expand(s[i]).len() >= 1,
    ensures
        expand_alt(s).len() >= s.len(),
    decreases s.len(),
{
    if s.len() > 0 {
        let p = s.subrange(0, s.len() - 1);
        assert forall|i: int| 0 <= i < p.len() implies #[trigger] expand(p[i]).len() >= 1 by {
            assert(p[i] == s[i]);
        }
        lemma_expand_alt_len(p);
        assert(expand(s[s.len() - 1]).len() >= 1);
    }
}

proof fn lemma_concurrent_nonempty(fs: Seq<Seq<TreeView>>)
    requires
        fs.len() >= 1,
        forall|i: int| 0 <= i < fs.len() ==> #[trigger] fs[i].len() >= 1,
    ensures
        concurrent(fs).len() >= 1,
{
    if fs.len() > 1 {
        lemma_graft_all(fs[0], concurrent(fs.remove(0)));
    }
}

/// A well-formed element without empty alternatives has at least one way
/// through it.
pub proof fn lemma_expand_nonempty(e: ElemView)
    requires
        elem_wf(e),
        alternatives_filled(e),
    ensures
        expand(e).len() >= 1,
    decreases e,
{
    match e {
        ElemView::Leaf(_) => {},
        ElemView::Sequence(s) => {
            lemma_elems_wf(s);
            lemma_all_alternatives_filled(s);
            lemma_expand_nonempty(s[0]);
            lemma_expand_seq_len(s);
        },
        ElemView::Alternative(s) => {
            lemma_elems_wf(s);
            lemma_all_alternatives_filled(s);
            assert forall|i: int| 0 <= i < s.len() implies #[trigger] expand(s[i]).len() >= 1 by {
                lemma_expand_nonempty(s[i]);
            }
            lemma_expand_alt_len(s);
        },
        ElemView::Concurrent(s) => {
            lemma_elems_wf(s);
            lemma_all_alternatives_filled(s);
            lemma_expand_each(s);
            let fs = expand_each(s);
            assert forall|i: int| 0 <= i < fs.len() implies #[trigger] fs[i].len() >= 1 by {
                lemma_expand_nonempty(s[i]);
            }
            lemma_concurrent_nonempty(fs);
        },
    }
}

/// Alternatives of two or more branches, none of which holds an empty
/// alternative, give two or more trees, so a document that starts with them
/// does not start with one passage.
pub proof fn lemma_alternative_top(s: Seq<ElemView>)
    requires
        s.len() >= 2,
        elems_wf(s),
        all_alternatives_filled(s),
    ensures
        expand(ElemView::Alternative(s)).len() >= 2,
{
    lemma_elems_wf(s);
    lemma_all_alternatives_filled(s);
    assert forall|i: int| 0 <= i < s.len() implies #[trigger] expand(s[i]).len() >= 1 by {
        lemma_expand_nonempty(s[i]);
    }
    lemma_expand_alt_len(s);
}

/// An exercise: its title, and the one tree of passages it unfolds to.
pub struct Exercise {
    pub title: String,
    pub passage_tree: PassageTree,
}

impl Exercise {
    /// The exercise of `title` whose passages are `passages`; it must unfold
    /// to exactly one tree, so that it starts with one passage.
    pub fn build(title: String, passages: &PassageElem) -> (r: Result<Exercise, Error>)
        ensures
            match r {
                Ok(x) => elem_wf(passages@) && expand(passages@).len() == 1
                    && x.passage_tree@ == expand(passages@)[0] && x.title@ == title@,
                Err(e) => e == Error::Malformed && !(elem_wf(passages@) && expand(passages@).len() == 1),
            },
    {
        match PassageTree::from(passages) {
            Err(e) => Err(e),
            Ok(v) => {
                proof {
                    lemma_trees_of(v@);
                }
                if v.len() != 1 {
                    Err(Error::Malformed)
                } else {
                    let mut v = v;
                    let t = v.remove(0);
                    Ok(Exercise { title, passage_tree: t })
                }
            },
        }
    }
}

/// A document whose passages start with alternatives of two or more
/// branches is refused as an exercise. (Branches that are themselves empty
/// alternatives offer no way through and are left out: `alt` of an empty
/// `alt` and one passage unfolds to one tree.)
pub proof fn lemma_alternative_refused(s: Seq<ElemView>)
    requires
        s.len() >= 2,
        all_alternatives_filled(s),
    ensures
        !(elem_wf(ElemView::Alternative(s)) && expand(ElemView::Alternative(s)).len() == 1),
{
    if elem_wf(ElemView::Alternative(s)) {
        lemma_alternative_top(s);
    }
}

/// The name of a passage in the rendered exercise: a path of numbers, one
/// per level of choices.
pub struct PassageTitle(pub Vec<u16>);

impl PassageTitle {
    pub open spec fn levels(&self) -> Seq<u16> {
        self.0@
    }

    /// The title of the first passage.
    pub fn new() -> (r: PassageTitle)
        ensures
            r.levels() == seq![0u16],
    {
        let r = PassageTitle(vec![0]);
        assert(r.levels() =~= seq![0u16]);
        r
    }

    /// The next title on the same level.
    pub fn inc(&mut self)
        requires
            old(self).levels().len() > 0,
            old(self).levels().last() < u16::MAX,
        ensures
            final(self).levels() == old(self).levels().drop_last().push((old(self).levels().last() + 1) as u16),
    {
        let n = self.0.pop();
        match n {
            Some(x) => self.0.push(x + 1),
            None => {},
        }
    }

    /// The first title one level down.
    pub fn add_level(&mut self)
        ensures
            final(self).levels() == old(self).levels().push(0u16),
    {
        self.0.push(0);
    }

    pub fn copy(&self) -> (r: PassageTitle)
        ensures
            r.levels() == self.levels(),
    {
        PassageTitle(self.0.clone())
    }

    /// `"Start"` for the first passage, else `"Chapter"` followed by
    /// `-n` for each level below the first, counted from one.
    pub fn name(&self) -> (r: String)
        ensures
            r@ == title_name(self.levels()),
    {
        let mut out: Vec<char> = Vec::new();
        if self.0.len() == 1 && self.0[0] == 0 {
            out.push('S');
            out.push('t');
            out.push('a');
            out.push('r');
            out.push('t');
            assert(out@ =~= seq!['S', 't', 'a', 'r', 't']);
            assert(self.levels() =~= seq![0u16]);
            return string_of(out.as_slice());
        }
        out.push('C');
        out.push('h');
        out.push('a');
        out.push('p');
        out.push('t');
        out.push('e');
        out.push('r');
        assert(out@ =~= chapter_prefix());
        if self.0.len() == 0 {
            assert(chapter_prefix() + level_names(Seq::<u16>::empty()) =~= chapter_prefix());
            return string_of(out.as_slice());
        }
        let mut i: usize = 1;
        assert(self.levels().subrange(1, 1) =~= Seq::<u16>::empty());
        assert(out@ =~= chapter_prefix() + level_names(self.levels().subrange(1, 1)));
        while i < self.0.len()
            invariant
                1 <= i <= self.0@.len(),
                out@ == chapter_prefix() + level_names(self.levels().subrange(1, i as int)),
            decreases self.0@.len() - i,
        {
            let ghost o0 = out@;
            out.push('-');
            push_decimal(&mut out, self.0[i] as u128 + 1);
            proof {
                let p = self.levels().subrange(1, i + 1);
                assert(p.drop_last() =~= self.levels().subrange(1, i as int));
                assert(out@ =~= chapter_prefix() + level_names(p));
            }
            i = i + 1;
        }
        string_of(out.as_slice())
    }
}

pub open spec fn chapter_prefix() -> Seq<char> {
    seq!['C', 'h', 'a', 'p', 't', 'e', 'r']
}

/// `-n` for each level, counted from one.
pub open spec fn level_names(s: Seq<u16>) -> Seq<char>
    decreases s.len(),
{
    if s.len() == 0 {
        Seq::empty()
    } else {
        level_names(s.drop_last()) + seq!['-'] + decimal((s.last() + 1) as nat)
    }
}

pub open spec fn title_name(levels: Seq<u16>) -> Seq<char> {
    if levels == seq![0u16] {
        seq!['S', 't', 'a', 'r', 't']
    } else if levels.len() == 0 {
        chapter_prefix()
    } else {
        chapter_prefix() + level_names(levels.subrange(1, levels.len() as int))
    }
}

impl PassageTree {
    /// Whether no continuation of this node offers a passage: the exercise
    /// ends here.
    pub fn is_endnode(&self) -> (r: bool)
        ensures
            r == (forall|i: int| 0 <= i < self@.children.len() ==> #[trigger] self@.children[i].passage.text.text.len() == 0),
    {
        proof {
            lemma_trees_of(self.1@);
        }
        let mut i: usize = 0;
        while i < self.1.len()
            invariant
                i <= self.1@.len(),
                self@.children == trees_of(self.1@),
                trees_of(self.1@).len() == self.1@.len(),
                forall|j: int| 0 <= j < self.1@.len() ==> #[trigger] trees_of(self.1@)[j] == tree_of(self.1@[j]),
                forall|j: int| 0 <= j < i ==> #[trigger] self@.children[j].passage.text.text.len() == 0,
            decreases self.1@.len() - i,
        {
            if !self.1[i].0.is_empty() {
                assert(self@.children[i as int] == tree_of(self.1@[i as int]));
                assert(self@.children[i as int].passage.text.text.len() != 0);
                return false;
            }
            i = i + 1;
        }
        true
    }
}

/// A choice offered at a node. `link` numbers, one level below the node, the
/// passage the choice leads to. A right choice also names the continuation
/// that follows and its number: `link + 1` when a note comes first, else
/// `link`.
pub struct Choice {
    pub gate: Gate,
    pub wrong: bool,
    pub link: usize,
    pub child: usize,
    pub child_link: usize,
}

pub struct ChoiceView {
    pub gate: GateView,
    pub wrong: bool,
    pub link: nat,
    pub child: nat,
    pub child_link: nat,
}

impl View for Choice {
    type V = ChoiceView;

    open spec fn view(&self) -> ChoiceView {
        ChoiceView {
            gate: self.gate@,
            wrong: self.wrong,
            link: self.link as nat,
            child: self.child as nat,
            child_link: self.child_link as nat,
        }
    }
}

pub open spec fn choices_of(v: Seq<Choice>) -> Seq<ChoiceView> {
    v.map_values(|c: Choice| c@)
}

/// The wrong choices offered before the continuations `s`.
pub open spec fn previous_bads(s: Seq<TreeView>) -> Seq<GateView>
    decreases s.len(),
{
    if s.len() == 0 {
        Seq::empty()
    } else {
        previous_bads(s.drop_last()) + s.last().passage.previous_bad
    }
}

/// The wrong choices of a node: those after its passage, then those before
/// each continuation; they are numbered from 0.
pub open spec fn wrong_choices(t: TreeView) -> Seq<GateView> {
    t.passage.post_bad + previous_bads(t.children)
}

/// The right choices for the continuations `s`, numbered from `start`, and
/// the next free number. A continuation whose gate has no text offers none.
pub open spec fn right_choices(s: Seq<TreeView>, start: nat) -> (Seq<ChoiceView>, nat)
    decreases s.len(),
{
    if s.len() == 0 {
        (Seq::empty(), start)
    } else {
        let (cs, c) = right_choices(s.drop_last(), start);
        let g = s.last().passage.text;
        let i = (s.len() - 1) as nat;
        if g.text.len() == 0 {
            (cs, c)
        } else if g.note.len() > 0 {
            (cs.push(ChoiceView { gate: g, wrong: false, link: c, child: i, child_link: c + 1 }), c + 2)
        } else {
            (cs.push(ChoiceView { gate: g, wrong: false, link: c, child: i, child_link: c }), c + 1)
        }
    }
}

/// Every choice at a node: the wrong ones, then the right ones.
pub open spec fn choice_plan(t: TreeView) -> Seq<ChoiceView> {
    let w = wrong_choices(t);
    Seq::new(w.len(), |k: int| ChoiceView { gate: w[k], wrong: true, link: k as nat, child: 0, child_link: k as nat })
        + right_choices(t.children, w.len()).0
}

proof fn lemma_right_choices_bound(s: Seq<TreeView>, start: nat)
    ensures
        right_choices(s, start).1 <= start + 2 * s.len(),
    decreases s.len(),
{
    if s.len() > 0 {
        lemma_right_choices_bound(s.drop_last(), start);
    }
}

impl PassageTree {
    /// The choices offered at this node; see `choice_plan`.
    pub fn choices(&self) -> (r: Vec<Choice>)
        requires
            self@.passage.post_bad.len() + previous_bads(self@.children).len() + 2 * self@.children.len() <= usize::MAX,
        ensures
            choices_of(r@) == choice_plan(self@),
    {
        let ghost t = self@;
        proof {
            lemma_trees_of(self.1@);
        }
        let mut wrong: Vec<Gate> = copy_gates(&self.0.post_bad);
        let mut i: usize = 0;
        assert(previous_bads(t.children.subrange(0, 0)) =~= Seq::<GateView>::empty());
        assert(gates_of(wrong@) =~= t.passage.post_bad + previous_bads(t.children.subrange(0, 0)));
        while i < self.1.len()
            invariant
                i <= self.1@.len(),
                t == self@,
                t.children.len() == self.1@.len(),
                forall|j: int| 0 <= j < self.1@.len() ==> #[trigger] t.children[j] == tree_of(self.1@[j]),
                gates_of(wrong@) == t.passage.post_bad + previous_bads(t.children.subrange(0, i as int)),
            decreases self.1@.len() - i,
        {
            let ghost p = t.children.subrange(0, i + 1);
            assert(p.drop_last() =~= t.children.subrange(0, i as int));
            let mut more = copy_gates(&self.1[i].0.previous_bad);
            let ghost (w0, m0) = (wrong@, more@);
            wrong.append(&mut more);
            assert(gates_of(wrong@) =~= gates_of(w0) + gates_of(m0));
            i = i + 1;
        }
        assert(t.children.subrange(0, self.1@.len() as int) =~= t.children);
        let ghost w = wrong_choices(t);
        let mut out: Vec<Choice> = Vec::new();
        let mut k: usize = 0;
        let n = wrong.len();
        while k < n
            invariant
                k <= n,
                n == wrong@.len(),
                gates_of(wrong@) == w,
                w == wrong_choices(t),
                choices_of(out@) == Seq::new(k as nat, |j: int| ChoiceView { gate: w[j], wrong: true, link: j as nat, child: 0, child_link: j as nat }),
            decreases n - k,
        {
            let c = Choice { gate: wrong[k].copy(), wrong: true, link: k, child: 0, child_link: k };
            assert(gates_of(wrong@)[k as int] == wrong@[k as int]@);
            assert(c@.gate == w[k as int]);
            let ghost o0 = out@;
            out.push(c);
            assert(choices_of(out@) =~= choices_of(o0).push(c@));
            assert(choices_of(out@) =~= Seq::new((k + 1) as nat, |j: int| ChoiceView { gate: w[j], wrong: true, link: j as nat, child: 0, child_link: j as nat }));
            k = k + 1;
        }
        let ghost wrong_part = choices_of(out@);
        let mut c: usize = n;
        let mut i: usize = 0;
        proof {
            assert(t.children.subrange(0, 0) =~= Seq::<TreeView>::empty());
            assert(choices_of(out@) =~= wrong_part + right_choices(t.children.subrange(0, 0), n as nat).0);
        }
        while i < self.1.len()
            invariant
                i <= self.1@.len(),
                t == self@,
                t.children.len() == self.1@.len(),
                forall|j: int| 0 <= j < self.1@.len() ==> #[trigger] t.children[j] == tree_of(self.1@[j]),
                n == wrong_choices(t).len(),
                n + 2 * self.1@.len() <= usize::MAX,
                c as nat == right_choices(t.children.subrange(0, i as int), n as nat).1,
                c <= n + 2 * i,
                choices_of(out@) == wrong_part + right_choices(t.children.subrange(0, i as int), n as nat).0,
            decreases self.1@.len() - i,
        {
            let ghost p = t.children.subrange(0, i + 1);
            assert(p.drop_last() =~= t.children.subrange(0, i as int));
            assert(p.last() == tree_of(self.1@[i as int]));
            let g = &self.1[i].0.text;
            if !g.is_empty() {
                let ghost o0 = choices_of(out@);
                if g.has_note() {
                    out.push(Choice { gate: g.copy(), wrong: false, link: c, child: i, child_link: c + 1 });
                    assert(choices_of(out@) =~= o0.push(ChoiceView { gate: g@, wrong: false, link: c as nat, child: i as nat, child_link: (c + 1) as nat }));
                    c = c + 2;
                } else {
                    out.push(Choice { gate: g.copy(), wrong: false, link: c, child: i, child_link: c });
                    assert(choices_of(out@) =~= o0.push(ChoiceView { gate: g@, wrong: false, link: c as nat, child: i as nat, child_link: c as nat }));
                    c = c + 1;
                }
            }
            i = i + 1;
        }
        assert(t.children.subrange(0, self.1@.len() as int) =~= t.children);
        out
    }
}

impl PassageTitle {
    /// The title on the level of the last number of `self`, numbered `n`.
    pub fn title_at(&self, n: usize) -> (r: PassageTitle)
        requires
            self.levels().len() > 0,
            n <= u16::MAX,
        ensures
            r.levels() == self.levels().drop_last().push(n as u16),
    {
        let mut t = self.copy();
        t.0.pop();
        t.0.push(n as u16);
        t
    }
}

/// The prompt above the choices of a node: several choices may all be right.
pub fn choice_prompt(count: usize) -> (r: &'static str)
    ensures
        r@ == (if count > 1 {
            "Marque una opción que considere correcta (puede haber más de una)"@
        } else {
            "Marque la opción indicada para continuar"@
        }),
{
    if count > 1 {
        "Marque una opción que considere correcta (puede haber más de una)"
    } else {
        "Marque la opción indicada para continuar"
    }
}

impl PassageTree {
    /// At a node where the exercise ends, the text and the target of the link
    /// back to the start.
    pub fn ending(&self) -> (r: Option<(&'static str, &'static str)>)
        ensures
            r is Some <==> (forall|i: int| 0 <= i < self@.children.len() ==> #[trigger] self@.children[i].passage.text.text.len() == 0),
            r matches Some((text, target)) ==> text@ == "Este es el final del problema. Volver al inicio"@ && target@ == "Start"@,
    {
        if self.is_endnode() {
            Some(("Este es el final del problema. Volver al inicio", "Start"))
        } else {
            None
        }
    }
}

/// The ways through a tree, each as the passages from its root to an end.
pub open spec fn paths(t: TreeView) -> Seq<Seq<PassageView>>
    decreases t, 1nat,
{
    if t.children.len() == 0 {
        seq![seq![t.passage]]
    } else {
        prefixed(t.passage, paths_all(t.children))
    }
}

/// The ways through a forest, tree after tree.
pub open spec fn paths_all(s: Seq<TreeView>) -> Seq<Seq<PassageView>>
    decreases s, 0nat,
{
    if s.len() == 0 {
        Seq::empty()
    } else {
        paths_all(s.subrange(0, s.len() - 1)) + paths(s[s.len() - 1])
    }
}

/// Each of `ps` with `p` in front.
pub open spec fn prefixed(p: PassageView, ps: Seq<Seq<PassageView>>) -> Seq<Seq<PassageView>> {
    ps.map_values(|x: Seq<PassageView>| seq![p] + x)
}

/// Each of `ps` followed by each of `qs`, in order.
pub open spec fn joined_paths(ps: Seq<Seq<PassageView>>, qs: Seq<Seq<PassageView>>) -> Seq<Seq<PassageView>>
    decreases ps.len(),
{
    if ps.len() == 0 {
        Seq::empty()
    } else {
        joined_paths(ps.drop_last(), qs) + qs.map_values(|q: Seq<PassageView>| ps.last() + q)
    }
}

proof fn lemma_joined_append(x: Seq<Seq<PassageView>>, y: Seq<Seq<PassageView>>, qs: Seq<Seq<PassageView>>)
    ensures
        joined_paths(x + y, qs) == joined_paths(x, qs) + joined_paths(y, qs),
    decreases y.len(),
{
    if y.len() == 0 {
        assert(x + y =~= x);
        assert(joined_paths(x, qs) + joined_paths(y, qs) =~= joined_paths(x, qs));
    } else {
        lemma_joined_append(x, y.drop_last(), qs);
        assert((x + y).drop_last() =~= x + y.drop_last());
        assert((x + y).last() == y.last());
        assert(joined_paths(x + y, qs) =~= joined_paths(x, qs) + joined_paths(y, qs));
    }
}

proof fn lemma_prefixed_joined(p: PassageView, ps: Seq<Seq<PassageView>>, qs: Seq<Seq<PassageView>>)
    ensures
        prefixed(p, joined_paths(ps, qs)) == joined_paths(prefixed(p, ps), qs),
    decreases ps.len(),
{
    if ps.len() == 0 {
        assert(prefixed(p, joined_paths(ps, qs)) =~= Seq::<Seq<PassageView>>::empty());
        assert(prefixed(p, ps) =~= Seq::<Seq<PassageView>>::empty());
    } else {
        lemma_prefixed_joined(p, ps.drop_last(), qs);
        let pp = prefixed(p, ps);
        assert(pp.drop_last() =~= prefixed(p, ps.drop_last()));
        assert(pp.last() == seq![p] + ps.last());
        let a = joined_paths(ps.drop_last(), qs);
        let m = qs.map_values(|q: Seq<PassageView>| ps.last() + q);
        assert(prefixed(p, a + m) =~= prefixed(p, a) + prefixed(p, m));
        assert forall|i: int| 0 <= i < qs.len() implies #[trigger] prefixed(p, m)[i] == (seq![p] + ps.last()) + qs[i] by {
            assert(seq![p] + (ps.last() + qs[i]) =~= (seq![p] + ps.last()) + qs[i]);
        }
        assert(prefixed(p, m) =~= qs.map_values(|q: Seq<PassageView>| pp.last() + q));
    }
}

/// Grafting a non-empty forest `b` under the ends of `t` gives exactly the
/// ways through `t` followed by the ways through `b`: each path of `t`
/// continued by each path of `b`, and no other.
pub proof fn lemma_graft_paths(t: TreeView, b: Seq<TreeView>)
    requires
        b.len() > 0,
    ensures
        paths(graft(t, b)) == joined_paths(paths(t), paths_all(b)),
    decreases t, 1nat,
{
    let pb = paths_all(b);
    if t.children.len() == 0 {
        let one = seq![seq![t.passage]];
        assert(one.drop_last() =~= Seq::<Seq<PassageView>>::empty());
        assert(joined_paths(one.drop_last(), pb) == Seq::<Seq<PassageView>>::empty());
        assert(one.last() == seq![t.passage]);
        let m = pb.map_values(|q: Seq<PassageView>| seq![t.passage] + q);
        assert(joined_paths(one, pb) == Seq::<Seq<PassageView>>::empty() + m);
        assert(Seq::<Seq<PassageView>>::empty() + m =~= m);
        assert(joined_paths(one, pb) =~= pb.map_values(|q: Seq<PassageView>| seq![t.passage] + q));
        assert(prefixed(t.passage, pb) =~= pb.map_values(|q: Seq<PassageView>| seq![t.passage] + q));
    } else {
        lemma_graft_all_paths(t.children, b);
        lemma_graft_all(t.children, b);
        lemma_prefixed_joined(t.passage, paths_all(t.children), pb);
    }
}

proof fn lemma_graft_all_paths(s: Seq<TreeView>, b: Seq<TreeView>)
    requires
        b.len() > 0,
    ensures
        paths_all(graft_all(s, b)) == joined_paths(paths_all(s), paths_all(b)),
    decreases s, 0nat,
{
    if s.len() == 0 {
        assert(joined_paths(Seq::<Seq<PassageView>>::empty(), paths_all(b)) =~= Seq::<Seq<PassageView>>::empty());
    } else {
        let init = s.subrange(0, s.len() - 1);
        lemma_graft_all_paths(init, b);
        lemma_graft_paths(s[s.len() - 1], b);
        lemma_graft_all(s, b);
        let g = graft_all(s, b);
        assert(g.subrange(0, g.len() - 1) =~= graft_all(init, b));
        lemma_joined_append(paths_all(init), paths(s[s.len() - 1]), paths_all(b));
    }
}

} // verus!
