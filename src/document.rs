// Documents as plain values, and their conversion into passages: `pass`,
// `seq`, `alt`, `con` and `cond` entries, with `paths` and `macros`
// directives inside sequences.

use vstd::prelude::*;

use crate::error::Error;
use crate::evaluation::Dictionary;
use crate::gate::{gate_of, Bindings};
use crate::macros::Macros;
use crate::passage::{
    elem_of, elems_of, elem_wf, expand, gates_of, lemma_elems_of, ElemView, Exercise, Gate,
    GateView, Passage, PassageElem, PassageTree, PassageView, trees_of,
};

verus! {

/// A document as plain values: text, lists, tables with text keys (in their
/// order), macro definitions already read from their files, or anything else.
pub enum Node {
    Text(String),
    List(Vec<Node>),
    Table(Vec<(String, Node)>),
    Definitions(Vec<(String, String)>),
    Other,
}

pub enum NodeView {
    Text(Seq<char>),
    List(Seq<NodeView>),
    Table(Seq<(Seq<char>, NodeView)>),
    Definitions(Seq<(Seq<char>, Seq<char>)>),
    Other,
}

pub open spec fn node_of(n: Node) -> NodeView
    decreases n,
{
    match n {
        Node::Text(s) => NodeView::Text(s@),
        Node::List(v) => NodeView::List(nodes_of(v@)),
        Node::Table(v) => NodeView::Table(entries_of(v@)),
        Node::Definitions(v) => NodeView::Definitions(v@.map_values(|p: (String, String)| (p.0@, p.1@))),
        Node::Other => NodeView::Other,
    }
}

pub open spec fn nodes_of(s: Seq<Node>) -> Seq<NodeView>
    decreases s,
{
    if s.len() == 0 {
        Seq::empty()
    } else {
        nodes_of(s.subrange(0, s.len() - 1)).push(node_of(s[s.len() - 1]))
    }
}

pub open spec fn entries_of(s: Seq<(String, Node)>) -> Seq<(Seq<char>, NodeView)>
    decreases s,
{
    if s.len() == 0 {
        Seq::empty()
    } else {
        entries_of(s.subrange(0, s.len() - 1)).push((s[s.len() - 1].0@, node_of(s[s.len() - 1].1)))
    }
}

impl View for Node {
    type V = NodeView;

    open spec fn view(&self) -> NodeView {
        node_of(*self)
    }
}

pub proof fn lemma_nodes_of(s: Seq<Node>)
    ensures
        nodes_of(s).len() == s.len(),
        forall|i: int| 0 <= i < s.len() ==> #[trigger] nodes_of(s)[i] == node_of(s[i]),
    decreases s.len(),
{
    if s.len() > 0 {
        lemma_nodes_of(s.subrange(0, s.len() - 1));
    }
}

pub proof fn lemma_entries_of(s: Seq<(String, Node)>)
    ensures
        entries_of(s).len() == s.len(),
        forall|i: int| 0 <= i < s.len() ==> #[trigger] entries_of(s)[i] == (s[i].0@, node_of(s[i].1)),
    decreases s.len(),
{
    if s.len() > 0 {
        lemma_entries_of(s.subrange(0, s.len() - 1));
    }
}

/// The value of the first entry of `key`.
pub open spec fn entry(m: Seq<(Seq<char>, NodeView)>, key: Seq<char>) -> Option<NodeView>
    decreases m.len(),
{
    if m.len() == 0 {
        None
    } else if m[0].0 == key {
        Some(m[0].1)
    } else {
        entry(m.drop_first(), key)
    }
}

/// The index of the first entry of `key`, or `m.len()`.
pub open spec fn entry_index(m: Seq<(Seq<char>, NodeView)>, key: Seq<char>) -> int
    decreases m.len(),
{
    if m.len() == 0 {
        0
    } else if m[0].0 == key {
        0
    } else {
        1 + entry_index(m.drop_first(), key)
    }
}

/// The key that says what a table stands for: its only key, or `cond`.
pub open spec fn main_key(m: Seq<(Seq<char>, NodeView)>) -> Option<Seq<char>> {
    if m.len() == 1 {
        Some(m[0].0)
    } else if entry(m, "cond"@) is Some {
        Some("cond"@)
    } else {
        None
    }
}

/// The texts of a list, in order.
pub open spec fn texts_of(s: Seq<NodeView>) -> Seq<Seq<char>>
    decreases s.len(),
{
    if s.len() == 0 {
        Seq::empty()
    } else {
        let rest = texts_of(s.drop_last());
        match s.last() {
            NodeView::Text(t) => rest.push(t),
            _ => rest,
        }
    }
}

/// The directories of a `paths` entry: one text, or a list with at least one
/// text.
pub open spec fn paths_directive(n: NodeView) -> Option<Seq<Seq<char>>> {
    match n {
        NodeView::Table(m) => match entry(m, "paths"@) {
            Some(NodeView::Text(t)) => Some(seq![t]),
            Some(NodeView::List(l)) => if texts_of(l).len() > 0 { Some(texts_of(l)) } else { None },
            _ => None,
        },
        _ => None,
    }
}

/// The definitions of a `macros` entry.
pub open spec fn macros_directive(n: NodeView) -> Option<Seq<(Seq<char>, Seq<char>)>> {
    match n {
        NodeView::Table(m) => match entry(m, "macros"@) {
            Some(NodeView::Definitions(d)) => Some(d),
            _ => None,
        },
        _ => None,
    }
}

/// Macro definitions and directories.
pub type MacroState = (Seq<(Seq<char>, Seq<char>)>, Seq<Seq<char>>);

pub type Converted = (Result<(ElemView, Bindings, MacroState), Error>, u64);

pub open spec fn empty_gate() -> GateView {
    GateView { text: Seq::empty(), follow: Seq::empty(), note: Seq::empty() }
}

/// The leading gates of `e`: those that offer its first passages.
pub open spec fn elem_texts(e: ElemView) -> Seq<GateView>
    decreases e,
{
    match e {
        ElemView::Leaf(p) => seq![p.text],
        ElemView::Sequence(s) => if s.len() > 0 { elem_texts(s[0]) } else { Seq::empty() },
        ElemView::Concurrent(s) => all_texts(s),
        ElemView::Alternative(s) => all_texts(s),
    }
}

pub open spec fn all_texts(s: Seq<ElemView>) -> Seq<GateView>
    decreases s,
{
    if s.len() == 0 {
        Seq::empty()
    } else {
        all_texts(s.subrange(0, s.len() - 1)) + elem_texts(s[s.len() - 1])
    }
}

/// The gates of a list of texts, each built from `d`; the bindings they make
/// are dropped.
pub open spec fn gates_from(s: Seq<NodeView>, d: Bindings, m: MacroState, seed: u64) -> (Result<Seq<GateView>, Error>, u64)
    decreases s.len(),
{
    if s.len() == 0 {
        (Ok(Seq::empty()), seed)
    } else {
        let (r, s1) = gates_from(s.drop_last(), d, m, seed);
        match r {
            Err(e) => (Err(e), s1),
            Ok(gs) => match s.last() {
                NodeView::Text(t) => {
                    let (g, s2) = gate_of(t, d, m.0, s1);
                    match g {
                        Err(e) => (Err(e), s2),
                        Ok((a, b, c, _)) => (Ok(gs.push(GateView { text: a, follow: b, note: c })), s2),
                    }
                },
                _ => (Err(Error::Malformed), s1),
            },
        }
    }
}

/// The wrong choices listed under `key`: none where the entry is not a list.
pub open spec fn bad_gates(p: Seq<(Seq<char>, NodeView)>, key: Seq<char>, d: Bindings, m: MacroState, seed: u64) -> (Result<Seq<GateView>, Error>, u64) {
    match entry(p, key) {
        Some(NodeView::List(l)) => gates_from(l, d, m, seed),
        _ => (Ok(Seq::empty()), seed),
    }
}

/// A `pass` entry: its `text` gate, then its `pre_bad` and `post_bad` gates;
/// the bindings after it are those of its text.
pub open spec fn convert_pass(n: NodeView, d: Bindings, m: MacroState, seed: u64) -> Converted {
    match n {
        NodeView::Table(p) => match entry(p, "text"@) {
            Some(NodeView::Text(t)) => {
                let (g, s1) = gate_of(t, d, m.0, seed);
                match g {
                    Err(e) => (Err(e), s1),
                    Ok((a, b, c, d1)) => {
                        let (pre, s2) = bad_gates(p, "pre_bad"@, d, m, s1);
                        match pre {
                            Err(e) => (Err(e), s2),
                            Ok(pre) => {
                                let (post, s3) = bad_gates(p, "post_bad"@, d, m, s2);
                                match post {
                                    Err(e) => (Err(e), s3),
                                    Ok(post) => (Ok((ElemView::Leaf(PassageView {
                                        previous_bad: pre,
                                        text: GateView { text: a, follow: b, note: c },
                                        post_bad: post,
                                    }), d1, m)), s3),
                                }
                            },
                        }
                    },
                }
            },
            _ => (Err(Error::Malformed), seed),
        },
        _ => (Err(Error::Malformed), seed),
    }
}

/// How the elements of a group pass on bindings: a sequence threads them, the
/// branches of a concurrent group each start from the bindings before the
/// group and add theirs, and alternatives each start from them and pass on
/// those of the last one.
#[derive(Debug, Clone, Copy, PartialEq, Eq, Structural)]
pub enum Group {
    Sequence,
    Concurrent,
    Alternative,
}

/// The document `n` as passages, from the bindings `d` and the macros `m`.
pub open spec fn convert(n: NodeView, d: Bindings, m: MacroState, seed: u64) -> Converted
    decreases n, 1nat,
{
    match n {
        NodeView::List(s) => convert_group(Group::Sequence, s, d, m, seed),
        NodeView::Table(p) => match main_key(p) {
            Some(k) => if k == "pass"@ {
                convert_pass(entry(p, k)->0, d, m, seed)
            } else if k == "seq"@ || k == "alt"@ || k == "con"@ {
                let i = entry_index(p, k);
                match if 0 <= i < p.len() { p[i].1 } else { NodeView::Other } {
                    NodeView::List(s) => convert_group(
                        if k == "seq"@ { Group::Sequence } else if k == "alt"@ { Group::Alternative } else { Group::Concurrent },
                        s, d, m, seed),
                    _ => (Err(Error::Malformed), seed),
                }
            } else if k == "cond"@ {
                let j = entry_index(p, "cont"@);
                match (entry(p, "cond"@), 0 <= j < p.len()) {
                    (Some(NodeView::Text(c)), true) => {
                        let body = p[j].1;
                        let (g, s1) = gate_of(c, d, m.0, seed);
                        match g {
                            Err(e) => (Err(e), s1),
                            Ok((a, _, _, _)) => if a == "1"@ {
                                convert(body, d, m, s1)
                            } else {
                                let (r, s2) = convert(body, d, m, s1);
                                match r {
                                    Err(e) => (Err(e), s2),
                                    Ok((e, _, _)) => (Ok((ElemView::Leaf(PassageView {
                                        previous_bad: elem_texts(e),
                                        text: empty_gate(),
                                        post_bad: Seq::empty(),
                                    }), d, m)), s2),
                                }
                            },
                        }
                    },
                    _ => (Err(Error::Malformed), seed),
                }
            } else {
                (Err(Error::Malformed), seed)
            },
            None => (Err(Error::Malformed), seed),
        },
        _ => (Err(Error::Malformed), seed),
    }
}

/// A group: its elements converted in order, `paths` and `macros` entries of
/// a sequence taken as directives.
pub open spec fn convert_group(g: Group, s: Seq<NodeView>, d: Bindings, m: MacroState, seed: u64) -> Converted
    decreases s, 1nat,
{
    let (r, s1) = convert_items(g, s, d, m, seed);
    match r {
        Err(e) => (Err(e), s1),
        Ok((es, d1, m1)) => (Ok((match g {
            Group::Sequence => ElemView::Sequence(es),
            Group::Concurrent => ElemView::Concurrent(es),
            Group::Alternative => ElemView::Alternative(es),
        }, d1, m1)), s1),
    }
}

pub open spec fn convert_items(g: Group, s: Seq<NodeView>, d0: Bindings, m: MacroState, seed: u64) -> (Result<(Seq<ElemView>, Bindings, MacroState), Error>, u64)
    decreases s, 0nat,
{
    if s.len() == 0 {
        (Ok((Seq::empty(), d0, m)), seed)
    } else {
        let (r, s1) = convert_items(g, s.subrange(0, s.len() - 1), d0, m, seed);
        match r {
            Err(e) => (Err(e), s1),
            Ok((es, d, mm)) => {
                let x = s[s.len() - 1];
                if g is Sequence && paths_directive(x) is Some {
                    (Ok((es, d, (mm.0, mm.1 + paths_directive(x)->0))), s1)
                } else if g is Sequence && macros_directive(x) is Some {
                    (Ok((es, d, (mm.0 + macros_directive(x)->0, mm.1))), s1)
                } else {
                    let start = if g is Sequence { d } else { d0 };
                    let (c, s2) = convert(x, start, mm, s1);
                    match c {
                        Err(e) => (Err(e), s2),
                        Ok((e, d2, m2)) => (Ok((es.push(e), match g {
                            Group::Sequence => d2,
                            Group::Concurrent => d + d2,
                            Group::Alternative => d2,
                        }, m2)), s2),
                    }
                }
            },
        }
    }
}

pub open spec fn state_of(m: &Macros) -> MacroState {
    (m.table(), m.path_list())
}

pub open spec fn matches_converted(r: Result<(PassageElem, Dictionary, Macros), Error>, o: Result<(ElemView, Bindings, MacroState), Error>) -> bool {
    match o {
        Ok((e, d, m)) => r matches Ok((pe, dd, mm)) && pe@ == e && dd@ == d && state_of(&mm) == m,
        Err(x) => r matches Err(y) && y == x,
    }
}

fn same_text(s: &String, lit: &str) -> (r: bool)
    ensures
        r == (s@ == lit@),
{
    *s == lit.to_owned()
}

fn entry_index_exec(m: &Vec<(String, Node)>, key: &str) -> (i: usize)
    ensures
        i == entry_index(entries_of(m@), key@),
        i <= m@.len(),
{
    let ghost e = entries_of(m@);
    proof {
        lemma_entries_of(m@);
        assert(e.subrange(0, e.len() as int) =~= e);
    }
    let mut i: usize = 0;
    while i < m.len() && !same_text(&m[i].0, key)
        invariant
            i <= m@.len(),
            e == entries_of(m@),
            e.len() == m@.len(),
            forall|j: int| 0 <= j < m@.len() ==> #[trigger] e[j] == (m@[j].0@, node_of(m@[j].1)),
            entry_index(e, key@) == i + entry_index(e.subrange(i as int, e.len() as int), key@),
        decreases m@.len() - i,
    {
        assert(e.subrange(i as int, e.len() as int).drop_first() =~= e.subrange(i + 1, e.len() as int));
        i = i + 1;
    }
    if i < m.len() {
        assert(e.subrange(i as int, e.len() as int)[0] == e[i as int]);
    }
    i
}

proof fn lemma_entry(m: Seq<(Seq<char>, NodeView)>, key: Seq<char>)
    ensures
        0 <= entry_index(m, key) <= m.len(),
        entry(m, key) == (if entry_index(m, key) < m.len() { Some(m[entry_index(m, key)].1) } else { None::<NodeView> }),
        entry_index(m, key) < m.len() ==> m[entry_index(m, key)].0 == key,
    decreases m.len(),
{
    if m.len() > 0 && m[0].0 != key {
        lemma_entry(m.drop_first(), key);
    }
}

fn texts_exec(l: &Vec<Node>) -> (r: Vec<String>)
    ensures
        r@.map_values(|s: String| s@) == texts_of(nodes_of(l@)),
{
    let ghost v = nodes_of(l@);
    proof {
        lemma_nodes_of(l@);
        assert(v.subrange(0, 0) =~= Seq::<NodeView>::empty());
    }
    let mut r: Vec<String> = Vec::new();
    let mut i: usize = 0;
    assert(r@.map_values(|s: String| s@) =~= texts_of(v.subrange(0, 0)));
    while i < l.len()
        invariant
            i <= l@.len(),
            v == nodes_of(l@),
            v.len() == l@.len(),
            forall|j: int| 0 <= j < l@.len() ==> #[trigger] v[j] == node_of(l@[j]),
            r@.map_values(|s: String| s@) == texts_of(v.subrange(0, i as int)),
        decreases l@.len() - i,
    {
        let ghost p = v.subrange(0, i + 1);
        assert(p.drop_last() =~= v.subrange(0, i as int));
        assert(p.last() == v[i as int]);
        match &l[i] {
            Node::Text(t) => {
                let ghost r0 = r@;
                r.push(t.clone());
                assert(r@.map_values(|s: String| s@) =~= r0.map_values(|s: String| s@).push(t@));
            },
            _ => {},
        }
        i = i + 1;
    }
    assert(v.subrange(0, l@.len() as int) =~= v);
    r
}

fn paths_directive_exec(n: &Node) -> (r: Option<Vec<String>>)
    ensures
        match paths_directive(n@) {
            Some(p) => r matches Some(v) && v@.map_values(|s: String| s@) == p,
            None => r is None,
        },
{
    match n {
        Node::Table(m) => {
            let i = entry_index_exec(m, "paths");
            proof {
                lemma_entries_of(m@);
                lemma_entry(entries_of(m@), "paths"@);
            }
            if i >= m.len() {
                return None;
            }
            match &m[i].1 {
                Node::Text(t) => {
                    let v = vec![t.clone()];
                    assert(v@.map_values(|s: String| s@) =~= seq![t@]);
                    Some(v)
                },
                Node::List(l) => {
                    let v = texts_exec(l);
                    if v.len() > 0 {
                        Some(v)
                    } else {
                        None
                    }
                },
                _ => None,
            }
        },
        _ => None,
    }
}

fn macros_directive_exec(n: &Node) -> (r: Option<&Vec<(String, String)>>)
    ensures
        match macros_directive(n@) {
            Some(p) => r matches Some(v) && v@.map_values(|q: (String, String)| (q.0@, q.1@)) == p,
            None => r is None,
        },
{
    match n {
        Node::Table(m) => {
            let i = entry_index_exec(m, "macros");
            proof {
                lemma_entries_of(m@);
                lemma_entry(entries_of(m@), "macros"@);
            }
            if i >= m.len() {
                return None;
            }
            match &m[i].1 {
                Node::Definitions(d) => Some(d),
                _ => None,
            }
        },
        _ => None,
    }
}

fn gates_from_exec(l: &Vec<Node>, d: &Dictionary, m: &Macros, seed: &mut u64) -> (r: Result<Vec<Gate>, Error>)
    ensures
        ({
            let (o, s) = gates_from(nodes_of(l@), d@, state_of(m), *old(seed));
            &&& *final(seed) == s
            &&& match o {
                Ok(gs) => r matches Ok(v) && gates_of(v@) == gs,
                Err(e) => r matches Err(x) && x == e,
            }
        }),
{
    let ghost v = nodes_of(l@);
    proof {
        lemma_nodes_of(l@);
    }
    let mut acc: Result<Vec<Gate>, Error> = Ok(Vec::new());
    let mut i: usize = 0;
    proof {
        assert(v.subrange(0, 0) =~= Seq::<NodeView>::empty());
        assert(gates_of(Seq::<Gate>::empty()) =~= Seq::<GateView>::empty());
    }
    while i < l.len()
        invariant
            i <= l@.len(),
            v == nodes_of(l@),
            v.len() == l@.len(),
            forall|j: int| 0 <= j < l@.len() ==> #[trigger] v[j] == node_of(l@[j]),
            ({
                let (o, s) = gates_from(v.subrange(0, i as int), d@, state_of(m), *old(seed));
                &&& *seed == s
                &&& match o {
                    Ok(gs) => acc matches Ok(x) && gates_of(x@) == gs,
                    Err(e) => acc matches Err(x) && x == e,
                }
            }),
        decreases l@.len() - i,
    {
        let ghost p = v.subrange(0, i + 1);
        assert(p.drop_last() =~= v.subrange(0, i as int));
        assert(p.last() == v[i as int]);
        acc = match acc {
            Err(e) => Err(e),
            Ok(mut gs) => match &l[i] {
                Node::Text(t) => match Gate::from(t.as_str(), d, m, seed) {
                    Err(e) => Err(e),
                    Ok((g, _)) => {
                        let ghost g0 = gs@;
                        gs.push(g);
                        assert(gates_of(gs@) =~= gates_of(g0).push(g@));
                        Ok(gs)
                    },
                },
                _ => Err(Error::Malformed),
            },
        };
        i = i + 1;
    }
    assert(v.subrange(0, l@.len() as int) =~= v);
    acc
}

fn bad_gates_exec(p: &Vec<(String, Node)>, key: &str, d: &Dictionary, m: &Macros, seed: &mut u64) -> (r: Result<Vec<Gate>, Error>)
    ensures
        ({
            let (o, s) = bad_gates(entries_of(p@), key@, d@, state_of(m), *old(seed));
            &&& *final(seed) == s
            &&& match o {
                Ok(gs) => r matches Ok(v) && gates_of(v@) == gs,
                Err(e) => r matches Err(x) && x == e,
            }
        }),
{
    let i = entry_index_exec(p, key);
    proof {
        lemma_entries_of(p@);
        lemma_entry(entries_of(p@), key@);
    }
    if i < p.len() {
        match &p[i].1 {
            Node::List(l) => {
                return gates_from_exec(l, d, m, seed);
            },
            _ => {},
        }
    }
    let v: Vec<Gate> = Vec::new();
    assert(gates_of(v@) =~= Seq::<GateView>::empty());
    Ok(v)
}

fn convert_pass_exec(n: &Node, d: &Dictionary, m: &Macros, seed: &mut u64) -> (r: Result<(PassageElem, Dictionary, Macros), Error>)
    ensures
        ({
            let (o, s) = convert_pass(n@, d@, state_of(m), *old(seed));
            &&& *final(seed) == s
            &&& matches_converted(r, o)
        }),
{
    let p = match n {
        Node::Table(p) => p,
        _ => {
            return Err(Error::Malformed);
        },
    };
    proof {
        lemma_entries_of(p@);
        lemma_entry(entries_of(p@), "text"@);
    }
    let i = entry_index_exec(p, "text");
    if i >= p.len() {
        return Err(Error::Malformed);
    }
    let t = match &p[i].1 {
        Node::Text(t) => t,
        _ => {
            return Err(Error::Malformed);
        },
    };
    let (text, d1) = match Gate::from(t.as_str(), d, m, seed) {
        Ok(x) => x,
        Err(e) => {
            return Err(e);
        },
    };
    let pre = match bad_gates_exec(p, "pre_bad", d, m, seed) {
        Ok(x) => x,
        Err(e) => {
            return Err(e);
        },
    };
    let post = match bad_gates_exec(p, "post_bad", d, m, seed) {
        Ok(x) => x,
        Err(e) => {
            return Err(e);
        },
    };
    let elem = PassageElem::Passage(Passage { previous_bad: pre, text, post_bad: post });
    Ok((elem, d1, m.copy()))
}

impl PassageElem {
    /// The leading gates of this element; see `elem_texts`.
    pub fn text(&self) -> (r: Vec<Gate>)
        ensures
            gates_of(r@) == elem_texts(self@),
        decreases self, 1nat,
    {
        match self {
            PassageElem::Passage(p) => {
                let v = vec![p.text.copy()];
                assert(gates_of(v@) =~= seq![p.text@]);
                v
            },
            PassageElem::Sequence(s) => {
                proof {
                    lemma_elems_of(s@);
                }
                if s.len() > 0 {
                    s[0].text()
                } else {
                    let v: Vec<Gate> = Vec::new();
                    assert(gates_of(v@) =~= Seq::<GateView>::empty());
                    v
                }
            },
            PassageElem::Concurrent(s) => texts_all_exec(s),
            PassageElem::Alternative(s) => texts_all_exec(s),
        }
    }
}

fn texts_all_exec(s: &Vec<PassageElem>) -> (r: Vec<Gate>)
    ensures
        gates_of(r@) == all_texts(elems_of(s@)),
    decreases s, 0nat,
{
    let ghost v = elems_of(s@);
    proof {
        lemma_elems_of(s@);
        assert(v.subrange(0, 0) =~= Seq::<ElemView>::empty());
    }
    let mut out: Vec<Gate> = Vec::new();
    let mut i: usize = 0;
    assert(gates_of(out@) =~= all_texts(v.subrange(0, 0)));
    while i < s.len()
        invariant
            i <= s@.len(),
            v == elems_of(s@),
            v.len() == s@.len(),
            forall|j: int| 0 <= j < s@.len() ==> #[trigger] v[j] == elem_of(s@[j]),
            gates_of(out@) == all_texts(v.subrange(0, i as int)),
        decreases s@.len() - i,
    {
        let ghost p = v.subrange(0, i + 1);
        assert(p.subrange(0, p.len() - 1) =~= v.subrange(0, i as int));
        assert(p[p.len() - 1] == v[i as int]);
        let mut more = s[i].text();
        let ghost (o0, m0) = (out@, more@);
        out.append(&mut more);
        assert(gates_of(out@) =~= gates_of(o0) + gates_of(m0));
        i = i + 1;
    }
    assert(v.subrange(0, s@.len() as int) =~= v);
    out
}

/// Converts the document `n` to passages; see `convert`.
pub fn convert_node(n: &Node, d: &Dictionary, m: &Macros, seed: &mut u64) -> (r: Result<(PassageElem, Dictionary, Macros), Error>)
    ensures
        ({
            let (o, s) = convert(n@, d@, state_of(m), *old(seed));
            &&& *final(seed) == s
            &&& matches_converted(r, o)
        }),
    decreases n, 2nat,
{
    match n {
        Node::List(s) => convert_group_exec(Group::Sequence, s, d, m, seed),
        Node::Table(p) => {
            proof {
                lemma_entries_of(p@);
                lemma_entry(entries_of(p@), "cond"@);
                lemma_entry(entries_of(p@), "cont"@);
                lemma_entry(entries_of(p@), "pass"@);
                lemma_entry(entries_of(p@), "seq"@);
                lemma_entry(entries_of(p@), "alt"@);
                lemma_entry(entries_of(p@), "con"@);
            }
            let ci = entry_index_exec(p, "cond");
            let key: &String = if p.len() == 1 {
                &p[0].0
            } else if ci < p.len() {
                &p[ci].0
            } else {
                return Err(Error::Malformed);
            };
            if same_text(key, "pass") {
                let i = entry_index_exec(p, "pass");
                convert_pass_exec(&p[i].1, d, m, seed)
            } else if same_text(key, "seq") || same_text(key, "alt") || same_text(key, "con") {
                let g = if same_text(key, "seq") {
                    Group::Sequence
                } else if same_text(key, "alt") {
                    Group::Alternative
                } else {
                    Group::Concurrent
                };
                let i = if same_text(key, "seq") {
                    entry_index_exec(p, "seq")
                } else if same_text(key, "alt") {
                    entry_index_exec(p, "alt")
                } else {
                    entry_index_exec(p, "con")
                };
                match &p[i].1 {
                    Node::List(s) => convert_group_exec(g, s, d, m, seed),
                    _ => Err(Error::Malformed),
                }
            } else if same_text(key, "cond") {
                let j = entry_index_exec(p, "cont");
                if ci >= p.len() || j >= p.len() {
                    return Err(Error::Malformed);
                }
                let c = match &p[ci].1 {
                    Node::Text(c) => c,
                    _ => {
                        return Err(Error::Malformed);
                    },
                };
                let (g, _) = match Gate::from(c.as_str(), d, m, seed) {
                    Ok(x) => x,
                    Err(e) => {
                        return Err(e);
                    },
                };
                if same_text(&g.text, "1") {
                    convert_node(&p[j].1, d, m, seed)
                } else {
                    let (e, _, _) = match convert_node(&p[j].1, d, m, seed) {
                        Ok(x) => x,
                        Err(e) => {
                            return Err(e);
                        },
                    };
                    let empty = Gate::new();
                    assert(empty@.text =~= Seq::<char>::empty());
                    assert(empty@.follow =~= Seq::<char>::empty());
                    assert(empty@.note =~= Seq::<char>::empty());
                    assert(empty@ == empty_gate());
                    let none: Vec<Gate> = Vec::new();
                    assert(gates_of(none@) =~= Seq::<GateView>::empty());
                    let leaf = PassageElem::Passage(Passage { previous_bad: e.text(), text: empty, post_bad: none });
                    Ok((leaf, d.copy(), m.copy()))
                }
            } else {
                Err(Error::Malformed)
            }
        },
        _ => Err(Error::Malformed),
    }
}

fn convert_group_exec(g: Group, s: &Vec<Node>, d: &Dictionary, m: &Macros, seed: &mut u64) -> (r: Result<(PassageElem, Dictionary, Macros), Error>)
    ensures
        ({
            let (o, sd) = convert_group(g, nodes_of(s@), d@, state_of(m), *old(seed));
            &&& *final(seed) == sd
            &&& matches_converted(r, o)
        }),
    decreases s, 1nat,
{
    match convert_items_exec(g, s, d, m, seed) {
        Err(e) => Err(e),
        Ok((es, d1, m1)) => {
            let e = match g {
                Group::Sequence => PassageElem::Sequence(es),
                Group::Concurrent => PassageElem::Concurrent(es),
                Group::Alternative => PassageElem::Alternative(es),
            };
            Ok((e, d1, m1))
        },
    }
}

fn add_definitions(m: &mut Macros, defs: &Vec<(String, String)>)
    ensures
        final(m).table() == old(m).table() + defs@.map_values(|q: (String, String)| (q.0@, q.1@)),
        final(m).path_list() == old(m).path_list(),
{
    let ghost dv = defs@.map_values(|q: (String, String)| (q.0@, q.1@));
    let mut i: usize = 0;
    assert(old(m).table() + dv.subrange(0, 0) =~= old(m).table());
    while i < defs.len()
        invariant
            i <= defs@.len(),
            dv == defs@.map_values(|q: (String, String)| (q.0@, q.1@)),
            m.table() == old(m).table() + dv.subrange(0, i as int),
            m.path_list() == old(m).path_list(),
        decreases defs@.len() - i,
    {
        m.insert(defs[i].0.clone(), defs[i].1.clone());
        i = i + 1;
        assert(m.table() =~= old(m).table() + dv.subrange(0, i as int));
    }
    assert(dv.subrange(0, defs@.len() as int) =~= dv);
}

pub open spec fn items_view(r: Result<(Vec<PassageElem>, Dictionary, Macros), Error>) -> Result<(Seq<ElemView>, Bindings, MacroState), Error> {
    match r {
        Ok((es, d, m)) => Ok((elems_of(es@), d@, state_of(&m))),
        Err(e) => Err(e),
    }
}

fn convert_items_exec(g: Group, s: &Vec<Node>, d0: &Dictionary, m: &Macros, seed: &mut u64) -> (r: Result<(Vec<PassageElem>, Dictionary, Macros), Error>)
    ensures
        (items_view(r), *final(seed)) == convert_items(g, nodes_of(s@), d0@, state_of(m), *old(seed)),
    decreases s, 0nat,
{
    let ghost v = nodes_of(s@);
    proof {
        lemma_nodes_of(s@);
        assert(v.subrange(0, 0) =~= Seq::<NodeView>::empty());
    }
    let none: Vec<PassageElem> = Vec::new();
    assert(elems_of(none@) =~= Seq::<ElemView>::empty());
    let mut acc: Result<(Vec<PassageElem>, Dictionary, Macros), Error> = Ok((none, d0.copy(), m.copy()));
    let mut i: usize = 0;
    while i < s.len()
        invariant
            i <= s@.len(),
            v == nodes_of(s@),
            v.len() == s@.len(),
            forall|j: int| 0 <= j < s@.len() ==> #[trigger] v[j] == node_of(s@[j]),
            (items_view(acc), *seed) == convert_items(g, v.subrange(0, i as int), d0@, state_of(m), *old(seed)),
        decreases s@.len() - i,
    {
        let ghost p = v.subrange(0, i + 1);
        assert(p.subrange(0, p.len() - 1) =~= v.subrange(0, i as int));
        assert(p[p.len() - 1] == v[i as int]);
        let x = &s[i];
        acc = match acc {
            Err(e) => Err(e),
            Ok((mut es, d, mut mm)) => {
                let dirs = if g == Group::Sequence { paths_directive_exec(x) } else { None };
                let defs = if g == Group::Sequence && dirs.is_none() { macros_directive_exec(x) } else { None };
                if let Some(paths) = dirs {
                    mm.add_paths(paths);
                    Ok((es, d, mm))
                } else if let Some(defs) = defs {
                    add_definitions(&mut mm, defs);
                    Ok((es, d, mm))
                } else {
                    let start = if g == Group::Sequence { &d } else { d0 };
                    match convert_node(x, start, &mm, seed) {
                        Err(e) => Err(e),
                        Ok((e, d2, m2)) => {
                            let ghost e0 = es@;
                            es.push(e);
                            proof {
                                assert(es@.subrange(0, es@.len() - 1) =~= e0);
                            }
                            let dn = match g {
                                Group::Sequence => d2,
                                Group::Alternative => d2,
                                Group::Concurrent => {
                                    let mut dd = d;
                                    dd.extend(&d2);
                                    dd
                                },
                            };
                            Ok((es, dn, m2))
                        },
                    }
                }
            },
        };
        i = i + 1;
    }
    assert(v.subrange(0, s@.len() as int) =~= v);
    acc
}

impl PassageTree {
    /// The trees of the document `n`: it is converted from the bindings of
    /// `dictionary` and the macros of `macros`, then expanded.
    pub fn from_node(n: &Node, dictionary: &Dictionary, macros: &Macros, seed: &mut u64) -> (r: Result<Vec<PassageTree>, Error>)
        ensures
            ({
                let (o, s) = convert(n@, dictionary@, state_of(macros), *old(seed));
                &&& *final(seed) == s
                &&& match o {
                    Ok((e, _, _)) => if elem_wf(e) {
                        r matches Ok(v) && trees_of(v@) == expand(e)
                    } else {
                        r == Err::<Vec<PassageTree>, Error>(Error::Malformed)
                    },
                    Err(x) => r == Err::<Vec<PassageTree>, Error>(x),
                }
            }),
    {
        match convert_node(n, dictionary, macros, seed) {
            Err(e) => Err(e),
            Ok((e, _, _)) => PassageTree::from(&e),
        }
    }
}

impl Exercise {
    /// The exercise of `title` whose passages the document `passages`
    /// describes, with no variables bound yet; it must unfold to exactly one
    /// tree.
    pub fn from_document(title: String, passages: &Node, macros: &Macros, seed: &mut u64) -> (r: Result<Exercise, Error>)
        ensures
            ({
                let (o, s) = convert(passages@, Seq::empty(), state_of(macros), *old(seed));
                &&& *final(seed) == s
                &&& match o {
                    Ok((e, _, _)) => match r {
                        Ok(x) => elem_wf(e) && expand(e).len() == 1 && x.passage_tree@ == expand(e)[0] && x.title@ == title@,
                        Err(x) => x == Error::Malformed && !(elem_wf(e) && expand(e).len() == 1),
                    },
                    Err(x) => r matches Err(y) && y == x,
                }
            }),
    {
        let d = Dictionary::new();
        match convert_node(passages, &d, macros, seed) {
            Err(e) => Err(e),
            Ok((e, _, _)) => Exercise::build(title, &e),
        }
    }
}

} // verus!
