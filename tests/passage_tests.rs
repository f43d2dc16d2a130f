use std::collections::BTreeSet;

use twine_problems::error::Error;
use twine_problems::macros::locate_file;
use twine_problems::passage::{choice_prompt, Exercise, Gate, Passage, PassageElem, PassageTitle, PassageTree};

fn leaf(text: &str) -> PassageElem {
    PassageElem::Passage(Passage {
        previous_bad: vec![],
        text: Gate { text: text.to_string(), follow: String::new(), note: String::new() },
        post_bad: vec![],
    })
}

fn label(t: &PassageTree) -> String {
    t.0.text.text.clone()
}

fn paths(forest: &[PassageTree]) -> Vec<Vec<String>> {
    let mut out = vec![];
    for t in forest {
        if t.1.is_empty() {
            out.push(vec![label(t)]);
        } else {
            for mut p in paths(&t.1) {
                p.insert(0, label(t));
                out.push(p);
            }
        }
    }
    out
}

#[test]
fn two_concurrent_passages_give_both_orders() {
    let forest = PassageTree::from(&PassageElem::Concurrent(vec![leaf("A"), leaf("B")])).unwrap();
    assert_eq!(forest.len(), 2);
    assert_eq!(paths(&forest), vec![vec!["A", "B"], vec!["B", "A"]]);
    assert_eq!(forest[0].1.len(), 1);
    assert!(forest[0].1[0].1.is_empty());
}

#[test]
fn sequence_grafts_onto_every_end() {
    let seq_of_two = PassageElem::Sequence(vec![leaf("A"), leaf("B")]);
    let doc = PassageElem::Sequence(vec![seq_of_two, leaf("C")]);
    let forest = PassageTree::from(&doc).unwrap();
    assert_eq!(paths(&forest), vec![vec!["A", "B", "C"]]);

    let branching = PassageElem::Sequence(vec![
        leaf("S"),
        PassageElem::Alternative(vec![leaf("X"), leaf("Y")]),
        leaf("E"),
    ]);
    let forest = PassageTree::from(&branching).unwrap();
    assert_eq!(paths(&forest), vec![vec!["S", "X", "E"], vec!["S", "Y", "E"]]);
}

#[test]
fn alternative_at_top_is_refused() {
    let doc = PassageElem::Alternative(vec![leaf("A"), leaf("B")]);
    assert_eq!(PassageTree::from(&doc).unwrap().len(), 2);
    assert_eq!(Exercise::build("T".to_string(), &doc).err(), Some(Error::Malformed));
    let ok = Exercise::build("T".to_string(), &PassageElem::Sequence(vec![leaf("A"), leaf("B")])).unwrap();
    assert_eq!(ok.title, "T");
    assert_eq!(label(&ok.passage_tree), "A");
}

#[test]
fn three_concurrent_passages_give_six_orders() {
    let doc = PassageElem::Concurrent(vec![leaf("A"), leaf("B"), leaf("C")]);
    let forest = PassageTree::from(&doc).unwrap();
    let all = paths(&forest);
    assert_eq!(all.len(), 6);
    let distinct: BTreeSet<Vec<String>> = all.iter().cloned().collect();
    assert_eq!(distinct.len(), 6);
    for p in &all {
        let mut sorted = p.clone();
        sorted.sort();
        assert_eq!(sorted, vec!["A", "B", "C"]);
    }
    assert_eq!(Exercise::build("T".to_string(), &doc).err(), Some(Error::Malformed));
}

#[test]
fn empty_groups_are_malformed() {
    assert_eq!(PassageTree::from(&PassageElem::Concurrent(vec![])).err(), Some(Error::Malformed));
    assert_eq!(PassageTree::from(&PassageElem::Sequence(vec![leaf("A"), PassageElem::Sequence(vec![])])).err(), Some(Error::Malformed));
}

#[test]
fn passage_titles() {
    let mut t = PassageTitle::new();
    assert_eq!(t.name(), "Start");
    t.add_level();
    assert_eq!(t.name(), "Chapter-1");
    t.inc();
    assert_eq!(t.name(), "Chapter-2");
    t.add_level();
    t.inc();
    t.inc();
    assert_eq!(t.name(), "Chapter-2-3");
}

#[test]
fn files_are_looked_up_in_order() {
    let paths = vec!["/a".to_string(), "/b/".to_string(), "".to_string()];
    let found = locate_file("x.yaml", &paths, |p: &String| p == "/b/x.yaml" || p == "x.yaml");
    assert_eq!(found.unwrap(), "/b/x.yaml");
    let abs = locate_file("/x.yaml", &paths, |p: &String| p == "/x.yaml");
    assert_eq!(abs.unwrap(), "/x.yaml");
    assert_eq!(locate_file("y.yaml", &paths, |_p: &String| false).err(), Some(Error::NotFound));
}

#[test]
fn choices_list_wrong_ones_first() {
    let gate = |t: &str, n: &str| Gate { text: t.to_string(), follow: String::new(), note: n.to_string() };
    let node = |t: &str, n: &str, pre: Vec<Gate>, kids: Vec<PassageTree>| {
        PassageTree(Passage { previous_bad: pre, text: gate(t, n), post_bad: vec![] }, kids)
    };
    let mut root = node("R", "", vec![], vec![
        node("A", "why", vec![gate("wrong A", "")], vec![]),
        node("", "", vec![], vec![]),
        node("B", "", vec![], vec![]),
    ]);
    root.0.post_bad.push(gate("wrong R", ""));
    let plan = root.choices();
    let summary: Vec<(String, bool, usize, usize, usize)> = plan
        .iter()
        .map(|c| (c.gate.text.clone(), c.wrong, c.link, c.child, c.child_link))
        .collect();
    assert_eq!(
        summary,
        vec![
            ("wrong R".to_string(), true, 0, 0, 0),
            ("wrong A".to_string(), true, 1, 0, 1),
            ("A".to_string(), false, 2, 0, 3),
            ("B".to_string(), false, 4, 2, 4),
        ]
    );
}

#[test]
fn empty_alternatives_give_no_tree() {
    let forest = PassageTree::from(&PassageElem::Alternative(vec![])).unwrap();
    assert_eq!(forest.len(), 0);
    assert_eq!(Exercise::build("T".to_string(), &PassageElem::Alternative(vec![])).err(), Some(Error::Malformed));
    let doc = PassageElem::Alternative(vec![PassageElem::Alternative(vec![]), leaf("A")]);
    let forest = PassageTree::from(&doc).unwrap();
    assert_eq!(paths(&forest), vec![vec!["A"]]);
    let seq = PassageElem::Sequence(vec![leaf("S"), PassageElem::Alternative(vec![]), leaf("E")]);
    assert_eq!(paths(&PassageTree::from(&seq).unwrap()), vec![vec!["S", "E"]]);
}

#[test]
fn titles_and_prompts_for_rendering() {
    let mut t = PassageTitle::new();
    t.add_level();
    assert_eq!(t.title_at(4).name(), "Chapter-5");
    assert_eq!(choice_prompt(1), "Marque la opción indicada para continuar");
    assert_eq!(choice_prompt(3), "Marque una opción que considere correcta (puede haber más de una)");
    let end = PassageTree::from(&leaf("A")).unwrap();
    assert_eq!(end[0].ending(), Some(("Este es el final del problema. Volver al inicio", "Start")));
    let more = PassageTree::from(&PassageElem::Sequence(vec![leaf("A"), leaf("B")])).unwrap();
    assert_eq!(more[0].ending(), None);
}

#[test]
fn first_directory_with_the_file_wins() {
    let paths = vec!["/a".to_string(), "/b".to_string()];
    let found = locate_file("x.yaml", &paths, |p: &String| p.ends_with("x.yaml"));
    assert_eq!(found.unwrap(), "/a/x.yaml");
}
