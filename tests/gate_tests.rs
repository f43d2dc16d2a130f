use twine_problems::document::Node;
use twine_problems::error::Error;
use twine_problems::evaluation::Dictionary;
use twine_problems::expression::Expression;
use twine_problems::gate::{decode_line, encode_line, process_line};
use twine_problems::macros::Macros;
use twine_problems::magnitude::Magnitude;
use twine_problems::macros::check_input_file;
use twine_problems::passage::{Exercise, Gate, PassageTree};

fn chars(s: &str) -> Vec<char> {
    s.chars().collect()
}

fn text(v: &[char]) -> String {
    v.iter().collect()
}

fn line(s: &str, d: &mut Dictionary) -> Result<String, Error> {
    let mut seed: u64 = 11;
    process_line(&chars(s), d, &Macros::new(), &mut seed).map(|v| text(&v))
}

fn mag(negative: bool, num: u64, den: u64, unit: &str) -> Magnitude {
    Magnitude { negative, num, den, unit: unit.to_string() }
}

#[test]
fn magnitudes_are_shown_with_a_prefix() {
    assert_eq!(mag(false, 1000, 1, "ohm").show(), "1\\mathrm{k\\Omega}");
    assert_eq!(mag(false, 5, 1, "").show(), "5");
    assert_eq!(mag(false, 1, 200, "A").show(), "5\\mathrm{mA}");
    assert_eq!(mag(true, 1234567, 1000, "V").show(), "-1.23\\mathrm{kV}");
    assert_eq!(mag(false, 5, 2, "").show(), "2.5");
    assert_eq!(mag(false, 0, 1, "V").show(), "0\\mathrm{V}");
}

#[test]
fn formulas_are_shown_in_latex() {
    let e = Expression::from("a b c * +", &Macros::new()).unwrap();
    assert_eq!(e.show(), "a + ( b \\cdot c )");
    let e = Expression::from("a b -", &Macros::new()).unwrap();
    assert_eq!(e.show(), "a( -b )");
    let e = Expression::from("a b /", &Macros::new()).unwrap();
    assert_eq!(e.show(), " \\frac{a}{b} ");
    let e = Expression::from("x sqrt", &Macros::new()).unwrap();
    assert_eq!(e.show(), "\\sqrt{x}");
}

#[test]
fn escapes_round_trip() {
    let s = chars("a \\{ b \\} c \\\\ d");
    let e = encode_line(&s);
    assert_eq!(text(&e), "a \\a b \\b c \\0 d");
    assert_eq!(text(&decode_line(&e)), "a { b } c \\ d");
}

#[test]
fn interpolation_modes() {
    let mut d = Dictionary::new();
    assert_eq!(line("R is {{. R = 2kohm}} now", &mut d).unwrap(), "R is ((( R = 2\\mathrm{k\\Omega} ))) now");
    assert_eq!(line("{{, R 2 *}}", &mut d).unwrap(), "[[[ R \\cdot 2 ]]]");
    assert_eq!(line("x: {{; R 2 *}}", &mut d).unwrap(), "x: ((( R \\cdot 2 = 4\\mathrm{k¿?} )))");
    assert_eq!(line("{{! 1 2 <}}", &mut d).unwrap(), "1");
    assert_eq!(line("{{! 1 3 /}}", &mut d).unwrap(), "0.333333333");
    assert_eq!(line("{{! 5 2 /}}", &mut d).unwrap(), "2.5");
    assert_eq!(line("{{! 7 neg}}", &mut d).unwrap(), "-7");
    assert_eq!(line("{{, a b !=}}", &mut d).unwrap(), "[[[ a \\not= b ]]]");
    assert_eq!(line("a{{_ y = 3}}b", &mut d).unwrap(), "ab");
    assert_eq!(line("plain text", &mut d).unwrap(), "plain text");
    assert_eq!(line("{{. 1 2}}", &mut d).unwrap_err(), Error::StackImbalance);
    assert_eq!(line("{{. R = 3kohm}}", &mut d).unwrap_err(), Error::BindingConflict);
}

#[test]
fn gates_split_into_zones() {
    let mut seed: u64 = 5;
    let (g, d) = Gate::from("first\n{{_ v = 2}}\n...then {{. v}}\n---note\n!{{raw}}", &Dictionary::new(), &Macros::new(), &mut seed).unwrap();
    assert_eq!(g.text, "first\n");
    assert_eq!(g.follow, "then ((( 2 )))");
    assert_eq!(g.note, "note\n{{raw}}");
    assert_eq!(d.entries.len(), 1);
    assert!(g.has_note());
}

fn s(x: &str) -> Node {
    Node::Text(x.to_string())
}

fn table(entries: Vec<(&str, Node)>) -> Node {
    Node::Table(entries.into_iter().map(|(k, v)| (k.to_string(), v)).collect())
}

fn pass(t: &str) -> Node {
    table(vec![("pass", table(vec![("text", s(t))]))])
}

#[test]
fn documents_become_passages() {
    let doc = table(vec![("seq", Node::List(vec![pass("A {{_ x = 1}}"), pass("B {{. x}}")]))]);
    let mut seed: u64 = 0;
    let trees = PassageTree::from_node(&doc, &Dictionary::new(), &Macros::new(), &mut seed).unwrap();
    assert_eq!(trees.len(), 1);
    assert_eq!(trees[0].0.text.text, "A ");
    assert_eq!(trees[0].1[0].0.text.text, "B ((( 1 )))");
    assert!(trees[0].1[0].is_endnode());
    assert!(!trees[0].is_endnode());
}

#[test]
fn concurrent_document_of_three() {
    let doc = table(vec![("con", Node::List(vec![pass("A"), pass("B"), pass("C")]))]);
    let mut seed: u64 = 0;
    let trees = PassageTree::from_node(&doc, &Dictionary::new(), &Macros::new(), &mut seed).unwrap();
    assert_eq!(trees.len(), 3);
    let mut count = 0;
    for t in &trees {
        for u in &t.1 {
            count += u.1.len();
        }
    }
    assert_eq!(count, 6);
    let r = Exercise::from_document("T".to_string(), &doc, &Macros::new(), &mut seed);
    assert_eq!(r.err(), Some(Error::Malformed));
}

#[test]
fn alternative_document_is_refused() {
    let doc = table(vec![("alt", Node::List(vec![pass("A"), pass("B")]))]);
    let mut seed: u64 = 0;
    assert_eq!(Exercise::from_document("T".to_string(), &doc, &Macros::new(), &mut seed).err(), Some(Error::Malformed));
}

#[test]
fn false_condition_leaves_a_dead_end() {
    let doc = Node::List(vec![
        pass("start"),
        table(vec![("cond", s("{{! 2 1 <}}")), ("cont", pass("hidden"))]),
    ]);
    let mut seed: u64 = 0;
    let x = Exercise::from_document("T".to_string(), &doc, &Macros::new(), &mut seed).unwrap();
    let next = &x.passage_tree.1[0];
    assert_eq!(next.0.text.text, "");
    assert_eq!(next.0.previous_bad.len(), 1);
    assert_eq!(next.0.previous_bad[0].text, "hidden");
    let doc = Node::List(vec![pass("start"), table(vec![("cond", s("{{! 1 2 <}}")), ("cont", pass("shown"))])]);
    let x = Exercise::from_document("T".to_string(), &doc, &Macros::new(), &mut seed).unwrap();
    assert_eq!(x.passage_tree.1[0].0.text.text, "shown");
}

#[test]
fn directives_in_sequences() {
    let doc = Node::List(vec![
        table(vec![("macros", Node::Definitions(vec![("twice".to_string(), "2 *".to_string())]))]),
        pass("{{. 3 twice}}"),
    ]);
    let mut seed: u64 = 0;
    let trees = PassageTree::from_node(&doc, &Dictionary::new(), &Macros::new(), &mut seed).unwrap();
    assert_eq!(trees[0].0.text.text, "[[[ 6\\mathrm{¿?} ]]]");
    let bad = table(vec![("what", s("x")), ("other", s("y"))]);
    assert_eq!(PassageTree::from_node(&bad, &Dictionary::new(), &Macros::new(), &mut seed).err(), Some(Error::Malformed));
    let empty_con = table(vec![("con", Node::List(vec![]))]);
    assert_eq!(PassageTree::from_node(&empty_con, &Dictionary::new(), &Macros::new(), &mut seed).err(), Some(Error::Malformed));
}

#[test]
fn new_magnitudes_fold_the_prefix() {
    let m = Magnitude::new(false, 3, 1, "kV".to_string()).unwrap();
    assert!(!m.negative && m.num == 3000 && m.den == 1);
    assert_eq!(m.unit, "V");
    let m = Magnitude::new(true, 10, 4, "mA".to_string()).unwrap();
    assert!(m.negative && m.num == 1 && m.den == 400);
    assert_eq!(m.unit, "A");
    let m = Magnitude::new(false, 2, 1, "m".to_string()).unwrap();
    assert_eq!(m.unit, "m");
    assert_eq!(Magnitude::new(false, 1, 0, "V".to_string()).unwrap_err(), Error::DivisionByZero);
}

#[test]
fn input_must_be_yaml() {
    assert!(check_input_file("dir/exercise.yaml").is_ok());
    assert!(check_input_file("exercise.yml").is_err());
    assert!(check_input_file("dir.yaml/exercise").is_err());
    assert!(check_input_file(".yaml").is_err());
}
