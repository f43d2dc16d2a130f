use twine_problems::error::Error;
use twine_problems::evaluation::Dictionary;
use twine_problems::expression::{combine, div_expression, neg_expression, prod_expression, Chain, Expression};
use twine_problems::macros::Macros;
use twine_problems::magnitude::Magnitude;

fn eval(text: &str) -> Result<Magnitude, Error> {
    let e = Expression::from(text, &Macros::new())?;
    let mut seed: u64 = 7;
    e.value(&Dictionary::new(), &mut seed)
}

fn mag(num: u64, den: u64, unit: &str) -> Magnitude {
    Magnitude { negative: false, num, den, unit: unit.to_string() }
}

fn same_value(m: &Magnitude, negative: bool, num: u64, den: u64) -> bool {
    m.negative == negative && m.num == num && m.den == den
}

#[test]
fn sum_of_two_numbers() {
    let m = eval("2 3 +").unwrap();
    assert!(same_value(&m, false, 5, 1));
    assert_eq!(m.unit, "");
}

#[test]
fn prefix_is_folded_into_value() {
    let m = Magnitude::get("1kohm").unwrap();
    assert!(same_value(&m, false, 1000, 1));
    assert_eq!(m.unit, "ohm");
}

#[test]
fn prefix_alone_is_a_unit() {
    let m = Magnitude::get("5m").unwrap();
    assert!(same_value(&m, false, 5, 1));
    assert_eq!(m.unit, "m");
    let m = Magnitude::get("5mA").unwrap();
    assert!(same_value(&m, false, 1, 200));
    assert_eq!(m.unit, "A");
}

#[test]
fn numeral_forms() {
    let m = Magnitude::get("-1.25e2V").unwrap();
    assert!(same_value(&m, true, 125, 1));
    assert_eq!(m.unit, "V");
    let m = Magnitude::get("3_300").unwrap();
    assert!(same_value(&m, false, 3300, 1));
    assert!(Magnitude::get("ohm").is_none());
    assert!(Magnitude::get("+").is_none());
    let m = Magnitude::get("2eV").unwrap();
    assert!(same_value(&m, false, 2, 1));
    assert_eq!(m.unit, "eV");
}

#[test]
fn division_then_product_gives_back_the_dividend() {
    let a = mag(7, 1, "V");
    let b = mag(3, 1, "V");
    let q = div_expression(Expression::Magnitude(a.clone()), Expression::Magnitude(b.clone()));
    let p = prod_expression(q, Expression::Magnitude(b));
    let mut seed: u64 = 1;
    let m = p.value(&Dictionary::new(), &mut seed).unwrap();
    assert!(same_value(&m, false, 7, 1));
    let m = eval("7 3 / 3 *").unwrap();
    assert!(same_value(&m, false, 7, 1));
}

#[test]
fn division_of_fractions() {
    let m = eval("1 3 / 1 6 / /").unwrap();
    assert!(same_value(&m, false, 2, 1));
    assert_eq!(eval("1 0 /").unwrap_err(), Error::DivisionByZero);
}

#[test]
fn negative_literal_and_double_negation() {
    let e = Expression::from("-3", &Macros::new()).unwrap();
    assert!(matches!(e, Expression::Neg(_)));
    let twice = neg_expression(neg_expression(Expression::from("x y +", &Macros::new()).unwrap()));
    assert_eq!(format!("{:?}", twice), format!("{:?}", Expression::from("x y +", &Macros::new()).unwrap()));
    let m = eval("5 neg neg").unwrap();
    assert!(same_value(&m, false, 5, 1));
}

#[test]
fn sums_are_flattened() {
    let ab = Expression::from("a b +", &Macros::new()).unwrap();
    let abc = combine(Chain::Add, ab, Expression::Variable("c".to_string()));
    match abc {
        Expression::Add(items) => assert_eq!(items.len(), 3),
        _ => panic!("not a sum"),
    }
    let e = Expression::from("a b + c d + +", &Macros::new()).unwrap();
    match e {
        Expression::Add(items) => assert_eq!(items.len(), 4),
        _ => panic!("not a sum"),
    }
}

#[test]
fn difference_negates_the_subtrahend() {
    let m = eval("10 4 -").unwrap();
    assert!(same_value(&m, false, 6, 1));
    let m = eval("4 10 -").unwrap();
    assert!(same_value(&m, true, 6, 1));
}

#[test]
fn units_must_agree_in_a_sum() {
    assert_eq!(eval("2V 3A +").unwrap_err(), Error::UnitMismatch);
    let m = eval("2V 3V +").unwrap();
    assert!(same_value(&m, false, 5, 1));
    assert_eq!(m.unit, "V");
    assert_eq!(eval("2V 3 +").unwrap_err(), Error::UnitMismatch);
    let m = eval("2V 3 2 * +").unwrap();
    assert_eq!(m.unit, "V");
}

#[test]
fn declared_unit_is_checked() {
    assert_eq!(eval("2V A :").unwrap_err(), Error::UnitMismatch);
    let m = eval("2V V :").unwrap();
    assert_eq!(m.unit, "V");
    let m = eval("2 ::").unwrap();
    assert_eq!(m.unit, "");
    assert_eq!(eval("2 V :").unwrap_err(), Error::UnitMismatch);
    let m = eval("2 3 * V :").unwrap();
    assert_eq!(m.unit, "V");
}

#[test]
fn products_forget_units() {
    let m = eval("2V 3A *").unwrap();
    assert!(same_value(&m, false, 6, 1));
    assert_eq!(m.unit, "¿?");
}

#[test]
fn comparisons() {
    assert!(same_value(&eval("1 2 <").unwrap(), false, 1, 1));
    assert!(same_value(&eval("2 1 <").unwrap(), false, 0, 1));
    assert!(same_value(&eval("1 2 < 3 <").unwrap(), false, 1, 1));
    assert!(same_value(&eval("2 2 ==").unwrap(), false, 1, 1));
    assert!(same_value(&eval("2 3 !=").unwrap(), false, 1, 1));
    assert!(same_value(&eval("3 3 >=").unwrap(), false, 1, 1));
    assert_eq!(eval("1V 2A <").unwrap_err(), Error::UnitMismatch);
    assert_eq!(eval("1 2 <").unwrap().unit, "bool");
}

#[test]
fn logic() {
    assert!(same_value(&eval("1 2 < 2 1 < or").unwrap(), false, 1, 1));
    assert!(same_value(&eval("1 2 < 2 1 < and").unwrap(), false, 0, 1));
    assert!(same_value(&eval("2 1 < not").unwrap(), false, 1, 1));
}

#[test]
fn square_root() {
    assert!(same_value(&eval("16 sqrt").unwrap(), false, 4, 1));
    let m = eval("2 sqrt").unwrap();
    let v = m.num as f64 / m.den as f64;
    assert!((v - 2f64.sqrt()).abs() <= 1e-9 * 2f64.sqrt());
    let tiny = Magnitude { negative: false, num: 1, den: 1_000_000_000_000_000, unit: String::new() };
    let r = tiny.sqrt_value("¿?".to_string()).unwrap();
    let v = r.num as f64 / r.den as f64;
    let exact = 1e-15f64.sqrt();
    assert!(v > 0.0 && (v - exact).abs() <= 1e-9 * exact);
    assert_eq!(eval("4 neg sqrt").unwrap_err(), Error::NegativeRoot);
}

#[test]
fn random_values_stay_in_range_and_follow_the_seed() {
    let e = Expression::from("1 2 rand", &Macros::new()).unwrap();
    let d = Dictionary::new();
    let mut s1: u64 = 42;
    let mut s2: u64 = 42;
    let a = e.value(&d, &mut s1).unwrap();
    let b = e.value(&d, &mut s2).unwrap();
    assert!(same_value(&a, b.negative, b.num, b.den));
    assert_eq!(s1, 43);
    assert!(a.num >= a.den && a.num < 2 * a.den);
    assert!(a.num != a.den);
    assert_eq!(Expression::from("1V 2A rand", &Macros::new()).unwrap().value(&d, &mut s1).unwrap_err(), Error::UnitMismatch);
}

#[test]
fn macros_expand_in_place() {
    let mut m = Macros::new();
    m.insert("double".to_string(), "2 *".to_string());
    m.insert("parallel".to_string(), " ohm : R2 !  ohm : R1 ! R1 @ R2 @ * R1 @ R2 @ + / ohm : ".to_string());
    let e = Expression::from("3 double", &m).unwrap();
    let mut seed: u64 = 0;
    assert!(same_value(&e.value(&Dictionary::new(), &mut seed).unwrap(), false, 6, 1));
    let e = Expression::from("6ohm 3ohm parallel", &m).unwrap();
    let v = e.value(&Dictionary::new(), &mut seed).unwrap();
    assert!(same_value(&v, false, 2, 1));
    assert_eq!(v.unit, "ohm");
}

#[test]
fn macro_cycle_is_reported() {
    let mut m = Macros::new();
    m.insert("loop".to_string(), "1 loop".to_string());
    assert_eq!(Expression::from("loop", &m).unwrap_err(), Error::MacroCycle);
}

#[test]
fn stack_must_hold_one_value() {
    assert_eq!(Expression::from("2 3", &Macros::new()).unwrap_err(), Error::StackImbalance);
    assert_eq!(Expression::from("", &Macros::new()).unwrap_err(), Error::StackImbalance);
    assert_eq!(Expression::from("2 +", &Macros::new()).unwrap_err(), Error::StackImbalance);
}

#[test]
fn local_variables() {
    let m = eval("5 x ! x @ x @ +").unwrap();
    assert!(same_value(&m, false, 10, 1));
    assert_eq!(Expression::from("x @", &Macros::new()).unwrap_err(), Error::UnboundReference);
    assert_eq!(Expression::from("5 3 !", &Macros::new()).unwrap_err(), Error::NotAName);
}

#[test]
fn variables_read_the_dictionary() {
    let mut d = Dictionary::new();
    let mut seed: u64 = 3;
    d.bind("R".to_string(), Expression::from("2kohm", &Macros::new()).unwrap(), &mut seed).unwrap();
    let e = Expression::from("R 2 *", &Macros::new()).unwrap();
    assert!(same_value(&e.value(&d, &mut seed).unwrap(), false, 4000, 1));
    assert_eq!(Expression::from("Q", &Macros::new()).unwrap().value(&d, &mut seed).unwrap_err(), Error::UnboundReference);
    d.bind("x".to_string(), Expression::from("x 1 +", &Macros::new()).unwrap(), &mut seed).unwrap();
    assert_eq!(Expression::from("x", &Macros::new()).unwrap().value(&d, &mut seed).unwrap_err(), Error::CyclicReference);
}

#[test]
fn rebinding_to_the_same_value_succeeds() {
    let mut d = Dictionary::new();
    let mut seed: u64 = 0;
    let five = || Expression::from("5V", &Macros::new()).unwrap();
    assert!(d.bind("v".to_string(), five(), &mut seed).is_ok());
    assert!(d.bind("v".to_string(), five(), &mut seed).is_ok());
    assert_eq!(d.entries.len(), 1);
    assert!(d.bind("v".to_string(), Expression::from("5.000001V", &Macros::new()).unwrap(), &mut seed).is_ok());
}

#[test]
fn rebinding_to_another_value_conflicts() {
    let mut d = Dictionary::new();
    let mut seed: u64 = 0;
    d.bind("v".to_string(), Expression::from("5V", &Macros::new()).unwrap(), &mut seed).unwrap();
    assert_eq!(d.bind("v".to_string(), Expression::from("6V", &Macros::new()).unwrap(), &mut seed).unwrap_err(), Error::BindingConflict);
    assert_eq!(d.bind("v".to_string(), Expression::from("5A", &Macros::new()).unwrap(), &mut seed).unwrap_err(), Error::BindingConflict);
}

#[test]
fn unit_compatibility() {
    let u = mag(1, 1, "¿?");
    let v = mag(1, 1, "V");
    let a = mag(1, 1, "A");
    assert_eq!(u.compatible_unit(&v), Some("V".to_string()));
    assert_eq!(v.compatible_unit(&u), Some("V".to_string()));
    assert_eq!(v.compatible_unit(&v), Some("V".to_string()));
    assert_eq!(v.compatible_unit(&a), None);
    assert_eq!(a.compatible_unit(&v), None);
    assert_eq!(u.compatible_unit_str("ohm"), Some("ohm".to_string()));
    assert_eq!(v.compatible_unit_str("¿?"), Some("V".to_string()));
}

#[test]
fn overflow_is_reported() {
    assert_eq!(eval("9000000000000000000 9000000000000000000 *").unwrap_err(), Error::Overflow);
}

#[test]
fn numerals_too_large_are_overflow() {
    assert_eq!(Expression::from("1e19 2 +", &Macros::new()).unwrap_err(), Error::Overflow);
    assert_eq!(Expression::from("99999999999999999999", &Macros::new()).unwrap_err(), Error::Overflow);
}

#[test]
fn unequal_chains() {
    assert!(same_value(&eval("1 2 != 3 !=").unwrap(), false, 1, 1));
    assert!(same_value(&eval("1 2 != 2 !=").unwrap(), false, 0, 1));
    match Expression::from("a b != c !=", &Macros::new()).unwrap() {
        Expression::Neq(items) => assert_eq!(items.len(), 3),
        _ => panic!("not a chain"),
    }
}

#[test]
fn division_identity_with_negative_literals() {
    let m = eval("-7 3 / 3 *").unwrap();
    assert!(same_value(&m, true, 7, 1));
    let m = eval("2.5V -0.5V / -0.5V *").unwrap();
    assert!(same_value(&m, false, 5, 2));
}
