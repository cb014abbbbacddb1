use lib::ae::{interp, parse, parse_checked, s_index, subst_index, substring, try_subst_index, AE};
use lib::num::Num;

fn eval(n: &Num) -> f32 {
    match n {
        Num::Lit(s) => s.trim().parse::<f32>().unwrap(),
        Num::Plus(a, b) => eval(a) + eval(b),
        Num::Minus(a, b) => eval(a) - eval(b),
    }
}

fn start() -> s_index {
    s_index { lhs_start: 0, lhs_end: 0, rhs_start: 0, rhs_end: 0, oper: ' ' }
}

fn lit(e: &AE) -> &str {
    match e {
        AE::num(s) => s.as_str(),
        _ => panic!("not a number"),
    }
}

#[test]
fn ae_scan_finds_operands_of_sum() {
    let s = String::from("{+ 1 2}");
    let mut ind = start();
    subst_index(&s, &mut ind);
    assert_eq!((ind.lhs_start, ind.lhs_end, ind.rhs_start, ind.rhs_end, ind.oper), (3, 3, 5, 5, '+'));
}

#[test]
fn ae_scan_finds_nested_right_operand() {
    let s = String::from("{- 10 {+ 1 2}}");
    let mut ind = start();
    subst_index(&s, &mut ind);
    assert_eq!((ind.lhs_start, ind.lhs_end, ind.rhs_start, ind.rhs_end, ind.oper), (3, 4, 6, 12, '-'));
}

#[test]
fn ae_scan_takes_minus_sign_into_number() {
    let s = String::from("{+ -1 2}");
    let mut ind = start();
    subst_index(&s, &mut ind);
    assert_eq!((ind.lhs_start, ind.lhs_end), (3, 4));
}

#[test]
fn ae_scan_refuses_minus_before_number_at_start() {
    let s = String::from("1-2");
    let mut ind = start();
    assert!(!try_subst_index(&s, &mut ind));
    assert!(parse_checked(s).is_none());
}

#[test]
fn ae_substring_cuts_operands() {
    let s = String::from("{- 10 {+ 1 2}}");
    let mut ind = s_index { lhs_start: 3, lhs_end: 4, rhs_start: 6, rhs_end: 12, oper: '-' };
    let (l, r) = substring(&mut ind, &s);
    assert_eq!(l, "10");
    assert_eq!(r, "{+ 1 2}");
    assert_eq!(ind.oper, '-');
}

#[test]
fn ae_substring_without_right_operand_clears_operator() {
    let s = String::from("7");
    let mut ind = s_index { lhs_start: 0, lhs_end: 0, rhs_start: 0, rhs_end: 0, oper: '+' };
    let (l, r) = substring(&mut ind, &s);
    assert_eq!(l, "7");
    assert_eq!(r, "7");
    assert_eq!(ind.oper, ' ');
}

#[test]
fn ae_parse_number() {
    let e = parse(String::from("3\n"));
    assert_eq!(lit(&e), "3");
    assert_eq!(eval(&interp(e)), 3.0);
}

#[test]
fn ae_parse_and_interp_sum() {
    let e = parse(String::from("{+ 1 2}"));
    match &e {
        AE::Add(l, r) => {
            assert_eq!(lit(l), "1");
            assert_eq!(lit(r), "2");
        },
        _ => panic!("expected a sum"),
    }
    assert_eq!(eval(&interp(e)), 3.0);
}

#[test]
fn ae_parse_and_interp_nested() {
    let e = parse(String::from("{- 10 {+ 1 2}}\n"));
    assert_eq!(eval(&interp(e)), 7.0);
    let e = parse(String::from("{+ {- 2.5 1} -3}"));
    assert_eq!(eval(&interp(e)), -1.5);
}

#[test]
fn ae_interp_builds_terms() {
    let e = AE::Sub(Box::new(AE::num(String::from("4"))), Box::new(AE::num(String::from("1"))));
    match interp(e) {
        Num::Minus(a, b) => {
            assert!(matches!(*a, Num::Lit(ref s) if s == "4"));
            assert!(matches!(*b, Num::Lit(ref s) if s == "1"));
        },
        _ => panic!("expected a difference"),
    }
}

#[test]
fn ae_parse_refuses_unclosed_operand() {
    assert!(parse_checked(String::from("{+ 1 {2")).is_none());
}

#[test]
fn ae_parse_refuses_cut_inside_character() {
    assert!(parse_checked(String::from("é")).is_none());
}

#[test]
fn ae_parse_unknown_operator_leaves_a_number() {
    // `*` is no operator: the form stays a number, the left operand.
    let e = parse(String::from("{* 1 2}"));
    assert_eq!(lit(&e), "1");
    // With no operator and no right operand the whole bracket is the literal.
    let e = parse(String::from("{{+ 1 2}}"));
    assert_eq!(lit(&e), "{+ 1 2}");
}

fn shape(e: &AE) -> String {
    match e {
        AE::num(s) => s.clone(),
        AE::Add(l, r) => format!("(+ {} {})", shape(l), shape(r)),
        AE::Sub(l, r) => format!("(- {} {})", shape(l), shape(r)),
    }
}

#[test]
fn ae_parse_text_gives_tree_back_with_or_without_newline() {
    for src in ["-2.5", "{+ 1 2}", "{- {+ 1 -2} {- 3 .5}}", "{+ {+ {+ 1 2} 3} 4}"] {
        let a = parse(String::from(src));
        let b = parse(format!("{}\n", src));
        assert_eq!(shape(&a), shape(&b));
    }
    assert_eq!(shape(&parse(String::from("{- {+ 1 -2} {- 3 .5}}"))), "(- (+ 1 -2) (- 3 .5))");
}
