use lib::num::Num;
use lib::wae::{
    interp, interp_checked, parse, parse_checked, s_index, subst, subst_index, substring,
    try_subst_index, with_name_expr, AE,
};

fn eval(n: &Num) -> f32 {
    match n {
        Num::Lit(s) => s.trim().parse::<f32>().unwrap(),
        Num::Plus(a, b) => eval(a) + eval(b),
        Num::Minus(a, b) => eval(a) - eval(b),
    }
}

fn start() -> s_index {
    s_index {
        lhs_start: 0,
        lhs_end: 0,
        id_expr_start: 0,
        id_expr_end: 0,
        id: 0,
        rhs_start: 0,
        rhs_end: 0,
        oper: ' ',
    }
}

fn lit(n: f32) -> Num {
    Num::Lit(format!("{}", n))
}

fn num(s: &str) -> AE {
    AE::num(Num::Lit(String::from(s)))
}

fn id(s: &str) -> AE {
    AE::id(String::from(s))
}

#[test]
fn wae_scan_finds_parts_of_with() {
    let s = String::from("{with {x 5} {+ x x}}");
    let mut ind = start();
    subst_index(&s, &mut ind);
    assert_eq!(ind.oper, 'w');
    assert_eq!((ind.lhs_start, ind.lhs_end), (6, 10));
    assert_eq!((ind.rhs_start, ind.rhs_end), (12, 18));
    assert_eq!(ind.id, 7);
    assert_eq!((ind.id_expr_start, ind.id_expr_end), (9, 9));
}

#[test]
fn wae_scan_identifier_alone() {
    let s = String::from("y");
    let mut ind = start();
    subst_index(&s, &mut ind);
    assert_eq!((ind.id, ind.oper), (0, 'd'));
}

#[test]
fn wae_scan_refuses_keyword_cut_inside_character() {
    let s = String::from("wxyéz");
    let mut ind = start();
    assert!(!try_subst_index(&s, &mut ind));
}

#[test]
fn wae_with_name_expr_reads_whole_number() {
    let s = String::from("{with {x -12.5} x}");
    let mut ind = start();
    ind.oper = 'w';
    with_name_expr(&s, &mut ind, 10);
    assert_eq!((ind.id_expr_start, ind.id_expr_end), (9, 13));
    // Once recorded, a second number leaves it alone.
    with_name_expr(&s, &mut ind, 12);
    assert_eq!((ind.id_expr_start, ind.id_expr_end), (9, 13));
}

#[test]
fn wae_with_name_expr_needs_with() {
    let s = String::from("{+ 1 2}");
    let mut ind = start();
    ind.oper = '+';
    with_name_expr(&s, &mut ind, 3);
    assert_eq!((ind.id_expr_start, ind.id_expr_end), (0, 0));
}

#[test]
fn wae_substring_cuts_four_parts() {
    let s = String::from("{with {x 5} {+ x x}}");
    let mut ind = s_index {
        lhs_start: 6,
        lhs_end: 10,
        id_expr_start: 9,
        id_expr_end: 9,
        id: 7,
        rhs_start: 12,
        rhs_end: 18,
        oper: 'w',
    };
    let (l, r, i, v) = substring(&mut ind, &s);
    assert_eq!((l.as_str(), r.as_str(), i.as_str(), v.as_str()), ("{x 5}", "{+ x x}", "x", "5"));
    assert_eq!(ind.oper, 'w');
}

#[test]
fn wae_substring_minus_without_right_operand_is_a_sign() {
    let s = String::from("-4");
    let mut ind = start();
    ind.oper = '-';
    ind.lhs_end = 1;
    let _ = substring(&mut ind, &s);
    assert_eq!(ind.oper, ' ');
}

#[test]
fn wae_parse_with() {
    match parse(String::from("{with {x 5} {+ x x}}")) {
        AE::with((i, v), b) => {
            assert_eq!(i, "x");
            assert!(matches!(*v, AE::num(Num::Lit(ref s)) if s == "5"));
            match *b {
                AE::Add(l, r) => {
                    assert!(matches!(*l, AE::id(ref s) if s == "x"));
                    assert!(matches!(*r, AE::id(ref s) if s == "x"));
                },
                _ => panic!("expected a sum"),
            }
        },
        _ => panic!("expected a with"),
    }
}

#[test]
fn wae_interp_with() {
    let e = parse(String::from("{with {x 5} {+ x x}}\n"));
    assert_eq!(eval(&interp(e)), 10.0);
}

#[test]
fn wae_interp_nested_with_shadows() {
    let e = parse(String::from("{with {x 5} {with {x 3} x}}"));
    assert_eq!(eval(&interp(e)), 3.0);
}

#[test]
fn wae_interp_free_identifier_fails() {
    let e = parse(String::from("{+ 1 y}"));
    assert!(interp_checked(e).is_none());
}

#[test]
fn wae_subst_replaces_free_occurrences() {
    let e = AE::Add(Box::new(id("x")), Box::new(id("y")));
    match subst(e, String::from("x"), lit(2.0)) {
        AE::Add(l, r) => {
            assert!(matches!(*l, AE::num(Num::Lit(ref s)) if s == "2"));
            assert!(matches!(*r, AE::id(ref s) if s == "y"));
        },
        _ => panic!("expected a sum"),
    }
}

#[test]
fn wae_subst_stops_at_shadowing_with() {
    let inner = AE::with((String::from("x"), Box::new(id("x"))), Box::new(id("x")));
    match subst(inner, String::from("x"), lit(7.0)) {
        AE::with((i, v), b) => {
            assert_eq!(i, "x");
            assert!(matches!(*v, AE::num(Num::Lit(ref s)) if s == "7"));
            assert!(matches!(*b, AE::id(ref s) if s == "x"));
        },
        _ => panic!("expected a with"),
    }
}

#[test]
fn wae_subst_absent_identifier_changes_nothing() {
    let e = AE::Sub(Box::new(num("1")), Box::new(id("z")));
    match subst(e, String::from("x"), lit(7.0)) {
        AE::Sub(l, r) => {
            assert!(matches!(*l, AE::num(Num::Lit(ref s)) if s == "1"));
            assert!(matches!(*r, AE::id(ref s) if s == "z"));
        },
        _ => panic!("expected a difference"),
    }
}

#[test]
fn wae_closed_expression_evaluates() {
    let e = parse(String::from("{with {y 2} {- 10 y}}"));
    assert_eq!(eval(&interp_checked(e).unwrap()), 8.0);
}

#[test]
fn wae_parse_refuses_unfinished_text() {
    assert!(parse_checked(String::from("{+ 1 {2")).is_none());
}

fn shape(e: &AE) -> String {
    match e {
        AE::num(Num::Lit(s)) => s.clone(),
        AE::num(_) => String::from("?"),
        AE::Add(l, r) => format!("(+ {} {})", shape(l), shape(r)),
        AE::Sub(l, r) => format!("(- {} {})", shape(l), shape(r)),
        AE::with((i, v), b) => format!("(with {} {} {})", i, shape(v), shape(b)),
        AE::id(s) => s.clone(),
    }
}

#[test]
fn wae_parse_text_gives_tree_back_with_or_without_newline() {
    for src in ["y", "{with {x -5} {with {y {+ x 1}} {- y x}}}", "{+ {- a 1} {+ b c}}"] {
        let a = parse(String::from(src));
        let b = parse(format!("{}\n", src));
        assert_eq!(shape(&a), shape(&b));
    }
    assert_eq!(
        shape(&parse(String::from("{with {x -5} {with {y {+ x 1}} {- y x}}}"))),
        "(with x -5 (with y (+ x 1) (- y x)))"
    );
}
