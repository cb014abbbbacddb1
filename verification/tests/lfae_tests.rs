use lib::lfae::{
    interp, interp_bounded, lookup, num_minus, num_plus, parse, parse_checked, s_index, strict,
    strict_bounded, subst_index, substring, try_subst_index, Defrd, LFAE,
};
use lib::num::Num;

fn eval(n: &Num) -> f32 {
    match n {
        Num::Lit(s) => s.trim().parse::<f32>().unwrap(),
        Num::Plus(a, b) => eval(a) + eval(b),
        Num::Minus(a, b) => eval(a) - eval(b),
    }
}

fn number_of(v: &LFAE) -> f32 {
    match v {
        LFAE::numV(n) => eval(n),
        _ => panic!("not a number value"),
    }
}

fn start() -> s_index {
    s_index {
        lhs_start: 0,
        lhs_end: 0,
        id_expr_start: 0,
        id_expr_end: 0,
        id: 0,
        rhs_start: 0,
        rhs_end: 0,
        oper: ' ',
    }
}

fn numv(s: &str) -> LFAE {
    LFAE::numV(Num::Lit(String::from(s)))
}

fn run(src: &str) -> LFAE {
    interp(parse(String::from(src)), Defrd::mtSub)
}

#[test]
fn lfae_scan_application_of_function() {
    let s = String::from("{{fun {x} {+ x 1}} 5}");
    let mut ind = start();
    subst_index(&s, &mut ind);
    assert_eq!((ind.lhs_start, ind.lhs_end, ind.rhs_start, ind.rhs_end), (1, 17, 19, 19));
    assert_eq!(ind.oper, ' ');
    let (l, r, _, _) = substring(&mut ind, &s);
    assert_eq!((l.as_str(), r.as_str()), ("{fun {x} {+ x 1}}", "5"));
    assert_eq!(ind.oper, 'a');
}

#[test]
fn lfae_scan_fun() {
    let s = String::from("{fun {x} {+ x 1}}");
    let mut ind = start();
    subst_index(&s, &mut ind);
    assert_eq!(ind.oper, 'f');
    assert_eq!(ind.id, 6);
    assert_eq!((ind.rhs_start, ind.rhs_end), (9, 15));
}

#[test]
fn lfae_scan_refuses_keyword_cut_inside_character() {
    let s = String::from("{fxé}");
    let mut ind = start();
    assert!(!try_subst_index(&s, &mut ind));
}

#[test]
fn lfae_parse_fun_and_app() {
    match parse(String::from("{{fun {x} {+ x 1}} 5}")) {
        LFAE::app(f, a) => {
            match *f {
                LFAE::fun(p, b) => {
                    assert_eq!(p, "x");
                    assert!(matches!(*b, LFAE::Add(_, _)));
                },
                _ => panic!("expected a function"),
            }
            assert!(matches!(*a, LFAE::num(ref s) if s == "5"));
        },
        _ => panic!("expected an application"),
    }
}

#[test]
fn lfae_parse_with_is_application() {
    match parse(String::from("{with {x 5} {+ x x}}")) {
        LFAE::app(f, a) => {
            assert!(matches!(*f, LFAE::fun(ref p, _) if p == "x"));
            assert!(matches!(*a, LFAE::num(ref s) if s == "5"));
        },
        _ => panic!("expected an application"),
    }
}

#[test]
fn lfae_interp_application() {
    assert_eq!(number_of(&run("{{fun {x} {+ x 1}} 5}")), 6.0);
}

#[test]
fn lfae_interp_with() {
    assert_eq!(number_of(&run("{with {x 5} {+ x x}}\n")), 10.0);
    assert_eq!(number_of(&run("{- 10 {+ 1 2}}")), 7.0);
}

#[test]
fn lfae_interp_fun_gives_closure() {
    match run("{fun {y} y}") {
        LFAE::closureV(p, b, d) => {
            assert_eq!(p, "y");
            assert!(matches!(*b, LFAE::id(ref s) if s == "y"));
            assert!(matches!(*d, Defrd::mtSub));
        },
        _ => panic!("expected a closure"),
    }
}

#[test]
fn lfae_interp_unbound_identifier_stays() {
    assert!(matches!(run("z"), LFAE::id(ref s) if s == "z"));
}

#[test]
fn lfae_interp_runs_out_of_steps_on_endless_program() {
    let e = parse(String::from("{{fun {x} {x x}} {fun {x} {x x}}}"));
    assert!(interp_bounded(e, Defrd::mtSub, 500).is_none());
}

#[test]
fn lfae_interp_value_in_expression_position_fails() {
    assert!(interp_bounded(numv("1"), Defrd::mtSub, 10).is_none());
}

#[test]
fn lfae_interp_more_steps_same_value() {
    let a = interp_bounded(parse(String::from("{{fun {x} {+ x 1}} 5}")), Defrd::mtSub, 50).unwrap();
    let b = interp_bounded(parse(String::from("{{fun {x} {+ x 1}} 5}")), Defrd::mtSub, 5000).unwrap();
    assert_eq!(number_of(&a), number_of(&b));
}

#[test]
fn lfae_lookup_most_recent_binding() {
    let ds = Defrd::aSub(
        String::from("x"),
        Box::new(numv("1")),
        Box::new(Defrd::aSub(String::from("x"), Box::new(numv("2")), Box::new(Defrd::mtSub))),
    );
    assert_eq!(number_of(&lookup(String::from("x"), ds)), 1.0);
}

#[test]
fn lfae_lookup_passes_other_names() {
    let ds = Defrd::aSub(
        String::from("y"),
        Box::new(numv("1")),
        Box::new(Defrd::aSub(String::from("x"), Box::new(numv("2")), Box::new(Defrd::mtSub))),
    );
    assert_eq!(number_of(&lookup(String::from("x"), ds)), 2.0);
    assert!(matches!(lookup(String::from("q"), Defrd::mtSub), LFAE::id(ref s) if s == "q"));
}

#[test]
fn lfae_lookup_closure_gets_older_bindings() {
    let clo = LFAE::closureV(
        String::from("p"),
        Box::new(LFAE::id(String::from("p"))),
        Box::new(Defrd::aSub(String::from("k"), Box::new(numv("9")), Box::new(Defrd::mtSub))),
    );
    let rest = Defrd::aSub(String::from("r"), Box::new(numv("3")), Box::new(Defrd::mtSub));
    let ds = Defrd::aSub(String::from("f"), Box::new(clo), Box::new(rest));
    match lookup(String::from("f"), ds) {
        LFAE::closureV(_, _, d) => match *d {
            Defrd::aSub(name, _, _) => assert_eq!(name, "r"),
            _ => panic!("expected a binding"),
        },
        _ => panic!("expected a closure"),
    }
}

#[test]
fn lfae_strict_forces_thunk() {
    let thunk = LFAE::exprV(
        Box::new(LFAE::Add(Box::new(LFAE::num(String::from("2"))), Box::new(LFAE::num(String::from("3"))))),
        Box::new(Defrd::mtSub),
        Box::new(LFAE::Nil),
    );
    assert_eq!(number_of(&strict(thunk)), 5.0);
}

#[test]
fn lfae_strict_filled_box_gives_content() {
    let thunk = LFAE::exprV(Box::new(LFAE::Nil), Box::new(Defrd::mtSub), Box::new(numv("4")));
    assert_eq!(number_of(&strict(thunk)), 4.0);
}

#[test]
fn lfae_strict_of_value_is_itself() {
    assert_eq!(number_of(&strict(numv("8"))), 8.0);
    assert!(strict_bounded(numv("8"), 0).is_none());
}

#[test]
fn lfae_num_plus_and_minus_of_numbers() {
    assert_eq!(number_of(&num_plus(numv("1.5"), numv("2"))), 3.5);
    assert_eq!(number_of(&num_minus(numv("1.5"), numv("2"))), -0.5);
}

#[test]
fn lfae_num_plus_of_non_number_keeps_sum() {
    let clo = LFAE::closureV(String::from("x"), Box::new(LFAE::id(String::from("x"))), Box::new(Defrd::mtSub));
    assert!(matches!(num_plus(clo, numv("1")), LFAE::Add(_, _)));
}

#[test]
fn lfae_parse_refuses_unfinished_text() {
    assert!(parse_checked(String::from("{+ 1 {2")).is_none());
}

fn shape(e: &LFAE) -> String {
    match e {
        LFAE::num(s) => s.clone(),
        LFAE::Add(l, r) => format!("(+ {} {})", shape(l), shape(r)),
        LFAE::Sub(l, r) => format!("(- {} {})", shape(l), shape(r)),
        LFAE::id(s) => s.clone(),
        LFAE::fun(p, b) => format!("(fun {} {})", p, shape(b)),
        LFAE::app(f, a) => format!("(app {} {})", shape(f), shape(a)),
        _ => String::from("?"),
    }
}

#[test]
fn lfae_parse_text_gives_tree_back_with_or_without_newline() {
    for src in ["f", "{fun {f} {f 3}}", "{with {x {+ 1 2}} {{fun {y} {- y x}} 4}}", "{f {g 1}}"] {
        let a = parse(String::from(src));
        let b = parse(format!("{}\n", src));
        assert_eq!(shape(&a), shape(&b));
    }
    assert_eq!(
        shape(&parse(String::from("{with {x {+ 1 2}} {{fun {y} {- y x}} 4}}"))),
        "(app (fun x (app (fun y (- y x)) 4)) (+ 1 2))"
    );
}

#[test]
fn lfae_application_of_non_function_is_zero() {
    assert_eq!(number_of(&run("{{+ 1 2} 3}")), 0.0);
}
