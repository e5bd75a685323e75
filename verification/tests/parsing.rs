//! The textual grammar and the display form, each against the other.

use lambda_calc::abs;
use lambda_calc::app;
use lambda_calc::parse;
use lambda_calc::BareTerm;

fn v(name: &str) -> BareTerm {
    BareTerm::Var(name.to_string())
}

#[test]
fn parse_variable() {
    assert_eq!(parse("x").unwrap(), v("x"));
    assert_eq!(parse("  foo_1  ").unwrap(), v("foo_1"));
}

#[test]
fn parse_application_is_left_associative() {
    assert_eq!(parse("x y z").unwrap(), app(app(v("x"), v("y")), v("z")));
}

#[test]
fn parse_abstraction() {
    assert_eq!(parse("λx.x").unwrap(), abs("x".to_string(), v("x")));
    assert_eq!(parse("\\x.x").unwrap(), abs("x".to_string(), v("x")));
}

#[test]
fn parse_abstraction_body_extends_right() {
    assert_eq!(
        parse("λx.x y").unwrap(),
        abs("x".to_string(), app(v("x"), v("y")))
    );
}

#[test]
fn parse_parenthesised_redex() {
    assert_eq!(
        parse("(λx.x) y").unwrap(),
        app(abs("x".to_string(), v("x")), v("y"))
    );
}

#[test]
fn parse_nested_parens() {
    assert_eq!(parse("x (y z)").unwrap(), app(v("x"), app(v("y"), v("z"))));
}

#[test]
fn parse_error_on_empty_input() {
    assert!(parse("").is_err());
    assert!(parse("   ").is_err());
}

#[test]
fn parse_error_reports_position() {
    let e = parse("(x").unwrap_err();
    assert_eq!(e.at, 2);
    let e = parse(".").unwrap_err();
    assert_eq!(e.at, 0);
    let e = parse("λ.x").unwrap_err();
    assert_eq!(e.at, 1);
}

#[test]
fn parse_error_on_trailing_garbage() {
    assert!(parse("x )").is_err());
}

#[test]
fn show_minimal_parentheses() {
    assert_eq!(parse("x y z").unwrap().show(), "x y z");
    assert_eq!(parse("x (y z)").unwrap().show(), "x (y z)");
    assert_eq!(parse("(λx.x) y").unwrap().show(), "(λx.x) y");
    assert_eq!(parse("λx.x y").unwrap().show(), "λx.x y");
    assert_eq!(parse("λx.λy.x").unwrap().show(), "λx.λy.x");
}

#[test]
fn shows_prec_parenthesises_by_level() {
    let t = parse("λx.x").unwrap();
    assert_eq!(t.shows_prec(0), "λx.x");
    assert_eq!(t.shows_prec(1), "(λx.x)");
    assert_eq!(t.shows_prec(2), "(λx.x)");
    let a = parse("x y").unwrap();
    assert_eq!(a.shows_prec(1), "x y");
    assert_eq!(a.shows_prec(2), "(x y)");
}

#[test]
fn parse_print_round_trip() {
    let sources = [
        "x",
        "x y z",
        "λx.x",
        "λx.x y",
        "(λx.x) y",
        "x (y z)",
        "λf.(λx.f (x x)) (λx.f (x x))",
        "λx.λy.x y z",
        "(λa.λb.λc.a (λd.λe.e (d b)) (λd.c) (λd.d)) (λa.λb.a b)",
    ];
    for s in sources {
        let t = parse(s).unwrap();
        let printed = t.show();
        assert_eq!(parse(printed.as_str()).unwrap(), t);
    }
}
