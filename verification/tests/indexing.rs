//! Bare-to-unique conversion, the reverse path, free variables, and the
//! fresh-name policy.

use lambda_calc::abs;
use lambda_calc::NameMap;
use lambda_calc::TagMap;
use lambda_calc::app;
use lambda_calc::from_bare;
use lambda_calc::parse;
use lambda_calc::BareTerm;
use lambda_calc::Fresh;
use lambda_calc::Term;
use lambda_calc::UIDGenerator;
use lambda_calc::UID;

fn v(name: &str) -> BareTerm {
    BareTerm::Var(name.to_string())
}

fn uid(name: &str, tag: usize) -> UID {
    UID {
        name: name.to_string(),
        uid: tag,
    }
}

fn uvar(name: &str, tag: usize) -> Term {
    Term::Var(uid(name, tag))
}

fn unique(source: &str) -> Term {
    let bare = parse(source).unwrap();
    let mut gen = UIDGenerator::default();
    from_bare(&bare, &mut gen)
}

#[test]
fn unique_tags_binder_and_free() {
    // The binder gets tag 1, the free variable tag 2; term equality is
    // tag-based, so the names in the expectation do not matter.
    let u = unique("λx.x y");
    let expected = Term::Abs(
        uid("x", 1),
        Box::new(Term::App(Box::new(uvar("x", 1)), Box::new(uvar("y", 2)))),
    );
    assert_eq!(u, expected);
}

#[test]
fn unique_shares_one_tag_per_free_name() {
    let u = unique("y y");
    let expected = Term::App(Box::new(uvar("y", 1)), Box::new(uvar("y", 1)));
    assert_eq!(u, expected);
}

#[test]
fn unique_threads_free_names_across_siblings() {
    // The free y inside the abstraction and the y beside it are the same
    // variable, so they share a tag.
    let u = unique("(λx.y) y");
    let expected = Term::App(
        Box::new(Term::Abs(uid("x", 1), Box::new(uvar("y", 2)))),
        Box::new(uvar("y", 2)),
    );
    assert_eq!(u, expected);
}

#[test]
fn binder_shadows_an_earlier_free_name() {
    // A name seen free first and bound later: the binder wins within its
    // body, so the inner occurrence carries the binder's tag, and the
    // term keeps its meaning as an identity applied beside a free x.
    let u = unique("x (λx.x)");
    let expected = Term::App(
        Box::new(uvar("x", 1)),
        Box::new(Term::Abs(uid("x", 2), Box::new(uvar("x", 2)))),
    );
    assert_eq!(u, expected);
    assert_eq!(u.to_bare(), parse("x (λx.x)").unwrap());
    assert!(u.equals(&unique("x (λy.y)")));
}

#[test]
fn unique_shadowing_binds_innermost() {
    let u = unique("λx.λx.x");
    let expected = Term::Abs(
        uid("x", 1),
        Box::new(Term::Abs(uid("x", 2), Box::new(uvar("x", 2)))),
    );
    assert_eq!(u, expected);
}

#[test]
fn bare_round_trip_keeps_names() {
    let t = parse("λa.λb.a b c").unwrap();
    let mut gen = UIDGenerator::default();
    let u = from_bare(&t, &mut gen);
    assert_eq!(u.to_bare(), t);
}

#[test]
fn bare_round_trip_with_sharing() {
    let t = parse("(λa.z a) z").unwrap();
    let mut gen = UIDGenerator::default();
    let u = from_bare(&t, &mut gen);
    assert_eq!(u.to_bare(), t);
}

#[test]
fn colliding_binder_is_renamed() {
    // An inner binder named like a distinct free variable: printing both
    // as x would conflate them, so the binder becomes x1.
    let body = Term::App(Box::new(uvar("x", 2)), Box::new(uvar("x", 1)));
    let t = Term::Abs(uid("x", 2), Box::new(body));
    let expected = abs("x1".to_string(), app(v("x1"), v("x")));
    assert_eq!(t.to_bare(), expected);
}

#[test]
fn fresh_bumps_trailing_digits() {
    assert_eq!("x".to_string().fresh(), "x1");
    assert_eq!("x1".to_string().fresh(), "x2");
    assert_eq!("x9".to_string().fresh(), "x10");
    assert_eq!("x19".to_string().fresh(), "x20");
    assert_eq!("a09".to_string().fresh(), "a10");
    assert_eq!("7".to_string().fresh(), "8");
}

#[test]
fn fresh_renders_the_suffix_canonically() {
    // The suffix is read as a number, so leading zeros do not survive.
    assert_eq!("x00".to_string().fresh(), "x1");
    assert_eq!("x01".to_string().fresh(), "x2");
    assert_eq!("x009".to_string().fresh(), "x10");
    assert_eq!("00".to_string().fresh(), "1");
}

#[test]
fn new_fv_name_skips_occupied_names() {
    let u = unique("x x1 x2");
    let picked = u.new_fv_name(&"x".to_string(), &Vec::new());
    assert_eq!(picked, "x3");
    let taken = vec!["x3".to_string()];
    assert_eq!(u.new_fv_name(&"x".to_string(), &taken), "x4");
    assert_eq!(u.new_fv_name(&"q".to_string(), &Vec::new()), "q");
}

#[test]
fn new_fv_name_avoids_inner_binder_names() {
    // A fresh display name may collide with a binder inside the body just
    // as well as with a free variable, so both are skipped.
    let u = unique("λx1.y");
    assert_eq!(u.new_fv_name(&"x1".to_string(), &Vec::new()), "x2");
    assert_eq!(u.new_fv_name(&"y".to_string(), &Vec::new()), "y1");
}

#[test]
fn free_variables_of_abstraction() {
    // free_variables(λx.x y) = {y}
    let u = unique("λx.x y");
    let names = u.fv_names();
    assert_eq!(names, vec!["y".to_string()]);
    let fv = u.fv();
    assert_eq!(fv.len(), 1);
    assert_eq!(fv[0].name, "y");
}

#[test]
fn fv_names_holds_each_name_once() {
    // Two occurrences of one free variable give one entry.
    let u = unique("y y");
    assert_eq!(u.fv_names(), vec!["y".to_string()]);
    let w = unique("(λx.y) y");
    assert_eq!(w.fv_names(), vec!["y".to_string()]);
}

#[test]
fn free_variables_of_nested_abstraction() {
    // free_variables(λx.λy.x y z) = {z}
    let u = unique("λx.λy.x y z");
    let names = u.fv_names();
    assert_eq!(names, vec!["z".to_string()]);
}

#[test]
fn has_name_collision_sees_through_binders() {
    let body = Term::Abs(uid("q", 3), Box::new(uvar("x", 1)));
    assert!(body.has_name_collision(&uid("x", 2)));
    assert!(!body.has_name_collision(&uid("x", 1)));
    assert!(!body.has_name_collision(&uid("y", 2)));
}

#[test]
fn name_map_newest_entry_wins() {
    let mut m = NameMap::new();
    assert_eq!(m.get(&"x".to_string()), None);
    m.insert("x".to_string(), 1);
    m.insert("y".to_string(), 2);
    m.insert("x".to_string(), 3);
    assert_eq!(m.get(&"x".to_string()), Some(3));
    assert_eq!(m.get(&"y".to_string()), Some(2));
    assert_eq!(m.get(&"z".to_string()), None);
}

#[test]
fn tag_map_newest_entry_wins() {
    let mut m = TagMap::new();
    assert_eq!(m.get(7), None);
    m.insert(7, "a".to_string());
    m.insert(7, "b".to_string());
    assert_eq!(m.get(7), Some("b".to_string()));
}

#[test]
fn uid_generator_resumes_above_free_tags() {
    let u = unique("λx.x y");
    let mut gen = u.uid_generator();
    // The only free variable carries tag 2, so the next minted tag is 3.
    assert_eq!(gen.next(), 3);
    let mut fresh = UIDGenerator::default();
    assert_eq!(fresh.next(), 1);
    assert_eq!(fresh.next(), 2);
}
