//! The seven beta-reduction strategies, the step limit, and semantic
//! equality.

use lambda_calc::from_bare;
use lambda_calc::parse;
use lambda_calc::ReduceStrategy;
use lambda_calc::Term;
use lambda_calc::UIDGenerator;

fn unique(source: &str) -> Term {
    let bare = parse(source).unwrap();
    let mut gen = UIDGenerator::default();
    from_bare(&bare, &mut gen)
}

fn printed(t: &Term) -> String {
    t.to_bare().show()
}

fn all_strategies() -> [ReduceStrategy; 7] {
    [
        ReduceStrategy::CBN,
        ReduceStrategy::NOR,
        ReduceStrategy::CBV,
        ReduceStrategy::APP,
        ReduceStrategy::HAP,
        ReduceStrategy::HSR,
        ReduceStrategy::HNO,
    ]
}

#[test]
fn redex_contracts() {
    let t = unique("(λx.x) y");
    for s in all_strategies() {
        assert_eq!(printed(&t.beta_reduce(s, None)), "y");
    }
}

#[test]
fn substitution_into_identity_returns_argument() {
    // subst on λx.x with a closed term yields exactly that term.
    let id = unique("λx.x");
    let value = unique("λa.λb.a");
    let result = id.subst(&value);
    assert_eq!(result, value);
    assert!(result.equals(&value));
}

#[test]
fn cbn_stays_outside_abstractions() {
    let t = unique("λx.(λy.y) x");
    assert_eq!(t.beta_reduce(ReduceStrategy::CBN, None), t);
    assert_eq!(t.whnf(), t);
}

#[test]
fn app_descends_into_abstractions() {
    let t = unique("λx.(λy.y) x");
    assert_eq!(printed(&t.beta_reduce(ReduceStrategy::APP, None)), "λx.x");
    assert_eq!(printed(&t.hnf()), "λx.x");
}

#[test]
fn normal_forms_by_name() {
    let t = unique("(λx.x) ((λy.y) z)");
    assert_eq!(printed(&t.nf()), "z");
    assert_eq!(printed(&t.wnf()), "z");
}

#[test]
fn strategies_agree_on_normalising_term() {
    // A term with a normal form: APP, NOR, HAP and HNO, run to fixpoint,
    // agree up to alpha-equivalence.
    let source = "(λf.λx.f x) (λf.λx.f x)";
    let normalising = [
        ReduceStrategy::NOR,
        ReduceStrategy::APP,
        ReduceStrategy::HAP,
        ReduceStrategy::HNO,
    ];
    let results: Vec<Term> = normalising
        .iter()
        .map(|s| unique(source).beta_reduce(*s, None))
        .collect();
    for r in &results {
        assert!(r.equals(&results[0]));
        assert!(r.equals(&unique("λa.λb.a b")));
    }
}

#[test]
fn omega_is_contained_by_the_step_limit() {
    // The self-application term has no normal form; with any limit every
    // strategy still returns a term.
    let omega = unique("(λx.x x) (λx.x x)");
    for s in all_strategies() {
        let once = omega.beta_reduce(s, Some(1));
        // One contraction reproduces self-application; from then on the
        // term is stable under further bounded reduction.
        let again = once.beta_reduce(s, Some(1));
        assert_eq!(again, once);
        let far = omega.beta_reduce(s, Some(25));
        assert_eq!(far, once);
        // The default limit also returns, with the same fixpoint.
        assert_eq!(omega.beta_reduce(s, None), once);
    }
}

#[test]
fn equals_accepts_reduction_result() {
    // The worked example: a recursion combinator applied to a constant
    // function reduces away, and equals sees through it.
    let lhs = unique("(λf.(λx.f (x x)) (λx.f (x x))) λf.x");
    let rhs = unique("x");
    assert!(lhs.equals(&rhs));
}

#[test]
fn equals_is_eta_aware() {
    assert!(unique("λx.f x").equals(&unique("f")));
    assert!(unique("f").equals(&unique("λx.f x")));
}

#[test]
fn equals_is_alpha_aware() {
    assert!(unique("λx.λy.x").equals(&unique("λa.λb.a")));
    assert!(unique("λx.x z").equals(&unique("λq.q z")));
}

#[test]
fn equals_distinguishes_terms() {
    assert!(!unique("x").equals(&unique("y")));
    assert!(!unique("λx.λy.x").equals(&unique("λx.λy.y")));
}

#[test]
fn head_strategies_leave_arguments() {
    // With a variable head there is no redex at the spine: strategies
    // that never reduce arguments leave them, the normalising ones do
    // not.
    let t = unique("x ((λy.y) z)");
    assert_eq!(printed(&t.beta_reduce(ReduceStrategy::CBN, None)), "x ((λy.y) z)");
    assert_eq!(printed(&t.beta_reduce(ReduceStrategy::HSR, None)), "x ((λy.y) z)");
    assert_eq!(printed(&t.beta_reduce(ReduceStrategy::NOR, None)), "x z");
    assert_eq!(printed(&t.beta_reduce(ReduceStrategy::HNO, None)), "x z");
    assert_eq!(printed(&t.beta_reduce(ReduceStrategy::CBV, None)), "x z");
}

#[test]
fn renaming_avoids_inner_binder_names() {
    // Contracting the outer redex puts a free x under the binder named x,
    // which must be renamed on printing; the fresh name also steps over
    // the inner binder x1, so no two distinct variables print alike.
    let t = unique("(λy.λx.y (λx1.x)) x");
    let stepped = t.beta_reduce(ReduceStrategy::CBN, Some(1));
    assert_eq!(printed(&stepped), "λx2.x (λx1.x2)");
}

#[test]
fn step_limit_zero_returns_unchanged() {
    let t = unique("(λx.x) y");
    for s in all_strategies() {
        assert_eq!(t.beta_reduce(s, Some(0)), t);
    }
}
