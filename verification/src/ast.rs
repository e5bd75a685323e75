//! The term tree over bare (human-readable) identifiers, together with its
//! mathematical model.
//!
//! A bare identifier is a plain name with no uniqueness guarantee: two bare
//! identifiers are the same variable exactly when their names are equal.

use vstd::prelude::*;

verus! {

/// A human-readable identifier: equality is name equality.
pub type BareIdent = String;

/// Supplies a successor name, for minting display names that avoid an
/// occupied one.
pub trait Fresh: Sized {
    /// A name after `self` in a deterministic succession.
    fn fresh(&self) -> Self;
}

/// The mathematical model of a bare-identifier term: names are modelled as
/// sequences of characters.
#[verifier::ext_equal]
pub enum BareView {
    Var(Seq<char>),
    App(Box<BareView>, Box<BareView>),
    Abs(Seq<char>, Box<BareView>),
}

/// A term of the untyped lambda calculus over bare identifiers: a variable,
/// an application of a function to an argument, or an abstraction binding a
/// name within a body.
#[derive(Debug)]
pub enum BareTerm {
    Var(BareIdent),
    App(Box<BareTerm>, Box<BareTerm>),
    Abs(BareIdent, Box<BareTerm>),
}

/// The model of a bare term: the same tree with every name replaced by its
/// character sequence.
pub open spec fn bare_view(t: BareTerm) -> BareView
    decreases t,
{
    match t {
        BareTerm::Var(x) => BareView::Var(x@),
        BareTerm::App(l, r) => BareView::App(Box::new(bare_view(*l)), Box::new(bare_view(*r))),
        BareTerm::Abs(x, e) => BareView::Abs(x@, Box::new(bare_view(*e))),
    }
}

impl View for BareTerm {
    type V = BareView;

    open spec fn view(&self) -> BareView {
        bare_view(*self)
    }
}

impl Clone for BareTerm {
    /// A clone is the very same term.
    fn clone(&self) -> (res: Self)
        ensures
            res@ == self@,
        decreases *self,
    {
        match self {
            BareTerm::Var(x) => BareTerm::Var(x.clone()),
            BareTerm::App(l, r) => BareTerm::App(Box::new((**l).clone()), Box::new((**r).clone())),
            BareTerm::Abs(x, e) => BareTerm::Abs(x.clone(), Box::new((**e).clone())),
        }
    }
}

impl PartialEq for BareTerm {
    /// Structural equality: equal shapes with equal names throughout.
    fn eq(&self, other: &Self) -> (r: bool)
        decreases *self,
    {
        match (self, other) {
            (BareTerm::Var(x), BareTerm::Var(y)) => *x == *y,
            (BareTerm::App(l1, r1), BareTerm::App(l2, r2)) => {
                (**l1).eq(&**l2) && (**r1).eq(&**r2)
            },
            (BareTerm::Abs(x, e1), BareTerm::Abs(y, e2)) => *x == *y && (**e1).eq(&**e2),
            _ => false,
        }
    }
}

impl vstd::std_specs::cmp::PartialEqSpecImpl for BareTerm {
    open spec fn obeys_eq_spec() -> bool {
        true
    }

    open spec fn eq_spec(&self, other: &Self) -> bool {
        self@ == other@
    }
}

/// Builds an abstraction binding `bound` within `body`.
pub fn abs(bound: BareIdent, body: BareTerm) -> (r: BareTerm)
    ensures
        r@ == BareView::Abs(bound@, Box::new(body@)),
{
    BareTerm::Abs(bound, Box::new(body))
}

/// Builds an application of `lhs` to `rhs`.
pub fn app(lhs: BareTerm, rhs: BareTerm) -> (r: BareTerm)
    ensures
        r@ == BareView::App(Box::new(lhs@), Box::new(rhs@)),
{
    BareTerm::App(Box::new(lhs), Box::new(rhs))
}

/// The rendering of a term at an operator-precedence level: application
/// binds tighter than abstraction, so an abstraction is parenthesised
/// anywhere but at the top level or in an abstraction body, and an
/// application is parenthesised in an application's argument position.
pub open spec fn s_show(t: BareView, prec: int) -> Seq<char>
    decreases t,
{
    match t {
        BareView::Var(x) => x,
        BareView::App(l, r) => {
            let inner = s_show(*l, 1) + seq![' '] + s_show(*r, 2);
            if prec > 1 {
                seq!['('] + inner + seq![')']
            } else {
                inner
            }
        },
        BareView::Abs(x, e) => {
            let inner = seq!['\u{3bb}'] + x + seq!['.'] + s_show(*e, 0);
            if prec > 0 {
                seq!['('] + inner + seq![')']
            } else {
                inner
            }
        },
    }
}

impl BareTerm {
    /// Renders `self` at the precedence level `prec`, with minimal
    /// parenthesisation.
    pub fn shows_prec(&self, prec: usize) -> (r: String)
        ensures
            r@ == s_show(self@, prec as int),
        decreases *self,
    {
        proof {
            reveal_strlit("(");
            reveal_strlit(")");
            reveal_strlit(" ");
            reveal_strlit(".");
            reveal_strlit("\u{3bb}");
        }
        match self {
            BareTerm::Var(x) => x.clone(),
            BareTerm::App(l, r) => {
                let ls = (**l).shows_prec(1);
                let rs = (**r).shows_prec(2);
                let mut out = String::new();
                if prec > 1 {
                    out.append("(");
                }
                out.append(ls.as_str());
                out.append(" ");
                out.append(rs.as_str());
                if prec > 1 {
                    out.append(")");
                }
                proof {
                    assert("("@ =~= seq!['(']);
                    assert(")"@ =~= seq![')']);
                    assert(" "@ =~= seq![' ']);
                    assert(out@ =~= s_show(self@, prec as int));
                }
                out
            },
            BareTerm::Abs(x, e) => {
                let es = (**e).shows_prec(0);
                let mut out = String::new();
                if prec > 0 {
                    out.append("(");
                }
                out.append("\u{3bb}");
                out.append(x.as_str());
                out.append(".");
                out.append(es.as_str());
                if prec > 0 {
                    out.append(")");
                }
                proof {
                    assert("("@ =~= seq!['(']);
                    assert(")"@ =~= seq![')']);
                    assert("."@ =~= seq!['.']);
                    assert("\u{3bb}"@ =~= seq!['\u{3bb}']);
                    assert(out@ =~= s_show(self@, prec as int));
                }
                out
            },
        }
    }

    /// Renders `self` with minimal parenthesisation.
    pub fn show(&self) -> (r: String)
        ensures
            r@ == s_show(self@, 0),
    {
        self.shows_prec(0)
    }
}

/// The beta-reduction strategies of the reduction engine, each a distinct
/// traversal and evaluation order.
#[derive(Copy, Clone, PartialEq, Eq, Structural, Debug)]
pub enum ReduceStrategy {
    /// Call-by-name: reduce the head only, never the argument.
    CBN,
    /// Normal order: leftmost-outermost reduction to full normal form.
    NOR,
    /// Call-by-value: reduce the argument before substituting, stay outside
    /// abstraction bodies.
    CBV,
    /// Applicative order: leftmost-innermost reduction to full normal form.
    APP,
    /// Hybrid applicative order: call-by-value heads, normalising everywhere.
    HAP,
    /// Head spine reduction: reduce inside abstractions, leave arguments.
    HSR,
    /// Head normal order: head spine heads, then both sides.
    HNO,
}

} // verus!
