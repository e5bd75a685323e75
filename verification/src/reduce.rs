//! Capture-avoiding substitution and the seven beta-reduction strategies.
//!
//! All reduction works on terms over unique identifiers, where variable
//! equality is tag-based, so substitution needs no renaming pass. Every
//! strategy shares the redex rule: an application whose head reduces to an
//! abstraction contracts by substituting the argument into the body. A fuel
//! bound guards against non-termination: at fuel zero the current term is
//! returned unchanged, which is a partial result, not an error.

use vstd::prelude::*;
use vstd::string::StringExecFns;

use crate::ast::BareTerm;
use crate::ast::BareView;
use crate::ast::ReduceStrategy;
use crate::index::from_bare;
use crate::index::s_from_bare;
use crate::index::s_size;
use crate::index::s_to_bare;
use crate::uid::height;
use crate::uid::s_max_free;
use crate::uid::tag_eq;
use crate::uid::Term;
use crate::uid::TermView;
use crate::uid::UidView;
use crate::uid::UIDGenerator;
use crate::uid::UID;

verus! {

/// Replaces every variable occurrence carrying the tag `from` in `t` by
/// `to`; all other variables, binders included, stay untouched.
pub open spec fn s_subst_term(t: TermView, from: nat, to: TermView) -> TermView
    decreases t,
{
    match t {
        TermView::Var(x) => if x.uid == from {
            to
        } else {
            t
        },
        TermView::App(l, r) => TermView::App(
            Box::new(s_subst_term(*l, from, to)),
            Box::new(s_subst_term(*r, from, to)),
        ),
        TermView::Abs(x, e) => TermView::Abs(x, Box::new(s_subst_term(*e, from, to))),
    }
}

/// The contraction of the redex `(\x.e) arg`: substitute `arg` for the
/// binder of the abstraction `f` throughout its body.
pub open spec fn s_contract(f: TermView, arg: TermView) -> TermView
    recommends
        f is Abs,
{
    s_subst_term(*(f->Abs_1), (f->Abs_0).uid, arg)
}

/// Call-by-name reduction: reduce the head to an abstraction, substitute
/// the unreduced argument, repeat; never descend elsewhere.
pub open spec fn s_cbn(t: TermView, fuel: nat) -> TermView
    decreases fuel, height(t),
{
    if fuel == 0 {
        t
    } else {
        match t {
            TermView::App(l, r) => {
                let l2 = s_cbn(*l, fuel);
                if l2 is Abs {
                    s_cbn(s_contract(l2, *r), (fuel - 1) as nat)
                } else {
                    TermView::App(Box::new(l2), r)
                }
            },
            _ => t,
        }
    }
}

/// Normal-order reduction: call-by-name on the head, then reduce what
/// remains everywhere, leftmost-outermost first.
pub open spec fn s_nor(t: TermView, fuel: nat) -> TermView
    decreases fuel, height(t),
{
    if fuel == 0 {
        t
    } else {
        match t {
            TermView::Abs(x, e) => TermView::Abs(x, Box::new(s_nor(*e, fuel))),
            TermView::App(l, r) => {
                let l2 = s_cbn(*l, fuel);
                if l2 is Abs {
                    s_nor(s_contract(l2, *r), (fuel - 1) as nat)
                } else if tag_eq(l2, *l) {
                    TermView::App(Box::new(s_nor(*l, fuel)), Box::new(s_nor(*r, fuel)))
                } else {
                    TermView::App(
                        Box::new(s_nor(l2, (fuel - 1) as nat)),
                        Box::new(s_nor(*r, fuel)),
                    )
                }
            },
            _ => t,
        }
    }
}

/// Call-by-value reduction: reduce the head, reduce the argument, then
/// substitute; never descend into abstraction bodies.
pub open spec fn s_cbv(t: TermView, fuel: nat) -> TermView
    decreases fuel, height(t),
{
    if fuel == 0 {
        t
    } else {
        match t {
            TermView::App(l, r) => {
                let l2 = s_cbv(*l, fuel);
                if l2 is Abs {
                    s_cbv(s_contract(l2, s_cbv(*r, fuel)), (fuel - 1) as nat)
                } else {
                    TermView::App(Box::new(l2), Box::new(s_cbv(*r, fuel)))
                }
            },
            _ => t,
        }
    }
}

/// Applicative-order reduction: like call-by-value, but also descend into
/// abstraction bodies, leftmost-innermost first.
pub open spec fn s_app(t: TermView, fuel: nat) -> TermView
    decreases fuel, height(t),
{
    if fuel == 0 {
        t
    } else {
        match t {
            TermView::Abs(x, e) => TermView::Abs(x, Box::new(s_app(*e, fuel))),
            TermView::App(l, r) => {
                let l2 = s_app(*l, fuel);
                if l2 is Abs {
                    s_app(s_contract(l2, s_app(*r, fuel)), (fuel - 1) as nat)
                } else {
                    TermView::App(Box::new(l2), Box::new(s_app(*r, fuel)))
                }
            },
            _ => t,
        }
    }
}

/// Hybrid applicative-order reduction: call-by-value heads, arguments
/// reduced before substitution, and full normalisation of what remains.
pub open spec fn s_hap(t: TermView, fuel: nat) -> TermView
    decreases fuel, height(t),
{
    if fuel == 0 {
        t
    } else {
        match t {
            TermView::Abs(x, e) => TermView::Abs(x, Box::new(s_hap(*e, fuel))),
            TermView::App(l, r) => {
                let l2 = s_cbv(*l, fuel);
                if l2 is Abs {
                    s_hap(s_contract(l2, s_hap(*r, fuel)), (fuel - 1) as nat)
                } else if tag_eq(l2, *l) {
                    TermView::App(Box::new(s_hap(*l, fuel)), Box::new(s_hap(*r, fuel)))
                } else {
                    TermView::App(
                        Box::new(s_hap(l2, (fuel - 1) as nat)),
                        Box::new(s_hap(*r, fuel)),
                    )
                }
            },
            _ => t,
        }
    }
}

/// Head-spine reduction: reduce the head, also under binders, substitute
/// unreduced arguments, and leave arguments untouched otherwise.
pub open spec fn s_hsr(t: TermView, fuel: nat) -> TermView
    decreases fuel, height(t),
{
    if fuel == 0 {
        t
    } else {
        match t {
            TermView::Abs(x, e) => TermView::Abs(x, Box::new(s_hsr(*e, fuel))),
            TermView::App(l, r) => {
                let l2 = s_hsr(*l, fuel);
                if l2 is Abs {
                    s_hsr(s_contract(l2, *r), (fuel - 1) as nat)
                } else {
                    TermView::App(Box::new(l2), r)
                }
            },
            _ => t,
        }
    }
}

/// Head-normal-order reduction: head-spine on the head, substitution of
/// unreduced arguments, then reduction of both sides of what remains.
pub open spec fn s_hno(t: TermView, fuel: nat) -> TermView
    decreases fuel, height(t),
{
    if fuel == 0 {
        t
    } else {
        match t {
            TermView::Abs(x, e) => TermView::Abs(x, Box::new(s_hno(*e, fuel))),
            TermView::App(l, r) => {
                let l2 = s_hsr(*l, fuel);
                if l2 is Abs {
                    s_hno(s_contract(l2, *r), (fuel - 1) as nat)
                } else if tag_eq(l2, *l) {
                    TermView::App(Box::new(s_hno(*l, fuel)), Box::new(s_hno(*r, fuel)))
                } else {
                    TermView::App(
                        Box::new(s_hno(l2, (fuel - 1) as nat)),
                        Box::new(s_hno(*r, fuel)),
                    )
                }
            },
            _ => t,
        }
    }
}

/// The fuel that a reduction runs on when the caller gives no step limit:
/// a documented, overridable safety valve against non-termination.
pub open spec fn s_fuel_of(limit: Option<usize>) -> nat {
    match limit {
        Option::Some(l) => l as nat,
        Option::None => 100,
    }
}

/// One of the seven strategies, run on `t` with the fuel that `limit`
/// prescribes.
pub open spec fn s_beta(t: TermView, strategy: ReduceStrategy, limit: Option<usize>) -> TermView {
    let fuel = s_fuel_of(limit);
    match strategy {
        ReduceStrategy::CBN => s_cbn(t, fuel),
        ReduceStrategy::NOR => s_nor(t, fuel),
        ReduceStrategy::CBV => s_cbv(t, fuel),
        ReduceStrategy::APP => s_app(t, fuel),
        ReduceStrategy::HAP => s_hap(t, fuel),
        ReduceStrategy::HSR => s_hsr(t, fuel),
        ReduceStrategy::HNO => s_hno(t, fuel),
    }
}

impl Term {
    /// Replaces every occurrence of the tag of `from` in `self` by `to`.
    fn subst_term(&self, from: &UID, to: &Term) -> (res: Term)
        ensures
            res@ == s_subst_term(self@, from@.uid, to@),
        decreases *self,
    {
        match self {
            Term::Var(x) => {
                if x.uid == from.uid {
                    to.clone()
                } else {
                    self.clone()
                }
            },
            Term::App(l, r) => Term::App(
                Box::new((**l).subst_term(from, to)),
                Box::new((**r).subst_term(from, to)),
            ),
            Term::Abs(x, e) => Term::Abs(x.clone(), Box::new((**e).subst_term(from, to))),
        }
    }

    /// Substitutes `ex` for the binder of `self` throughout its body.
    /// Substitution is defined for the redex shape only: `self` must be an
    /// abstraction.
    pub fn subst(&self, ex: &Term) -> (res: Term)
        requires
            self@ is Abs,
        ensures
            res@ == s_contract(self@, ex@),
    {
        match self {
            Term::Abs(x, e) => (**e).subst_term(x, ex),
            _ => vstd::pervasive::unreached(),
        }
    }

    /// Call-by-name reduction of `self` with the given fuel.
    fn cbn_reduce(&self, fuel: usize) -> (res: Term)
        ensures
            res@ == s_cbn(self@, fuel as nat),
        decreases fuel, height(self@),
    {
        if fuel == 0 {
            return self.clone();
        }
        match self {
            Term::App(l, r) => {
                let l2 = (**l).cbn_reduce(fuel);
                match l2 {
                    Term::Abs(x, e) => {
                        let contracted = (*e).subst_term(&x, &**r);
                        contracted.cbn_reduce(fuel - 1)
                    },
                    _ => Term::App(Box::new(l2), Box::new((**r).clone())),
                }
            },
            _ => self.clone(),
        }
    }

    /// Normal-order reduction of `self` with the given fuel.
    fn nor_reduce(&self, fuel: usize) -> (res: Term)
        ensures
            res@ == s_nor(self@, fuel as nat),
        decreases fuel, height(self@),
    {
        if fuel == 0 {
            return self.clone();
        }
        match self {
            Term::Abs(x, e) => Term::Abs(x.clone(), Box::new((**e).nor_reduce(fuel))),
            Term::App(l, r) => {
                let l2 = (**l).cbn_reduce(fuel);
                match l2 {
                    Term::Abs(x, e) => {
                        let contracted = (*e).subst_term(&x, &**r);
                        contracted.nor_reduce(fuel - 1)
                    },
                    l2 => {
                        if l2.eq(&**l) {
                            proof {
                                crate::uid::lemma_tag_eq_height(l2@, (**l)@);
                            }
                            Term::App(
                                Box::new((**l).nor_reduce(fuel)),
                                Box::new((**r).nor_reduce(fuel)),
                            )
                        } else {
                            Term::App(
                                Box::new(l2.nor_reduce(fuel - 1)),
                                Box::new((**r).nor_reduce(fuel)),
                            )
                        }
                    },
                }
            },
            _ => self.clone(),
        }
    }

    /// Call-by-value reduction of `self` with the given fuel.
    fn cbv_reduce(&self, fuel: usize) -> (res: Term)
        ensures
            res@ == s_cbv(self@, fuel as nat),
        decreases fuel, height(self@),
    {
        if fuel == 0 {
            return self.clone();
        }
        match self {
            Term::App(l, r) => {
                let l2 = (**l).cbv_reduce(fuel);
                match l2 {
                    Term::Abs(x, e) => {
                        let arg = (**r).cbv_reduce(fuel);
                        let contracted = (*e).subst_term(&x, &arg);
                        contracted.cbv_reduce(fuel - 1)
                    },
                    _ => Term::App(Box::new(l2), Box::new((**r).cbv_reduce(fuel))),
                }
            },
            _ => self.clone(),
        }
    }

    /// Applicative-order reduction of `self` with the given fuel.
    fn app_reduce(&self, fuel: usize) -> (res: Term)
        ensures
            res@ == s_app(self@, fuel as nat),
        decreases fuel, height(self@),
    {
        if fuel == 0 {
            return self.clone();
        }
        match self {
            Term::Abs(x, e) => Term::Abs(x.clone(), Box::new((**e).app_reduce(fuel))),
            Term::App(l, r) => {
                let l2 = (**l).app_reduce(fuel);
                match l2 {
                    Term::Abs(x, e) => {
                        let arg = (**r).app_reduce(fuel);
                        let contracted = (*e).subst_term(&x, &arg);
                        contracted.app_reduce(fuel - 1)
                    },
                    _ => Term::App(Box::new(l2), Box::new((**r).app_reduce(fuel))),
                }
            },
            _ => self.clone(),
        }
    }

    /// Hybrid applicative-order reduction of `self` with the given fuel.
    fn hap_reduce(&self, fuel: usize) -> (res: Term)
        ensures
            res@ == s_hap(self@, fuel as nat),
        decreases fuel, height(self@),
    {
        if fuel == 0 {
            return self.clone();
        }
        match self {
            Term::Abs(x, e) => Term::Abs(x.clone(), Box::new((**e).hap_reduce(fuel))),
            Term::App(l, r) => {
                let l2 = (**l).cbv_reduce(fuel);
                match l2 {
                    Term::Abs(x, e) => {
                        let arg = (**r).hap_reduce(fuel);
                        let contracted = (*e).subst_term(&x, &arg);
                        contracted.hap_reduce(fuel - 1)
                    },
                    l2 => {
                        if l2.eq(&**l) {
                            proof {
                                crate::uid::lemma_tag_eq_height(l2@, (**l)@);
                            }
                            Term::App(
                                Box::new((**l).hap_reduce(fuel)),
                                Box::new((**r).hap_reduce(fuel)),
                            )
                        } else {
                            Term::App(
                                Box::new(l2.hap_reduce(fuel - 1)),
                                Box::new((**r).hap_reduce(fuel)),
                            )
                        }
                    },
                }
            },
            _ => self.clone(),
        }
    }

    /// Head-spine reduction of `self` with the given fuel.
    fn hsr_reduce(&self, fuel: usize) -> (res: Term)
        ensures
            res@ == s_hsr(self@, fuel as nat),
        decreases fuel, height(self@),
    {
        if fuel == 0 {
            return self.clone();
        }
        match self {
            Term::Abs(x, e) => Term::Abs(x.clone(), Box::new((**e).hsr_reduce(fuel))),
            Term::App(l, r) => {
                let l2 = (**l).hsr_reduce(fuel);
                match l2 {
                    Term::Abs(x, e) => {
                        let contracted = (*e).subst_term(&x, &**r);
                        contracted.hsr_reduce(fuel - 1)
                    },
                    _ => Term::App(Box::new(l2), Box::new((**r).clone())),
                }
            },
            _ => self.clone(),
        }
    }

    /// Head-normal-order reduction of `self` with the given fuel.
    fn hno_reduce(&self, fuel: usize) -> (res: Term)
        ensures
            res@ == s_hno(self@, fuel as nat),
        decreases fuel, height(self@),
    {
        if fuel == 0 {
            return self.clone();
        }
        match self {
            Term::Abs(x, e) => Term::Abs(x.clone(), Box::new((**e).hno_reduce(fuel))),
            Term::App(l, r) => {
                let l2 = (**l).hsr_reduce(fuel);
                match l2 {
                    Term::Abs(x, e) => {
                        let contracted = (*e).subst_term(&x, &**r);
                        contracted.hno_reduce(fuel - 1)
                    },
                    l2 => {
                        if l2.eq(&**l) {
                            proof {
                                crate::uid::lemma_tag_eq_height(l2@, (**l)@);
                            }
                            Term::App(
                                Box::new((**l).hno_reduce(fuel)),
                                Box::new((**r).hno_reduce(fuel)),
                            )
                        } else {
                            Term::App(
                                Box::new(l2.hno_reduce(fuel - 1)),
                                Box::new((**r).hno_reduce(fuel)),
                            )
                        }
                    },
                }
            },
            _ => self.clone(),
        }
    }

    /// Reduces `self` under the chosen strategy. `limit` bounds the chains
    /// of redex contractions; at zero the current term is returned
    /// unchanged. With no limit a default bound of one hundred applies, so
    /// that reduction always ends, even on terms without a normal form.
    pub fn beta_reduce(&self, strategy: ReduceStrategy, limit: Option<usize>) -> (res: Term)
        ensures
            res@ == s_beta(self@, strategy, limit),
    {
        let fuel: usize = match limit {
            Option::Some(l) => l,
            Option::None => 100,
        };
        match strategy {
            ReduceStrategy::CBN => self.cbn_reduce(fuel),
            ReduceStrategy::NOR => self.nor_reduce(fuel),
            ReduceStrategy::CBV => self.cbv_reduce(fuel),
            ReduceStrategy::APP => self.app_reduce(fuel),
            ReduceStrategy::HAP => self.hap_reduce(fuel),
            ReduceStrategy::HSR => self.hsr_reduce(fuel),
            ReduceStrategy::HNO => self.hno_reduce(fuel),
        }
    }

    /// The normal form of `self`: hybrid applicative-order reduction to a
    /// fixpoint, under the default bound.
    pub fn nf(&self) -> (res: Term)
        ensures
            res@ == s_beta(self@, ReduceStrategy::HAP, Option::None),
    {
        self.beta_reduce(ReduceStrategy::HAP, Option::None)
    }

    /// The weak head normal form of `self`: call-by-name reduction to a
    /// fixpoint, under the default bound.
    pub fn whnf(&self) -> (res: Term)
        ensures
            res@ == s_beta(self@, ReduceStrategy::CBN, Option::None),
    {
        self.beta_reduce(ReduceStrategy::CBN, Option::None)
    }

    /// The weak normal form of `self`: call-by-value reduction to a
    /// fixpoint, under the default bound.
    pub fn wnf(&self) -> (res: Term)
        ensures
            res@ == s_beta(self@, ReduceStrategy::CBV, Option::None),
    {
        self.beta_reduce(ReduceStrategy::CBV, Option::None)
    }

    /// The head normal form of `self`: head-spine reduction to a fixpoint,
    /// under the default bound.
    pub fn hnf(&self) -> (res: Term)
        ensures
            res@ == s_beta(self@, ReduceStrategy::HSR, Option::None),
    {
        self.beta_reduce(ReduceStrategy::HSR, Option::None)
    }
}

/// The term applied to a variable fresh for it, so that an eta-equivalent
/// head is forced to expose itself under reduction.
pub open spec fn s_applied(t: TermView) -> TermView {
    TermView::App(
        Box::new(t),
        Box::new(
            TermView::Var(UidView { name: seq!['_'], uid: s_max_free(t, Set::empty()) + 1 }),
        ),
    )
}

/// The canonical bare form of a unique-identifier term: every colliding
/// binder deterministically renamed.
pub open spec fn s_canon(t: TermView) -> BareView {
    s_to_bare(t, Map::empty(), Seq::empty()).0
}

/// The canonical retagging of a bare term: tags minted afresh in traversal
/// order, so that alpha-equivalent terms receive equal tags.
pub open spec fn s_reassign(b: BareView) -> TermView {
    s_from_bare(b, 0, Map::empty(), Map::empty()).0
}

/// Alpha-equivalence of two canonically retagged terms: binders must
/// agree by tag, which the canonical retagging assigns by position, and
/// free variables must agree by display name; `bound` carries the tags
/// bound so far.
pub open spec fn s_alpha_eq(a: TermView, b: TermView, bound: Set<nat>) -> bool
    decreases a,
{
    match (a, b) {
        (TermView::Var(x), TermView::Var(y)) => x.uid == y.uid && (bound.contains(x.uid)
            || x.name == y.name),
        (TermView::App(l1, r1), TermView::App(l2, r2)) => s_alpha_eq(*l1, *l2, bound)
            && s_alpha_eq(*r1, *r2, bound),
        (TermView::Abs(x, e1), TermView::Abs(y, e2)) => x.uid == y.uid && s_alpha_eq(
            *e1,
            *e2,
            bound.insert(x.uid),
        ),
        _ => false,
    }
}

/// Equality up to alpha-renaming and eta-expansion: each term is applied
/// to a fresh variable, normalised, canonicalised back to bare names, and
/// retagged so that binder tags depend on position alone; the results are
/// compared with binders matched by tag and free variables by name. The
/// guard on the canonical forms' sizes keeps retagging within the
/// machine's tag space; a term that large cannot exist in memory.
pub open spec fn s_equals(a: TermView, b: TermView) -> bool {
    let ba = s_canon(s_hap(s_applied(a), 100));
    let bb = s_canon(s_hap(s_applied(b), 100));
    if s_size(ba) < usize::MAX as nat && s_size(bb) < usize::MAX as nat {
        s_alpha_eq(s_reassign(ba), s_reassign(bb), Set::empty())
    } else {
        false
    }
}

impl Term {
    /// `self` applied to a variable fresh for it, reduced to normal form.
    fn applied_nf(&self) -> (res: Term)
        requires
            s_max_free(self@, Set::empty()) < usize::MAX as nat,
        ensures
            res@ == s_hap(s_applied(self@), 100),
    {
        let mut g = self.uid_generator();
        let tag = g.next();
        let fresh_name = String::from_str("_");
        proof {
            reveal_strlit("_");
            assert(fresh_name@ =~= seq!['_']);
        }
        let fresh_var = UID { name: fresh_name, uid: tag };
        let ghost fv2 = fresh_var@;
        let varterm = Term::Var(fresh_var);
        assert(varterm@ == TermView::Var(fv2));
        let boxed = Box::new(varterm);
        assert((*boxed)@ == TermView::Var(fv2));
        let applied = Term::App(Box::new(self.clone()), boxed);
        assert(applied@ =~= s_applied(self@));
        applied.nf()
    }

    /// The number of nodes of `t`, up to the machine's limit.
    fn size_capped(t: &BareTerm) -> (r: usize)
        ensures
            r as nat == vstd::math::min(s_size(t@) as int, usize::MAX as int),
        decreases *t,
    {
        match t {
            BareTerm::Var(_) => 1,
            BareTerm::App(l, r) => {
                let a = Term::size_capped(&**l);
                let b = Term::size_capped(&**r);
                if a >= usize::MAX - 1 || b >= usize::MAX - 1 - a {
                    usize::MAX
                } else {
                    1 + a + b
                }
            },
            BareTerm::Abs(_, e) => {
                let a = Term::size_capped(&**e);
                if a == usize::MAX {
                    usize::MAX
                } else {
                    1 + a
                }
            },
        }
    }

    /// Alpha-comparison of two canonically retagged terms.
    fn alpha_eq(&self, other: &Term, bound: &Vec<usize>) -> (r: bool)
        ensures
            r == s_alpha_eq(self@, other@, crate::uid::tag_set(bound@)),
        decreases *self,
    {
        match (self, other) {
            (Term::Var(x), Term::Var(y)) => {
                x.uid == y.uid && (crate::uid::contains_tag(bound, x.uid) || x.name == y.name)
            },
            (Term::App(l1, r1), Term::App(l2, r2)) => {
                (**l1).alpha_eq(&**l2, bound) && (**r1).alpha_eq(&**r2, bound)
            },
            (Term::Abs(x, e1), Term::Abs(y, e2)) => {
                if x.uid != y.uid {
                    false
                } else {
                    let b2 = crate::uid::with_tag(bound, x.uid);
                    (**e1).alpha_eq(&**e2, &b2)
                }
            },
            _ => false,
        }
    }

    /// Whether `self` and `other` are the same term up to alpha-renaming
    /// and eta-expansion.
    pub fn equals(&self, other: &Term) -> (r: bool)
        requires
            s_max_free(self@, Set::empty()) < usize::MAX as nat,
            s_max_free(other@, Set::empty()) < usize::MAX as nat,
        ensures
            r == s_equals(self@, other@),
    {
        let ba = self.applied_nf().to_bare();
        let bb = other.applied_nf().to_bare();
        let sa = Term::size_capped(&ba);
        let sb = Term::size_capped(&bb);
        if sa < usize::MAX && sb < usize::MAX {
            let mut ga = UIDGenerator::default();
            let ta = from_bare(&ba, &mut ga);
            let mut gb = UIDGenerator::default();
            let tb = from_bare(&bb, &mut gb);
            let bound: Vec<usize> = Vec::new();
            assert(crate::uid::tag_set(bound@) =~= Set::<nat>::empty());
            ta.alpha_eq(&tb, &bound)
        } else {
            false
        }
    }
}

} // verus!
