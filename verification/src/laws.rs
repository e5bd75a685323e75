//! Properties of the reduction engine and the indexing pass, stated and
//! proved over the mathematical models.

use vstd::prelude::*;

use crate::ast::s_show;
use crate::ast::BareView;
use crate::ast::ReduceStrategy;
use crate::parser::is_ident_char;
use crate::parser::is_ident_start;
use crate::parser::is_lambda;
use crate::parser::is_ws;
use crate::parser::s_parse;
use crate::parser::s_parse_expr;
use crate::parser::s_parse_rest;
use crate::parser::s_parse_term;
use crate::parser::scan_ident;
use crate::parser::skip_ws;
use crate::parser::starts_term;
use crate::index::s_from_bare;
use crate::index::s_to_bare;
use crate::uid::s_has_collision;
use crate::reduce::s_applied;
use crate::reduce::s_beta;
use crate::reduce::s_canon;
use crate::reduce::s_cbn;
use crate::reduce::s_cbv;
use crate::reduce::s_contract;
use crate::reduce::s_equals;
use crate::reduce::s_hap;
use crate::reduce::s_hno;
use crate::reduce::s_hsr;
use crate::reduce::s_nor;
use crate::reduce::s_subst_term;
use crate::reduce::s_app;
use crate::index::s_size;
use crate::uid::tag_eq;
use crate::uid::TermView;
use crate::uid::UidView;

verus! {

/// Substituting any term into the identity abstraction yields that very
/// term, exactly.
pub proof fn lemma_subst_into_identity(x: UidView, v: TermView)
    ensures
        s_contract(TermView::Abs(x, Box::new(TermView::Var(x))), v) == v,
{
}

/// Alpha-comparison is reflexive, whatever tags are bound.
pub proof fn lemma_alpha_eq_refl(t: TermView, bound: Set<nat>)
    ensures
        crate::reduce::s_alpha_eq(t, t, bound),
    decreases t,
{
    match t {
        TermView::App(l, r) => {
            lemma_alpha_eq_refl(*l, bound);
            lemma_alpha_eq_refl(*r, bound);
        },
        TermView::Abs(x, e) => {
            lemma_alpha_eq_refl(*e, bound.insert(x.uid));
        },
        _ => {},
    }
}

/// Every term equals itself under the semantic equality, as long as its
/// canonical form fits the machine's tag space; a larger term cannot
/// exist in memory. With the identity substitution law, substituting a
/// term `v` into the identity abstraction therefore yields a term that
/// `equals` accepts as `v`.
pub proof fn lemma_equals_refl(t: TermView)
    requires
        s_size(s_canon(s_hap(s_applied(t), 100))) < usize::MAX as nat,
    ensures
        s_equals(t, t),
{
    lemma_alpha_eq_refl(
        crate::reduce::s_reassign(s_canon(s_hap(s_applied(t), 100))),
        Set::empty(),
    );
}

/// One half of the self-application term: a binder applying its variable
/// to itself.
pub open spec fn omega_half(u: UidView) -> TermView {
    TermView::Abs(
        u,
        Box::new(
            TermView::App(Box::new(TermView::Var(u)), Box::new(TermView::Var(u))),
        ),
    )
}

/// The self-application term, which beta-reduces to itself forever.
pub open spec fn omega(u: UidView) -> TermView {
    TermView::App(Box::new(omega_half(u)), Box::new(omega_half(u)))
}

/// Contracting the self-application redex reproduces the term.
proof fn lemma_omega_step(u: UidView)
    ensures
        s_contract(omega_half(u), omega_half(u)) == omega(u),
{
    let body = TermView::App(Box::new(TermView::Var(u)), Box::new(TermView::Var(u)));
    assert(s_subst_term(TermView::Var(u), u.uid, omega_half(u)) == omega_half(u));
    assert(s_subst_term(body, u.uid, omega_half(u)) =~= omega(u));
}

/// The half term is stable under applicative-order reduction.
proof fn lemma_half_app(u: UidView, fuel: nat)
    ensures
        s_app(omega_half(u), fuel) == omega_half(u),
{
    if fuel > 0 {
        let body = TermView::App(Box::new(TermView::Var(u)), Box::new(TermView::Var(u)));
        assert(s_app(TermView::Var(u), fuel) == TermView::Var(u));
        assert(s_app(body, fuel) =~= body);
        assert(s_app(omega_half(u), fuel) =~= omega_half(u));
    }
}

/// The half term is stable under hybrid applicative-order reduction.
proof fn lemma_half_hap(u: UidView, fuel: nat)
    ensures
        s_hap(omega_half(u), fuel) == omega_half(u),
{
    if fuel > 0 {
        let body = TermView::App(Box::new(TermView::Var(u)), Box::new(TermView::Var(u)));
        assert(s_cbv(TermView::Var(u), fuel) == TermView::Var(u));
        assert(s_hap(TermView::Var(u), fuel) == TermView::Var(u));
        assert(s_hap(body, fuel) =~= body);
        assert(s_hap(omega_half(u), fuel) =~= omega_half(u));
    }
}

/// The half term is stable under head-spine reduction.
proof fn lemma_half_hsr(u: UidView, fuel: nat)
    ensures
        s_hsr(omega_half(u), fuel) == omega_half(u),
{
    if fuel > 0 {
        let body = TermView::App(Box::new(TermView::Var(u)), Box::new(TermView::Var(u)));
        assert(s_hsr(TermView::Var(u), fuel) == TermView::Var(u));
        assert(s_hsr(body, fuel) =~= body);
        assert(s_hsr(omega_half(u), fuel) =~= omega_half(u));
    }
}

/// Call-by-name reduction returns the self-application term unchanged,
/// whatever the fuel.
proof fn lemma_omega_cbn(u: UidView, fuel: nat)
    ensures
        s_cbn(omega(u), fuel) == omega(u),
    decreases fuel,
{
    if fuel > 0 {
        assert(s_cbn(omega_half(u), fuel) == omega_half(u));
        lemma_omega_step(u);
        lemma_omega_cbn(u, (fuel - 1) as nat);
    }
}

/// Normal-order reduction returns the self-application term unchanged.
proof fn lemma_omega_nor(u: UidView, fuel: nat)
    ensures
        s_nor(omega(u), fuel) == omega(u),
    decreases fuel,
{
    if fuel > 0 {
        assert(s_cbn(omega_half(u), fuel) == omega_half(u));
        lemma_omega_step(u);
        lemma_omega_nor(u, (fuel - 1) as nat);
    }
}

/// Call-by-value reduction returns the self-application term unchanged.
proof fn lemma_omega_cbv(u: UidView, fuel: nat)
    ensures
        s_cbv(omega(u), fuel) == omega(u),
    decreases fuel,
{
    if fuel > 0 {
        assert(s_cbv(omega_half(u), fuel) == omega_half(u));
        lemma_omega_step(u);
        lemma_omega_cbv(u, (fuel - 1) as nat);
    }
}

/// Applicative-order reduction returns the self-application term
/// unchanged.
proof fn lemma_omega_app(u: UidView, fuel: nat)
    ensures
        s_app(omega(u), fuel) == omega(u),
    decreases fuel,
{
    if fuel > 0 {
        lemma_half_app(u, fuel);
        lemma_omega_step(u);
        lemma_omega_app(u, (fuel - 1) as nat);
    }
}

/// Hybrid applicative-order reduction returns the self-application term
/// unchanged.
proof fn lemma_omega_hap(u: UidView, fuel: nat)
    ensures
        s_hap(omega(u), fuel) == omega(u),
    decreases fuel,
{
    if fuel > 0 {
        assert(s_cbv(omega_half(u), fuel) == omega_half(u));
        lemma_half_hap(u, fuel);
        lemma_omega_step(u);
        lemma_omega_hap(u, (fuel - 1) as nat);
    }
}

/// Head-spine reduction returns the self-application term unchanged.
proof fn lemma_omega_hsr(u: UidView, fuel: nat)
    ensures
        s_hsr(omega(u), fuel) == omega(u),
    decreases fuel,
{
    if fuel > 0 {
        lemma_half_hsr(u, fuel);
        lemma_omega_step(u);
        lemma_omega_hsr(u, (fuel - 1) as nat);
    }
}

/// Head-normal-order reduction returns the self-application term
/// unchanged.
proof fn lemma_omega_hno(u: UidView, fuel: nat)
    ensures
        s_hno(omega(u), fuel) == omega(u),
    decreases fuel,
{
    if fuel > 0 {
        lemma_half_hsr(u, fuel);
        lemma_omega_step(u);
        lemma_omega_hno(u, (fuel - 1) as nat);
    }
}

/// The display names of a unique-identifier term, its tags forgotten.
pub open spec fn strip(t: TermView) -> BareView
    decreases t,
{
    match t {
        TermView::Var(x) => BareView::Var(x.name),
        TermView::App(l, r) => BareView::App(Box::new(strip(*l)), Box::new(strip(*r))),
        TermView::Abs(x, e) => BareView::Abs(x.name, Box::new(strip(*e))),
    }
}

/// The names that binders of `t` bind.
pub open spec fn binder_names(t: BareView) -> Set<Seq<char>>
    decreases t,
{
    match t {
        BareView::Var(_) => Set::empty(),
        BareView::App(l, r) => binder_names(*l).union(binder_names(*r)),
        BareView::Abs(x, e) => binder_names(*e).insert(x),
    }
}

/// The names free in the bare term `t`.
pub open spec fn bare_free(t: BareView) -> Set<Seq<char>>
    decreases t,
{
    match t {
        BareView::Var(x) => Set::empty().insert(x),
        BareView::App(l, r) => bare_free(*l).union(bare_free(*r)),
        BareView::Abs(x, e) => bare_free(*e).remove(x),
    }
}

/// Whether the binders of `t` bind pairwise distinct names: no shadowing
/// and no reuse across branches.
pub open spec fn distinct_binders(t: BareView) -> bool
    decreases t,
{
    match t {
        BareView::Var(_) => true,
        BareView::App(l, r) => distinct_binders(*l) && distinct_binders(*r) && (forall|
            n: Seq<char>,
        |
            binder_names(*l).contains(n) ==> !binder_names(*r).contains(n)),
        BareView::Abs(x, e) => distinct_binders(*e) && !binder_names(*e).contains(x),
    }
}

/// Whether no binder of `u` has a collision in its body: printing `u` by
/// names alone would conflate no two variables.
pub open spec fn no_collisions(u: TermView) -> bool
    decreases u,
{
    match u {
        TermView::Var(_) => true,
        TermView::App(l, r) => no_collisions(*l) && no_collisions(*r),
        TermView::Abs(x, e) => !s_has_collision(*e, x) && no_collisions(*e),
    }
}

/// The variable occurrences of `u`: its leaves.
spec fn occs(u: TermView) -> Set<UidView>
    decreases u,
{
    match u {
        TermView::Var(x) => Set::empty().insert(x),
        TermView::App(l, r) => occs(*l).union(occs(*r)),
        TermView::Abs(_, e) => occs(*e),
    }
}

/// The binder identifiers of `u`.
spec fn binders(u: TermView) -> Set<UidView>
    decreases u,
{
    match u {
        TermView::Var(_) => Set::empty(),
        TermView::App(l, r) => binders(*l).union(binders(*r)),
        TermView::Abs(x, e) => binders(*e).insert(x),
    }
}

/// Bare-to-unique conversion keeps every display name: forgetting the
/// minted tags gives the original term back.
proof fn lemma_from_bare_strip(
    t: BareView,
    c: nat,
    f: Map<Seq<char>, nat>,
    b: Map<Seq<char>, nat>,
)
    ensures
        strip(s_from_bare(t, c, f, b).0) == t,
    decreases t,
{
    match t {
        BareView::Var(_) => {},
        BareView::App(l, r) => {
            let (lt, c2, f2) = s_from_bare(*l, c, f, b);
            lemma_from_bare_strip(*l, c, f, b);
            lemma_from_bare_strip(*r, c2, f2, b);
            assert(strip(s_from_bare(t, c, f, b).0) =~= t);
        },
        BareView::Abs(x, e) => {
            lemma_from_bare_strip(*e, c + 1, f, b.insert(x, c + 1));
            assert(strip(s_from_bare(t, c, f, b).0) =~= t);
        },
    }
}

/// A binder whose display name is carried by no differently-tagged leaf
/// has no collision in `u`.
proof fn lemma_no_collision_from_occs(u: TermView, x: UidView)
    requires
        forall|v: UidView| occs(u).contains(v) && v.name == x.name ==> v.uid == x.uid,
    ensures
        !s_has_collision(u, x),
    decreases u,
{
    match u {
        TermView::Var(y) => {
            assert(occs(u).contains(y));
        },
        TermView::App(l, r) => {
            assert forall|v: UidView|
                occs(*l).contains(v) && v.name == x.name implies v.uid == x.uid by {
                assert(occs(u).contains(v));
            }
            assert forall|v: UidView|
                occs(*r).contains(v) && v.name == x.name implies v.uid == x.uid by {
                assert(occs(u).contains(v));
            }
            lemma_no_collision_from_occs(*l, x);
            lemma_no_collision_from_occs(*r, x);
        },
        TermView::Abs(_, e) => {
            assert forall|v: UidView|
                occs(*e).contains(v) && v.name == x.name implies v.uid == x.uid by {
                assert(occs(u).contains(v));
            }
            lemma_no_collision_from_occs(*e, x);
        },
    }
}

/// A collision-free term converts back to bare names with every display
/// name kept: no rename is ever recorded.
proof fn lemma_to_bare_no_renames(u: TermView, used: Seq<Seq<char>>)
    requires
        no_collisions(u),
    ensures
        s_to_bare(u, Map::empty(), used).0 == strip(u),
    decreases u,
{
    match u {
        TermView::Var(_) => {},
        TermView::App(l, r) => {
            let (lt, used2) = s_to_bare(*l, Map::empty(), used);
            lemma_to_bare_no_renames(*l, used);
            lemma_to_bare_no_renames(*r, used2);
            assert(s_to_bare(u, Map::empty(), used).0 =~= strip(u));
        },
        TermView::Abs(x, e) => {
            lemma_to_bare_no_renames(*e, used);
            assert(s_to_bare(u, Map::empty(), used).0 =~= strip(u));
        },
    }
}

/// The heart of the indexing round-trip: under pairwise distinct binder
/// names, disjoint from the free names and from everything the mappings
/// hold, conversion mints tags so that no binder ever has a collision.
/// The free-name mapping only grows, gains only names free in `t` and not
/// bound, and every leaf of the result carries either the tag of a free
/// name, the tag that `b` prescribes, or the identifier of one of the
/// result's own binders.
proof fn lemma_from_bare_ok(t: BareView, c: nat, f: Map<Seq<char>, nat>, b: Map<Seq<char>, nat>)
    requires
        distinct_binders(t),
        forall|n: Seq<char>| binder_names(t).contains(n) ==> !f.contains_key(n),
        forall|n: Seq<char>| binder_names(t).contains(n) ==> !b.contains_key(n),
        forall|n: Seq<char>| binder_names(t).contains(n) ==> !bare_free(t).contains(n),
    ensures
        ({
            let (out, c2, f2) = s_from_bare(t, c, f, b);
            &&& no_collisions(out)
            &&& forall|n: Seq<char>|
                #![trigger f.contains_key(n)]
                f.contains_key(n) ==> f2.contains_key(n) && f2[n] == f[n]
            &&& forall|n: Seq<char>|
                #![trigger f2.contains_key(n)]
                f2.contains_key(n) ==> f.contains_key(n) || (bare_free(t).contains(n)
                    && !b.contains_key(n))
            &&& forall|v: UidView|
                #![trigger occs(out).contains(v)]
                occs(out).contains(v) ==> (f2.contains_key(v.name) && f2[v.name] == v.uid) || (
                b.contains_key(v.name) && b[v.name] == v.uid) || binders(out).contains(v)
            &&& forall|y: UidView|
                #![trigger binders(out).contains(y)]
                binders(out).contains(y) ==> binder_names(t).contains(y.name)
        }),
    decreases t,
{
    let (out, c2, f2) = s_from_bare(t, c, f, b);
    match t {
        BareView::Var(x) => {
            assert(bare_free(t).contains(x));
        },
        BareView::App(l, r) => {
            let (lt, cl, fl) = s_from_bare(*l, c, f, b);
            let (rt, cr, fr) = s_from_bare(*r, cl, fl, b);
            assert forall|n: Seq<char>|
                binder_names(*l).contains(n) implies !bare_free(*l).contains(n) by {
                assert(binder_names(t).contains(n));
                if bare_free(*l).contains(n) {
                    assert(bare_free(t).contains(n));
                }
            }
            lemma_from_bare_ok(*l, c, f, b);
            assert forall|n: Seq<char>|
                binder_names(*r).contains(n) implies !fl.contains_key(n) by {
                assert(binder_names(t).contains(n));
                if fl.contains_key(n) {
                    if bare_free(*l).contains(n) {
                        assert(bare_free(t).contains(n));
                    }
                }
            }
            assert forall|n: Seq<char>|
                binder_names(*r).contains(n) implies !bare_free(*r).contains(n) by {
                assert(binder_names(t).contains(n));
                if bare_free(*r).contains(n) {
                    assert(bare_free(t).contains(n));
                }
            }
            lemma_from_bare_ok(*r, cl, fl, b);
            assert forall|v: UidView|
                #![trigger occs(out).contains(v)]
                occs(out).contains(v) implies (f2.contains_key(v.name) && f2[v.name] == v.uid) || (
            b.contains_key(v.name) && b[v.name] == v.uid) || binders(out).contains(v) by {
                if occs(lt).contains(v) {
                    if fl.contains_key(v.name) && fl[v.name] == v.uid {
                        assert(fr.contains_key(v.name) && fr[v.name] == v.uid);
                    } else if binders(lt).contains(v) {
                        assert(binders(out).contains(v));
                    }
                } else {
                    assert(occs(rt).contains(v));
                    if binders(rt).contains(v) {
                        assert(binders(out).contains(v));
                    }
                }
            }
            assert forall|y: UidView|
                #![trigger binders(out).contains(y)]
                binders(out).contains(y) implies binder_names(t).contains(y.name) by {
                if binders(lt).contains(y) {
                    assert(binder_names(*l).contains(y.name));
                } else {
                    assert(binders(rt).contains(y));
                    assert(binder_names(*r).contains(y.name));
                }
            }
        },
        BareView::Abs(x, e) => {
            let tag = c + 1;
            let b2 = b.insert(x, tag);
            let (body, cb, fb) = s_from_bare(*e, tag, f, b2);
            assert forall|n: Seq<char>|
                binder_names(*e).contains(n) implies !b2.contains_key(n) by {
                assert(binder_names(t).contains(n));
                assert(n != x);
            }
            assert forall|n: Seq<char>|
                binder_names(*e).contains(n) implies !bare_free(*e).contains(n) by {
                assert(binder_names(t).contains(n));
                assert(n != x);
                if bare_free(*e).contains(n) {
                    assert(bare_free(t).contains(n));
                }
            }
            lemma_from_bare_ok(*e, tag, f, b2);
            let xv = UidView { name: x, uid: tag };
            assert(out == TermView::Abs(xv, Box::new(body)));
            // no leaf of the body shares the binder's name under another tag
            assert forall|v: UidView|
                occs(body).contains(v) && v.name == xv.name implies v.uid == xv.uid by {
                if fb.contains_key(v.name) && fb[v.name] == v.uid {
                    assert(!f.contains_key(x));
                    assert(b2.contains_key(x));
                    assert(false);
                } else if b2.contains_key(v.name) && b2[v.name] == v.uid {
                    assert(b2[x] == tag);
                } else {
                    assert(binders(body).contains(v));
                    assert(binder_names(*e).contains(v.name));
                    assert(false);
                }
            }
            lemma_no_collision_from_occs(body, xv);
            assert forall|n: Seq<char>|
                fb.contains_key(n) implies f.contains_key(n) || (bare_free(t).contains(n)
                && !b.contains_key(n)) by {
                if !f.contains_key(n) {
                    assert(bare_free(*e).contains(n) && !b2.contains_key(n));
                    assert(n != x);
                    assert(bare_free(t).contains(n));
                }
            }
            assert forall|v: UidView|
                #![trigger occs(out).contains(v)]
                occs(out).contains(v) implies (f2.contains_key(v.name) && f2[v.name] == v.uid) || (
            b.contains_key(v.name) && b[v.name] == v.uid) || binders(out).contains(v) by {
                assert(occs(body).contains(v));
                if fb.contains_key(v.name) && fb[v.name] == v.uid {
                } else if b2.contains_key(v.name) && b2[v.name] == v.uid {
                    if v.name == x {
                        assert(v.uid == tag);
                        assert(binders(out).contains(xv));
                        assert(v == xv);
                    }
                } else {
                    assert(binders(body).contains(v));
                    assert(binders(out).contains(v));
                }
            }
            assert forall|y: UidView|
                #![trigger binders(out).contains(y)]
                binders(out).contains(y) implies binder_names(t).contains(y.name) by {
                if y != xv {
                    assert(binders(body).contains(y));
                    assert(binder_names(*e).contains(y.name));
                }
            }
        },
    }
}

/// Indexing round-trip: a bare term whose binder names are pairwise
/// distinct and distinct from its free names converts to unique
/// identifiers and back unchanged, from any starting counter. Only a
/// genuine name collision would make the round trip rename a binder.
pub proof fn lemma_index_round_trip(t: BareView, c: nat)
    requires
        distinct_binders(t),
        forall|n: Seq<char>| binder_names(t).contains(n) ==> !bare_free(t).contains(n),
    ensures
        s_to_bare(
            s_from_bare(t, c, Map::empty(), Map::empty()).0,
            Map::empty(),
            Seq::empty(),
        ).0 == t,
{
    let u = s_from_bare(t, c, Map::empty(), Map::empty()).0;
    lemma_from_bare_strip(t, c, Map::empty(), Map::empty());
    lemma_from_bare_ok(t, c, Map::empty(), Map::empty());
    lemma_to_bare_no_renames(u, Seq::empty());
}

/// Non-termination is contained: reducing the self-application term under
/// any strategy and any step limit ends, and returns the term itself,
/// never an error. Ending is inherent: every reduction in this library is
/// a total function of its fuel.
pub proof fn lemma_omega_contained(u: UidView, strategy: ReduceStrategy, limit: Option<usize>)
    ensures
        s_beta(omega(u), strategy, limit) == omega(u),
{
    let fuel = crate::reduce::s_fuel_of(limit);
    match strategy {
        ReduceStrategy::CBN => lemma_omega_cbn(u, fuel),
        ReduceStrategy::NOR => lemma_omega_nor(u, fuel),
        ReduceStrategy::CBV => lemma_omega_cbv(u, fuel),
        ReduceStrategy::APP => lemma_omega_app(u, fuel),
        ReduceStrategy::HAP => lemma_omega_hap(u, fuel),
        ReduceStrategy::HSR => lemma_omega_hsr(u, fuel),
        ReduceStrategy::HNO => lemma_omega_hno(u, fuel),
    }
}

/// A well-formed display name: nonempty, starting a valid identifier and
/// continuing with identifier characters throughout.
pub open spec fn wf_name(n: Seq<char>) -> bool {
    n.len() >= 1 && is_ident_start(n[0]) && (forall|i: int| 0 <= i < n.len() ==> is_ident_char(n[i]))
}

/// A bare term whose every name, free or binding, is a well-formed
/// identifier: exactly the terms the grammar can produce.
pub open spec fn wf_bare(t: BareView) -> bool
    decreases t,
{
    match t {
        BareView::Var(x) => wf_name(x),
        BareView::App(l, r) => wf_bare(*l) && wf_bare(*r),
        BareView::Abs(x, e) => wf_name(x) && wf_bare(*e),
    }
}

/// The length of the left application spine of `t`: how many more terms
/// the parser folds after the head.
spec fn spine_arity(t: BareView) -> nat
    decreases t,
{
    match t {
        BareView::App(l, _) => spine_arity(*l) + 1,
        _ => 0,
    }
}

/// The rendering of a well-formed term is nonempty and opens with a
/// character that starts a term and is no whitespace; at argument
/// precedence it never opens with an identifier continuation either,
/// unless the term is a variable.
proof fn lemma_show_head(t: BareView, p: int)
    requires
        wf_bare(t),
    ensures
        s_show(t, p).len() >= 1,
        starts_term(s_show(t, p)[0]),
        !is_ws(s_show(t, p)[0]),
    decreases t,
{
    match t {
        BareView::Var(x) => {
            assert(s_show(t, p)[0] == x[0]);
        },
        BareView::App(l, r) => {
            if p > 1 {
                assert(s_show(t, p)[0] == '(');
            } else {
                lemma_show_head(*l, 1);
                assert(s_show(t, p)[0] == s_show(*l, 1)[0]);
            }
        },
        BareView::Abs(_, _) => {
            if p > 0 {
                assert(s_show(t, p)[0] == '(');
            } else {
                assert(s_show(t, p)[0] == '\u{3bb}');
            }
        },
    }
}

/// The spine of a well-formed term is shorter than its rendering.
proof fn lemma_spine_arity_bound(t: BareView)
    requires
        wf_bare(t),
    ensures
        spine_arity(t) < s_show(t, 1).len(),
    decreases t,
{
    match t {
        BareView::Var(x) => {},
        BareView::App(l, r) => {
            lemma_spine_arity_bound(*l);
            lemma_show_head(*r, 2);
        },
        BareView::Abs(_, _) => {},
    }
}

/// Scanning identifier characters stops exactly at the first position
/// that does not continue an identifier.
proof fn lemma_scan_ident_exact(s: Seq<char>, i: int, e: int)
    requires
        0 <= i <= e <= s.len(),
        forall|k: int| i <= k < e ==> is_ident_char(s[k]),
        e == s.len() || !is_ident_char(s[e]),
    ensures
        scan_ident(s, i) == e,
    decreases e - i,
{
    if i < e {
        lemma_scan_ident_exact(s, i + 1, e);
    }
}

/// Parsing one term of the grammar at the start of its own rendering, at
/// argument precedence, consumes exactly the rendering and yields the
/// term; the character after it, if any, must not continue an
/// identifier.
proof fn lemma_parse_of_show_term(t: BareView, s: Seq<char>, i: int, fuel: nat)
    requires
        wf_bare(t),
        0 <= i,
        i + s_show(t, 2).len() <= s.len(),
        s.subrange(i, i + s_show(t, 2).len() as int) == s_show(t, 2),
        i + s_show(t, 2).len() == s.len() || !is_ident_char(s[i + s_show(t, 2).len()]),
        fuel >= s.len() - i,
    ensures
        s_parse_term(s, i, fuel) == Result::<(BareView, int), int>::Ok((t, i + s_show(t, 2).len() as int)),
    decreases s_size(t), 3int,
{
    let shown = s_show(t, 2);
    let e = i + shown.len() as int;
    assert forall|k: int| 0 <= k < shown.len() implies s[i + k] == shown[k] by {
        assert(s.subrange(i, e)[k] == s[i + k]);
    }
    lemma_show_head(t, 2);
    assert(skip_ws(s, i) == i);
    match t {
        BareView::Var(x) => {
            assert(shown == x);
            assert(is_ident_start(s[i]));
            assert forall|k: int| i <= k < e implies is_ident_char(s[k]) by {
                assert(s[k] == x[k - i]);
            }
            lemma_scan_ident_exact(s, i, e);
            assert(s.subrange(i, e) =~= x);
            assert(!is_lambda(s[i]) && s[i] != '(');
        },
        _ => {
            // An application or abstraction renders parenthesised at this
            // precedence, around its top-level rendering.
            assert(shown =~= seq!['('] + s_show(t, 0) + seq![')']) by {
                match t {
                    BareView::App(l, r) => {},
                    BareView::Abs(x, b) => {},
                    _ => {},
                }
            }
            assert(s[i] == '(');
            assert(!is_ident_start('(') && !is_lambda('('));
            assert(fuel >= 1) by {
                assert(shown.len() >= 1);
            }
            let inner = s_show(t, 0);
            assert forall|k: int| 0 <= k < inner.len() implies s[i + 1 + k] == inner[k] by {
                assert(shown[1 + k] == inner[k]);
            }
            assert(s.subrange(i + 1, i + 1 + inner.len() as int) =~= inner);
            assert(s[e - 1] == ')') by {
                assert(shown[shown.len() - 1] == ')');
            }
            lemma_parse_of_show_top(t, s, i + 1, (fuel - 1) as nat);
            assert(s_parse_expr(s, i + 1, (fuel - 1) as nat) == Result::<(BareView, int), int>::Ok((t, e - 1)));
            assert(skip_ws(s, e - 1) == e - 1) by {
                assert(!is_ws(')'));
            }
            assert(s_parse_term(s, i, fuel) == Result::<(BareView, int), int>::Ok((t, e)));
        },
    }
}

/// Parsing an expression at the start of a term's top-level rendering,
/// followed by nothing or a closing parenthesis, consumes exactly the
/// rendering and yields the term.
proof fn lemma_parse_of_show_top(t: BareView, s: Seq<char>, i: int, fuel: nat)
    requires
        wf_bare(t),
        0 <= i,
        i + s_show(t, 0).len() <= s.len(),
        s.subrange(i, i + s_show(t, 0).len() as int) == s_show(t, 0),
        i + s_show(t, 0).len() == s.len() || s[i + s_show(t, 0).len()] == ')',
        fuel >= s.len() - i,
    ensures
        s_parse_expr(s, i, fuel) == Result::<(BareView, int), int>::Ok((t, i + s_show(t, 0).len() as int)),
    decreases s_size(t), 2int,
{
    let shown = s_show(t, 0);
    let e = i + shown.len() as int;
    assert forall|k: int| 0 <= k < shown.len() implies s[i + k] == shown[k] by {
        assert(s.subrange(i, e)[k] == s[i + k]);
    }
    assert(e == s.len() || !is_ident_char(s[e]) && !starts_term(s[e]) && !is_ws(s[e])) by {
        if e < s.len() {
            assert(s[e] == ')');
        }
    }
    match t {
        BareView::Abs(x, body) => {
            lemma_parse_of_show_lambda(x, *body, s, i, fuel);
            assert(s_parse_term(s, i, fuel) == Result::<(BareView, int), int>::Ok((t, e)));
            assert(skip_ws(s, e) == e);
            assert(s_parse_rest(t, s, e, fuel) == Result::<(BareView, int), int>::Ok((t, e)));
        },
        _ => {
            assert(s_show(t, 0) == s_show(t, 1)) by {
                match t {
                    BareView::Var(x) => {},
                    BareView::App(l, r) => {},
                    _ => {},
                }
            }
            lemma_parse_of_show_cont(t, s, i, fuel);
            let left = (fuel - spine_arity(t)) as nat;
            assert(s_parse_expr(s, i, fuel) == s_parse_rest(t, s, e, left));
            assert(skip_ws(s, e) == e);
            assert(s_parse_rest(t, s, e, left) == Result::<(BareView, int), int>::Ok((t, e)));
        },
    }
}

/// Parsing an abstraction written out in full: the lambda mark, the
/// binder, the dot, and the body's top-level rendering, followed by
/// nothing or a closing parenthesis.
proof fn lemma_parse_of_show_lambda(x: Seq<char>, body: BareView, s: Seq<char>, i: int, fuel: nat)
    requires
        wf_name(x),
        wf_bare(body),
        0 <= i,
        ({
            let shown = seq!['\u{3bb}'] + x + seq!['.'] + s_show(body, 0);
            &&& i + shown.len() <= s.len()
            &&& s.subrange(i, i + shown.len() as int) == shown
            &&& (i + shown.len() == s.len() || s[i + shown.len()] == ')')
        }),
        fuel >= s.len() - i,
    ensures
        s_parse_term(s, i, fuel) == Result::<(BareView, int), int>::Ok(
            (
                BareView::Abs(x, Box::new(body)),
                i + 2 + x.len() + s_show(body, 0).len() as int,
            ),
        ),
    decreases s_size(BareView::Abs(x, Box::new(body))), 0int,
{
    let showb = s_show(body, 0);
    let shown = seq!['\u{3bb}'] + x + seq!['.'] + showb;
    let e = i + shown.len() as int;
    assert forall|k: int| 0 <= k < shown.len() implies s[i + k] == shown[k] by {
        assert(s.subrange(i, e)[k] == s[i + k]);
    }
    assert(shown[0] == '\u{3bb}');
    assert(s[i] == '\u{3bb}');
    assert(!is_ws(s[i]) && !is_ident_start(s[i]) && s[i] != '(' && is_lambda(s[i]));
    assert(skip_ws(s, i) == i);
    assert forall|k: int| 0 <= k < x.len() implies s[i + 1 + k] == x[k] by {
        assert(shown[1 + k] == x[k]);
    }
    let dot = i + 1 + x.len() as int;
    assert(s[dot] == '.') by {
        assert(shown[1 + x.len() as int] == '.');
    }
    assert(!is_ws(s[i + 1]) && is_ident_start(s[i + 1])) by {
        assert(s[i + 1] == x[0]);
    }
    assert(skip_ws(s, i + 1) == i + 1);
    assert forall|k: int| i + 1 <= k < dot implies is_ident_char(s[k]) by {
        assert(s[k] == x[k - i - 1]);
    }
    assert(!is_ident_char('.'));
    lemma_scan_ident_exact(s, i + 1, dot);
    assert(s.subrange(i + 1, dot) =~= x);
    assert(!is_ws('.'));
    assert(skip_ws(s, dot) == dot);
    lemma_show_head(body, 0);
    assert(fuel >= 3 + x.len()) by {
        assert(shown.len() >= 3 + x.len());
    }
    let bstart = dot + 1;
    assert forall|k: int| 0 <= k < showb.len() implies s[bstart + k] == showb[k] by {
        assert(shown[2 + x.len() + k] == showb[k]);
    }
    assert(s.subrange(bstart, bstart + showb.len() as int) =~= showb);
    lemma_parse_of_show_top(body, s, bstart, (fuel - 1) as nat);
    assert(s_parse_expr(s, bstart, (fuel - 1) as nat) == Result::<(BareView, int), int>::Ok((body, e)));
}

/// Parsing an expression at the start of a term's spine-level rendering
/// folds the whole spine and then continues with whatever follows, with
/// one unit of fuel spent per spine member.
proof fn lemma_parse_of_show_cont(t: BareView, s: Seq<char>, i: int, fuel: nat)
    requires
        wf_bare(t),
        0 <= i,
        i + s_show(t, 1).len() <= s.len(),
        s.subrange(i, i + s_show(t, 1).len() as int) == s_show(t, 1),
        i + s_show(t, 1).len() == s.len() || !is_ident_char(s[i + s_show(t, 1).len()]),
        fuel >= s.len() - i,
    ensures
        spine_arity(t) <= fuel,
        s_parse_expr(s, i, fuel) == s_parse_rest(
            t,
            s,
            i + s_show(t, 1).len() as int,
            (fuel - spine_arity(t)) as nat,
        ),
    decreases s_size(t), 1int,
{
    let shown = s_show(t, 1);
    let e = i + shown.len() as int;
    assert forall|k: int| 0 <= k < shown.len() implies s[i + k] == shown[k] by {
        assert(s.subrange(i, e)[k] == s[i + k]);
    }
    lemma_spine_arity_bound(t);
    assert(fuel >= shown.len()) by {
        assert(s.len() - i >= shown.len());
    }
    match t {
        BareView::Var(x) => {
            assert(shown == x);
            lemma_show_head(t, 1);
            assert(skip_ws(s, i) == i);
            assert(is_ident_start(s[i]));
            assert forall|k: int| i <= k < e implies is_ident_char(s[k]) by {
                assert(s[k] == x[k - i]);
            }
            lemma_scan_ident_exact(s, i, e);
            assert(s.subrange(i, e) =~= x);
            assert(s_parse_term(s, i, fuel) == Result::<(BareView, int), int>::Ok((t, e)));
        },
        BareView::Abs(x, body) => {
            // Parenthesised at this precedence.
            let inner = s_show(t, 0);
            assert(shown =~= seq!['('] + inner + seq![')']);
            assert(shown[0] == '(');
            assert(s[i + 0] == shown[0]);
            assert(s[i] == '(');
            assert(!is_ws('(') && !is_ident_start('(') && !is_lambda('('));
            assert(skip_ws(s, i) == i);
            assert forall|k: int| 0 <= k < inner.len() implies s[i + 1 + k] == inner[k] by {
                assert(shown[1 + k] == inner[k]);
            }
            assert(s.subrange(i + 1, i + 1 + inner.len() as int) =~= inner);
            assert(s[e - 1] == ')') by {
                assert(shown[shown.len() - 1] == ')');
            }
            lemma_parse_of_show_lambda(x, *body, s, i + 1, (fuel - 1) as nat);
            assert(s_parse_term(s, i + 1, (fuel - 1) as nat) == Result::<(BareView, int), int>::Ok((t, e - 1)));
            assert(skip_ws(s, e - 1) == e - 1) by {
                assert(!is_ws(')'));
            }
            assert(!starts_term(')'));
            assert(s_parse_rest(t, s, e - 1, (fuel - 1) as nat) == Result::<
                (BareView, int),
                int,
            >::Ok((t, e - 1)));
            assert(s_parse_expr(s, i + 1, (fuel - 1) as nat) == Result::<(BareView, int), int>::Ok((t, e - 1)));
            assert(s_parse_term(s, i, fuel) == Result::<(BareView, int), int>::Ok((t, e)));
        },
        BareView::App(l, r) => {
            let showl = s_show(*l, 1);
            let showr = s_show(*r, 2);
            assert(shown =~= showl + seq![' '] + showr);
            let el = i + showl.len() as int;
            assert forall|k: int| 0 <= k < showl.len() implies s[i + k] == showl[k] by {
                assert(shown[k] == showl[k]);
            }
            assert(s.subrange(i, el) =~= showl);
            assert(s[el] == ' ') by {
                assert(shown[showl.len() as int] == ' ');
            }
            assert(!is_ident_char(' '));
            lemma_parse_of_show_cont(*l, s, i, fuel);
            let fl = (fuel - spine_arity(*l)) as nat;
            // One space, then the argument's rendering begins.
            lemma_show_head(*r, 2);
            assert(s[el + 1] == showr[0]) by {
                assert(shown[showl.len() + 1 as int] == showr[0]);
            }
            assert(is_ws(' '));
            assert(skip_ws(s, el) == el + 1);
            assert(starts_term(s[el + 1]));
            lemma_spine_arity_bound(*l);
            assert(spine_arity(*l) < showl.len());
            assert(fl >= 1) by {
                assert(fuel >= s.len() - i);
                assert(s.len() - i >= shown.len());
            }
            assert forall|k: int| 0 <= k < showr.len() implies s[el + 1 + k] == showr[k] by {
                assert(shown[showl.len() + 1 + k] == showr[k]);
            }
            assert(s.subrange(el + 1, el + 1 + showr.len() as int) =~= showr);
            assert(fl >= s.len() - (el + 1)) by {
                assert(fuel - spine_arity(*l) >= s.len() - i - (showl.len() - 1));
            }
            lemma_parse_of_show_term(*r, s, el + 1, fl);
            assert(s_parse_term(s, el + 1, fl) == Result::<(BareView, int), int>::Ok((*r, e)));
            assert(s_parse_rest(*l, s, el, fl) == s_parse_rest(t, s, e, (fl - 1) as nat));
            assert((fl - 1) as nat == (fuel - spine_arity(t)) as nat);
        },
    }
}

/// The parse and print round trip: printing any well-formed term and
/// parsing the rendering yields the term back, exactly.
pub proof fn lemma_parse_print_round_trip(t: BareView)
    requires
        wf_bare(t),
    ensures
        s_parse(s_show(t, 0)) == Result::<BareView, int>::Ok(t),
{
    let s = s_show(t, 0);
    assert(s.subrange(0, s.len() as int) =~= s);
    lemma_show_head(t, 0);
    lemma_parse_of_show_top(t, s, 0, s.len() as nat);
}

/// Eta equality on a variable head: an abstraction that merely applies a
/// different variable `f` to its own binder equals `f` itself. Both sides
/// reduce, once applied to a fresh variable, to the same application of
/// `f`, and canonicalise identically.
pub proof fn lemma_eta_on_variable(f: UidView, x: UidView)
    requires
        x.uid != f.uid,
    ensures
        s_equals(TermView::Abs(x, Box::new(TermView::App(
            Box::new(TermView::Var(f)),
            Box::new(TermView::Var(x)),
        ))), TermView::Var(f)),
{
    let lhs = TermView::Abs(x, Box::new(TermView::App(
        Box::new(TermView::Var(f)),
        Box::new(TermView::Var(x)),
    )));
    let rhs = TermView::Var(f);
    let m1 = crate::uid::s_max_free(lhs, Set::empty()) + 1;
    let m2 = crate::uid::s_max_free(rhs, Set::empty()) + 1;
    assert(crate::uid::s_max_free(lhs, Set::empty()) == f.uid) by {
        let b1 = Set::empty().insert(x.uid);
        assert(crate::uid::s_max_free(TermView::Var(f), b1) == f.uid);
        assert(crate::uid::s_max_free(TermView::Var(x), b1) == 0);
        assert(crate::uid::s_max_free(
            TermView::App(Box::new(TermView::Var(f)), Box::new(TermView::Var(x))),
            b1,
        ) == f.uid);
    }
    assert(m1 == f.uid + 1 && m2 == f.uid + 1);
    let fresh1 = UidView { name: seq!['_'], uid: m1 };
    let applied1 = TermView::App(Box::new(lhs), Box::new(TermView::Var(fresh1)));
    let applied2 = TermView::App(Box::new(rhs), Box::new(TermView::Var(fresh1)));
    assert(s_applied(lhs) == applied1);
    assert(s_applied(rhs) == applied2);
    let reduct = TermView::App(Box::new(TermView::Var(f)), Box::new(TermView::Var(fresh1)));
    // The left side contracts once and is then stable.
    assert(s_hap(applied1, 100) == reduct) by {
        assert(s_cbv(lhs, 100) == lhs);
        assert(s_hap(TermView::Var(fresh1), 100) == TermView::Var(fresh1));
        assert(s_contract(lhs, TermView::Var(fresh1)) =~= reduct) by {
            assert(s_subst_term(TermView::Var(f), x.uid, TermView::Var(fresh1))
                == TermView::Var(f));
            assert(s_subst_term(TermView::Var(x), x.uid, TermView::Var(fresh1))
                == TermView::Var(fresh1));
        }
        assert(s_hap(reduct, 99) == reduct) by {
            assert(s_cbv(TermView::Var(f), 99) == TermView::Var(f));
            assert(tag_eq(TermView::Var(f), TermView::Var(f)));
            assert(s_hap(TermView::Var(f), 99) == TermView::Var(f));
            assert(s_hap(TermView::Var(fresh1), 99) == TermView::Var(fresh1));
            assert(s_hap(reduct, 99) =~= reduct);
        }
    }
    // The right side is already an application of a variable head.
    assert(s_hap(applied2, 100) == reduct) by {
        assert(s_cbv(rhs, 100) == rhs);
        assert(tag_eq(rhs, rhs));
        assert(s_hap(rhs, 100) == rhs);
        assert(s_hap(TermView::Var(fresh1), 100) == TermView::Var(fresh1));
        assert(s_hap(applied2, 100) =~= reduct);
    }
    // Both sides canonicalise to the same bare application, so the
    // retagged forms are one and the same term.
    assert(s_canon(reduct) == BareView::App(
        Box::new(BareView::Var(f.name)),
        Box::new(BareView::Var(seq!['_'])),
    )) by {
        let em = Map::<nat, Seq<char>>::empty();
        assert(!em.contains_key(f.uid) && !em.contains_key(fresh1.uid));
        let u0 = Seq::<Seq<char>>::empty();
        assert(s_to_bare(TermView::Var(f), em, u0) == (BareView::Var(f.name), u0));
        assert(s_to_bare(TermView::Var(fresh1), em, u0) == (
            BareView::Var(seq!['_']),
            u0,
        ));
        assert(s_to_bare(reduct, em, u0).0 =~= BareView::App(
            Box::new(BareView::Var(f.name)),
            Box::new(BareView::Var(seq!['_'])),
        ));
    }
    assert(s_size(s_canon(reduct)) == 3) by {
        assert(s_size(BareView::Var(f.name)) == 1);
        assert(s_size(BareView::Var(seq!['_'])) == 1);
    }
    lemma_alpha_eq_refl(crate::reduce::s_reassign(s_canon(reduct)), Set::empty());
}

/// The reconstructed generator bound really is the greatest free tag:
/// every free variable's tag lies at or below it, and unless it is zero
/// some free variable attains it. The variable that the semantic
/// equality applies a term to, minted one above this bound, therefore
/// occurs nowhere free in the term.
pub proof fn lemma_max_free_attained(t: TermView, bound: Set<nat>)
    ensures
        forall|v: UidView|
            crate::uid::s_fv(t, bound).contains(v) ==> v.uid <= crate::uid::s_max_free(t, bound),
        crate::uid::s_max_free(t, bound) == 0 || crate::uid::set_has_tag(
            crate::uid::s_fv(t, bound),
            crate::uid::s_max_free(t, bound),
        ),
    decreases t,
{
    match t {
        TermView::Var(x) => {
            if !bound.contains(x.uid) {
                assert(crate::uid::s_fv(t, bound).contains(x));
                assert(crate::uid::set_has_tag(crate::uid::s_fv(t, bound), x.uid));
            }
            assert forall|v: UidView|
                crate::uid::s_fv(t, bound).contains(v) implies v.uid <= crate::uid::s_max_free(
                t,
                bound,
            ) by {
                assert(v == x);
            }
        },
        TermView::App(l, r) => {
            lemma_max_free_attained(*l, bound);
            lemma_max_free_attained(*r, bound);
            let m = crate::uid::s_max_free(t, bound);
            let ml = crate::uid::s_max_free(*l, bound);
            let mr = crate::uid::s_max_free(*r, bound);
            assert forall|v: UidView|
                crate::uid::s_fv(t, bound).contains(v) implies v.uid <= m by {
                assert(crate::uid::s_fv(*l, bound).contains(v) || crate::uid::s_fv(
                    *r,
                    bound,
                ).contains(v));
            }
            if m != 0 {
                if m == ml {
                    let v = choose|v: UidView|
                        crate::uid::s_fv(*l, bound).contains(v) && v.uid == ml;
                    assert(crate::uid::s_fv(t, bound).contains(v));
                } else {
                    let v = choose|v: UidView|
                        crate::uid::s_fv(*r, bound).contains(v) && v.uid == mr;
                    assert(crate::uid::s_fv(t, bound).contains(v));
                }
            }
        },
        TermView::Abs(x, e) => {
            lemma_max_free_attained(*e, bound.insert(x.uid));
        },
    }
}

/// Skipping whitespace stays within the input.
proof fn lemma_skip_ws_bounds(s: Seq<char>, i: int)
    requires
        0 <= i <= s.len(),
    ensures
        i <= skip_ws(s, i) <= s.len(),
    decreases s.len() - i,
{
    if i < s.len() && is_ws(s[i]) {
        lemma_skip_ws_bounds(s, i + 1);
    }
}

/// Scanning identifier characters stays within the input and passes only
/// identifier characters.
proof fn lemma_scan_ident_bounds(s: Seq<char>, i: int)
    requires
        0 <= i <= s.len(),
    ensures
        i <= scan_ident(s, i) <= s.len(),
        forall|m: int| i <= m < scan_ident(s, i) ==> is_ident_char(s[m]),
    decreases s.len() - i,
{
    if i < s.len() && is_ident_char(s[i]) {
        lemma_scan_ident_bounds(s, i + 1);
        assert forall|m: int| i <= m < scan_ident(s, i) implies is_ident_char(s[m]) by {
            if m > i {
                assert(is_ident_char(s[m]));
            }
        }
    }
}

/// The identifier run beginning at a position the parser accepts is a
/// well-formed name.
proof fn lemma_scanned_name_wf(s: Seq<char>, j: int)
    requires
        0 <= j < s.len(),
        is_ident_start(s[j]),
    ensures
        j < scan_ident(s, j) <= s.len(),
        wf_name(s.subrange(j, scan_ident(s, j))),
    decreases s.len() - j,
{
    lemma_scan_ident_bounds(s, j);
    lemma_scan_ident_bounds(s, j + 1);
    assert(is_ident_char(s[j]));
    assert(scan_ident(s, j) == scan_ident(s, j + 1));
    let name = s.subrange(j, scan_ident(s, j));
    assert(name[0] == s[j]);
    assert(forall|m: int| 0 <= m < name.len() ==> name[m] == s[j + m] && is_ident_char(s[j + m]));
}

/// Whatever one parsed term holds is well-formed, and parsing stays
/// within the input.
proof fn lemma_parse_term_wf(s: Seq<char>, i: int, fuel: nat)
    requires
        0 <= i <= s.len(),
    ensures
        s_parse_term(s, i, fuel) matches Result::Ok(p) ==> wf_bare(p.0) && 0 <= p.1 <= s.len(),
    decreases fuel, 0int,
{
    let j = skip_ws(s, i);
    lemma_skip_ws_bounds(s, i);
    if j < s.len() {
        if is_ident_start(s[j]) {
            lemma_scanned_name_wf(s, j);
        } else if s[j] == '(' {
            if fuel > 0 {
                lemma_parse_expr_wf(s, j + 1, (fuel - 1) as nat);
                if let Result::Ok((t, k)) = s_parse_expr(s, j + 1, (fuel - 1) as nat) {
                    lemma_skip_ws_bounds(s, k);
                }
            }
        } else if is_lambda(s[j]) {
            lemma_skip_ws_bounds(s, j + 1);
            let j2 = skip_ws(s, j + 1);
            if j2 < s.len() && is_ident_start(s[j2]) {
                lemma_scanned_name_wf(s, j2);
                let k = scan_ident(s, j2);
                lemma_skip_ws_bounds(s, k);
                let j3 = skip_ws(s, k);
                if j3 < s.len() && s[j3] == '.' && fuel > 0 {
                    lemma_parse_expr_wf(s, j3 + 1, (fuel - 1) as nat);
                }
            }
        }
    }
}

/// Folding further terms onto a well-formed one keeps the result
/// well-formed, and parsing stays within the input.
proof fn lemma_parse_rest_wf(acc: BareView, s: Seq<char>, i: int, fuel: nat)
    requires
        wf_bare(acc),
        0 <= i <= s.len(),
    ensures
        s_parse_rest(acc, s, i, fuel) matches Result::Ok(p) ==> wf_bare(p.0) && 0 <= p.1
            <= s.len(),
    decreases fuel, 1int,
{
    let j = skip_ws(s, i);
    lemma_skip_ws_bounds(s, i);
    if j < s.len() && starts_term(s[j]) && fuel > 0 {
        lemma_parse_term_wf(s, j, fuel);
        if let Result::Ok((t, k)) = s_parse_term(s, j, fuel) {
            lemma_parse_rest_wf(
                BareView::App(Box::new(acc), Box::new(t)),
                s,
                k,
                (fuel - 1) as nat,
            );
        }
    }
}

/// Whatever one parsed expression holds is well-formed, and parsing stays
/// within the input.
proof fn lemma_parse_expr_wf(s: Seq<char>, i: int, fuel: nat)
    requires
        0 <= i <= s.len(),
    ensures
        s_parse_expr(s, i, fuel) matches Result::Ok(p) ==> wf_bare(p.0) && 0 <= p.1 <= s.len(),
    decreases fuel, 2int,
{
    lemma_parse_term_wf(s, i, fuel);
    if let Result::Ok((t, j)) = s_parse_term(s, i, fuel) {
        lemma_parse_rest_wf(t, s, j, fuel);
    }
}

/// Every parse result is a well-formed term: each of its names starts an
/// identifier and continues with identifier characters.
pub proof fn lemma_parse_wf(s: Seq<char>)
    ensures
        s_parse(s) matches Result::Ok(t) ==> wf_bare(t),
{
    lemma_parse_expr_wf(s, 0, s.len() as nat);
}

/// The round trip on parseable terms: whatever some text parses to,
/// printing it and parsing again yields the same term.
pub proof fn lemma_parseable_round_trip(s: Seq<char>)
    ensures
        s_parse(s) matches Result::Ok(t) ==> s_parse(s_show(t, 0)) == Result::<
            BareView,
            int,
        >::Ok(t),
{
    if let Result::Ok(t) = s_parse(s) {
        lemma_parse_wf(s);
        lemma_parse_print_round_trip(t);
    }
}

} // verus!
