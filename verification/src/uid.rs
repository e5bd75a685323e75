//! Terms over globally-unique identifiers.
//!
//! A unique identifier pairs a display name with a numeric tag; two unique
//! identifiers denote the same variable exactly when their tags are equal,
//! whatever their names. The reduction engine works on these terms, so
//! substitution needs no renaming: no two binders share a tag.

use vstd::prelude::*;

verus! {

/// The model of a unique identifier: a display name and a tag.
pub struct UidView {
    pub name: Seq<char>,
    pub uid: nat,
}

/// A unique identifier: `name` is only for display, `uid` decides equality.
#[derive(Debug)]
pub struct UID {
    pub name: String,
    pub uid: usize,
}

impl View for UID {
    type V = UidView;

    open spec fn view(&self) -> UidView {
        UidView { name: self.name@, uid: self.uid as nat }
    }
}

impl Clone for UID {
    /// A clone keeps both the name and the tag.
    fn clone(&self) -> (res: Self)
        ensures
            res@ == self@,
    {
        UID { name: self.name.clone(), uid: self.uid }
    }
}

impl PartialEq for UID {
    /// Two unique identifiers are equal exactly when their tags are equal.
    fn eq(&self, other: &Self) -> (r: bool) {
        self.uid == other.uid
    }
}

impl vstd::std_specs::cmp::PartialEqSpecImpl for UID {
    open spec fn obeys_eq_spec() -> bool {
        true
    }

    open spec fn eq_spec(&self, other: &Self) -> bool {
        self@.uid == other@.uid
    }
}

/// Mints fresh tags: a monotonic counter whose `next` returns a previously
/// unused positive integer.
pub struct UIDGenerator {
    count: usize,
}

impl View for UIDGenerator {
    type V = nat;

    closed spec fn view(&self) -> nat {
        self.count as nat
    }
}

impl Clone for UIDGenerator {
    /// A clone carries the same counter state.
    fn clone(&self) -> (res: Self)
        ensures
            res@ == self@,
    {
        UIDGenerator { count: self.count }
    }
}

impl UIDGenerator {
    /// A generator that has minted nothing yet.
    pub fn default() -> (r: Self)
        ensures
            r@ == 0,
    {
        UIDGenerator { count: 0 }
    }

    /// Mints the next tag: one more than every tag minted before.
    pub fn next(&mut self) -> (r: usize)
        requires
            old(self)@ < usize::MAX as nat,
        ensures
            final(self)@ == old(self)@ + 1,
            r as nat == final(self)@,
    {
        self.count = self.count + 1;
        self.count
    }
}

/// The model of a unique-identifier term.
#[verifier::ext_equal]
pub enum TermView {
    Var(UidView),
    App(Box<TermView>, Box<TermView>),
    Abs(UidView, Box<TermView>),
}

/// A term of the untyped lambda calculus over unique identifiers.
#[derive(Debug)]
pub enum Term {
    Var(UID),
    App(Box<Term>, Box<Term>),
    Abs(UID, Box<Term>),
}

/// The model of a unique-identifier term.
pub open spec fn term_view(t: Term) -> TermView
    decreases t,
{
    match t {
        Term::Var(x) => TermView::Var(x@),
        Term::App(l, r) => TermView::App(Box::new(term_view(*l)), Box::new(term_view(*r))),
        Term::Abs(x, e) => TermView::Abs(x@, Box::new(term_view(*e))),
    }
}

impl View for Term {
    type V = TermView;

    open spec fn view(&self) -> TermView {
        term_view(*self)
    }
}

/// The height of a term tree; structural recursions on reduced terms
/// decrease it.
pub open spec fn height(t: TermView) -> nat
    decreases t,
{
    match t {
        TermView::Var(_) => 0,
        TermView::App(l, r) => (1 + vstd::math::max(height(*l) as int, height(*r) as int)) as nat,
        TermView::Abs(_, e) => 1 + height(*e),
    }
}

/// Equality up to display names: equal shapes with equal tags throughout.
/// This is term equality proper, since a unique identifier is its tag.
pub open spec fn tag_eq(a: TermView, b: TermView) -> bool
    decreases a,
{
    match (a, b) {
        (TermView::Var(x), TermView::Var(y)) => x.uid == y.uid,
        (TermView::App(l1, r1), TermView::App(l2, r2)) => tag_eq(*l1, *l2) && tag_eq(*r1, *r2),
        (TermView::Abs(x, e1), TermView::Abs(y, e2)) => x.uid == y.uid && tag_eq(*e1, *e2),
        _ => false,
    }
}

/// Terms equal up to display names have the same shape, hence equal heights.
pub proof fn lemma_tag_eq_height(a: TermView, b: TermView)
    requires
        tag_eq(a, b),
    ensures
        height(a) == height(b),
    decreases a,
{
    match (a, b) {
        (TermView::App(l1, r1), TermView::App(l2, r2)) => {
            lemma_tag_eq_height(*l1, *l2);
            lemma_tag_eq_height(*r1, *r2);
        },
        (TermView::Abs(x, e1), TermView::Abs(y, e2)) => {
            lemma_tag_eq_height(*e1, *e2);
        },
        _ => {},
    }
}

impl Clone for Term {
    /// A clone is the very same term.
    fn clone(&self) -> (res: Self)
        ensures
            res@ == self@,
        decreases *self,
    {
        match self {
            Term::Var(x) => Term::Var(x.clone()),
            Term::App(l, r) => Term::App(Box::new((**l).clone()), Box::new((**r).clone())),
            Term::Abs(x, e) => Term::Abs(x.clone(), Box::new((**e).clone())),
        }
    }
}

impl PartialEq for Term {
    /// Structural equality with tag-based identifier equality.
    fn eq(&self, other: &Self) -> (r: bool)
        decreases *self,
    {
        match (self, other) {
            (Term::Var(x), Term::Var(y)) => x.uid == y.uid,
            (Term::App(l1, r1), Term::App(l2, r2)) => (**l1).eq(&**l2) && (**r1).eq(&**r2),
            (Term::Abs(x, e1), Term::Abs(y, e2)) => x.uid == y.uid && (**e1).eq(&**e2),
            _ => false,
        }
    }
}

impl vstd::std_specs::cmp::PartialEqSpecImpl for Term {
    open spec fn obeys_eq_spec() -> bool {
        true
    }

    open spec fn eq_spec(&self, other: &Self) -> bool {
        tag_eq(self@, other@)
    }
}

/// The free variable occurrences of `t`, those not bound by an enclosing
/// abstraction; `bound` carries the tags bound so far.
pub open spec fn s_fv(t: TermView, bound: Set<nat>) -> Set<UidView>
    decreases t,
{
    match t {
        TermView::Var(x) => if bound.contains(x.uid) {
            Set::empty()
        } else {
            Set::empty().insert(x)
        },
        TermView::App(l, r) => s_fv(*l, bound).union(s_fv(*r, bound)),
        TermView::Abs(x, e) => s_fv(*e, bound.insert(x.uid)),
    }
}

/// The free variables of a whole term.
pub open spec fn free_vars(t: TermView) -> Set<UidView> {
    s_fv(t, Set::empty())
}

/// The display names of the free variable occurrences of `t`.
pub open spec fn s_free_names(t: TermView, bound: Set<nat>) -> Set<Seq<char>>
    decreases t,
{
    match t {
        TermView::Var(x) => if bound.contains(x.uid) {
            Set::empty()
        } else {
            Set::empty().insert(x.name)
        },
        TermView::App(l, r) => s_free_names(*l, bound).union(s_free_names(*r, bound)),
        TermView::Abs(x, e) => s_free_names(*e, bound.insert(x.uid)),
    }
}

/// The display names of the free variables of a whole term.
pub open spec fn free_names(t: TermView) -> Set<Seq<char>> {
    s_free_names(t, Set::empty())
}

/// Whether some variable occurrence in `t` shares `b`'s display name while
/// carrying a different tag: printing both by name alone would conflate two
/// distinct variables.
pub open spec fn s_has_collision(t: TermView, b: UidView) -> bool
    decreases t,
{
    match t {
        TermView::Var(x) => x.uid != b.uid && x.name == b.name,
        TermView::App(l, r) => s_has_collision(*l, b) || s_has_collision(*r, b),
        TermView::Abs(_, e) => s_has_collision(*e, b),
    }
}

/// The display names of the binders within `t`, at any depth.
pub open spec fn s_binder_names(t: TermView) -> Set<Seq<char>>
    decreases t,
{
    match t {
        TermView::Var(_) => Set::empty(),
        TermView::App(l, r) => s_binder_names(*l).union(s_binder_names(*r)),
        TermView::Abs(x, e) => s_binder_names(*e).insert(x.name),
    }
}

/// The greatest tag among the free variables of `t` (zero when there are
/// none); `bound` carries the tags bound so far.
pub open spec fn s_max_free(t: TermView, bound: Set<nat>) -> nat
    decreases t,
{
    match t {
        TermView::Var(x) => if bound.contains(x.uid) {
            0
        } else {
            x.uid
        },
        TermView::App(l, r) => vstd::math::max(
            s_max_free(*l, bound) as int,
            s_max_free(*r, bound) as int,
        ) as nat,
        TermView::Abs(x, e) => s_max_free(*e, bound.insert(x.uid)),
    }
}

/// The set of tags held by a sequence of tags.
pub open spec fn tag_set(b: Seq<usize>) -> Set<nat> {
    Set::new(|t: nat| exists|i: int| 0 <= i < b.len() && b[i] as nat == t)
}

/// Whether some element of `s` carries the tag `u`.
pub open spec fn vec_has_tag(s: Seq<UID>, u: nat) -> bool {
    exists|i: int| 0 <= i < s.len() && s[i]@.uid == u
}

/// Whether some element of `s` carries the tag `u`.
pub open spec fn set_has_tag(s: Set<UidView>, u: nat) -> bool {
    exists|v: UidView| s.contains(v) && v.uid == u
}

/// Whether no two elements of `s` share a tag.
pub open spec fn distinct_tags(s: Seq<UID>) -> bool {
    forall|i: int, j: int| 0 <= i < j < s.len() ==> s[i]@.uid != s[j]@.uid
}

/// Whether `bound` holds the tag `t`.
pub(crate) fn contains_tag(bound: &Vec<usize>, t: usize) -> (r: bool)
    ensures
        r == tag_set(bound@).contains(t as nat),
{
    let mut i: usize = 0;
    while i < bound.len()
        invariant
            0 <= i <= bound@.len(),
            forall|j: int| 0 <= j < i ==> bound@[j] != t,
        decreases bound@.len() - i,
    {
        if bound[i] == t {
            assert(tag_set(bound@).contains(t as nat));
            return true;
        }
        i = i + 1;
    }
    assert(!tag_set(bound@).contains(t as nat));
    false
}

/// Whether some collected identifier carries the tag `t`.
fn uids_contain_tag(acc: &Vec<UID>, t: usize) -> (r: bool)
    ensures
        r == vec_has_tag(acc@, t as nat),
{
    let mut i: usize = 0;
    while i < acc.len()
        invariant
            0 <= i <= acc@.len(),
            forall|j: int| 0 <= j < i ==> acc@[j]@.uid != t as nat,
        decreases acc@.len() - i,
    {
        if acc[i].uid == t {
            assert(vec_has_tag(acc@, t as nat));
            return true;
        }
        i = i + 1;
    }
    false
}

/// Pushing a tag onto a sequence of tags inserts it into the tag set.
proof fn lemma_tag_set_push(b: Seq<usize>, t: usize)
    ensures
        tag_set(b.push(t)) =~= tag_set(b).insert(t as nat),
{
    let b2 = b.push(t);
    assert forall|u: nat| tag_set(b2).contains(u) implies tag_set(b).insert(
        t as nat,
    ).contains(u) by {
        let i = choose|i: int| 0 <= i < b2.len() && b2[i] as nat == u;
        if i < b.len() {
            assert(tag_set(b).contains(u));
        }
    }
    assert forall|u: nat| tag_set(b).insert(t as nat).contains(u) implies tag_set(b2).contains(
        u,
    ) by {
        if u == t as nat {
            assert(b2[b.len() as int] as nat == u);
        } else {
            let i = choose|i: int| 0 <= i < b.len() && b[i] as nat == u;
            assert(b2[i] as nat == u);
        }
    }
}

/// A copy of `bound` with the tag `t` appended.
pub(crate) fn with_tag(bound: &Vec<usize>, t: usize) -> (r: Vec<usize>)
    ensures
        tag_set(r@) == tag_set(bound@).insert(t as nat),
{
    let mut r: Vec<usize> = Vec::new();
    let mut i: usize = 0;
    while i < bound.len()
        invariant
            0 <= i <= bound@.len(),
            r@ == bound@.subrange(0, i as int),
        decreases bound@.len() - i,
    {
        r.push(bound[i]);
        assert(r@ =~= bound@.subrange(0, i + 1 as int));
        i = i + 1;
    }
    assert(r@ =~= bound@);
    r.push(t);
    proof {
        lemma_tag_set_push(bound@, t);
    }
    r
}

impl Term {
    /// Collects one representative per free-variable tag of `self`, with the
    /// tags of `bound` treated as already bound, into `acc`.
    fn fv_into(&self, bound: &Vec<usize>, acc: &mut Vec<UID>)
        ensures
            old(acc)@.len() <= final(acc)@.len(),
            forall|i: int| 0 <= i < old(acc)@.len() ==> final(acc)@[i] == old(acc)@[i],
            forall|i: int|
                old(acc)@.len() <= i < final(acc)@.len() ==> s_fv(self@, tag_set(bound@)).contains(
                    final(acc)@[i]@,
                ),
            forall|u: nat|
                #![trigger vec_has_tag(final(acc)@, u)]
                vec_has_tag(final(acc)@, u) <==> vec_has_tag(old(acc)@, u) || set_has_tag(
                    s_fv(self@, tag_set(bound@)),
                    u,
                ),
            distinct_tags(old(acc)@) ==> distinct_tags(final(acc)@),
        decreases *self,
    {
        match self {
            Term::Var(x) => {
                let ghost fvset = s_fv(self@, tag_set(bound@));
                proof {
                    assert forall|u: nat| set_has_tag(fvset, u) implies !tag_set(
                        bound@,
                    ).contains(x@.uid) && u == x@.uid by {
                        let v = choose|v: UidView| fvset.contains(v) && v.uid == u;
                    }
                }
                if !contains_tag(bound, x.uid) && !uids_contain_tag(acc, x.uid) {
                    acc.push(x.clone());
                    proof {
                        assert(fvset.contains(x@));
                        let ghost n = old(acc)@.len() as int;
                        assert(acc@[n]@ == x@);
                        assert forall|u: nat|
                            #![trigger vec_has_tag(acc@, u)]
                            vec_has_tag(acc@, u) <==> vec_has_tag(old(acc)@, u) || set_has_tag(
                                fvset,
                                u,
                            ) by {
                            if vec_has_tag(acc@, u) {
                                let i = choose|i: int| 0 <= i < acc@.len() && acc@[i]@.uid == u;
                                if i < n {
                                    assert(old(acc)@[i]@.uid == u);
                                    assert(vec_has_tag(old(acc)@, u));
                                } else {
                                    assert(acc@[i]@ == x@);
                                    assert(set_has_tag(fvset, u));
                                }
                            }
                            if vec_has_tag(old(acc)@, u) {
                                let i = choose|i: int|
                                    0 <= i < old(acc)@.len() && old(acc)@[i]@.uid == u;
                                assert(acc@[i]@.uid == u);
                                assert(vec_has_tag(acc@, u));
                            }
                            if set_has_tag(fvset, u) {
                                assert(u == x@.uid);
                                assert(acc@[n]@.uid == u);
                                assert(vec_has_tag(acc@, u));
                            }
                        }
                        assert(!vec_has_tag(old(acc)@, x@.uid));
                        assert forall|i: int, j: int|
                            0 <= i < j < acc@.len() && distinct_tags(old(acc)@) implies acc@[i]@.uid
                            != acc@[j]@.uid by {
                            if j == n {
                                assert(old(acc)@[i]@.uid != x@.uid);
                            }
                        }
                    }
                } else {
                    proof {
                        if !tag_set(bound@).contains(x@.uid) {
                            assert(vec_has_tag(acc@, x@.uid));
                        }
                        assert forall|u: nat|
                            vec_has_tag(acc@, u) || set_has_tag(fvset, u) implies vec_has_tag(
                            acc@,
                            u,
                        ) by {
                            if set_has_tag(fvset, u) {
                                assert(u == x@.uid);
                            }
                        }
                        assert(forall|u: nat|
                            #![trigger vec_has_tag(acc@, u)]
                            vec_has_tag(acc@, u) <==> vec_has_tag(old(acc)@, u) || set_has_tag(
                                fvset,
                                u,
                            ));
                    }
                }
            },
            Term::App(l, r) => {
                (**l).fv_into(bound, acc);
                (**r).fv_into(bound, acc);
                assert forall|u: nat|
                    set_has_tag(s_fv(self@, tag_set(bound@)), u) implies set_has_tag(
                    s_fv((**l)@, tag_set(bound@)),
                    u,
                ) || set_has_tag(s_fv((**r)@, tag_set(bound@)), u) by {
                    let v = choose|v: UidView|
                        s_fv(self@, tag_set(bound@)).contains(v) && v.uid == u;
                    assert(s_fv((**l)@, tag_set(bound@)).contains(v) || s_fv(
                        (**r)@,
                        tag_set(bound@),
                    ).contains(v));
                }
                assert forall|u: nat|
                    set_has_tag(s_fv((**l)@, tag_set(bound@)), u) || set_has_tag(
                        s_fv((**r)@, tag_set(bound@)),
                        u,
                    ) implies set_has_tag(s_fv(self@, tag_set(bound@)), u) by {
                    if set_has_tag(s_fv((**l)@, tag_set(bound@)), u) {
                        let v = choose|v: UidView|
                            s_fv((**l)@, tag_set(bound@)).contains(v) && v.uid == u;
                        assert(s_fv(self@, tag_set(bound@)).contains(v));
                    } else {
                        let v = choose|v: UidView|
                            s_fv((**r)@, tag_set(bound@)).contains(v) && v.uid == u;
                        assert(s_fv(self@, tag_set(bound@)).contains(v));
                    }
                }
                assert(forall|u: nat|
                    #![trigger vec_has_tag(acc@, u)]
                    vec_has_tag(acc@, u) <==> vec_has_tag(old(acc)@, u) || set_has_tag(
                        s_fv(self@, tag_set(bound@)),
                        u,
                    ));
            },
            Term::Abs(x, e) => {
                let b2 = with_tag(bound, x.uid);
                (**e).fv_into(&b2, acc);
                assert(forall|u: nat|
                    #![trigger vec_has_tag(acc@, u)]
                    vec_has_tag(acc@, u) <==> vec_has_tag(old(acc)@, u) || set_has_tag(
                        s_fv(self@, tag_set(bound@)),
                        u,
                    ));
            },
        }
    }

    /// The free variables of `self`: identifiers occurring in `self` that are
    /// not bound by an enclosing abstraction, one per tag.
    pub fn fv(&self) -> (r: Vec<UID>)
        ensures
            forall|i: int| 0 <= i < r@.len() ==> free_vars(self@).contains(r@[i]@),
            forall|u: nat| vec_has_tag(r@, u) <==> set_has_tag(free_vars(self@), u),
            distinct_tags(r@),
    {
        let bound: Vec<usize> = Vec::new();
        let mut acc: Vec<UID> = Vec::new();
        assert(tag_set(bound@) =~= Set::<nat>::empty());
        self.fv_into(&bound, &mut acc);
        acc
    }

    /// Collects the display names of the free variable occurrences of `self`
    /// into `acc`, one entry per name, with the tags of `bound` treated as
    /// already bound.
    fn fv_names_into(&self, bound: &Vec<usize>, acc: &mut Vec<String>)
        ensures
            old(acc)@.len() <= final(acc)@.len(),
            forall|i: int| 0 <= i < old(acc)@.len() ==> final(acc)@[i] == old(acc)@[i],
            forall|i: int|
                old(acc)@.len() <= i < final(acc)@.len() ==> s_free_names(
                    self@,
                    tag_set(bound@),
                ).contains(final(acc)@[i]@),
            forall|n: Seq<char>|
                #![trigger vec_has_name(final(acc)@, n)]
                vec_has_name(final(acc)@, n) <==> vec_has_name(old(acc)@, n) || s_free_names(
                    self@,
                    tag_set(bound@),
                ).contains(n),
            distinct_names(old(acc)@) ==> distinct_names(final(acc)@),
        decreases *self,
    {
        match self {
            Term::Var(x) => {
                if !contains_tag(bound, x.uid) && !crate::names::contains_name(acc, &x.name) {
                    acc.push(x.name.clone());
                    proof {
                        let n = old(acc)@.len() as int;
                        assert(acc@[n]@ == x@.name);
                        assert forall|m: Seq<char>|
                            #![trigger vec_has_name(acc@, m)]
                            vec_has_name(acc@, m) <==> vec_has_name(old(acc)@, m) || s_free_names(
                                self@,
                                tag_set(bound@),
                            ).contains(m) by {
                            if vec_has_name(acc@, m) {
                                let i = choose|i: int| 0 <= i < acc@.len() && acc@[i]@ == m;
                                if i < n {
                                    assert(old(acc)@[i]@ == m);
                                    assert(vec_has_name(old(acc)@, m));
                                }
                            }
                            if vec_has_name(old(acc)@, m) {
                                let i = choose|i: int|
                                    0 <= i < old(acc)@.len() && old(acc)@[i]@ == m;
                                assert(acc@[i]@ == m);
                                assert(vec_has_name(acc@, m));
                            }
                            if s_free_names(self@, tag_set(bound@)).contains(m) {
                                assert(m == x@.name);
                                assert(vec_has_name(acc@, m));
                            }
                        }
                        assert(!vec_has_name(old(acc)@, x@.name));
                        assert forall|i: int, j: int|
                            0 <= i < j < acc@.len() && distinct_names(old(acc)@) implies acc@[i]@
                            != acc@[j]@ by {
                            if j == n {
                                assert(old(acc)@[i]@ != x@.name);
                            }
                        }
                    }
                } else {
                    proof {
                        if !tag_set(bound@).contains(x@.uid) {
                            assert(vec_has_name(acc@, x@.name));
                        }
                        assert forall|m: Seq<char>|
                            #![trigger vec_has_name(acc@, m)]
                            vec_has_name(acc@, m) <==> vec_has_name(old(acc)@, m) || s_free_names(
                                self@,
                                tag_set(bound@),
                            ).contains(m) by {
                            if s_free_names(self@, tag_set(bound@)).contains(m) {
                                assert(m == x@.name);
                            }
                        }
                    }
                }
            },
            Term::App(l, r) => {
                (**l).fv_names_into(bound, acc);
                (**r).fv_names_into(bound, acc);
            },
            Term::Abs(x, e) => {
                let b2 = with_tag(bound, x.uid);
                (**e).fv_names_into(&b2, acc);
            },
        }
    }

    /// The display names of the free variables of `self`, each name once.
    pub fn fv_names(&self) -> (r: Vec<String>)
        ensures
            forall|i: int| 0 <= i < r@.len() ==> free_names(self@).contains(r@[i]@),
            forall|n: Seq<char>|
                #![trigger vec_has_name(r@, n)]
                vec_has_name(r@, n) <==> free_names(self@).contains(n),
            distinct_names(r@),
    {
        let bound: Vec<usize> = Vec::new();
        let mut acc: Vec<String> = Vec::new();
        assert(tag_set(bound@) =~= Set::<nat>::empty());
        self.fv_names_into(&bound, &mut acc);
        acc
    }

    /// Collects the display names of every binder within `self` into
    /// `acc`.
    pub(crate) fn binder_names_into(&self, acc: &mut Vec<String>)
        ensures
            old(acc)@.len() <= final(acc)@.len(),
            forall|i: int| 0 <= i < old(acc)@.len() ==> final(acc)@[i] == old(acc)@[i],
            forall|n: Seq<char>|
                #![trigger vec_has_name(final(acc)@, n)]
                vec_has_name(final(acc)@, n) <==> vec_has_name(old(acc)@, n) || s_binder_names(
                    self@,
                ).contains(n),
        decreases *self,
    {
        match self {
            Term::Var(_) => {},
            Term::App(l, r) => {
                (**l).binder_names_into(acc);
                (**r).binder_names_into(acc);
            },
            Term::Abs(x, e) => {
                acc.push(x.name.clone());
                proof {
                    let n = old(acc)@.len() as int;
                    assert(acc@[n]@ == x@.name);
                    assert forall|m: Seq<char>|
                        #![trigger vec_has_name(acc@, m)]
                        vec_has_name(acc@, m) <==> vec_has_name(old(acc)@, m) || m
                            == x@.name by {
                        if vec_has_name(acc@, m) {
                            let i = choose|i: int| 0 <= i < acc@.len() && acc@[i]@ == m;
                            if i < n {
                                assert(old(acc)@[i]@ == m);
                                assert(vec_has_name(old(acc)@, m));
                            }
                        }
                        if vec_has_name(old(acc)@, m) {
                            let i = choose|i: int|
                                0 <= i < old(acc)@.len() && old(acc)@[i]@ == m;
                            assert(acc@[i]@ == m);
                            assert(vec_has_name(acc@, m));
                        }
                        if m == x@.name {
                            assert(vec_has_name(acc@, m));
                        }
                    }
                }
                (**e).binder_names_into(acc);
                proof {
                    assert forall|m: Seq<char>|
                        #![trigger vec_has_name(acc@, m)]
                        vec_has_name(acc@, m) <==> vec_has_name(old(acc)@, m) || s_binder_names(
                            self@,
                        ).contains(m) by {
                        assert(s_binder_names(self@) == s_binder_names((**e)@).insert(x@.name));
                    }
                }
            },
        }
    }

    /// Whether some variable occurrence in `self` shares `bound_var`'s
    /// display name while carrying a different tag.
    pub fn has_name_collision(&self, bound_var: &UID) -> (r: bool)
        ensures
            r == s_has_collision(self@, bound_var@),
        decreases *self,
    {
        match self {
            Term::Var(x) => x.uid != bound_var.uid && x.name == bound_var.name,
            Term::App(l, r) => {
                (**l).has_name_collision(bound_var) || (**r).has_name_collision(bound_var)
            },
            Term::Abs(_, e) => (**e).has_name_collision(bound_var),
        }
    }

    /// The greatest free-variable tag of `self`, with the tags of `bound`
    /// treated as already bound; zero when there is none.
    fn max_free_tag(&self, bound: &Vec<usize>) -> (r: usize)
        ensures
            r as nat == s_max_free(self@, tag_set(bound@)),
        decreases *self,
    {
        match self {
            Term::Var(x) => {
                if contains_tag(bound, x.uid) {
                    0
                } else {
                    x.uid
                }
            },
            Term::App(l, r) => {
                let a = (**l).max_free_tag(bound);
                let b = (**r).max_free_tag(bound);
                if a < b {
                    b
                } else {
                    a
                }
            },
            Term::Abs(x, e) => {
                let b2 = with_tag(bound, x.uid);
                (**e).max_free_tag(&b2)
            },
        }
    }

    /// A generator that will mint only tags above every free-variable tag of
    /// `self`, for minting names fresh for `self` after conversion.
    pub fn uid_generator(&self) -> (g: UIDGenerator)
        ensures
            g@ == s_max_free(self@, Set::empty()),
    {
        let bound: Vec<usize> = Vec::new();
        assert(tag_set(bound@) =~= Set::<nat>::empty());
        UIDGenerator { count: self.max_free_tag(&bound) }
    }
}

/// Whether some element of `s` has the character sequence `n` as its value.
pub open spec fn vec_has_name(s: Seq<String>, n: Seq<char>) -> bool {
    exists|i: int| 0 <= i < s.len() && s[i]@ == n
}

/// Whether no two elements of `s` hold the same character sequence.
pub open spec fn distinct_names(s: Seq<String>) -> bool {
    forall|i: int, j: int| 0 <= i < j < s.len() ==> s[i]@ != s[j]@
}

} // verus!
