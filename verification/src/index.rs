//! Conversion between bare names and unique identifiers.
//!
//! Bare to unique mints a fresh tag for every binder, attaches each
//! variable to the nearest enclosing binder of its name, reuses one tag
//! per free name, and threads the free-name mapping across sibling
//! subtrees so that a free variable occurring twice receives one tag.
//! Unique to bare keeps every display name unchanged unless printing it
//! would conflate two distinct variables; a colliding binder is renamed
//! to a fresh name that nothing in its body bears.

use vstd::prelude::*;

use crate::ast::BareIdent;
use crate::ast::BareTerm;
use crate::ast::BareView;
use crate::names::s_bump_iter;
use crate::uid::free_names;
use crate::uid::s_binder_names;
use crate::uid::s_has_collision;
use crate::uid::vec_has_name;
use crate::uid::Term;
use crate::uid::TermView;
use crate::uid::UidView;
use crate::uid::UIDGenerator;
use crate::uid::UID;

verus! {

/// The mapping that a sequence of name-to-tag entries denotes: a later
/// entry overrides an earlier one with the same name.
pub open spec fn name_map_of(s: Seq<(String, usize)>) -> Map<Seq<char>, nat>
    decreases s.len(),
{
    if s.len() == 0 {
        Map::empty()
    } else {
        name_map_of(s.drop_last()).insert(s.last().0@, s.last().1 as nat)
    }
}

/// The lookup that scanning the entries from the newest denotes.
spec fn name_lookup(s: Seq<(String, usize)>, k: Seq<char>) -> Option<nat>
    decreases s.len(),
{
    if s.len() == 0 {
        Option::None
    } else if s.last().0@ == k {
        Option::Some(s.last().1 as nat)
    } else {
        name_lookup(s.drop_last(), k)
    }
}

/// Scanning from the newest entry agrees with the denoted mapping.
proof fn lemma_name_lookup(s: Seq<(String, usize)>, k: Seq<char>)
    ensures
        match name_lookup(s, k) {
            Option::Some(v) => name_map_of(s).contains_key(k) && name_map_of(s)[k] == v,
            Option::None => !name_map_of(s).contains_key(k),
        },
    decreases s.len(),
{
    if s.len() > 0 {
        lemma_name_lookup(s.drop_last(), k);
    }
}

/// A mapping from bare names to tags, as a list of entries where the
/// newest entry for a name wins.
pub struct NameMap {
    entries: Vec<(String, usize)>,
}

impl View for NameMap {
    type V = Map<Seq<char>, nat>;

    closed spec fn view(&self) -> Map<Seq<char>, nat> {
        name_map_of(self.entries@)
    }
}

impl Clone for NameMap {
    /// A clone denotes the same mapping.
    fn clone(&self) -> (res: Self)
        ensures
            res@ == self@,
    {
        let mut entries: Vec<(String, usize)> = Vec::new();
        let mut i: usize = 0;
        while i < self.entries.len()
            invariant
                0 <= i <= self.entries@.len(),
                entries@ == self.entries@.subrange(0, i as int),
            decreases self.entries@.len() - i,
        {
            let pair = (self.entries[i].0.clone(), self.entries[i].1);
            assert(pair == self.entries@[i as int]);
            entries.push(pair);
            assert(entries@ =~= self.entries@.subrange(0, i + 1 as int));
            i = i + 1;
        }
        assert(entries@ =~= self.entries@);
        NameMap { entries }
    }
}

impl NameMap {
    /// The empty mapping.
    pub fn new() -> (r: Self)
        ensures
            r@ == Map::<Seq<char>, nat>::empty(),
    {
        NameMap { entries: Vec::new() }
    }

    /// The tag recorded for `key`, if any.
    #[verifier::loop_isolation(false)]
    pub fn get(&self, key: &String) -> (r: Option<usize>)
        ensures
            match r {
                Option::Some(v) => self@.contains_key(key@) && self@[key@] == v as nat,
                Option::None => !self@.contains_key(key@),
            },
    {
        proof {
            lemma_name_lookup(self.entries@, key@);
        }
        assert(self.entries@.subrange(0, self.entries@.len() as int) =~= self.entries@);
        let mut i: usize = self.entries.len();
        while i > 0
            invariant
                0 <= i <= self.entries@.len(),
                name_lookup(self.entries@, key@) == name_lookup(
                    self.entries@.subrange(0, i as int),
                    key@,
                ),
            decreases i,
        {
            let sub = Ghost(self.entries@.subrange(0, i as int));
            assert(sub@.last() == self.entries@[i - 1]);
            assert(sub@.drop_last() =~= self.entries@.subrange(0, i - 1 as int));
            if self.entries[i - 1].0 == *key {
                return Option::Some(self.entries[i - 1].1);
            }
            i = i - 1;
        }
        assert(self.entries@.subrange(0, 0) =~= Seq::<(String, usize)>::empty());
        Option::None
    }

    /// Records `val` for `key`, overriding any earlier entry.
    pub fn insert(&mut self, key: String, val: usize)
        ensures
            final(self)@ == old(self)@.insert(key@, val as nat),
    {
        let ghost k = key@;
        self.entries.push((key, val));
        proof {
            assert(self.entries@.drop_last() =~= old(self).entries@);
        }
    }
}

/// The mapping that a sequence of tag-to-name entries denotes.
pub open spec fn tag_map_of(s: Seq<(usize, String)>) -> Map<nat, Seq<char>>
    decreases s.len(),
{
    if s.len() == 0 {
        Map::empty()
    } else {
        tag_map_of(s.drop_last()).insert(s.last().0 as nat, s.last().1@)
    }
}

/// The lookup that scanning the entries from the newest denotes.
spec fn tag_lookup(s: Seq<(usize, String)>, k: nat) -> Option<Seq<char>>
    decreases s.len(),
{
    if s.len() == 0 {
        Option::None
    } else if s.last().0 as nat == k {
        Option::Some(s.last().1@)
    } else {
        tag_lookup(s.drop_last(), k)
    }
}

/// Scanning from the newest entry agrees with the denoted mapping.
proof fn lemma_tag_lookup(s: Seq<(usize, String)>, k: nat)
    ensures
        match tag_lookup(s, k) {
            Option::Some(v) => tag_map_of(s).contains_key(k) && tag_map_of(s)[k] == v,
            Option::None => !tag_map_of(s).contains_key(k),
        },
    decreases s.len(),
{
    if s.len() > 0 {
        lemma_tag_lookup(s.drop_last(), k);
    }
}

/// A mapping from tags to display names, as a list of entries where the
/// newest entry for a tag wins.
pub struct TagMap {
    entries: Vec<(usize, String)>,
}

impl View for TagMap {
    type V = Map<nat, Seq<char>>;

    closed spec fn view(&self) -> Map<nat, Seq<char>> {
        tag_map_of(self.entries@)
    }
}

impl Clone for TagMap {
    /// A clone denotes the same mapping.
    fn clone(&self) -> (res: Self)
        ensures
            res@ == self@,
    {
        let mut entries: Vec<(usize, String)> = Vec::new();
        let mut i: usize = 0;
        while i < self.entries.len()
            invariant
                0 <= i <= self.entries@.len(),
                entries@ == self.entries@.subrange(0, i as int),
            decreases self.entries@.len() - i,
        {
            let pair = (self.entries[i].0, self.entries[i].1.clone());
            assert(pair == self.entries@[i as int]);
            entries.push(pair);
            assert(entries@ =~= self.entries@.subrange(0, i + 1 as int));
            i = i + 1;
        }
        assert(entries@ =~= self.entries@);
        TagMap { entries }
    }
}

impl TagMap {
    /// The empty mapping.
    pub fn new() -> (r: Self)
        ensures
            r@ == Map::<nat, Seq<char>>::empty(),
    {
        TagMap { entries: Vec::new() }
    }

    /// The name recorded for the tag `key`, if any.
    #[verifier::loop_isolation(false)]
    pub fn get(&self, key: usize) -> (r: Option<String>)
        ensures
            match r {
                Option::Some(v) => self@.contains_key(key as nat) && self@[key as nat] == v@,
                Option::None => !self@.contains_key(key as nat),
            },
    {
        proof {
            lemma_tag_lookup(self.entries@, key as nat);
        }
        assert(self.entries@.subrange(0, self.entries@.len() as int) =~= self.entries@);
        let mut i: usize = self.entries.len();
        while i > 0
            invariant
                0 <= i <= self.entries@.len(),
                tag_lookup(self.entries@, key as nat) == tag_lookup(
                    self.entries@.subrange(0, i as int),
                    key as nat,
                ),
            decreases i,
        {
            let sub = Ghost(self.entries@.subrange(0, i as int));
            assert(sub@.last() == self.entries@[i - 1]);
            assert(sub@.drop_last() =~= self.entries@.subrange(0, i - 1 as int));
            if self.entries[i - 1].0 == key {
                return Option::Some(self.entries[i - 1].1.clone());
            }
            i = i - 1;
        }
        assert(self.entries@.subrange(0, 0) =~= Seq::<(usize, String)>::empty());
        Option::None
    }

    /// Records `val` for the tag `key`, overriding any earlier entry.
    pub fn insert(&mut self, key: usize, val: String)
        ensures
            final(self)@ == old(self)@.insert(key as nat, val@),
    {
        self.entries.push((key, val));
        proof {
            assert(self.entries@.drop_last() =~= old(self).entries@);
        }
    }
}

/// The number of nodes of a bare term; bare-to-unique conversion mints at
/// most this many tags.
pub open spec fn s_size(t: BareView) -> nat
    decreases t,
{
    match t {
        BareView::Var(_) => 1,
        BareView::App(l, r) => 1 + s_size(*l) + s_size(*r),
        BareView::Abs(_, e) => 1 + s_size(*e),
    }
}

/// Bare-to-unique conversion: the converted term, the counter after it,
/// and the free-name mapping after it. A variable takes the tag of the
/// nearest enclosing binder of its name; failing that it reuses the tag
/// that `free` records, and is otherwise recorded as free under a fresh
/// tag. A binder unconditionally receives a fresh tag, visible only in
/// its own body: it shadows any outer bound or free mapping of the name.
pub open spec fn s_from_bare(
    t: BareView,
    cnt: nat,
    free: Map<Seq<char>, nat>,
    bound: Map<Seq<char>, nat>,
) -> (TermView, nat, Map<Seq<char>, nat>)
    decreases t,
{
    match t {
        BareView::Var(x) => {
            if bound.contains_key(x) {
                (TermView::Var(UidView { name: x, uid: bound[x] }), cnt, free)
            } else if free.contains_key(x) {
                (TermView::Var(UidView { name: x, uid: free[x] }), cnt, free)
            } else {
                (
                    TermView::Var(UidView { name: x, uid: cnt + 1 }),
                    cnt + 1,
                    free.insert(x, cnt + 1),
                )
            }
        },
        BareView::Abs(x, e) => {
            let (body, cnt2, free2) = s_from_bare(*e, cnt + 1, free, bound.insert(x, cnt + 1));
            (TermView::Abs(UidView { name: x, uid: cnt + 1 }, Box::new(body)), cnt2, free2)
        },
        BareView::App(l, r) => {
            let (lt, cnt2, free2) = s_from_bare(*l, cnt, free, bound);
            let (rt, cnt3, free3) = s_from_bare(*r, cnt2, free2, bound);
            (TermView::App(Box::new(lt), Box::new(rt)), cnt3, free3)
        },
    }
}

/// The recursion of bare-to-unique conversion over the two mappings.
fn from_bare_rec(term: &BareTerm, gen: &mut UIDGenerator, free: NameMap, bound: NameMap) -> (r: (
    Term,
    NameMap,
))
    requires
        old(gen)@ + s_size(term@) <= usize::MAX as nat,
    ensures
        ({
            let (tv, cnt2, free2) = s_from_bare(term@, old(gen)@, free@, bound@);
            r.0@ == tv && final(gen)@ == cnt2 && r.1@ == free2
        }),
        old(gen)@ <= final(gen)@ <= old(gen)@ + s_size(term@),
    decreases *term,
{
    match term {
        BareTerm::Var(x) => {
            let mut free = free;
            let uid: usize = match bound.get(x) {
                Option::Some(v) => v,
                Option::None => {
                    match free.get(x) {
                        Option::Some(v) => v,
                        Option::None => {
                            let v = gen.next();
                            free.insert(x.clone(), v);
                            v
                        },
                    }
                },
            };
            (Term::Var(UID { name: x.clone(), uid }), free)
        },
        BareTerm::Abs(x, e) => {
            let tag = gen.next();
            let mut bound = bound;
            bound.insert(x.clone(), tag);
            let (body, free2) = from_bare_rec(&**e, gen, free, bound);
            (Term::Abs(UID { name: x.clone(), uid: tag }, Box::new(body)), free2)
        },
        BareTerm::App(l, r) => {
            let bound2 = bound.clone();
            let (lt, free2) = from_bare_rec(&**l, gen, free, bound2);
            let (rt, free3) = from_bare_rec(&**r, gen, free2, bound);
            (Term::App(Box::new(lt), Box::new(rt)), free3)
        },
    }
}

/// Converts a bare term into a term over unique identifiers, minting fresh
/// tags from `uid_generator`: one per binder, one per free name.
pub fn from_bare(term: &BareTerm, uid_generator: &mut UIDGenerator) -> (r: Term)
    requires
        old(uid_generator)@ + s_size(term@) <= usize::MAX as nat,
    ensures
        r@ == s_from_bare(term@, old(uid_generator)@, Map::empty(), Map::empty()).0,
        final(uid_generator)@ == s_from_bare(
            term@,
            old(uid_generator)@,
            Map::empty(),
            Map::empty(),
        ).1,
{
    let (t, _) = from_bare_rec(term, uid_generator, NameMap::new(), NameMap::new());
    t
}

/// Whether the name `x` is occupied: free in `t`, borne by a binder
/// within `t`, or already used. A fresh name must avoid all three, else
/// two distinct variables could print alike.
pub open spec fn s_name_taken(t: TermView, used: Seq<Seq<char>>, x: Seq<char>) -> bool {
    free_names(t).contains(x) || s_binder_names(t).contains(x) || used.contains(x)
}

/// Whether `k` bumps from `name` reach the first unoccupied name.
pub open spec fn s_good_bump(t: TermView, name: Seq<char>, used: Seq<Seq<char>>, k: nat) -> bool {
    !s_name_taken(t, used, s_bump_iter(name, k)) && (forall|j: nat|
        j < k ==> s_name_taken(t, used, s_bump_iter(name, j)))
}

/// The first name in the bump chain of `name` that is not occupied.
pub open spec fn s_new_name(t: TermView, name: Seq<char>, used: Seq<Seq<char>>) -> Seq<char> {
    s_bump_iter(name, choose|k: nat| s_good_bump(t, name, used, k))
}

/// At most one bump count reaches the first unoccupied name.
proof fn lemma_good_bump_unique(
    t: TermView,
    name: Seq<char>,
    used: Seq<Seq<char>>,
    k1: nat,
    k2: nat,
)
    requires
        s_good_bump(t, name, used, k1),
        s_good_bump(t, name, used, k2),
    ensures
        k1 == k2,
{
    if k1 < k2 {
        assert(s_name_taken(t, used, s_bump_iter(name, k1)));
    }
    if k2 < k1 {
        assert(s_name_taken(t, used, s_bump_iter(name, k2)));
    }
}

/// The views of the strings of `v`.
pub open spec fn name_views(v: Seq<String>) -> Seq<Seq<char>> {
    v.map_values(|s: String| s@)
}

/// A name is among the views exactly when some string holds it.
proof fn lemma_name_views_contains(v: Seq<String>, x: Seq<char>)
    ensures
        name_views(v).contains(x) == vec_has_name(v, x),
{
    if vec_has_name(v, x) {
        let i = choose|i: int| 0 <= i < v.len() && v[i]@ == x;
        assert(name_views(v)[i] == x);
    }
    if name_views(v).contains(x) {
        let i = choose|i: int| 0 <= i < name_views(v).len() && name_views(v)[i] == x;
        assert(v[i]@ == x);
        assert(vec_has_name(v, x));
    }
}

/// Unique-to-bare conversion: the converted term and the used names after
/// it. A variable prints the name that `renamed` records for its tag, or
/// its own name; a binder whose body holds a collision for it is renamed
/// to the first fresh name in its bump chain, and the choice holds
/// throughout its body; `used` threads through sibling subtrees, while
/// renaming choices do not.
pub open spec fn s_to_bare(t: TermView, renamed: Map<nat, Seq<char>>, used: Seq<Seq<char>>) -> (
    BareView,
    Seq<Seq<char>>,
)
    decreases t,
{
    match t {
        TermView::Var(x) => (
            BareView::Var(
                if renamed.contains_key(x.uid) {
                    renamed[x.uid]
                } else {
                    x.name
                },
            ),
            used,
        ),
        TermView::Abs(x, e) => {
            if s_has_collision(*e, x) {
                let nn = s_new_name(*e, x.name, used);
                let (body, used2) = s_to_bare(*e, renamed.insert(x.uid, nn), used.push(nn));
                (BareView::Abs(nn, Box::new(body)), used2)
            } else {
                let (body, used2) = s_to_bare(*e, renamed, used);
                (BareView::Abs(x.name, Box::new(body)), used2)
            }
        },
        TermView::App(l, r) => {
            let (lt, used2) = s_to_bare(*l, renamed, used);
            let (rt, used3) = s_to_bare(*r, renamed, used2);
            (BareView::App(Box::new(lt), Box::new(rt)), used3)
        },
    }
}

/// The recursion of unique-to-bare conversion over the rename mapping and
/// the used names.
fn to_bare_rec(term: &Term, renamed: TagMap, used: Vec<String>) -> (r: (BareTerm, Vec<String>))
    ensures
        ({
            let (bv, used2) = s_to_bare(term@, renamed@, name_views(used@));
            r.0@ == bv && name_views(r.1@) == used2
        }),
    decreases *term,
{
    match term {
        Term::Var(x) => {
            let name = match renamed.get(x.uid) {
                Option::Some(n) => n,
                Option::None => x.name.clone(),
            };
            (BareTerm::Var(name), used)
        },
        Term::Abs(x, e) => {
            if (**e).has_name_collision(x) {
                let mut used = used;
                let mut renamed = renamed;
                let nn = (**e).new_fv_name(&x.name, &used);
                proof {
                    let k = choose|k: nat|
                        nn@ == s_bump_iter(x@.name, k) && (forall|j: nat|
                            j < k ==> free_names((**e)@).contains(s_bump_iter(x@.name, j))
                                || s_binder_names((**e)@).contains(s_bump_iter(x@.name, j))
                                || vec_has_name(used@, s_bump_iter(x@.name, j)));
                    lemma_name_views_contains(used@, nn@);
                    assert forall|j: nat| j < k implies s_name_taken(
                        (**e)@,
                        name_views(used@),
                        s_bump_iter(x@.name, j),
                    ) by {
                        lemma_name_views_contains(used@, s_bump_iter(x@.name, j));
                    }
                    assert(s_good_bump((**e)@, x@.name, name_views(used@), k));
                    let kk = choose|kk: nat| s_good_bump((**e)@, x@.name, name_views(used@), kk);
                    lemma_good_bump_unique((**e)@, x@.name, name_views(used@), k, kk);
                    assert(nn@ == s_new_name((**e)@, x@.name, name_views(used@)));
                }
                renamed.insert(x.uid, nn.clone());
                let ghost old_used = used@;
                used.push(nn.clone());
                proof {
                    assert(name_views(used@) =~= name_views(old_used).push(nn@));
                }
                let (body, used2) = to_bare_rec(&**e, renamed, used);
                (BareTerm::Abs(nn, Box::new(body)), used2)
            } else {
                let (body, used2) = to_bare_rec(&**e, renamed, used);
                (BareTerm::Abs(x.name.clone(), Box::new(body)), used2)
            }
        },
        Term::App(l, r) => {
            let renamed2 = renamed.clone();
            let (lt, used2) = to_bare_rec(&**l, renamed2, used);
            let (rt, used3) = to_bare_rec(&**r, renamed, used2);
            (BareTerm::App(Box::new(lt), Box::new(rt)), used3)
        },
    }
}

impl Term {
    /// Converts `self` back to bare names: every display name is kept,
    /// except that a binder whose body holds a collision for it is renamed
    /// to a fresh name that no free variable of the body, no binder within
    /// it, and no earlier rename of this conversion bears.
    pub fn to_bare(&self) -> (r: BareTerm)
        ensures
            r@ == s_to_bare(self@, Map::empty(), Seq::empty()).0,
    {
        let (b, _) = to_bare_rec(self, TagMap::new(), Vec::new());
        proof {
            assert(name_views(Seq::<String>::empty()) =~= Seq::<Seq<char>>::empty());
        }
        b
    }
}

} // verus!
