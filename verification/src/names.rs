//! Fresh display names.
//!
//! When converting back to bare names, a binder whose name would collide
//! with a distinct variable is renamed by bumping the maximal trailing
//! decimal suffix of its name (`x` to `x1`, `x1` to `x2`, `x9` to `x10`),
//! repeatedly, until the name is unused. The suffix is read as a decimal
//! number and rendered back canonically, without leading zeros. Each bump
//! increases the numeric value of the suffix by exactly one and leaves the
//! stem unchanged, so the candidates are pairwise distinct and the search
//! always ends.

use vstd::prelude::*;
use vstd::set_lib::lemma_len_subset;
use vstd::string::StrSliceExecFns;

use crate::ast::BareIdent;
use crate::ast::Fresh;
use crate::uid::free_names;
use crate::uid::s_binder_names;
use crate::uid::vec_has_name;
use crate::uid::Term;

verus! {

/// Whether `c` is a decimal digit.
pub open spec fn is_digit(c: char) -> bool {
    48 <= c as u32 <= 57
}

/// The decimal digit after `c`; meaningful for digits below nine.
pub open spec fn succ_digit(c: char) -> char {
    if c as u32 == 48 {
        '1'
    } else if c as u32 == 49 {
        '2'
    } else if c as u32 == 50 {
        '3'
    } else if c as u32 == 51 {
        '4'
    } else if c as u32 == 52 {
        '5'
    } else if c as u32 == 53 {
        '6'
    } else if c as u32 == 54 {
        '7'
    } else if c as u32 == 55 {
        '8'
    } else {
        '9'
    }
}

/// The numeric value of the digit `c`.
pub open spec fn digit_val(c: char) -> int {
    c as u32 - 48
}

/// The length of `s` without its maximal trailing run of decimal digits.
pub open spec fn stem_len(s: Seq<char>) -> int
    decreases s.len(),
{
    if s.len() == 0 {
        0
    } else if is_digit(s.last()) {
        stem_len(s.drop_last())
    } else {
        s.len() as int
    }
}

/// Whether every character of `s` is a decimal digit.
pub open spec fn all_digits(s: Seq<char>) -> bool {
    forall|i: int| 0 <= i < s.len() ==> is_digit(s[i])
}

/// The digit string one greater in value than the digit string `d`: the
/// empty run becomes `1`, a trailing nine carries.
pub open spec fn inc_digits(d: Seq<char>) -> Seq<char>
    decreases d.len(),
{
    if d.len() == 0 {
        seq!['1']
    } else if d.last() as u32 == 57 {
        inc_digits(d.drop_last()).push('0')
    } else {
        d.drop_last().push(succ_digit(d.last()))
    }
}

/// The numeric value of the digit string `d`, read in decimal.
pub open spec fn run_val(d: Seq<char>) -> int
    decreases d.len(),
{
    if d.len() == 0 {
        0
    } else {
        run_val(d.drop_last()) * 10 + digit_val(d.last())
    }
}

/// The part of `s` before its maximal trailing digit run.
pub open spec fn stem_of(s: Seq<char>) -> Seq<char> {
    s.subrange(0, stem_len(s))
}

/// The maximal trailing digit run of `s`.
pub open spec fn run_of(s: Seq<char>) -> Seq<char> {
    s.subrange(stem_len(s), s.len() as int)
}

/// The character of the decimal digit `n`.
pub open spec fn digit_chr(n: int) -> char {
    if n == 0 {
        '0'
    } else if n == 1 {
        '1'
    } else if n == 2 {
        '2'
    } else if n == 3 {
        '3'
    } else if n == 4 {
        '4'
    } else if n == 5 {
        '5'
    } else if n == 6 {
        '6'
    } else if n == 7 {
        '7'
    } else if n == 8 {
        '8'
    } else {
        '9'
    }
}

/// The canonical decimal rendering of `n`: most significant digit first,
/// no leading zeros.
pub open spec fn decimal(n: nat) -> Seq<char>
    decreases n,
    via decimal_decreases
{
    if n < 10 {
        seq![digit_chr(n as int)]
    } else {
        decimal(n / 10).push(digit_chr((n % 10) as int))
    }
}

#[via_fn]
proof fn decimal_decreases(n: nat) {
    if n >= 10 {
        assert(n / 10 < n) by (nonlinear_arith)
            requires
                n >= 10,
        ;
    }
}

/// The digit string without its leading zeros.
pub open spec fn strip_zeros(d: Seq<char>) -> Seq<char>
    decreases d.len(),
{
    if d.len() > 0 && d[0] == '0' {
        strip_zeros(d.drop_first())
    } else {
        d
    }
}

/// One bump of the name `s`: the stem kept, the trailing decimal suffix
/// read as a number, increased by one, and rendered back canonically.
pub open spec fn s_bump(s: Seq<char>) -> Seq<char> {
    stem_of(s) + decimal((run_val(run_of(s)) + 1) as nat)
}

/// `k` successive bumps of the name `s`.
pub open spec fn s_bump_iter(s: Seq<char>, k: nat) -> Seq<char>
    decreases k,
{
    if k == 0 {
        s
    } else {
        s_bump(s_bump_iter(s, (k - 1) as nat))
    }
}

/// The stem splits `s` at a digit boundary: digits after it, and either
/// nothing or a non-digit just before it.
proof fn lemma_stem_len_bounds(s: Seq<char>)
    ensures
        0 <= stem_len(s) <= s.len(),
        forall|i: int| stem_len(s) <= i < s.len() ==> is_digit(s[i]),
        stem_len(s) > 0 ==> !is_digit(s[stem_len(s) - 1]),
    decreases s.len(),
{
    if s.len() > 0 && is_digit(s.last()) {
        lemma_stem_len_bounds(s.drop_last());
        assert forall|i: int| stem_len(s) <= i < s.len() implies is_digit(s[i]) by {
            if i < s.len() - 1 {
                assert(s.drop_last()[i] == s[i]);
            }
        }
    }
}

/// Bumping a digit below nine gives the next digit.
proof fn lemma_succ_digit(c: char)
    requires
        is_digit(c),
        c as u32 != 57,
    ensures
        is_digit(succ_digit(c)),
        digit_val(succ_digit(c)) == digit_val(c) + 1,
{
}

/// Incrementing a digit string keeps it a digit string and adds one to its
/// value.
proof fn lemma_inc_digits_props(d: Seq<char>)
    requires
        all_digits(d),
    ensures
        all_digits(inc_digits(d)),
        inc_digits(d).len() >= 1,
        run_val(inc_digits(d)) == run_val(d) + 1,
    decreases d.len(),
{
    if d.len() == 0 {
        assert(run_val(seq!['1']) == run_val(seq!['1'].drop_last()) * 10 + digit_val('1'));
        assert(seq!['1'].drop_last() =~= Seq::<char>::empty());
        assert(all_digits(seq!['1'])) by {
            assert(seq!['1'][0] == '1');
        }
    } else if d.last() as u32 == 57 {
        assert(all_digits(d.drop_last()));
        lemma_inc_digits_props(d.drop_last());
        let x = inc_digits(d.drop_last());
        assert(inc_digits(d) == x.push('0'));
        assert(x.push('0').drop_last() =~= x);
        assert(x.push('0').last() == '0');
        assert(run_val(x.push('0')) == run_val(x) * 10);
        assert(run_val(d) == run_val(d.drop_last()) * 10 + 9);
        assert forall|i: int| 0 <= i < x.push('0').len() implies is_digit(x.push('0')[i]) by {
            if i < x.len() {
                assert(x.push('0')[i] == x[i]);
            }
        }
    } else {
        let c = d.last();
        assert(is_digit(c));
        let x = d.drop_last().push(succ_digit(c));
        assert(inc_digits(d) == x);
        assert(x.drop_last() =~= d.drop_last());
        assert(x.last() == succ_digit(c));
        lemma_succ_digit(c);
        assert(run_val(x) == run_val(d.drop_last()) * 10 + digit_val(c) + 1);
        assert forall|i: int| 0 <= i < x.len() implies is_digit(x[i]) by {
            if i < d.len() - 1 {
                assert(x[i] == d.drop_last()[i]);
                assert(d.drop_last()[i] == d[i]);
            }
        }
    }
}

/// Appending a digit string to a string that does not end in a digit puts
/// the stem boundary exactly at the junction.
proof fn lemma_stem_append_digits(s0: Seq<char>, d: Seq<char>)
    requires
        all_digits(d),
        s0.len() == 0 || !is_digit(s0.last()),
    ensures
        stem_len(s0 + d) == s0.len(),
    decreases d.len(),
{
    if d.len() == 0 {
        assert(s0 + d =~= s0);
    } else {
        let t = s0 + d;
        assert(t.last() == d.last());
        assert(is_digit(t.last()));
        assert(t.drop_last() =~= s0 + d.drop_last());
        assert(all_digits(d.drop_last())) by {
            assert(forall|i: int| 0 <= i < d.len() - 1 ==> d.drop_last()[i] == d[i]);
        }
        lemma_stem_append_digits(s0, d.drop_last());
    }
}


/// Characters with one code are one character.
proof fn lemma_char_code(a: char, b: char)
    requires
        a as u32 == b as u32,
    ensures
        a == b,
{
}

/// A digit string has a nonnegative value.
proof fn lemma_run_val_nonneg(d: Seq<char>)
    requires
        all_digits(d),
    ensures
        run_val(d) >= 0,
    decreases d.len(),
{
    if d.len() > 0 {
        assert(all_digits(d.drop_last())) by {
            assert(forall|i: int| 0 <= i < d.len() - 1 ==> d.drop_last()[i] == d[i]);
        }
        lemma_run_val_nonneg(d.drop_last());
    }
}

/// Rendering a digit's value gives the digit back.
proof fn lemma_digit_roundtrip(c: char)
    requires
        is_digit(c),
    ensures
        digit_chr(digit_val(c)) == c,
{
}

/// The canonical rendering consists of digits, is never empty, has the
/// rendered value, and opens with a nonzero digit for a nonzero number.
proof fn lemma_decimal_props(n: nat)
    ensures
        all_digits(decimal(n)),
        decimal(n).len() >= 1,
        run_val(decimal(n)) == n,
        n >= 1 ==> decimal(n)[0] != '0',
    decreases n,
{
    if n < 10 {
        let d = decimal(n);
        assert(d[0] == digit_chr(n as int));
        assert(is_digit(digit_chr(n as int)) && digit_val(digit_chr(n as int)) == n);
        assert(d.drop_last() =~= Seq::<char>::empty());
        assert(run_val(d) == run_val(d.drop_last()) * 10 + digit_val(d.last()));
    } else {
        assert(n / 10 >= 1 && n / 10 < n) by (nonlinear_arith)
            requires
                n >= 10,
        ;
        lemma_decimal_props(n / 10);
        let hd = decimal(n / 10);
        let c = digit_chr((n % 10) as int);
        assert(is_digit(c) && digit_val(c) == n % 10);
        let d = hd.push(c);
        assert(decimal(n) == d);
        assert(d.drop_last() =~= hd);
        assert(d.last() == c);
        assert(run_val(d) == run_val(hd) * 10 + digit_val(c));
        assert((n / 10) * 10 + n % 10 == n);
        assert(all_digits(d)) by {
            assert(forall|i: int| 0 <= i < hd.len() ==> d[i] == hd[i]);
        }
        assert(d[0] == hd[0]);
    }
}

/// A digit string that opens with a nonzero digit has a positive value.
proof fn lemma_nlz_positive(d: Seq<char>)
    requires
        all_digits(d),
        d.len() >= 1,
        d[0] != '0',
    ensures
        run_val(d) >= 1,
    decreases d.len(),
{
    if d.len() == 1 {
        assert(d.last() == d[0]);
        assert(is_digit(d[0]));
        if d[0] as u32 == 48 {
            lemma_char_code(d[0], '0');
        }
        assert(digit_val(d[0]) >= 1);
        assert(d.drop_last() =~= Seq::<char>::empty());
        assert(run_val(d) == run_val(d.drop_last()) * 10 + digit_val(d.last()));
    } else {
        assert(all_digits(d.drop_last()) && d.drop_last()[0] == d[0]) by {
            assert(forall|i: int| 0 <= i < d.len() - 1 ==> d.drop_last()[i] == d[i]);
        }
        lemma_nlz_positive(d.drop_last());
        assert(is_digit(d.last()));
        assert(digit_val(d.last()) >= 0);
    }
}

/// A digit string without leading zeros is the canonical rendering of its
/// own value.
proof fn lemma_canonical(d: Seq<char>)
    requires
        all_digits(d),
        d.len() >= 1,
        d[0] != '0' || d.len() == 1,
    ensures
        d == decimal(run_val(d) as nat),
    decreases d.len(),
{
    lemma_run_val_nonneg(d);
    if d.len() == 1 {
        assert(d.drop_last() =~= Seq::<char>::empty());
        assert(d.last() == d[0]);
        assert(run_val(d) == run_val(d.drop_last()) * 10 + digit_val(d.last()));
        assert(run_val(d) == digit_val(d[0]));
        assert(is_digit(d[0]));
        assert(run_val(d) < 10);
        lemma_digit_roundtrip(d[0]);
        assert(d =~= decimal(run_val(d) as nat));
    } else {
        let hd = d.drop_last();
        assert(all_digits(hd) && hd[0] == d[0]) by {
            assert(forall|i: int| 0 <= i < d.len() - 1 ==> hd[i] == d[i]);
        }
        lemma_nlz_positive(hd);
        lemma_canonical(hd);
        let vd = run_val(hd);
        let r = digit_val(d.last());
        assert(is_digit(d.last()));
        assert(run_val(d) == run_val(hd) * 10 + digit_val(d.last()));
        assert(run_val(d) == vd * 10 + r);
        assert(run_val(d) >= 10 && run_val(d) / 10 == vd && run_val(d) % 10 == r)
            by (nonlinear_arith)
            requires
                vd >= 1,
                0 <= r < 10,
                run_val(d) == vd * 10 + r,
        ;
        lemma_digit_roundtrip(d.last());
        assert(decimal(run_val(d) as nat) == decimal(vd as nat).push(digit_chr(r)));
        assert(d =~= hd.push(d.last()));
    }
}

/// A leading zero does not change a digit string's value.
proof fn lemma_run_val_cons_zero(d: Seq<char>)
    ensures
        run_val(seq!['0'] + d) == run_val(d),
    decreases d.len(),
{
    let z = seq!['0'] + d;
    if d.len() == 0 {
        assert(z =~= seq!['0']);
        assert(z.drop_last() =~= Seq::<char>::empty());
        assert(run_val(z) == run_val(z.drop_last()) * 10 + digit_val('0'));
    } else {
        assert(z.drop_last() =~= seq!['0'] + d.drop_last());
        assert(z.last() == d.last());
        lemma_run_val_cons_zero(d.drop_last());
    }
}

/// Stripping leading zeros keeps the digits, the value, and leaves either
/// nothing or a nonzero leading digit.
proof fn lemma_strip_zeros_props(d: Seq<char>)
    requires
        all_digits(d),
    ensures
        all_digits(strip_zeros(d)),
        run_val(strip_zeros(d)) == run_val(d),
        strip_zeros(d).len() == 0 || strip_zeros(d)[0] != '0',
    decreases d.len(),
{
    if d.len() > 0 && d[0] == '0' {
        let tail = d.drop_first();
        assert(all_digits(tail)) by {
            assert(forall|i: int| 0 <= i < tail.len() ==> tail[i] == d[i + 1]);
        }
        assert(d =~= seq!['0'] + tail);
        lemma_run_val_cons_zero(tail);
        lemma_strip_zeros_props(tail);
    }
}

/// Stripping distributes over a junction at a nonzero digit.
proof fn lemma_strip_zeros_concat(a: Seq<char>, b: Seq<char>)
    requires
        b.len() >= 1,
        b[0] != '0',
    ensures
        strip_zeros(a + b) == strip_zeros(a) + b,
    decreases a.len(),
{
    if a.len() == 0 {
        assert(a + b =~= b);
        assert(strip_zeros(a) + b =~= b);
    } else if a[0] == '0' {
        assert((a + b)[0] == a[0]);
        assert((a + b).drop_first() =~= a.drop_first() + b);
        lemma_strip_zeros_concat(a.drop_first(), b);
    } else {
        assert((a + b)[0] == a[0]);
    }
}

/// Bumping a digit below nine never gives zero.
proof fn lemma_succ_digit_nonzero(c: char)
    ensures
        succ_digit(c) != '0',
{
}

/// Bumping a name keeps its stem and increments the value of its trailing
/// digit run by one, rendered canonically.
proof fn lemma_bump_props(s: Seq<char>)
    ensures
        stem_of(s_bump(s)) == stem_of(s),
        run_of(s_bump(s)) == decimal((run_val(run_of(s)) + 1) as nat),
        run_val(run_of(s_bump(s))) == run_val(run_of(s)) + 1,
{
    lemma_stem_len_bounds(s);
    assert(all_digits(run_of(s))) by {
        assert(forall|i: int|
            0 <= i < run_of(s).len() ==> run_of(s)[i] == s[stem_len(s) + i] && is_digit(
                s[stem_len(s) + i],
            ));
    }
    lemma_run_val_nonneg(run_of(s));
    let m = (run_val(run_of(s)) + 1) as nat;
    lemma_decimal_props(m);
    if stem_of(s).len() > 0 {
        assert(stem_of(s).last() == s[stem_len(s) - 1]);
    }
    lemma_stem_append_digits(stem_of(s), decimal(m));
    let b = s_bump(s);
    assert(stem_len(b) == stem_of(s).len());
    assert(stem_of(s).len() == stem_len(s));
    assert(stem_of(b) =~= stem_of(s)) by {
        assert(forall|i: int| 0 <= i < stem_len(s) ==> b[i] == stem_of(s)[i]);
    }
    assert(run_of(b) =~= decimal(m)) by {
        assert(forall|i: int| 0 <= i < b.len() - stem_len(s) ==> run_of(b)[i] == decimal(m)[i]);
    }
}

/// Whether `c` is a decimal digit.
fn is_digit_char(c: char) -> (r: bool)
    ensures
        r == is_digit(c),
{
    let u = c as u32;
    48 <= u && u <= 57
}

/// The decimal digit after `c`, as a one-character string.
fn succ_digit_str(c: char) -> (r: &'static str)
    ensures
        r@ == seq![succ_digit(c)],
{
    let u = c as u32;
    if u == 48 {
        proof {
            reveal_strlit("1");
            assert("1"@ =~= seq![succ_digit(c)]);
        }
        "1"
    } else if u == 49 {
        proof {
            reveal_strlit("2");
            assert("2"@ =~= seq![succ_digit(c)]);
        }
        "2"
    } else if u == 50 {
        proof {
            reveal_strlit("3");
            assert("3"@ =~= seq![succ_digit(c)]);
        }
        "3"
    } else if u == 51 {
        proof {
            reveal_strlit("4");
            assert("4"@ =~= seq![succ_digit(c)]);
        }
        "4"
    } else if u == 52 {
        proof {
            reveal_strlit("5");
            assert("5"@ =~= seq![succ_digit(c)]);
        }
        "5"
    } else if u == 53 {
        proof {
            reveal_strlit("6");
            assert("6"@ =~= seq![succ_digit(c)]);
        }
        "6"
    } else if u == 54 {
        proof {
            reveal_strlit("7");
            assert("7"@ =~= seq![succ_digit(c)]);
        }
        "7"
    } else if u == 55 {
        proof {
            reveal_strlit("8");
            assert("8"@ =~= seq![succ_digit(c)]);
        }
        "8"
    } else {
        proof {
            reveal_strlit("9");
            assert("9"@ =~= seq![succ_digit(c)]);
        }
        "9"
    }
}

/// The characters of `s`, in order.
pub(crate) fn chars_of(s: &String) -> (r: Vec<char>)
    ensures
        r@ == s@,
{
    let slice = s.as_str();
    let n = slice.unicode_len();
    let mut r: Vec<char> = Vec::new();
    let mut i: usize = 0;
    while i < n
        invariant
            0 <= i <= n,
            n == slice@.len(),
            slice@ == s@,
            r@ == s@.subrange(0, i as int),
        decreases n - i,
    {
        r.push(slice.get_char(i));
        assert(r@ =~= s@.subrange(0, i + 1 as int));
        i = i + 1;
    }
    assert(r@ =~= s@);
    r
}

/// All-nines digit runs increment to a one followed by zeros.
proof fn lemma_inc_all_nines(d: Seq<char>)
    requires
        forall|i: int| 0 <= i < d.len() ==> d[i] as u32 == 57,
    ensures
        inc_digits(d) == seq!['1'] + Seq::new(d.len(), |i: int| '0'),
    decreases d.len(),
{
    if d.len() == 0 {
        assert(inc_digits(d) =~= seq!['1'] + Seq::new(0, |i: int| '0'));
    } else {
        assert(forall|i: int| 0 <= i < d.len() - 1 ==> d.drop_last()[i] as u32 == 57);
        lemma_inc_all_nines(d.drop_last());
        assert(inc_digits(d) == inc_digits(d.drop_last()).push('0'));
        assert(inc_digits(d) =~= seq!['1'] + Seq::new(d.len(), |i: int| '0'));
    }
}

/// A digit run whose last non-nine digit stands at `p` increments to the
/// prefix kept, that digit bumped, and zeros after it.
proof fn lemma_inc_with_pivot(d: Seq<char>, p: int)
    requires
        0 <= p < d.len(),
        d[p] as u32 != 57,
        forall|i: int| p < i < d.len() ==> d[i] as u32 == 57,
    ensures
        inc_digits(d) == d.subrange(0, p) + seq![succ_digit(d[p])] + Seq::new(
            (d.len() - 1 - p) as nat,
            |i: int| '0',
        ),
    decreases d.len(),
{
    if p == d.len() - 1 {
        assert(inc_digits(d) == d.drop_last().push(succ_digit(d.last())));
        assert(inc_digits(d) =~= d.subrange(0, p) + seq![succ_digit(d[p])] + Seq::new(
            0,
            |i: int| '0',
        ));
    } else {
        assert(d.last() as u32 == 57);
        assert(inc_digits(d) == inc_digits(d.drop_last()).push('0'));
        assert(forall|i: int| p < i < d.len() - 1 ==> d.drop_last()[i] == d[i]);
        assert(d.drop_last()[p] == d[p]);
        lemma_inc_with_pivot(d.drop_last(), p);
        assert(d.drop_last().subrange(0, p) =~= d.subrange(0, p));
        assert(inc_digits(d) =~= d.subrange(0, p) + seq![succ_digit(d[p])] + Seq::new(
            (d.len() - 1 - p) as nat,
            |i: int| '0',
        ));
    }
}

/// One bump of `name`: the maximal trailing decimal suffix read as a
/// number, increased by one, and rendered back without leading zeros; the
/// rest kept.
#[verifier::rlimit(100)]
pub(crate) fn bump_name(name: &String) -> (r: String)
    ensures
        r@ == s_bump(name@),
{
    let v = chars_of(name);
    let n = v.len();
    proof {
        lemma_stem_len_bounds(v@);
    }
    // Find the stem boundary: scan the trailing digit run from the right.
    let mut k: usize = n;
    assert(v@.subrange(0, n as int) =~= v@);
    while k > 0 && is_digit_char(v[k - 1])
        invariant
            0 <= k <= n,
            n == v@.len(),
            stem_len(v@) == stem_len(v@.subrange(0, k as int)),
            forall|i: int| k <= i < n ==> is_digit(v@[i]),
        decreases k,
    {
        assert(v@.subrange(0, k as int).last() == v@[k - 1]);
        assert(v@.subrange(0, k as int).drop_last() =~= v@.subrange(0, k - 1 as int));
        k = k - 1;
    }
    proof {
        if k == 0 {
            assert(v@.subrange(0, 0) =~= Seq::<char>::empty());
        } else {
            assert(v@.subrange(0, k as int).last() == v@[k - 1]);
        }
        assert(stem_len(v@) == k as int);
    }
    // Find the rightmost digit below nine in the run.
    let mut j: usize = n;
    while j > k && v[j - 1] as u32 == 57
        invariant
            k <= j <= n,
            n == v@.len(),
            forall|i: int| j <= i < n ==> v@[i] as u32 == 57,
        decreases j,
    {
        j = j - 1;
    }
    let copy_to: usize = if j == k {
        k
    } else {
        j - 1
    };
    // The kept digit prefix loses its leading zeros: the rendering of the
    // incremented suffix is canonical.
    let mut zstart: usize = k;
    while zstart < copy_to && v[zstart] as u32 == 48
        invariant
            k <= zstart <= copy_to <= n,
            n == v@.len(),
            strip_zeros(v@.subrange(k as int, copy_to as int)) == strip_zeros(
                v@.subrange(zstart as int, copy_to as int),
            ),
        decreases copy_to - zstart,
    {
        assert(v@.subrange(zstart as int, copy_to as int)[0] == v@[zstart as int]);
        proof {
            lemma_char_code(v@[zstart as int], '0');
        }
        assert(v@.subrange(zstart as int, copy_to as int).drop_first() =~= v@.subrange(
            zstart + 1 as int,
            copy_to as int,
        ));
        zstart = zstart + 1;
    }
    proof {
        if zstart < copy_to {
            assert(v@.subrange(zstart as int, copy_to as int)[0] == v@[zstart as int]);
        }
        assert(strip_zeros(v@.subrange(zstart as int, copy_to as int)) == v@.subrange(
            zstart as int,
            copy_to as int,
        ));
    }
    let slice = name.as_str();
    let mut out: String = slice.substring_char(0, k).to_owned();
    out.append(slice.substring_char(zstart, copy_to));
    assert(out@ == v@.subrange(0, k as int) + v@.subrange(zstart as int, copy_to as int));
    if j == k {
        proof {
            reveal_strlit("1");
            assert("1"@ =~= seq!['1']);
        }
        out.append("1");
    } else {
        let d = succ_digit_str(v[j - 1]);
        out.append(d);
    }
    let ghost base = out@;
    let zeros: usize = n - j;
    let mut z: usize = 0;
    proof {
        reveal_strlit("0");
        assert("0"@ =~= seq!['0']);
    }
    while z < zeros
        invariant
            0 <= z <= zeros,
            out@ == base + Seq::new(z as nat, |i: int| '0'),
            "0"@ == seq!['0'],
        decreases zeros - z,
    {
        out.append("0");
        assert(out@ =~= base + Seq::new((z + 1) as nat, |i: int| '0'));
        z = z + 1;
    }
    proof {
        let s = v@;
        let run = run_of(s);
        let stripped = strip_zeros(inc_digits(run));
        assert(run.len() == n - k);
        assert(forall|i: int| 0 <= i < run.len() ==> run[i] == s[k + i]);
        assert(all_digits(run));
        lemma_run_val_nonneg(run);
        lemma_inc_digits_props(run);
        lemma_strip_zeros_props(inc_digits(run));
        // The built run part equals the stripped incremented digit string.
        if j == k {
            assert(forall|i: int| 0 <= i < run.len() ==> run[i] as u32 == 57);
            lemma_inc_all_nines(run);
            assert(inc_digits(run)[0] == '1') by {
                assert(inc_digits(run) == seq!['1'] + Seq::new(run.len(), |i: int| '0'));
            }
            assert(stripped == inc_digits(run));
            assert(out@ =~= stem_of(s) + stripped) by {
                assert(stem_of(s) == s.subrange(0, k as int));
                assert(v@.subrange(zstart as int, copy_to as int) =~= Seq::<char>::empty());
                assert(zeros == run.len());
            }
        } else {
            let p = j - 1 - k;
            assert(run[p] == s[j - 1]);
            assert(run[p] as u32 != 57);
            assert(forall|i: int| p < i < run.len() ==> run[i] as u32 == 57);
            lemma_inc_with_pivot(run, p as int);
            let prefix = run.subrange(0, p as int);
            let c = succ_digit(s[j - 1]);
            let tail = seq![c] + Seq::new((run.len() - 1 - p) as nat, |i: int| '0');
            assert(inc_digits(run) =~= prefix + tail);
            lemma_succ_digit_nonzero(s[j - 1]);
            assert(tail[0] == c);
            lemma_strip_zeros_concat(prefix, tail);
            assert(prefix =~= s.subrange(k as int, j - 1));
            assert(strip_zeros(prefix) == v@.subrange(zstart as int, copy_to as int));
            assert(stripped == strip_zeros(prefix) + tail);
            assert(out@ =~= stem_of(s) + stripped) by {
                assert(stem_of(s) == s.subrange(0, k as int));
                assert(zeros == run.len() - 1 - p);
            }
        }
        // The stripped string is the canonical rendering of the new value.
        assert(run_val(stripped) == run_val(run) + 1);
        assert(stripped.len() >= 1) by {
            if stripped.len() == 0 {
                assert(run_val(stripped) == 0);
            }
        }
        lemma_canonical(stripped);
        assert(stripped == decimal((run_val(run) + 1) as nat));
        assert(out@ == s_bump(name@));
    }
    out
}

impl Fresh for BareIdent {
    /// The name with its maximal trailing decimal suffix read as a number,
    /// increased by one, and rendered back without leading zeros; always a
    /// different name, since the suffix value grew.
    fn fresh(&self) -> (r: Self)
        ensures
            r@ == s_bump(self@),
            r@ != self@,
    {
        let r = bump_name(self);
        proof {
            lemma_bump_props(self@);
        }
        r
    }
}

/// Whether some element of `v` equals `x` as a string.
pub(crate) fn contains_name(v: &Vec<String>, x: &String) -> (r: bool)
    ensures
        r == vec_has_name(v@, x@),
{
    let mut i: usize = 0;
    while i < v.len()
        invariant
            0 <= i <= v@.len(),
            forall|j: int| 0 <= j < i ==> v@[j]@ != x@,
        decreases v@.len() - i,
    {
        if v[i] == *x {
            assert(vec_has_name(v@, x@));
            return true;
        }
        i = i + 1;
    }
    false
}

impl Term {
    /// The first name in the bump chain of `old_name` that names neither a
    /// free variable of `self`, nor a binder within `self`, nor an element
    /// of `var_set`: the earlier members of the chain all collide.
    #[verifier::loop_isolation(false)]
    pub fn new_fv_name(&self, old_name: &BareIdent, var_set: &Vec<BareIdent>) -> (r: BareIdent)
        ensures
            !free_names(self@).contains(r@),
            !s_binder_names(self@).contains(r@),
            !vec_has_name(var_set@, r@),
            exists|k: nat|
                r@ == s_bump_iter(old_name@, k) && (forall|j: nat|
                    j < k ==> free_names(self@).contains(s_bump_iter(old_name@, j))
                        || s_binder_names(self@).contains(s_bump_iter(old_name@, j))
                        || vec_has_name(var_set@, s_bump_iter(old_name@, j))),
    {
        let names = self.fv_names();
        let mut inner: Vec<String> = Vec::new();
        self.binder_names_into(&mut inner);
        let ghost allv: Seq<Seq<char>> = (names@ + inner@ + var_set@).map_values(|s: String| s@);
        let ghost avoid: Set<Seq<char>> = allv.to_set();
        proof {
            broadcast use vstd::seq_lib::seq_to_set_is_finite;

            allv.lemma_cardinality_of_set();
        }
        let mut name = old_name.clone();
        let ghost mut k: nat = 0;
        let ghost mut prev: Set<Seq<char>> = Set::empty();
        let ghost v0: int = run_val(run_of(old_name@));
        loop
            invariant
                name@ == s_bump_iter(old_name@, k),
                stem_of(name@) == stem_of(old_name@),
                run_val(run_of(name@)) == v0 + k,
                prev.finite(),
                prev.len() == k,
                prev.subset_of(avoid),
                avoid.finite(),
                avoid.len() <= names@.len() + inner@.len() + var_set@.len(),
                forall|x: Seq<char>| prev.contains(x) ==> run_val(run_of(x)) < v0 + k,
                forall|j: nat|
                    j < k ==> free_names(self@).contains(s_bump_iter(old_name@, j))
                        || s_binder_names(self@).contains(s_bump_iter(old_name@, j))
                        || vec_has_name(var_set@, s_bump_iter(old_name@, j)),
                k <= names@.len() + inner@.len() + var_set@.len(),
                forall|n: Seq<char>|
                    #![trigger vec_has_name(names@, n)]
                    vec_has_name(names@, n) <==> free_names(self@).contains(n),
                forall|n: Seq<char>|
                    #![trigger vec_has_name(inner@, n)]
                    vec_has_name(inner@, n) <==> s_binder_names(self@).contains(n),
            decreases names@.len() + inner@.len() + var_set@.len() + 1 - k,
        {
            let in_fv = contains_name(&names, &name);
            let in_binders = contains_name(&inner, &name);
            let in_set = contains_name(var_set, &name);
            if !in_fv && !in_binders && !in_set {
                return name;
            }
            proof {
                assert(allv.len() == names@.len() + inner@.len() + var_set@.len());
                assert(allv.contains(name@)) by {
                    if vec_has_name(names@, name@) {
                        let i = choose|i: int| 0 <= i < names@.len() && names@[i]@ == name@;
                        assert((names@ + inner@)[i] == names@[i]);
                        assert((names@ + inner@ + var_set@)[i] == names@[i]);
                        assert(allv[i] == name@);
                    } else if vec_has_name(inner@, name@) {
                        let i = choose|i: int| 0 <= i < inner@.len() && inner@[i]@ == name@;
                        assert((names@ + inner@)[names@.len() + i] == inner@[i]);
                        assert((names@ + inner@ + var_set@)[names@.len() + i] == inner@[i]);
                        assert(allv[names@.len() + i] == name@);
                    } else {
                        let i = choose|i: int| 0 <= i < var_set@.len() && var_set@[i]@ == name@;
                        assert((names@ + inner@ + var_set@)[names@.len() + inner@.len() + i]
                            == var_set@[i]);
                        assert(allv[names@.len() + inner@.len() + i] == name@);
                    }
                }
                assert(avoid.contains(name@));
                assert(!prev.contains(name@));
                prev = prev.insert(name@);
                lemma_len_subset(prev, avoid);
            }
            let ghost before = name@;
            name = bump_name(&name);
            proof {
                lemma_bump_props(before);
                k = k + 1;
            }
        }
    }
}

} // verus!
