use vstd::prelude::*;

pub mod instantiate;

use crate::text::{ascii_digits, decimal, encode_digits, push_char, push_encoded};

verus! {

/// Exponent of variable `i` in the monomial `e` (missing entries are zero).
pub open spec fn exp_at(e: Seq<u32>, i: int) -> int {
    if 0 <= i < e.len() { e[i] as int } else { 0 }
}

/// Strict lexicographic order on exponent lists.
pub open spec fn mono_lt(a: Seq<u32>, b: Seq<u32>) -> bool
    decreases a.len(),
{
    if a.len() == 0 {
        b.len() > 0
    } else if b.len() == 0 {
        false
    } else if a[0] != b[0] {
        a[0] < b[0]
    } else {
        mono_lt(a.drop_first(), b.drop_first())
    }
}

/// An exponent list with no trailing zeros.
pub open spec fn mono_normal(e: Seq<u32>) -> bool {
    e.len() == 0 || e.last() != 0
}

pub proof fn lemma_mono_lt_irrefl(a: Seq<u32>)
    ensures
        !mono_lt(a, a),
    decreases a.len(),
{
    if a.len() > 0 {
        lemma_mono_lt_irrefl(a.drop_first());
    }
}

pub proof fn lemma_mono_lt_asym(a: Seq<u32>, b: Seq<u32>)
    ensures
        mono_lt(a, b) ==> !mono_lt(b, a),
    decreases a.len(),
{
    if a.len() > 0 && b.len() > 0 && a[0] == b[0] {
        lemma_mono_lt_asym(a.drop_first(), b.drop_first());
    }
}

pub proof fn lemma_mono_lt_trans(a: Seq<u32>, b: Seq<u32>, c: Seq<u32>)
    ensures
        mono_lt(a, b) && mono_lt(b, c) ==> mono_lt(a, c),
    decreases a.len(),
{
    if a.len() > 0 && b.len() > 0 && c.len() > 0 {
        lemma_mono_lt_trans(a.drop_first(), b.drop_first(), c.drop_first());
    }
}

pub proof fn lemma_mono_lt_total(a: Seq<u32>, b: Seq<u32>)
    ensures
        a != b ==> mono_lt(a, b) || mono_lt(b, a),
    decreases a.len(),
{
    if a.len() > 0 && b.len() > 0 && a[0] == b[0] {
        lemma_mono_lt_total(a.drop_first(), b.drop_first());
        if a.drop_first() == b.drop_first() {
            assert(a =~= seq![a[0]] + a.drop_first());
            assert(b =~= seq![b[0]] + b.drop_first());
        }
    } else if a.len() == 0 && b.len() == 0 {
        assert(a =~= b);
    }
}

proof fn lemma_mono_lt_skip(a: Seq<u32>, b: Seq<u32>, i: int)
    requires
        0 <= i < a.len(),
        i < b.len(),
        a[i] == b[i],
    ensures
        mono_lt(a.skip(i), b.skip(i)) == mono_lt(a.skip(i + 1), b.skip(i + 1)),
{
    assert(a.skip(i).drop_first() =~= a.skip(i + 1));
    assert(b.skip(i).drop_first() =~= b.skip(i + 1));
}

/// Three-way comparison of exponent lists: negative, zero or positive.
fn mono_compare(a: &Vec<u32>, b: &Vec<u32>) -> (r: i8)
    ensures
        (r < 0) == mono_lt(a@, b@),
        (r == 0) == (a@ == b@),
        (r > 0) == mono_lt(b@, a@),
{
    let mut i: usize = 0;
    assert(a@.skip(0) =~= a@);
    assert(b@.skip(0) =~= b@);
    while i < a.len() && i < b.len()
        invariant
            i <= a.len(),
            i <= b.len(),
            a@.take(i as int) =~= b@.take(i as int),
            mono_lt(a@, b@) == mono_lt(a@.skip(i as int), b@.skip(i as int)),
            mono_lt(b@, a@) == mono_lt(b@.skip(i as int), a@.skip(i as int)),
        decreases a.len() - i,
    {
        if a[i] != b[i] {
            assert(a@.skip(i as int)[0] == a@[i as int]);
            assert(b@.skip(i as int)[0] == b@[i as int]);
            if a[i] < b[i] {
                return -1;
            } else {
                return 1;
            }
        }
        proof {
            lemma_mono_lt_skip(a@, b@, i as int);
            lemma_mono_lt_skip(b@, a@, i as int);
        }
        i = i + 1;
        assert(a@.take(i as int) =~= a@.take(i - 1).push(a@[i - 1]));
        assert(b@.take(i as int) =~= b@.take(i - 1).push(b@[i - 1]));
    }
    if a.len() == b.len() {
        assert(a@ =~= a@.take(i as int));
        assert(b@ =~= b@.take(i as int));
        proof {
            lemma_mono_lt_irrefl(a@);
        }
        0
    } else if a.len() < b.len() {
        assert(a@.skip(i as int).len() == 0);
        assert(a@ != b@);
        -1
    } else {
        assert(b@.skip(i as int).len() == 0);
        assert(a@.len() != b@.len());
        1
    }
}


/// A canonical term list: nonzero coefficients, normalized monomials,
/// strictly increasing monomials.
pub open spec fn terms_wf(t: Seq<(Seq<u32>, int)>) -> bool {
    &&& forall|i: int| 0 <= i < t.len() ==> #[trigger] t[i].1 != 0 && mono_normal(t[i].0)
    &&& forall|i: int, j: int|
        0 <= i < j < t.len() ==> mono_lt(#[trigger] t[i].0, #[trigger] t[j].0)
}

/// The coefficient of monomial `m` in the term list `t`.
pub open spec fn coef(t: Seq<(Seq<u32>, int)>, m: Seq<u32>) -> int
    decreases t.len(),
{
    if t.len() == 0 {
        0
    } else if t[0].0 == m {
        t[0].1
    } else {
        coef(t.drop_first(), m)
    }
}

/// Adds `c` times the monomial `m` to a canonical term list.
pub open spec fn insert_term(s: Seq<(Seq<u32>, int)>, m: Seq<u32>, c: int) -> Seq<
    (Seq<u32>, int),
>
    decreases s.len(),
{
    if s.len() == 0 {
        if c == 0 {
            seq![]
        } else {
            seq![(m, c)]
        }
    } else if mono_lt(m, s[0].0) {
        if c == 0 {
            s
        } else {
            seq![(m, c)] + s
        }
    } else if s[0].0 == m {
        if s[0].1 + c == 0 {
            s.drop_first()
        } else {
            seq![(m, s[0].1 + c)] + s.drop_first()
        }
    } else {
        seq![s[0]] + insert_term(s.drop_first(), m, c)
    }
}

pub proof fn lemma_wf_drop_first(t: Seq<(Seq<u32>, int)>)
    requires
        terms_wf(t),
        t.len() > 0,
    ensures
        terms_wf(t.drop_first()),
        forall|i: int| 0 <= i < t.drop_first().len() ==> mono_lt(t[0].0, #[trigger] t.drop_first()[i].0),
{
    assert forall|i: int| 0 <= i < t.drop_first().len() implies mono_lt(t[0].0, #[trigger] t.drop_first()[i].0) by {
        assert(t.drop_first()[i] == t[i + 1]);
    }
    assert forall|i: int, j: int| 0 <= i < j < t.drop_first().len() implies mono_lt(#[trigger] t.drop_first()[i].0, #[trigger] t.drop_first()[j].0) by {
        assert(t.drop_first()[i] == t[i + 1]);
        assert(t.drop_first()[j] == t[j + 1]);
    }
}

/// A monomial that no key of `t` equals has coefficient zero.
pub proof fn lemma_coef_absent(t: Seq<(Seq<u32>, int)>, m: Seq<u32>)
    requires
        forall|i: int| 0 <= i < t.len() ==> #[trigger] t[i].0 != m,
    ensures
        coef(t, m) == 0,
    decreases t.len(),
{
    if t.len() > 0 {
        assert(t[0].0 != m);
        assert forall|i: int| 0 <= i < t.drop_first().len() implies #[trigger] t.drop_first()[i].0 != m by {
            assert(t.drop_first()[i] == t[i + 1]);
        }
        lemma_coef_absent(t.drop_first(), m);
    }
}

/// A monomial below every key of a canonical list has coefficient zero.
pub proof fn lemma_coef_below(t: Seq<(Seq<u32>, int)>, m: Seq<u32>)
    requires
        forall|i: int| 0 <= i < t.len() ==> mono_lt(m, #[trigger] t[i].0),
    ensures
        coef(t, m) == 0,
{
    assert forall|i: int| 0 <= i < t.len() implies #[trigger] t[i].0 != m by {
        lemma_mono_lt_irrefl(m);
    }
    lemma_coef_absent(t, m);
}

/// Inserting a term keeps a list canonical, changes exactly one coefficient,
/// and adds no key below a common lower bound.
#[verifier::spinoff_prover]
#[verifier::rlimit(60)]
pub proof fn lemma_insert_term(s: Seq<(Seq<u32>, int)>, m: Seq<u32>, c: int)
    requires
        terms_wf(s),
        mono_normal(m),
    ensures
        terms_wf(insert_term(s, m, c)),
        forall|x: Seq<u32>| #[trigger] coef(insert_term(s, m, c), x) == coef(s, x) + (if x == m { c } else { 0 }),
        forall|lo: Seq<u32>|
            (forall|i: int| 0 <= i < s.len() ==> mono_lt(lo, #[trigger] s[i].0)) && mono_lt(lo, m) ==>
            (forall|i: int| 0 <= i < insert_term(s, m, c).len() ==> mono_lt(lo, #[trigger] insert_term(s, m, c)[i].0)),
    decreases s.len(),
{
    let r = insert_term(s, m, c);
    if s.len() == 0 {
        assert forall|x: Seq<u32>| #[trigger] coef(r, x) == coef(s, x) + (if x == m { c } else { 0 }) by {
            if c != 0 {
                assert(r.drop_first().len() == 0);
                assert(coef(r.drop_first(), x) == 0);
            }
        }
    } else if mono_lt(m, s[0].0) {
        lemma_wf_drop_first(s);
        assert forall|i: int| 0 <= i < s.len() implies mono_lt(m, #[trigger] s[i].0) by {
            if i > 0 {
                lemma_mono_lt_trans(m, s[0].0, s[i].0);
            }
        }
        lemma_coef_below(s, m);
        if c != 0 {
            assert(r.drop_first() =~= s);
            assert forall|i: int, j: int| 0 <= i < j < r.len() implies mono_lt(#[trigger] r[i].0, #[trigger] r[j].0) by {
                if i > 0 {
                    assert(r[i] == s[i - 1]);
                }
                assert(r[j] == s[j - 1]);
            }
            assert forall|i: int| 0 <= i < r.len() implies #[trigger] r[i].1 != 0 && mono_normal(r[i].0) by {
                if i > 0 {
                    assert(r[i] == s[i - 1]);
                }
            }
            assert forall|x: Seq<u32>| #[trigger] coef(r, x) == coef(s, x) + (if x == m { c } else { 0 }) by {
            }
            assert forall|lo: Seq<u32>|
                (forall|i: int| 0 <= i < s.len() ==> mono_lt(lo, #[trigger] s[i].0)) && mono_lt(lo, m) implies
                (forall|i: int| 0 <= i < r.len() ==> mono_lt(lo, #[trigger] r[i].0)) by {
                assert forall|i: int| 0 <= i < r.len() implies mono_lt(lo, #[trigger] r[i].0) by {
                    if i > 0 {
                        assert(r[i] == s[i - 1]);
                    }
                }
            }
        }
    } else if s[0].0 == m {
        lemma_wf_drop_first(s);
        let d = s.drop_first();
        lemma_coef_below(d, m);
        if s[0].1 + c == 0 {
            assert forall|lo: Seq<u32>|
                (forall|i: int| 0 <= i < s.len() ==> mono_lt(lo, #[trigger] s[i].0)) && mono_lt(lo, m) implies
                (forall|i: int| 0 <= i < r.len() ==> mono_lt(lo, #[trigger] r[i].0)) by {
                assert forall|i: int| 0 <= i < r.len() implies mono_lt(lo, #[trigger] r[i].0) by {
                    assert(r[i] == s[i + 1]);
                }
            }
        } else {
            assert(r.drop_first() =~= d);
            assert(r[0] == (m, s[0].1 + c));
            assert forall|i: int, j: int| 0 <= i < j < r.len() implies mono_lt(#[trigger] r[i].0, #[trigger] r[j].0) by {
                if i > 0 {
                    assert(r[i] == s[i]);
                }
                assert(r[j] == s[j]);
            }
            assert forall|i: int| 0 <= i < r.len() implies #[trigger] r[i].1 != 0 && mono_normal(r[i].0) by {
                if i > 0 {
                    assert(r[i] == s[i]);
                }
            }
            assert forall|lo: Seq<u32>|
                (forall|i: int| 0 <= i < s.len() ==> mono_lt(lo, #[trigger] s[i].0)) && mono_lt(lo, m) implies
                (forall|i: int| 0 <= i < r.len() ==> mono_lt(lo, #[trigger] r[i].0)) by {
                assert forall|i: int| 0 <= i < r.len() implies mono_lt(lo, #[trigger] r[i].0) by {
                    if i > 0 {
                        assert(r[i] == s[i]);
                    }
                }
            }
        }
    } else {
        lemma_mono_lt_total(m, s[0].0);
        lemma_wf_drop_first(s);
        let d = s.drop_first();
        lemma_insert_term(d, m, c);
        let rd = insert_term(d, m, c);
        assert(r == seq![s[0]] + rd);
        assert(r.drop_first() =~= rd);
        // every key of rd is above s[0]
        assert(forall|i: int| 0 <= i < rd.len() ==> mono_lt(s[0].0, #[trigger] rd[i].0));
        assert forall|i: int, j: int| 0 <= i < j < r.len() implies mono_lt(#[trigger] r[i].0, #[trigger] r[j].0) by {
            assert(r[j] == rd[j - 1]);
            if i > 0 {
                assert(r[i] == rd[i - 1]);
            }
        }
        assert forall|i: int| 0 <= i < r.len() implies #[trigger] r[i].1 != 0 && mono_normal(r[i].0) by {
            if i > 0 {
                assert(r[i] == rd[i - 1]);
            }
        }
        assert forall|x: Seq<u32>| #[trigger] coef(r, x) == coef(s, x) + (if x == m { c } else { 0 }) by {
            if x == s[0].0 {
                lemma_mono_lt_irrefl(m);
            } else {
                assert(coef(r, x) == coef(rd, x));
            }
        }
        assert forall|lo: Seq<u32>|
            (forall|i: int| 0 <= i < s.len() ==> mono_lt(lo, #[trigger] s[i].0)) && mono_lt(lo, m) implies
            (forall|i: int| 0 <= i < r.len() ==> mono_lt(lo, #[trigger] r[i].0)) by {
            assert forall|i: int| 0 <= i < d.len() implies mono_lt(lo, #[trigger] d[i].0) by {
                assert(d[i] == s[i + 1]);
            }
            assert forall|i: int| 0 <= i < r.len() implies mono_lt(lo, #[trigger] r[i].0) by {
                if i > 0 {
                    assert(r[i] == rd[i - 1]);
                }
            }
        }
    }
}


/// The coefficient stored at a key of a canonical list.
pub proof fn lemma_coef_at(t: Seq<(Seq<u32>, int)>, k: int)
    requires
        terms_wf(t),
        0 <= k < t.len(),
    ensures
        coef(t, t[k].0) == t[k].1,
    decreases k,
{
    if k > 0 {
        lemma_mono_lt_irrefl(t[k].0);
        lemma_wf_drop_first(t);
        assert(t.drop_first()[k - 1] == t[k]);
        lemma_coef_at(t.drop_first(), k - 1);
    }
}

/// A nonzero coefficient belongs to some key.
pub proof fn lemma_coef_nonzero(t: Seq<(Seq<u32>, int)>, m: Seq<u32>) -> (k: int)
    requires
        coef(t, m) != 0,
    ensures
        0 <= k < t.len(),
        t[k].0 == m,
{
    if forall|i: int| 0 <= i < t.len() ==> #[trigger] t[i].0 != m {
        lemma_coef_absent(t, m);
        0
    } else {
        choose|i: int| 0 <= i < t.len() && #[trigger] t[i].0 == m
    }
}

/// Canonical term lists are determined by their coefficients.
pub proof fn lemma_coef_ext(a: Seq<(Seq<u32>, int)>, b: Seq<(Seq<u32>, int)>)
    requires
        terms_wf(a),
        terms_wf(b),
        forall|m: Seq<u32>| #[trigger] coef(a, m) == coef(b, m),
    ensures
        a == b,
    decreases a.len() + b.len(),
{
    if a.len() == 0 && b.len() == 0 {
        assert(a =~= b);
    } else if a.len() == 0 {
        lemma_coef_at(b, 0);
        assert(coef(a, b[0].0) == 0);
    } else if b.len() == 0 {
        lemma_coef_at(a, 0);
        assert(coef(b, a[0].0) == 0);
    } else {
        lemma_coef_at(a, 0);
        lemma_coef_at(b, 0);
        assert(coef(a, a[0].0) == coef(b, a[0].0));
        let kb = lemma_coef_nonzero(b, a[0].0);
        assert(coef(b, b[0].0) == coef(a, b[0].0));
        let ka = lemma_coef_nonzero(a, b[0].0);
        if a[0].0 != b[0].0 {
            assert(ka > 0 && kb > 0);
            lemma_mono_lt_asym(a[0].0, b[0].0);
            assert(mono_lt(a[0].0, a[ka].0));
            assert(mono_lt(b[0].0, b[kb].0));
        }
        assert(a[0] == b[0]);
        lemma_wf_drop_first(a);
        lemma_wf_drop_first(b);
        let a1 = a.drop_first();
        let b1 = b.drop_first();
        lemma_coef_below(a1, a[0].0);
        lemma_coef_below(b1, b[0].0);
        assert forall|m: Seq<u32>| #[trigger] coef(a1, m) == coef(b1, m) by {
            if m != a[0].0 {
                assert(coef(a, m) == coef(a1, m));
                assert(coef(b, m) == coef(b1, m));
            }
        }
        lemma_coef_ext(a1, b1);
        assert(a =~= seq![a[0]] + a1);
        assert(b =~= seq![b[0]] + b1);
    }
}

/// Sum of the coefficients attached to `m` in an arbitrary term list.
pub open spec fn coef_sum(t: Seq<(Seq<u32>, int)>, m: Seq<u32>) -> int
    decreases t.len(),
{
    if t.len() == 0 {
        0
    } else {
        (if t[0].0 == m { t[0].1 } else { 0 }) + coef_sum(t.drop_first(), m)
    }
}

/// Inserts every term of `t`, in order, into the canonical list `acc`.
pub open spec fn add_terms(acc: Seq<(Seq<u32>, int)>, t: Seq<(Seq<u32>, int)>) -> Seq<
    (Seq<u32>, int),
>
    decreases t.len(),
{
    if t.len() == 0 {
        acc
    } else {
        add_terms(insert_term(acc, t[0].0, t[0].1), t.drop_first())
    }
}

pub open spec fn all_normal(t: Seq<(Seq<u32>, int)>) -> bool {
    forall|i: int| 0 <= i < t.len() ==> mono_normal(#[trigger] t[i].0)
}

pub proof fn lemma_add_terms(acc: Seq<(Seq<u32>, int)>, t: Seq<(Seq<u32>, int)>)
    requires
        terms_wf(acc),
        all_normal(t),
    ensures
        terms_wf(add_terms(acc, t)),
        forall|m: Seq<u32>| #[trigger] coef(add_terms(acc, t), m) == coef(acc, m) + coef_sum(t, m),
    decreases t.len(),
{
    if t.len() > 0 {
        assert(mono_normal(t[0].0));
        lemma_insert_term(acc, t[0].0, t[0].1);
        let acc1 = insert_term(acc, t[0].0, t[0].1);
        assert forall|i: int| 0 <= i < t.drop_first().len() implies mono_normal(#[trigger] t.drop_first()[i].0) by {
            assert(t.drop_first()[i] == t[i + 1]);
        }
        lemma_add_terms(acc1, t.drop_first());
        assert forall|m: Seq<u32>| #[trigger] coef(add_terms(acc, t), m) == coef(acc, m) + coef_sum(t, m) by {
            assert(coef(acc1, m) == coef(acc, m) + (if m == t[0].0 { t[0].1 } else { 0 }));
        }
    }
}

/// In a canonical list the coefficient sum of a monomial is its coefficient.
pub proof fn lemma_coef_sum_wf(t: Seq<(Seq<u32>, int)>, m: Seq<u32>)
    requires
        terms_wf(t),
    ensures
        coef_sum(t, m) == coef(t, m),
    decreases t.len(),
{
    if t.len() > 0 {
        lemma_wf_drop_first(t);
        lemma_coef_sum_wf(t.drop_first(), m);
        if t[0].0 == m {
            lemma_coef_below(t.drop_first(), m);
        }
    }
}


proof fn lemma_insert_split(s: Seq<(Seq<u32>, int)>, m: Seq<u32>, c: int, k: int)
    requires
        0 <= k <= s.len(),
        forall|i: int| 0 <= i < k ==> mono_lt(#[trigger] s[i].0, m),
    ensures
        insert_term(s, m, c) == s.take(k) + insert_term(s.skip(k), m, c),
    decreases k,
{
    if k == 0 {
        assert(s.take(0) =~= seq![]);
        assert(s.skip(0) =~= s);
        assert(seq![] + insert_term(s, m, c) =~= insert_term(s, m, c));
    } else {
        lemma_mono_lt_asym(s[0].0, m);
        lemma_mono_lt_irrefl(m);
        let d = s.drop_first();
        assert forall|i: int| 0 <= i < k - 1 implies mono_lt(#[trigger] d[i].0, m) by {
            assert(d[i] == s[i + 1]);
        }
        lemma_insert_split(d, m, c, k - 1);
        assert(d.skip(k - 1) =~= s.skip(k));
        assert(seq![s[0]] + d.take(k - 1) =~= s.take(k));
        assert(insert_term(s, m, c) == seq![s[0]] + insert_term(d, m, c));
        assert(seq![s[0]] + (d.take(k - 1) + insert_term(s.skip(k), m, c)) =~= (seq![s[0]]
            + d.take(k - 1)) + insert_term(s.skip(k), m, c));
    }
}

/// The mathematical view of a stored term vector.
pub open spec fn tview(v: Seq<(Vec<u32>, isize)>) -> Seq<(Seq<u32>, int)> {
    v.map_values(|p: (Vec<u32>, isize)| (p.0@, p.1 as int))
}

/// A coefficient sum, negated when `neg` holds.
pub open spec fn signed_sum(t: Seq<(Seq<u32>, int)>, m: Seq<u32>, neg: bool) -> int {
    if neg { -coef_sum(t, m) } else { coef_sum(t, m) }
}

/// The signed amount that `insert_into` adds.
pub open spec fn signed(c: isize, neg: bool) -> int {
    if neg { -(c as int) } else { c as int }
}

/// Adds (or, with `neg`, subtracts) `c` times the monomial `m` into a
/// canonical term vector in place.
#[verifier::spinoff_prover]
#[verifier::rlimit(80)]
fn insert_into(v: &mut Vec<(Vec<u32>, isize)>, m: Vec<u32>, c: isize, neg: bool)
    requires
        terms_wf(tview(old(v)@)),
        mono_normal(m@),
        isize::MIN <= coef(tview(old(v)@), m@) + signed(c, neg) <= isize::MAX,
    ensures
        tview(final(v)@) == insert_term(tview(old(v)@), m@, signed(c, neg)),
{
    let ghost s = tview(v@);
    let ghost d = signed(c, neg);
    let mut k: usize = 0;
    while k < v.len() && mono_compare(&v[k].0, &m) < 0
        invariant
            k <= v.len(),
            s == tview(v@),
            forall|i: int| 0 <= i < k ==> mono_lt(#[trigger] s[i].0, m@),
        decreases v.len() - k,
    {
        k = k + 1;
    }
    proof {
        lemma_insert_split(s, m@, d, k as int);
    }
    if k == v.len() {
        assert(s.skip(k as int) =~= seq![]);
        proof {
            assert forall|i: int| 0 <= i < s.len() implies #[trigger] s[i].0 != m@ by {
                lemma_mono_lt_irrefl(m@);
            }
            lemma_coef_absent(s, m@);
        }
        if c != 0 {
            let e = if neg { -c } else { c };
            v.push((m, e));
            assert(tview(v@) =~= s.take(k as int) + seq![(m@, d)]);
        } else {
            assert(s.take(k as int) + seq![] =~= s);
        }
    } else {
        let r = mono_compare(&v[k].0, &m);
        let ghost t = s.skip(k as int);
        assert(t[0] == s[k as int]);
        if r == 0 {
            proof {
                lemma_coef_at(s, k as int);
                lemma_mono_lt_irrefl(m@);
            }
            let sum = if neg { v[k].1 - c } else { v[k].1 + c };
            let (e, _) = v.remove(k);
            assert(t.drop_first() =~= s.skip(k + 1));
            if sum != 0 {
                v.insert(k, (e, sum));
                assert(tview(v@) =~= s.take(k as int) + (seq![(m@, sum as int)] + t.drop_first()));
            } else {
                assert(tview(v@) =~= s.take(k as int) + t.drop_first());
            }
        } else {
            proof {
                lemma_mono_lt_total(m@, v@[k as int].0@);
                lemma_wf_drop_first(s.skip(k as int));
                assert forall|i: int| 0 <= i < t.len() implies mono_lt(m@, #[trigger] t[i].0) by {
                    if i > 0 {
                        assert(t.drop_first()[i - 1] == t[i]);
                        lemma_mono_lt_trans(m@, t[0].0, t[i].0);
                    }
                }
                lemma_coef_below(t, m@);
                assert(s =~= s.take(k as int) + t);
                assert forall|i: int| 0 <= i < k implies #[trigger] s[i].0 != m@ by {
                    lemma_mono_lt_irrefl(m@);
                }
                lemma_coef_split(s.take(k as int), t, m@);
            }
            if c != 0 {
                let e = if neg { -c } else { c };
                v.insert(k, (m, e));
                assert(tview(v@) =~= s.take(k as int) + (seq![(m@, d)] + t));
            } else {
                assert(s.take(k as int) + t =~= s);
            }
        }
    }
}

/// The coefficient in a concatenation whose first part lacks the monomial.
proof fn lemma_coef_split(p: Seq<(Seq<u32>, int)>, t: Seq<(Seq<u32>, int)>, m: Seq<u32>)
    requires
        forall|i: int| 0 <= i < p.len() ==> #[trigger] p[i].0 != m,
    ensures
        coef(p + t, m) == coef(t, m),
    decreases p.len(),
{
    if p.len() > 0 {
        assert((p + t).drop_first() =~= p.drop_first() + t);
        assert forall|i: int| 0 <= i < p.drop_first().len() implies #[trigger] p.drop_first()[i].0 != m by {
            assert(p.drop_first()[i] == p[i + 1]);
        }
        lemma_coef_split(p.drop_first(), t, m);
    }
}

proof fn lemma_coef_sum_push(s: Seq<(Seq<u32>, int)>, x: (Seq<u32>, int), m: Seq<u32>)
    ensures
        coef_sum(s.push(x), m) == coef_sum(s, m) + (if x.0 == m { x.1 } else { 0 }),
    decreases s.len(),
{
    if s.len() > 0 {
        assert(s.push(x).drop_first() =~= s.drop_first().push(x));
        assert(s.push(x)[0] == s[0]);
        lemma_coef_sum_push(s.drop_first(), x, m);
    } else {
        assert(s.push(x).drop_first() =~= seq![]);
        assert(coef_sum(s.push(x).drop_first(), m) == 0);
        assert(s.push(x)[0] == x);
    }
}

/// Copies an exponent list.
fn copy_mono(e: &Vec<u32>) -> (r: Vec<u32>)
    ensures
        r@ == e@,
{
    let mut r: Vec<u32> = Vec::new();
    let mut i: usize = 0;
    while i < e.len()
        invariant
            i <= e.len(),
            r@ == e@.take(i as int),
        decreases e.len() - i,
    {
        r.push(e[i]);
        i = i + 1;
        assert(r@ =~= e@.take(i as int));
    }
    assert(e@.take(e.len() as int) =~= e@);
    r
}

/// The exponent list of the variable with index `n`.
pub open spec fn var_mono(n: nat) -> Seq<u32> {
    Seq::new(n + 1, |i: int| if i == n { 1u32 } else { 0u32 })
}

/// The constant value of a canonical term list, if it has no variable terms.
pub open spec fn const_of(t: Seq<(Seq<u32>, int)>) -> Option<int> {
    if t.len() == 0 {
        Some(0)
    } else if t.len() == 1 && t[0].0.len() == 0 {
        Some(t[0].1)
    } else {
        None
    }
}

/// The index of the variable that a canonical term list consists of, if it is
/// exactly one variable with coefficient one.
pub open spec fn single_var_of(t: Seq<(Seq<u32>, int)>) -> Option<nat> {
    if t.len() == 1 && t[0].1 == 1 && t[0].0.len() > 0 && t[0].0 == var_mono((t[0].0.len() - 1) as nat) {
        Some((t[0].0.len() - 1) as nat)
    } else {
        None
    }
}

/// The canonical form of a constant.
pub open spec fn const_terms(c: int) -> Seq<(Seq<u32>, int)> {
    if c == 0 {
        seq![]
    } else {
        seq![(Seq::<u32>::empty(), c)]
    }
}

/// Polynomial sum.
pub open spec fn poly_add(a: Seq<(Seq<u32>, int)>, b: Seq<(Seq<u32>, int)>) -> Seq<(Seq<u32>, int)> {
    add_terms(a, b)
}

/// Every term of `b` with its coefficient negated.
pub open spec fn neg_terms(b: Seq<(Seq<u32>, int)>) -> Seq<(Seq<u32>, int)> {
    b.map_values(|p: (Seq<u32>, int)| (p.0, -p.1))
}

/// Polynomial difference.
pub open spec fn poly_sub(a: Seq<(Seq<u32>, int)>, b: Seq<(Seq<u32>, int)>) -> Seq<(Seq<u32>, int)> {
    add_terms(a, neg_terms(b))
}

/// Sum and difference are computed without overflow exactly when every
/// resulting coefficient fits.
pub open spec fn add_fits(a: Seq<(Seq<u32>, int)>, b: Seq<(Seq<u32>, int)>) -> bool {
    forall|m: Seq<u32>| isize::MIN <= #[trigger] coef(a, m) + coef(b, m) <= isize::MAX
}

pub open spec fn sub_fits(a: Seq<(Seq<u32>, int)>, b: Seq<(Seq<u32>, int)>) -> bool {
    forall|m: Seq<u32>| isize::MIN <= #[trigger] coef(a, m) - coef(b, m) <= isize::MAX
}

proof fn lemma_neg_terms(b: Seq<(Seq<u32>, int)>, m: Seq<u32>)
    ensures
        coef_sum(neg_terms(b), m) == -coef_sum(b, m),
        all_normal(b) ==> all_normal(neg_terms(b)),
    decreases b.len(),
{
    if b.len() > 0 {
        assert(neg_terms(b).drop_first() =~= neg_terms(b.drop_first()));
        lemma_neg_terms(b.drop_first(), m);
    }
}

/// Coefficient sums over a prefix of a canonical list.
proof fn lemma_coef_sum_prefix(t: Seq<(Seq<u32>, int)>, k: int, m: Seq<u32>)
    requires
        terms_wf(t),
        0 <= k <= t.len(),
    ensures
        coef_sum(t.take(k), m) == 0 || coef_sum(t.take(k), m) == coef(t, m),
    decreases k,
{
    lemma_coef_sum_wf(t, m);
    if k > 0 {
        lemma_wf_drop_first(t);
        lemma_coef_sum_prefix(t.drop_first(), k - 1, m);
        assert(t.take(k).drop_first() =~= t.drop_first().take(k - 1));
        if t[0].0 == m {
            lemma_coef_below(t.drop_first(), m);
            lemma_coef_sum_wf(t.drop_first(), m);
            assert forall|i: int| 0 <= i < t.drop_first().take(k - 1).len() implies #[trigger] t.drop_first().take(k - 1)[i].0 != m by {
                lemma_mono_lt_irrefl(m);
            }
            lemma_coef_sum_absent(t.drop_first().take(k - 1), m);
        }
    }
}

proof fn lemma_coef_sum_absent(t: Seq<(Seq<u32>, int)>, m: Seq<u32>)
    requires
        forall|i: int| 0 <= i < t.len() ==> #[trigger] t[i].0 != m,
    ensures
        coef_sum(t, m) == 0,
    decreases t.len(),
{
    if t.len() > 0 {
        assert forall|i: int| 0 <= i < t.drop_first().len() implies #[trigger] t.drop_first()[i].0 != m by {
            assert(t.drop_first()[i] == t[i + 1]);
        }
        lemma_coef_sum_absent(t.drop_first(), m);
    }
}

/// A multivariate polynomial with integer coefficients, used to track
/// relations between array axes of unknown length.
///
/// Each term pairs an exponent list with a coefficient: the list `[1, 2]`
/// with coefficient `3` stands for `3x₀x₁²`. Stored coefficients are never
/// zero, exponent lists have no trailing zeros, and terms are kept in
/// increasing lexicographic order of their exponent lists, so that every
/// polynomial has exactly one representation.
#[derive(Debug)]
pub struct Expr {
    terms: Vec<(Vec<u32>, isize)>,
}

impl View for Expr {
    type V = Seq<(Seq<u32>, int)>;

    closed spec fn view(&self) -> Seq<(Seq<u32>, int)> {
        tview(self.terms@)
    }
}

impl Expr {
    /// Every expression is in canonical form.
    #[verifier::type_invariant]
    pub open spec fn inv(self) -> bool {
        terms_wf(self@)
    }

    /// The zero polynomial.
    pub fn zero() -> (r: Self)
        ensures
            r@ == Seq::<(Seq<u32>, int)>::empty(),
    {
        let r = Expr { terms: Vec::new() };
        assert(r@ =~= Seq::<(Seq<u32>, int)>::empty());
        r
    }

    /// Adds (or, with `neg`, subtracts) `c` times the monomial `m`.
    fn add_term(self, m: Vec<u32>, c: isize, neg: bool) -> (r: Self)
        requires
            mono_normal(m@),
            isize::MIN <= coef(self@, m@) + signed(c, neg) <= isize::MAX,
        ensures
            r@ == insert_term(self@, m@, signed(c, neg)),
    {
        proof {
            use_type_invariant(&self);
            lemma_insert_term(self@, m@, signed(c, neg));
        }
        let mut v = self.terms;
        insert_into(&mut v, m, c, neg);
        Expr { terms: v }
    }

    /// Adds (or, with `neg`, subtracts) every term of `rhs`.
    fn add_all(self, rhs: &Self, neg: bool) -> (r: Self)
        requires
            neg ==> sub_fits(self@, rhs@),
            !neg ==> add_fits(self@, rhs@),
        ensures
            r@ == add_terms(self@, if neg { neg_terms(rhs@) } else { rhs@ }),
            forall|m: Seq<u32>| #[trigger] coef(r@, m) == coef(self@, m) + (if neg { -coef(rhs@, m) } else { coef(rhs@, m) }),
    {
        proof {
            use_type_invariant(&self);
            use_type_invariant(rhs);
        }
        let ghost a = self@;
        let ghost b = rhs@;
        let ghost bb = if neg { neg_terms(b) } else { b };
        assert(bb.skip(0) =~= bb);
        assert(b.take(0) =~= seq![]);
        let mut acc = self;
        let mut i: usize = 0;
        while i < rhs.terms.len()
            invariant
                i <= rhs.terms.len(),
                b == rhs@,
                terms_wf(b),
                bb == if neg { neg_terms(b) } else { b },
                neg ==> sub_fits(a, b),
                !neg ==> add_fits(a, b),
                add_terms(acc@, bb.skip(i as int)) == add_terms(a, bb),
                forall|m: Seq<u32>| #[trigger] coef(acc@, m) == coef(a, m) + signed_sum(b.take(i as int), m, neg),
            decreases rhs.terms.len() - i,
        {
            let ghost mi = b[i as int].0;
            proof {
                assert(b[i as int] == (rhs.terms@[i as int].0@, rhs.terms@[i as int].1 as int));
                assert forall|j: int| 0 <= j < b.take(i as int).len() implies #[trigger] b.take(i as int)[j].0 != mi by {
                    lemma_mono_lt_irrefl(mi);
                }
                lemma_coef_sum_absent(b.take(i as int), mi);
                lemma_coef_at(b, i as int);
            }
            let m = copy_mono(&rhs.terms[i].0);
            let c = rhs.terms[i].1;
            let ghost prev = acc@;
            proof {
                use_type_invariant(&acc);
            }
            acc = acc.add_term(m, c, neg);
            proof {
                assert(bb.skip(i as int).drop_first() =~= bb.skip(i + 1));
                assert(bb.skip(i as int)[0] == (mi, signed(c, neg)));
                assert(b.take(i + 1) =~= b.take(i as int).push(b[i as int]));
                assert forall|m: Seq<u32>| #[trigger] coef(acc@, m) == coef(a, m) + signed_sum(b.take(i + 1), m, neg) by {
                    lemma_coef_sum_push(b.take(i as int), b[i as int], m);
                    lemma_insert_term(prev, mi, signed(c, neg));
                }
            }
            i = i + 1;
        }
        proof {
            assert(b.take(i as int) =~= b);
            assert forall|m: Seq<u32>| #[trigger] coef(acc@, m) == coef(self@, m) + (if neg { -coef(rhs@, m) } else { coef(rhs@, m) }) by {
                lemma_coef_sum_wf(b, m);
            }
        }
        acc
    }
}


impl Expr {
    /// Polynomial sum.
    pub fn add(self, rhs: Self) -> (r: Self)
        requires
            add_fits(self@, rhs@),
        ensures
            r@ == poly_add(self@, rhs@),
            forall|m: Seq<u32>| #[trigger] coef(r@, m) == coef(self@, m) + coef(rhs@, m),
    {
        self.add_all(&rhs, false)
    }

    /// Polynomial difference.
    pub fn sub(self, rhs: Self) -> (r: Self)
        requires
            sub_fits(self@, rhs@),
        ensures
            r@ == poly_sub(self@, rhs@),
            forall|m: Seq<u32>| #[trigger] coef(r@, m) == coef(self@, m) - coef(rhs@, m),
    {
        self.add_all(&rhs, true)
    }

    /// Creates the variable with index `*nvars` and advances the counter, so
    /// that every call made with one counter yields a variable never made
    /// before with it.
    pub fn new_var(nvars: &mut usize) -> (r: Self)
        requires
            *old(nvars) < usize::MAX,
        ensures
            *final(nvars) == *old(nvars) + 1,
            r@ == seq![(var_mono(*old(nvars) as nat), 1int)],
            single_var_of(r@) == Some(*old(nvars) as nat),
    {
        let n = *nvars;
        let mut exponents: Vec<u32> = Vec::new();
        let mut i: usize = 0;
        while i < n
            invariant
                i <= n,
                exponents@ == Seq::new(i as nat, |k: int| 0u32),
            decreases n - i,
        {
            exponents.push(0);
            i = i + 1;
            assert(exponents@ =~= Seq::new(i as nat, |k: int| 0u32));
        }
        exponents.push(1);
        assert(exponents@ =~= var_mono(n as nat));
        *nvars = n + 1;
        let mut terms: Vec<(Vec<u32>, isize)> = Vec::new();
        terms.push((exponents, 1));
        let r = Expr { terms };
        assert(r@ =~= seq![(var_mono(n as nat), 1int)]);
        r
    }

    /// If this expression has only a constant term, returns it.
    pub fn as_const(&self) -> (r: Option<isize>)
        ensures
            r matches Some(c) ==> const_of(self@) == Some(c as int),
            r is None ==> const_of(self@) is None,
    {
        if self.terms.len() == 0 {
            Some(0)
        } else if self.terms.len() == 1 && self.terms[0].0.len() == 0 {
            Some(self.terms[0].1)
        } else {
            None
        }
    }

    /// If this expression is exactly one variable, returns its index.
    pub fn as_single_var(&self) -> (r: Option<usize>)
        ensures
            r matches Some(i) ==> single_var_of(self@) == Some(i as nat),
            r is None ==> single_var_of(self@) is None,
    {
        if self.terms.len() != 1 {
            return None;
        }
        assert(self@[0] == (self.terms@[0].0@, self.terms@[0].1 as int));
        if self.terms[0].1 != 1 || self.terms[0].0.len() == 0 {
            return None;
        }
        let e = &self.terms[0].0;
        let n = e.len() - 1;
        let mut i: usize = 0;
        while i < n
            invariant
                i <= n,
                n == e.len() - 1,
                e@ == self@[0].0,
                self@.len() == 1,
                self@[0].1 == 1,
                forall|k: int| 0 <= k < i ==> e@[k] == 0u32,
            decreases n - i,
        {
            if e[i] != 0 {
                assert(e@ != var_mono(n as nat));
                return None;
            }
            i = i + 1;
        }
        if e[n] != 1 {
            assert(e@ != var_mono(n as nat));
            return None;
        }
        assert(e@ =~= var_mono(n as nat));
        Some(n)
    }

    /// The constant polynomial with value `value`.
    pub fn from_isize(value: isize) -> (r: Self)
        ensures
            r@ == const_terms(value as int),
            const_of(r@) == Some(value as int),
    {
        let mut terms: Vec<(Vec<u32>, isize)> = Vec::new();
        if value != 0 {
            terms.push((Vec::new(), value));
        }
        let r = Expr { terms };
        assert(r@ =~= const_terms(value as int));
        r
    }

    /// The constant polynomial with value `value`, which must fit in `isize`.
    pub fn from_usize(value: usize) -> (r: Self)
        requires
            value <= isize::MAX,
        ensures
            r@ == const_terms(value as int),
            const_of(r@) == Some(value as int),
    {
        Self::from_isize(value as isize)
    }

    /// A copy of this expression.
    pub fn duplicate(&self) -> (r: Self)
        ensures
            r@ == self@,
    {
        proof {
            use_type_invariant(self);
        }
        let mut terms: Vec<(Vec<u32>, isize)> = Vec::new();
        let mut i: usize = 0;
        while i < self.terms.len()
            invariant
                i <= self.terms.len(),
                tview(terms@) == tview(self.terms@).take(i as int),
            decreases self.terms.len() - i,
        {
            let e = copy_mono(&self.terms[i].0);
            let c = self.terms[i].1;
            let ghost before = terms@;
            terms.push((e, c));
            assert(terms@ == before.push((e, c)));
            assert(tview(terms@) =~= tview(before).push((e@, c as int)));
            assert(tview(self.terms@)[i as int] == (self.terms@[i as int].0@, self.terms@[i as int].1 as int));
            assert(tview(self.terms@).take(i + 1) =~= tview(self.terms@).take(i as int).push(tview(self.terms@)[i as int]));
            i = i + 1;
            assert(tview(terms@) =~= tview(self.terms@).take(i as int));
        }
        assert(tview(self.terms@).take(i as int) =~= tview(self.terms@));
        Expr { terms }
    }

    /// Whether two expressions are the same polynomial.
    pub fn equals(&self, other: &Self) -> (r: bool)
        ensures
            r == (self@ == other@),
    {
        if self.terms.len() != other.terms.len() {
            assert(self@.len() != other@.len());
            return false;
        }
        let mut i: usize = 0;
        while i < self.terms.len()
            invariant
                i <= self.terms.len(),
                self.terms.len() == other.terms.len(),
                self@.take(i as int) =~= other@.take(i as int),
            decreases self.terms.len() - i,
        {
            if self.terms[i].1 != other.terms[i].1 || mono_compare(&self.terms[i].0, &other.terms[i].0) != 0 {
                assert(self@[i as int] != other@[i as int]);
                return false;
            }
            i = i + 1;
            assert(self@.take(i as int) =~= self@.take(i - 1).push(self@[i - 1]));
            assert(other@.take(i as int) =~= other@.take(i - 1).push(other@[i - 1]));
        }
        assert(self@ =~= self@.take(i as int));
        assert(other@ =~= other@.take(i as int));
        true
    }
}

impl Clone for Expr {
    fn clone(&self) -> (r: Self)
        ensures
            r@ == self@,
    {
        self.duplicate()
    }
}

impl PartialEq for Expr {
    fn eq(&self, other: &Self) -> (r: bool) {
        self.equals(other)
    }
}

impl vstd::std_specs::cmp::PartialEqSpecImpl for Expr {
    open spec fn obeys_eq_spec() -> bool {
        true
    }

    open spec fn eq_spec(&self, other: &Self) -> bool {
        self@ == other@
    }
}


/// The product of two monomials.
pub open spec fn mono_add(x: Seq<u32>, y: Seq<u32>) -> Seq<u32> {
    Seq::new(
        if x.len() >= y.len() { x.len() } else { y.len() },
        |k: int| (exp_at(x, k) + exp_at(y, k)) as u32,
    )
}

/// The terms of `x` times each term of `b`.
pub open spec fn row(x: (Seq<u32>, int), b: Seq<(Seq<u32>, int)>) -> Seq<(Seq<u32>, int)> {
    b.map_values(|y: (Seq<u32>, int)| (mono_add(x.0, y.0), x.1 * y.1))
}

/// The products of every term of `a` with every term of `b`.
pub open spec fn all_pairs(a: Seq<(Seq<u32>, int)>, b: Seq<(Seq<u32>, int)>) -> Seq<(Seq<u32>, int)>
    decreases a.len(),
{
    if a.len() == 0 {
        seq![]
    } else {
        row(a[0], b) + all_pairs(a.drop_first(), b)
    }
}

/// Polynomial product: the coefficient of `m` is the sum of `c * d` over the
/// pairs of terms `c·x`, `d·y` with `x·y == m` (see `lemma_mul_coef`).
pub open spec fn poly_mul(a: Seq<(Seq<u32>, int)>, b: Seq<(Seq<u32>, int)>) -> Seq<(Seq<u32>, int)> {
    add_terms(seq![], all_pairs(a, b))
}

pub open spec fn abs(x: int) -> int {
    if x < 0 { -x } else { x }
}

/// Sum of the absolute values of the coefficients of a term list.
pub open spec fn abs_sum(t: Seq<(Seq<u32>, int)>) -> int
    decreases t.len(),
{
    if t.len() == 0 {
        0
    } else {
        abs(t[0].1) + abs_sum(t.drop_first())
    }
}

/// Multiplying stays within the machine integers: exponent sums fit `u32`
/// and the products' absolute values sum to at most `isize::MAX`, which
/// bounds every coefficient computed along the way.
pub open spec fn mul_fits(a: Seq<(Seq<u32>, int)>, b: Seq<(Seq<u32>, int)>) -> bool {
    &&& forall|i: int, j: int, k: int|
        0 <= i < a.len() && 0 <= j < b.len() ==> #[trigger] exp_at(a[i].0, k) + #[trigger] exp_at(b[j].0, k) <= u32::MAX
    &&& abs_sum(all_pairs(a, b)) <= isize::MAX
}

proof fn lemma_abs_sum_nonneg(t: Seq<(Seq<u32>, int)>)
    ensures
        abs_sum(t) >= 0,
    decreases t.len(),
{
    if t.len() > 0 {
        lemma_abs_sum_nonneg(t.drop_first());
    }
}

proof fn lemma_mono_add_normal(x: Seq<u32>, y: Seq<u32>)
    requires
        mono_normal(x),
        mono_normal(y),
        forall|k: int| #[trigger] exp_at(x, k) + exp_at(y, k) <= u32::MAX,
    ensures
        mono_normal(mono_add(x, y)),
{
    let z = mono_add(x, y);
    if z.len() > 0 {
        let n = z.len() - 1;
        assert(exp_at(x, n) + exp_at(y, n) <= u32::MAX);
        if x.len() >= y.len() {
            assert(exp_at(x, n) == x.last());
        } else {
            assert(exp_at(y, n) == y.last());
        }
        assert(z.last() == z[n]);
    }
}

proof fn lemma_all_pairs_normal(a: Seq<(Seq<u32>, int)>, b: Seq<(Seq<u32>, int)>)
    requires
        all_normal(a),
        all_normal(b),
        forall|i: int, j: int, k: int|
            0 <= i < a.len() && 0 <= j < b.len() ==> #[trigger] exp_at(a[i].0, k) + #[trigger] exp_at(b[j].0, k) <= u32::MAX,
    ensures
        all_normal(all_pairs(a, b)),
    decreases a.len(),
{
    if a.len() > 0 {
        assert forall|i: int| 0 <= i < a.drop_first().len() implies mono_normal(#[trigger] a.drop_first()[i].0) by {
            assert(a.drop_first()[i] == a[i + 1]);
        }
        assert forall|i: int, j: int, k: int|
            0 <= i < a.drop_first().len() && 0 <= j < b.len() implies #[trigger] exp_at(a.drop_first()[i].0, k) + #[trigger] exp_at(b[j].0, k) <= u32::MAX by {
            assert(a.drop_first()[i] == a[i + 1]);
        }
        lemma_all_pairs_normal(a.drop_first(), b);
        let r = row(a[0], b);
        assert forall|i: int| 0 <= i < r.len() implies mono_normal(#[trigger] r[i].0) by {
            assert(mono_normal(a[0].0));
            assert(mono_normal(b[i].0));
            assert forall|k: int| #[trigger] exp_at(a[0].0, k) + exp_at(b[i].0, k) <= u32::MAX by {
                assert(exp_at(a[0].0, k) + exp_at(b[i].0, k) <= u32::MAX);
            }
            lemma_mono_add_normal(a[0].0, b[i].0);
        }
        let ap = all_pairs(a, b);
        assert forall|i: int| 0 <= i < ap.len() implies mono_normal(#[trigger] ap[i].0) by {
            if i < r.len() {
                assert(ap[i] == r[i]);
            } else {
                assert(ap[i] == all_pairs(a.drop_first(), b)[i - r.len()]);
            }
        }
    }
}

/// The terms still to be added after `j` products of the `i`-th row.
spec fn rest_at(a: Seq<(Seq<u32>, int)>, b: Seq<(Seq<u32>, int)>, i: int, j: int) -> Seq<(Seq<u32>, int)> {
    if i < a.len() {
        row(a[i], b).skip(j) + all_pairs(a.skip(i + 1), b)
    } else {
        seq![]
    }
}

proof fn lemma_rest_next_row(a: Seq<(Seq<u32>, int)>, b: Seq<(Seq<u32>, int)>, i: int)
    requires
        0 <= i < a.len(),
    ensures
        rest_at(a, b, i, b.len() as int) == rest_at(a, b, i + 1, 0),
{
    assert(row(a[i], b).skip(b.len() as int) =~= seq![]);
    assert(seq![] + all_pairs(a.skip(i + 1), b) =~= all_pairs(a.skip(i + 1), b));
    if i + 1 < a.len() {
        assert(a.skip(i + 1).drop_first() =~= a.skip(i + 2));
        assert(a.skip(i + 1)[0] == a[i + 1]);
        assert(row(a[i + 1], b).skip(0) =~= row(a[i + 1], b));
    } else {
        assert(a.skip(i + 1).len() == 0);
    }
}

/// Copies the product of two monomials.
fn mono_product(x: &Vec<u32>, y: &Vec<u32>) -> (r: Vec<u32>)
    requires
        forall|k: int| #[trigger] exp_at(x@, k) + exp_at(y@, k) <= u32::MAX,
    ensures
        r@ == mono_add(x@, y@),
{
    let n = if x.len() >= y.len() { x.len() } else { y.len() };
    let mut r: Vec<u32> = Vec::new();
    let mut k: usize = 0;
    while k < n
        invariant
            k <= n,
            n == (if x.len() >= y.len() { x.len() } else { y.len() }),
            forall|q: int| #[trigger] exp_at(x@, q) + exp_at(y@, q) <= u32::MAX,
            r@ =~= mono_add(x@, y@).take(k as int),
        decreases n - k,
    {
        let xv: u32 = if k < x.len() { x[k] } else { 0 };
        let yv: u32 = if k < y.len() { y[k] } else { 0 };
        assert(exp_at(x@, k as int) + exp_at(y@, k as int) <= u32::MAX);
        r.push(xv + yv);
        k = k + 1;
        assert(r@ =~= mono_add(x@, y@).take(k as int));
    }
    assert(mono_add(x@, y@).take(n as int) =~= mono_add(x@, y@));
    r
}

impl Expr {
    /// Polynomial product.
    pub fn mul(self, rhs: Self) -> (r: Self)
        requires
            mul_fits(self@, rhs@),
        ensures
            r@ == poly_mul(self@, rhs@),
    {
        proof {
            use_type_invariant(&self);
            use_type_invariant(&rhs);
        }
        let ghost a = self@;
        let ghost b = rhs@;
        let ghost total = abs_sum(all_pairs(a, b));
        let mut r = Expr::zero();
        let ghost mut done: int = 0;
        proof {
            if a.len() > 0 {
                assert(a.skip(1) =~= a.drop_first());
                assert(row(a[0], b).skip(0) =~= row(a[0], b));
            }
            assert(rest_at(a, b, 0, 0) =~= all_pairs(a, b));
            lemma_abs_sum_nonneg(all_pairs(a, b));
        }
        let mut i: usize = 0;
        while i < self.terms.len()
            invariant
                i <= self.terms.len(),
                a == self@,
                b == rhs@,
                terms_wf(a),
                terms_wf(b),
                mul_fits(a, b),
                total == abs_sum(all_pairs(a, b)),
                add_terms(r@, rest_at(a, b, i as int, 0)) == poly_mul(a, b),
                done + abs_sum(rest_at(a, b, i as int, 0)) == total,
                0 <= done,
                forall|m: Seq<u32>| abs(#[trigger] coef(r@, m)) <= done,
            decreases self.terms.len() - i,
        {
            let mut j: usize = 0;
            while j < rhs.terms.len()
                invariant
                    i < self.terms.len(),
                    j <= rhs.terms.len(),
                    a == self@,
                    b == rhs@,
                    terms_wf(a),
                    terms_wf(b),
                    mul_fits(a, b),
                    total == abs_sum(all_pairs(a, b)),
                    total <= isize::MAX,
                    add_terms(r@, rest_at(a, b, i as int, j as int)) == poly_mul(a, b),
                    done + abs_sum(rest_at(a, b, i as int, j as int)) == total,
                    0 <= done,
                    forall|m: Seq<u32>| abs(#[trigger] coef(r@, m)) <= done,
                decreases rhs.terms.len() - j,
            {
                let ghost rest = rest_at(a, b, i as int, j as int);
                let ghost x = a[i as int];
                let ghost y = b[j as int];
                proof {
                    assert(x == (self.terms@[i as int].0@, self.terms@[i as int].1 as int));
                    assert(y == (rhs.terms@[j as int].0@, rhs.terms@[j as int].1 as int));
                    assert(rest[0] == (mono_add(x.0, y.0), x.1 * y.1));
                    assert(rest.drop_first() =~= rest_at(a, b, i as int, j + 1));
                    lemma_abs_sum_nonneg(rest.drop_first());
                    assert(mono_normal(x.0));
                    assert(mono_normal(y.0));
                    lemma_mono_add_normal(x.0, y.0);
                    assert forall|k: int| #[trigger] exp_at(x.0, k) + exp_at(y.0, k) <= u32::MAX by {
                        assert(exp_at(a[i as int].0, k) + exp_at(b[j as int].0, k) <= u32::MAX);
                    }
                }
                let e = mono_product(&self.terms[i].0, &rhs.terms[j].0);
                let c = self.terms[i].1 * rhs.terms[j].1;
                let ghost prev = r@;
                proof {
                    use_type_invariant(&r);
                }
                r = r.add_term(e, c, false);
                proof {
                    lemma_insert_term(prev, mono_add(x.0, y.0), c as int);
                    assert forall|m: Seq<u32>| abs(#[trigger] coef(r@, m)) <= done + abs(c as int) by {
                        assert(abs(coef(prev, m)) <= done);
                    }
                    done = done + abs(c as int);
                }
                j = j + 1;
            }
            proof {
                lemma_rest_next_row(a, b, i as int);
            }
            i = i + 1;
        }
        proof {
            assert(rest_at(a, b, i as int, 0) == Seq::<(Seq<u32>, int)>::empty());
        }
        r
    }
}


/// `n` factors of `p`, multiplied in order starting from one.
pub open spec fn poly_pow(p: Seq<(Seq<u32>, int)>, n: nat) -> Seq<(Seq<u32>, int)>
    decreases n,
{
    if n == 0 {
        const_terms(1)
    } else {
        poly_mul(poly_pow(p, (n - 1) as nat), p)
    }
}

/// The product of the factors, multiplied in order starting from one.
pub open spec fn poly_product(fs: Seq<Seq<(Seq<u32>, int)>>) -> Seq<(Seq<u32>, int)>
    decreases fs.len(),
{
    if fs.len() == 0 {
        const_terms(1)
    } else {
        poly_mul(poly_product(fs.drop_last()), fs.last())
    }
}

/// Every multiplication that `poly_pow(p, n)` performs fits.
pub open spec fn pow_fits(p: Seq<(Seq<u32>, int)>, n: nat) -> bool {
    forall|k: nat| k < n ==> mul_fits(#[trigger] poly_pow(p, k), p)
}

/// Every multiplication that `poly_product(fs)` performs fits.
pub open spec fn product_fits(fs: Seq<Seq<(Seq<u32>, int)>>) -> bool {
    forall|k: int| 0 <= k < fs.len() ==> mul_fits(#[trigger] poly_product(fs.take(k)), fs[k])
}

impl Expr {
    /// The product of `factors`, taken in order.
    pub fn product(factors: Vec<Expr>) -> (r: Self)
        requires
            product_fits(factors@.map_values(|e: Expr| e@)),
        ensures
            r@ == poly_product(factors@.map_values(|e: Expr| e@)),
    {
        let ghost fs = factors@.map_values(|e: Expr| e@);
        let mut r = Expr::from_isize(1);
        let mut i: usize = 0;
        assert(fs.take(0) =~= Seq::<Seq<(Seq<u32>, int)>>::empty());
        while i < factors.len()
            invariant
                i <= factors.len(),
                fs == factors@.map_values(|e: Expr| e@),
                product_fits(fs),
                r@ == poly_product(fs.take(i as int)),
            decreases factors.len() - i,
        {
            assert(fs[i as int] == factors@[i as int]@);
            assert(fs.take(i + 1).drop_last() =~= fs.take(i as int));
            let f = factors[i].duplicate();
            r = r.mul(f);
            i = i + 1;
        }
        assert(fs.take(i as int) =~= fs);
        r
    }

    /// `n` factors of this expression multiplied together.
    pub fn pow(self, n: u32) -> (r: Self)
        requires
            pow_fits(self@, n as nat),
        ensures
            r@ == poly_pow(self@, n as nat),
    {
        let mut r = Expr::from_isize(1);
        let mut k: u32 = 0;
        while k < n
            invariant
                k <= n,
                pow_fits(self@, n as nat),
                r@ == poly_pow(self@, k as nat),
            decreases n - k,
        {
            assert(mul_fits(poly_pow(self@, k as nat), self@));
            let f = self.duplicate();
            r = r.mul(f);
            k = k + 1;
        }
        r
    }
}

/// Variables made with different counter values are different polynomials:
/// a counter that only goes up never makes a variable twice.
pub proof fn lemma_new_vars_differ(i: nat, j: nat)
    requires
        i != j,
    ensures
        seq![(var_mono(i), 1int)] != seq![(var_mono(j), 1int)],
{
    assert(seq![(var_mono(i), 1int)][0].0.len() != seq![(var_mono(j), 1int)][0].0.len());
}

/// Whether every variable of `t` has an index below `n`: the counter `n`
/// is past every variable in use.
pub open spec fn vars_below(t: Seq<(Seq<u32>, int)>, n: nat) -> bool {
    forall|i: int| 0 <= i < t.len() ==> (#[trigger] t[i]).0.len() <= n
}

/// The variable made with a counter past every variable of `t` does not
/// occur in `t`: its coefficient there is zero.
pub proof fn lemma_fresh_var_absent(t: Seq<(Seq<u32>, int)>, n: nat)
    requires
        vars_below(t, n),
    ensures
        coef(t, var_mono(n)) == 0,
{
    assert forall|i: int| 0 <= i < t.len() implies #[trigger] t[i].0 != var_mono(n) by {
        assert(t[i].0.len() <= n);
        assert(var_mono(n).len() == n + 1);
    }
    lemma_coef_absent(t, var_mono(n));
}

pub proof fn lemma_wf_normal(t: Seq<(Seq<u32>, int)>)
    requires
        terms_wf(t),
    ensures
        all_normal(t),
{
    assert forall|i: int| 0 <= i < t.len() implies mono_normal(#[trigger] t[i].0) by {
        assert(t[i].1 != 0);
    }
}

/// Product is the sum over pairs of terms.
pub proof fn lemma_mul_coef(a: Seq<(Seq<u32>, int)>, b: Seq<(Seq<u32>, int)>, m: Seq<u32>)
    requires
        terms_wf(a),
        terms_wf(b),
        mul_fits(a, b),
    ensures
        coef(poly_mul(a, b), m) == coef_sum(all_pairs(a, b), m),
        terms_wf(poly_mul(a, b)),
{
    lemma_wf_normal(a);
    lemma_wf_normal(b);
    lemma_all_pairs_normal(a, b);
    lemma_add_terms(seq![], all_pairs(a, b));
}

/// Polynomial addition is commutative.
pub proof fn lemma_add_commutes(a: Seq<(Seq<u32>, int)>, b: Seq<(Seq<u32>, int)>)
    requires
        terms_wf(a),
        terms_wf(b),
    ensures
        poly_add(a, b) == poly_add(b, a),
{
    lemma_wf_normal(a);
    lemma_wf_normal(b);
    lemma_add_terms(a, b);
    lemma_add_terms(b, a);
    assert forall|m: Seq<u32>| #[trigger] coef(poly_add(a, b), m) == coef(poly_add(b, a), m) by {
        lemma_coef_sum_wf(a, m);
        lemma_coef_sum_wf(b, m);
    }
    lemma_coef_ext(poly_add(a, b), poly_add(b, a));
}

/// An expression minus itself is the constant zero.
pub proof fn lemma_sub_self(a: Seq<(Seq<u32>, int)>)
    requires
        terms_wf(a),
    ensures
        poly_sub(a, a) == Seq::<(Seq<u32>, int)>::empty(),
        const_of(poly_sub(a, a)) == Some(0int),
{
    assert forall|i: int| 0 <= i < neg_terms(a).len() implies mono_normal(#[trigger] neg_terms(a)[i].0) by {
        assert(neg_terms(a)[i].0 == a[i].0);
    }
    lemma_add_terms(a, neg_terms(a));
    assert forall|m: Seq<u32>| #[trigger] coef(poly_sub(a, a), m) == coef(Seq::<(Seq<u32>, int)>::empty(), m) by {
        lemma_coef_sum_wf(a, m);
        lemma_neg_terms(a, m);
    }
    lemma_coef_ext(poly_sub(a, a), Seq::<(Seq<u32>, int)>::empty());
}

/// A difference is the constant zero exactly when the operands are equal.
pub proof fn lemma_sub_zero_iff_equal(a: Seq<(Seq<u32>, int)>, b: Seq<(Seq<u32>, int)>)
    requires
        terms_wf(a),
        terms_wf(b),
    ensures
        (const_of(poly_sub(a, b)) == Some(0int)) == (a == b),
{
    assert forall|i: int| 0 <= i < neg_terms(b).len() implies mono_normal(#[trigger] neg_terms(b)[i].0) by {
        assert(neg_terms(b)[i].0 == b[i].0);
    }
    lemma_add_terms(a, neg_terms(b));
    let d = poly_sub(a, b);
    if a == b {
        lemma_sub_self(a);
    } else if const_of(d) == Some(0int) {
        if d.len() == 1 {
            assert(d[0].1 != 0);
        }
        assert(d.len() == 0);
        assert forall|m: Seq<u32>| #[trigger] coef(a, m) == coef(b, m) by {
            lemma_coef_sum_wf(b, m);
            lemma_neg_terms(b, m);
            assert(coef(d, m) == 0);
        }
        lemma_coef_ext(a, b);
    }
}


pub open spec fn subscript_chars() -> Seq<char> {
    seq!['₀', '₁', '₂', '₃', '₄', '₅', '₆', '₇', '₈', '₉']
}

pub open spec fn superscript_chars() -> Seq<char> {
    seq!['⁰', '¹', '²', '³', '⁴', '⁵', '⁶', '⁷', '⁸', '⁹']
}

/// The text of variable `i` raised to the power `p` (empty for `p == 0`).
pub open spec fn var_text(i: nat, p: u32) -> Seq<char> {
    if p == 0 {
        seq![]
    } else if p == 1 {
        seq!['x'] + encode_digits(i, subscript_chars())
    } else {
        seq!['x'] + encode_digits(i, subscript_chars()) + encode_digits(p as nat, superscript_chars())
    }
}

/// The text of a monomial: its variables in index order.
pub open spec fn vars_text(e: Seq<u32>) -> Seq<char>
    decreases e.len(),
{
    if e.len() == 0 {
        seq![]
    } else {
        vars_text(e.drop_last()) + var_text((e.len() - 1) as nat, e.last())
    }
}

/// The decimal text of a coefficient as a term shows it: written only when
/// it is above one, and left out otherwise.
pub open spec fn coef_text(c: int) -> Seq<char> {
    if c > 1 {
        decimal(c as nat)
    } else {
        seq![]
    }
}

/// The text of a term: its coefficient where that is above one, then its
/// variables.
pub open spec fn term_text(t: (Seq<u32>, int)) -> Seq<char> {
    coef_text(t.1) + vars_text(t.0)
}

/// The text of an expression: its terms joined by `" + "`.
pub open spec fn expr_text(ts: Seq<(Seq<u32>, int)>) -> Seq<char>
    decreases ts.len(),
{
    if ts.len() == 0 {
        seq![]
    } else if ts.len() == 1 {
        term_text(ts[0])
    } else {
        expr_text(ts.drop_last()) + seq![' ', '+', ' '] + term_text(ts.last())
    }
}

/// The digits of `num`, each written with the character at its value in `chars`.
pub fn encode_num(num: usize, chars: &[char; 10]) -> (r: String)
    ensures
        r@ == encode_digits(num as nat, chars@),
{
    let mut r = String::new();
    push_encoded(&mut r, num as u64, chars);
    assert(r@ =~= encode_digits(num as nat, chars@));
    r
}

fn push_var(s: &mut String, i: usize, p: u32)
    ensures
        final(s)@ == old(s)@ + var_text(i as nat, p),
{
    let sub: [char; 10] = ['₀', '₁', '₂', '₃', '₄', '₅', '₆', '₇', '₈', '₉'];
    let sup: [char; 10] = ['⁰', '¹', '²', '³', '⁴', '⁵', '⁶', '⁷', '⁸', '⁹'];
    assert(sub@ =~= subscript_chars());
    assert(sup@ =~= superscript_chars());
    let ghost s0 = s@;
    if p == 0 {
        assert(s@ =~= s0 + var_text(i as nat, p));
        return;
    }
    push_char(s, 'x');
    push_encoded(s, i as u64, &sub);
    if p != 1 {
        push_encoded(s, p as u64, &sup);
    }
    assert(s@ =~= s0 + var_text(i as nat, p));
}

fn push_term(s: &mut String, e: &Vec<u32>, c: isize)
    ensures
        final(s)@ == old(s)@ + term_text((e@, c as int)),
{
    let ghost s0 = s@;
    if c > 1 {
        let ds: [char; 10] = ['0', '1', '2', '3', '4', '5', '6', '7', '8', '9'];
        assert(ds@ =~= ascii_digits());
        push_encoded(s, c as u64, &ds);
    }
    assert(s@ =~= s0 + coef_text(c as int));
    let ghost s1 = s@;
    let mut i: usize = 0;
    while i < e.len()
        invariant
            i <= e.len(),
            s@ == s1 + vars_text(e@.take(i as int)),
        decreases e.len() - i,
    {
        push_var(s, i, e[i]);
        proof {
            assert(e@.take(i + 1).drop_last() =~= e@.take(i as int));
            assert(e@.take(i + 1).last() == e@[i as int]);
        }
        i = i + 1;
        assert(s@ =~= s1 + vars_text(e@.take(i as int)));
    }
    assert(e@.take(i as int) =~= e@);
    assert(s@ =~= s0 + term_text((e@, c as int)));
}

impl Expr {
    /// The text of this expression: its terms joined by `" + "`, each its
    /// coefficient (written only when it is above one) followed by its
    /// variables `xᵢ`, with their powers written in superscript.
    pub fn to_string(&self) -> (r: String)
        ensures
            r@ == expr_text(self@),
    {
        let mut r = String::new();
        let mut i: usize = 0;
        assert(r@ =~= expr_text(self@.take(0)));
        while i < self.terms.len()
            invariant
                i <= self.terms.len(),
                r@ == expr_text(self@.take(i as int)),
            decreases self.terms.len() - i,
        {
            let ghost before = r@;
            if i > 0 {
                push_char(&mut r, ' ');
                push_char(&mut r, '+');
                push_char(&mut r, ' ');
            }
            push_term(&mut r, &self.terms[i].0, self.terms[i].1);
            proof {
                let t = self@.take(i + 1);
                assert(t.drop_last() =~= self@.take(i as int));
                assert(t.last() == self@[i as int]);
                assert(self@[i as int] == (self.terms@[i as int].0@, self.terms@[i as int].1 as int));
                if i == 0 {
                    assert(before =~= seq![]);
                }
            }
            i = i + 1;
            assert(r@ =~= expr_text(self@.take(i as int)));
        }
        assert(self@.take(i as int) =~= self@);
        r
    }
}

} // verus!
