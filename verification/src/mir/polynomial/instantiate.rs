//! Instantiating the variables of a polynomial: each variable is replaced by
//! the expression a cache holds for it, and a variable the cache does not
//! hold gets a fresh variable, which the cache then keeps.
use vstd::prelude::*;

use super::{add_fits, const_terms, mul_fits, poly_add, poly_mul, poly_pow, pow_fits, var_mono, Expr};
use std::collections::HashMap;

verus! {

broadcast use vstd::std_specs::hash::group_hash_axioms;

/// A canonical polynomial term list.
pub type Terms = Seq<(Seq<u32>, int)>;

/// The polynomials a cache holds.
pub open spec fn cache_view(c: Map<usize, Expr>) -> Map<usize, Terms> {
    c.map_values(|e: Expr| e@)
}

/// The polynomial of the variable with index `n`.
pub open spec fn var_terms(n: nat) -> Terms {
    seq![(var_mono(n), 1int)]
}

/// The cache and the variable counter after giving a fresh variable to each
/// of the first `k` positions of the monomial `m` that has a nonzero
/// exponent and no entry yet.
pub open spec fn fresh_mono(m: Seq<u32>, k: nat, c: Map<usize, Terms>, n: nat) -> (Map<usize, Terms>, nat)
    decreases k,
{
    if k == 0 {
        (c, n)
    } else {
        let (c1, n1) = fresh_mono(m, (k - 1) as nat, c, n);
        let i = (k - 1) as usize;
        if k - 1 < m.len() && m[k - 1] != 0 && !c1.contains_key(i) {
            (c1.insert(i, var_terms(n1)), n1 + 1)
        } else {
            (c1, n1)
        }
    }
}

/// The cache and counter after the fresh variables of the first `j` terms.
pub open spec fn fresh_terms(t: Terms, j: nat, c: Map<usize, Terms>, n: nat) -> (Map<usize, Terms>, nat)
    decreases j,
{
    if j == 0 {
        (c, n)
    } else {
        let (c1, n1) = fresh_terms(t, (j - 1) as nat, c, n);
        fresh_mono(t[j - 1].0, t[j - 1].0.len(), c1, n1)
    }
}

/// The coefficient `c` times the first `k` factors of the monomial `m`, each
/// variable replaced by its polynomial in `env`.
pub open spec fn mono_subst(m: Seq<u32>, k: nat, c: int, env: Map<usize, Terms>) -> Terms
    decreases k,
{
    if k == 0 {
        const_terms(c)
    } else {
        let prev = mono_subst(m, (k - 1) as nat, c, env);
        if k - 1 < m.len() && m[k - 1] != 0 {
            poly_mul(prev, poly_pow(env[(k - 1) as usize], m[k - 1] as nat))
        } else {
            prev
        }
    }
}

/// Every power and product that `mono_subst(m, m.len(), c, env)` computes
/// fits.
pub open spec fn mono_fits(m: Seq<u32>, c: int, env: Map<usize, Terms>) -> bool {
    forall|k: nat|
        k < m.len() && m[k as int] != 0 ==> pow_fits(env[k as usize], m[k as int] as nat) && mul_fits(
            #[trigger] mono_subst(m, k, c, env),
            poly_pow(env[k as usize], m[k as int] as nat),
        )
}

/// The sum of the first `j` terms of `t`, each with its variables replaced
/// by their polynomials in `env`.
pub open spec fn terms_subst(t: Terms, j: nat, env: Map<usize, Terms>) -> Terms
    decreases j,
{
    if j == 0 {
        seq![]
    } else {
        poly_add(terms_subst(t, (j - 1) as nat, env), mono_subst(t[j - 1].0, t[j - 1].0.len(), t[j - 1].1, env))
    }
}

/// Every step of `terms_subst(t, t.len(), env)` fits.
pub open spec fn subst_fits(t: Terms, env: Map<usize, Terms>) -> bool {
    forall|j: nat|
        j < t.len() ==> mono_fits(t[j as int].0, t[j as int].1, env) && add_fits(
            #[trigger] terms_subst(t, j, env),
            mono_subst(t[j as int].0, t[j as int].0.len(), t[j as int].1, env),
        )
}

/// What instantiating the variables of `p` gives, with the cache `c` and the
/// variable counter `n`: the polynomial, the cache and the counter after.
pub open spec fn einst(p: Terms, c: Map<usize, Terms>, n: nat) -> (Terms, Map<usize, Terms>, nat) {
    let (c2, n2) = fresh_terms(p, p.len(), c, n);
    (terms_subst(p, p.len(), c2), c2, n2)
}

/// Instantiating the variables of `p` stays within the machine integers.
pub open spec fn einst_ok(p: Terms, c: Map<usize, Terms>, n: nat) -> bool {
    let (c2, n2) = fresh_terms(p, p.len(), c, n);
    n2 <= usize::MAX && subst_fits(p, c2)
}

/// What the cache held stays, and the counter does not go down.
pub open spec fn grows(c: Map<usize, Terms>, n: nat, c2: Map<usize, Terms>, n2: nat) -> bool {
    &&& n <= n2
    &&& forall|x: usize| c.contains_key(x) ==> #[trigger] c2.contains_key(x) && c2[x] == c[x]
}

proof fn lemma_fresh_mono(m: Seq<u32>, k: nat, k2: nat, c: Map<usize, Terms>, n: nat)
    requires
        k <= k2,
    ensures
        grows(c, n, fresh_mono(m, k, c, n).0, fresh_mono(m, k, c, n).1),
        grows(fresh_mono(m, k, c, n).0, fresh_mono(m, k, c, n).1, fresh_mono(m, k2, c, n).0, fresh_mono(m, k2, c, n).1),
        forall|i: int| 0 <= i < k && i < m.len() && m[i] != 0 ==> #[trigger] fresh_mono(m, k, c, n).0.contains_key(i as usize),
    decreases k2,
{
    if k2 > k {
        lemma_fresh_mono(m, k, (k2 - 1) as nat, c, n);
    } else if k > 0 {
        lemma_fresh_mono(m, (k - 1) as nat, (k - 1) as nat, c, n);
    }
}

proof fn lemma_fresh_terms(t: Terms, j: nat, j2: nat, c: Map<usize, Terms>, n: nat)
    requires
        j <= j2 <= t.len(),
    ensures
        grows(c, n, fresh_terms(t, j, c, n).0, fresh_terms(t, j, c, n).1),
        grows(fresh_terms(t, j, c, n).0, fresh_terms(t, j, c, n).1, fresh_terms(t, j2, c, n).0, fresh_terms(t, j2, c, n).1),
        forall|a: int, i: int|
            0 <= a < j && 0 <= i < t[a].0.len() && t[a].0[i] != 0 ==> #[trigger] fresh_terms(t, j, c, n).0.contains_key(
                i as usize,
            ) && #[trigger] t[a].0[i] != 0,
    decreases j2,
{
    if j2 > j {
        lemma_fresh_terms(t, j, (j2 - 1) as nat, c, n);
        let (c1, n1) = fresh_terms(t, (j2 - 1) as nat, c, n);
        lemma_fresh_mono(t[j2 - 1].0, t[j2 - 1].0.len(), t[j2 - 1].0.len(), c1, n1);
    } else if j > 0 {
        lemma_fresh_terms(t, (j - 1) as nat, (j - 1) as nat, c, n);
        let (c1, n1) = fresh_terms(t, (j - 1) as nat, c, n);
        let m = t[j - 1].0;
        lemma_fresh_mono(m, m.len(), m.len(), c1, n1);
        let c2 = fresh_terms(t, j, c, n).0;
        assert forall|a: int, i: int|
            0 <= a < j && 0 <= i < t[a].0.len() && t[a].0[i] != 0 implies #[trigger] c2.contains_key(i as usize)
            && #[trigger] t[a].0[i] != 0 by {
            if a < j - 1 {
                assert(c1.contains_key(i as usize));
            }
        }
    }
}

impl Expr {
    /// This polynomial with each variable replaced by the expression that
    /// `subst_cache` holds for it. A variable without an entry is first given
    /// a fresh variable, made with the counter `nvars`, which the cache then
    /// keeps, so that it is replaced alike wherever it occurs.
    pub fn instantiate_vars(&self, subst_cache: &mut HashMap<usize, Expr>, nvars: &mut usize) -> (r: Expr)
        requires
            einst_ok(self@, cache_view(old(subst_cache)@), *old(nvars) as nat),
        ensures
            (r@, cache_view(final(subst_cache)@), *final(nvars) as nat) == einst(
                self@,
                cache_view(old(subst_cache)@),
                *old(nvars) as nat,
            ),
    {
        proof {
            use_type_invariant(self);
        }
        let ghost t = self@;
        let ghost c0 = cache_view(subst_cache@);
        let ghost n0 = *nvars as nat;
        let ghost fin = fresh_terms(t, t.len(), c0, n0);
        let mut j: usize = 0;
        while j < self.terms.len()
            invariant
                j <= self.terms.len(),
                t == self@,
                t.len() == self.terms.len(),
                fin == fresh_terms(t, t.len(), c0, n0),
                fin.1 <= usize::MAX,
                (cache_view(subst_cache@), *nvars as nat) == fresh_terms(t, j as nat, c0, n0),
            decreases self.terms.len() - j,
        {
            let m = &self.terms[j].0;
            assert(t[j as int].0 == m@);
            let ghost cj = cache_view(subst_cache@);
            let ghost nj = *nvars as nat;
            proof {
                lemma_fresh_terms(t, (j + 1) as nat, t.len(), c0, n0);
            }
            let mut k: usize = 0;
            while k < m.len()
                invariant
                    k <= m.len(),
                    m@ == t[j as int].0,
                    j < t.len(),
                    (cj, nj) == fresh_terms(t, j as nat, c0, n0),
                    fresh_terms(t, (j + 1) as nat, c0, n0) == fresh_mono(m@, m@.len(), cj, nj),
                    fresh_terms(t, (j + 1) as nat, c0, n0).1 <= fin.1,
                    fin.1 <= usize::MAX,
                    (cache_view(subst_cache@), *nvars as nat) == fresh_mono(m@, k as nat, cj, nj),
                decreases m.len() - k,
            {
                proof {
                    lemma_fresh_mono(m@, (k + 1) as nat, m@.len(), cj, nj);
                }
                if m[k] != 0 && !subst_cache.contains_key(&k) {
                    let v = Expr::new_var(nvars);
                    subst_cache.insert(k, v);
                    assert(cache_view(subst_cache@) =~= fresh_mono(m@, (k + 1) as nat, cj, nj).0);
                }
                k = k + 1;
            }
            j = j + 1;
        }
        let ghost env = cache_view(subst_cache@);
        proof {
            lemma_fresh_terms(t, t.len(), t.len(), c0, n0);
        }
        let mut acc = Expr::zero();
        let mut j: usize = 0;
        while j < self.terms.len()
            invariant
                j <= self.terms.len(),
                t == self@,
                t.len() == self.terms.len(),
                env == cache_view(subst_cache@),
                subst_fits(t, env),
                forall|a: int, i: int|
                    0 <= a < t.len() && 0 <= i < t[a].0.len() && t[a].0[i] != 0 ==> #[trigger] env.contains_key(
                        i as usize,
                    ) && #[trigger] t[a].0[i] != 0,
                acc@ == terms_subst(t, j as nat, env),
            decreases self.terms.len() - j,
        {
            let m = &self.terms[j].0;
            let c = self.terms[j].1;
            assert(t[j as int] == (m@, c as int));
            assert(mono_fits(m@, c as int, env) && add_fits(terms_subst(t, j as nat, env), mono_subst(m@, m@.len(), c as int, env)));
            let mut term = Expr::from_isize(c);
            let mut k: usize = 0;
            while k < m.len()
                invariant
                    k <= m.len(),
                    j < t.len(),
                    m@ == t[j as int].0,
                    env == cache_view(subst_cache@),
                    mono_fits(m@, c as int, env),
                    forall|i: int| 0 <= i < m@.len() && m@[i] != 0 ==> #[trigger] env.contains_key(i as usize),
                    term@ == mono_subst(m@, k as nat, c as int, env),
                decreases m.len() - k,
            {
                let e = m[k];
                if e != 0 {
                    assert(env.contains_key(k));
                    assert(pow_fits(env[k], e as nat) && mul_fits(mono_subst(m@, k as nat, c as int, env), poly_pow(env[k], e as nat)));
                    let f = match subst_cache.get(&k) {
                        Some(x) => x.duplicate(),
                        None => Expr::zero(),
                    };
                    let p = f.pow(e);
                    term = term.mul(p);
                }
                k = k + 1;
            }
            acc = acc.add(term);
            j = j + 1;
        }
        acc
    }
}

} // verus!
