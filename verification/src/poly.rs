//! Sparse univariate polynomials over the field.
//!
//! A polynomial is a list of `(degree, coefficient)` terms; terms of equal
//! degree add up. The contracts speak of the value of a polynomial at each
//! point (`poly_eval`).
use crate::arith::{lemma_fadd_acc, lemma_mod_id, lemma_sum_double, lemma_sum_ext, lemma_sum_times, sum, block_row, block_sums};
use crate::field::{fe_add, fe_mul, fe_sub, fmul, lemma_fe_range, modulus, Fe};
use crate::mle::{bucket, entries_weighted, entry_sum, lemma_entries_weighted, table_weighted};
use vstd::arithmetic::div_mod::{lemma_mod_twice, lemma_mul_mod_noop_general};
use vstd::arithmetic::mul::lemma_mul_is_associative;
use vstd::prelude::*;

verus! {

broadcast use lemma_fe_range;

/// `x^d` (unreduced).
pub open spec fn power(x: int, d: nat) -> int
    decreases d,
{
    if d == 0 {
        1
    } else {
        x * power(x, (d - 1) as nat)
    }
}

/// `x^(a + b) = x^a x^b`.
pub proof fn lemma_power_adds(x: int, a: nat, b: nat)
    ensures
        power(x, a + b) == power(x, a) * power(x, b),
    decreases a,
{
    if a > 0 {
        lemma_power_adds(x, (a - 1) as nat, b);
        assert((a + b - 1) as nat == (a - 1) as nat + b);
        lemma_mul_is_associative(x, power(x, (a - 1) as nat), power(x, b));
    }
}

/// The value of term `k` at `x` (unreduced).
pub open spec fn term_at(cs: Seq<(usize, Fe)>, x: int) -> spec_fn(int) -> int {
    |k: int| cs[k].1@ * power(x, cs[k].0 as nat)
}

/// The value of the polynomial with terms `cs` at `x`, reduced.
pub open spec fn poly_eval(cs: Seq<(usize, Fe)>, x: int) -> int {
    sum(term_at(cs, x), cs.len() as int) % modulus()
}

/// The sum of the coefficients (unreduced).
pub open spec fn coeff_term(cs: Seq<(usize, Fe)>) -> spec_fn(int) -> int {
    |k: int| cs[k].1@
}

/// The terms without the zero terms at the end of the list.
pub open spec fn trimmed(cs: Seq<(usize, Fe)>) -> Seq<(usize, Fe)>
    decreases cs.len(),
{
    if cs.len() > 0 && cs.last().1@ == 0 {
        trimmed(cs.drop_last())
    } else {
        cs
    }
}

/// The terms are in ascending order of degree.
pub open spec fn degree_sorted(cs: Seq<(usize, Fe)>) -> bool {
    forall|i: int, j: int| 0 <= i < j < cs.len() ==> #[trigger] cs[i].0 <= #[trigger] cs[j].0
}

/// Whether a term has degree `d`.
pub open spec fn has_degree(d: usize) -> spec_fn((usize, Fe)) -> bool {
    |t: (usize, Fe)| t.0 == d
}

/// The terms of degree `d`, in their order.
pub open spec fn of_degree(cs: Seq<(usize, Fe)>, d: usize) -> Seq<(usize, Fe)> {
    cs.filter(has_degree(d))
}

/// Term `k` comes last when the terms are sorted by degree, the order of
/// terms of equal degree kept.
pub open spec fn is_last_top_term(cs: Seq<(usize, Fe)>, k: int) -> bool {
    &&& 0 <= k < cs.len()
    &&& forall|j: int| 0 <= j < k ==> #[trigger] cs[j].0 <= cs[k].0
    &&& forall|j: int| k < j < cs.len() ==> #[trigger] cs[j].0 < cs[k].0
}

/// The term that comes last when the terms are sorted by degree has a
/// nonzero coefficient.
pub open spec fn last_top_term_nonzero(cs: Seq<(usize, Fe)>) -> bool {
    forall|k: int| #[trigger] is_last_top_term(cs, k) ==> cs[k].1@ != 0
}

/// Terms given in ascending order of degree meet the demand of
/// `from_coefficients_vec`.
pub proof fn lemma_sorted_terms(cs: Seq<(usize, Fe)>)
    requires
        degree_sorted(cs),
    ensures
        degree_sorted(trimmed(cs)),
        last_top_term_nonzero(trimmed(cs)),
        trimmed(cs).len() <= cs.len(),
        trimmed(cs) == cs.take(trimmed(cs).len() as int),
    decreases cs.len(),
{
    if cs.len() > 0 && cs.last().1@ == 0 {
        lemma_sorted_terms(cs.drop_last());
        assert(trimmed(cs) == trimmed(cs.drop_last()));
        assert(cs.drop_last().take(trimmed(cs).len() as int) =~= cs.take(trimmed(cs).len() as int));
    } else {
        assert(cs.take(cs.len() as int) =~= cs);
        assert forall|k: int| #[trigger] is_last_top_term(cs, k) implies cs[k].1@ != 0 by {
            if k < cs.len() - 1 {
                assert(cs[k].0 <= cs[cs.len() - 1].0);
            }
        }
    }
}

/// The value of a concatenation is the sum of the values (unreduced).
pub proof fn lemma_concat_sum(a: Seq<(usize, Fe)>, b: Seq<(usize, Fe)>, x: int)
    ensures
        sum(term_at(a + b, x), (a + b).len() as int) == sum(term_at(a, x), a.len() as int) + sum(
            term_at(b, x),
            b.len() as int,
        ),
{
    let f = term_at(a + b, x);
    crate::arith::lemma_sum_shift(f, a.len() as int, b.len() as int);
    lemma_sum_ext(f, term_at(a, x), a.len() as int);
    lemma_sum_ext(|i: int| f(a.len() + i), term_at(b, x), b.len() as int);
}

/// No term of degree `d`: nothing to keep.
pub proof fn lemma_of_degree_none(cs: Seq<(usize, Fe)>, d: usize)
    requires
        forall|k: int| 0 <= k < cs.len() ==> #[trigger] cs[k].0 != d,
    ensures
        of_degree(cs, d) == Seq::<(usize, Fe)>::empty(),
{
    broadcast use vstd::seq_lib::group_filter_ensures;
    let f = of_degree(cs, d);
    if f.len() > 0 {
        assert(f.contains(f[0]));
        cs.lemma_filter_contains_rev(has_degree(d), f[0]);
    }
}

/// Inserting `e` after every term of degree at most `e.0`, in a sorted list,
/// keeps the list sorted and puts `e` last among the terms of its degree.
pub proof fn lemma_insert_sorted(out: Seq<(usize, Fe)>, p: int, e: (usize, Fe), d: usize)
    requires
        degree_sorted(out),
        0 <= p <= out.len(),
        forall|j: int| 0 <= j < p ==> #[trigger] out[j].0 <= e.0,
        forall|j: int| p <= j < out.len() ==> #[trigger] out[j].0 > e.0,
    ensures
        degree_sorted(out.insert(p, e)),
        of_degree(out.insert(p, e), d) == if d == e.0 { of_degree(out, d).push(e) } else { of_degree(out, d) },
{
    broadcast use vstd::seq_lib::group_filter_ensures;
    let ins = out.insert(p, e);
    out.insert_ensures(p, e);
    assert forall|i: int, j: int| 0 <= i < j < ins.len() implies #[trigger] ins[i].0 <= #[trigger] ins[j].0 by {
        if j < p {
        } else if j == p {
        } else if i < p {
            assert(ins[j] == out[j - 1]);
        } else if i == p {
            assert(ins[j] == out[j - 1]);
        } else {
            assert(ins[i] == out[i - 1]);
            assert(ins[j] == out[j - 1]);
        }
    }
    let pred = has_degree(d);
    let a = out.take(p);
    let b = out.skip(p);
    assert(out =~= a + b);
    assert(ins =~= a.push(e) + b);
    Seq::filter_distributes_over_add(a, b, pred);
    Seq::filter_distributes_over_add(a.push(e), b, pred);
    a.lemma_filter_push(e, pred);
    if d == e.0 {
        lemma_of_degree_none(b, d);
        assert(of_degree(b, d) == Seq::<(usize, Fe)>::empty());
        assert(a.filter(pred) + b.filter(pred) =~= a.filter(pred));
        assert(a.filter(pred).push(e) + b.filter(pred) =~= a.filter(pred).push(e));
    }
}

/// The terms sorted by degree, terms of equal degree keeping their order.
pub fn sort_by_degree(t: &Vec<(usize, Fe)>) -> (out: Vec<(usize, Fe)>)
    ensures
        degree_sorted(out@),
        forall|d: usize| #[trigger] of_degree(out@, d) == of_degree(t@, d),
        out@.len() == t@.len(),
        forall|x: int| poly_eval(out@, x) == poly_eval(t@, x),
        degree_sorted(t@) ==> out@ == t@,
{
    broadcast use vstd::seq_lib::group_filter_ensures;
    let mut out: Vec<(usize, Fe)> = Vec::with_capacity(t.len());
    let mut k: usize = 0;
    proof {
        assert forall|d: usize| #[trigger] of_degree(out@, d) == of_degree(t@.take(0), d) by {
            reveal(Seq::filter);
            assert(t@.take(0) =~= out@);
        }
    }
    while k < t.len()
        invariant
            k <= t.len(),
            out@.len() == k,
            degree_sorted(out@),
            forall|d: usize| #[trigger] of_degree(out@, d) == of_degree(t@.take(k as int), d),
            forall|x: int| sum(term_at(out@, x), k as int) == sum(term_at(t@.take(k as int), x), k as int),
            degree_sorted(t@) ==> out@ == t@.take(k as int),
        decreases t.len() - k,
    {
        let e = t[k];
        let mut p: usize = 0;
        while p < out.len() && out[p].0 <= e.0
            invariant
                p <= out.len(),
                forall|j: int| 0 <= j < p ==> #[trigger] out@[j].0 <= e.0,
            decreases out.len() - p,
        {
            p = p + 1;
        }
        let ghost old_out = out@;
        let ghost tk = t@.take(k as int);
        let ghost tk1 = t@.take(k + 1);
        proof {
            assert forall|j: int| p <= j < old_out.len() implies #[trigger] old_out[j].0 > e.0 by {
                assert(old_out[p as int].0 > e.0);
                if j > p {
                    assert(old_out[p as int].0 <= old_out[j].0);
                }
            }
            assert(tk1 =~= tk.push(e));
            assert forall|d: usize| #[trigger] of_degree(old_out.insert(p as int, e), d) == of_degree(tk1, d) by {
                lemma_insert_sorted(old_out, p as int, e, d);
                tk.lemma_filter_push(e, has_degree(d));
            }
            lemma_insert_sorted(old_out, p as int, e, 0);
            if degree_sorted(t@) {
                if p < old_out.len() {
                    assert(old_out[p as int] == t@[p as int]);
                    assert(t@[p as int].0 <= t@[k as int].0);
                }
            }
        }
        out.insert(p, e);
        proof {
            assert(out@ =~= old_out.take(p as int) + seq![e] + old_out.skip(p as int));
            assert(old_out =~= old_out.take(p as int) + old_out.skip(p as int));
            assert forall|x: int| sum(term_at(out@, x), (k + 1) as int) == sum(term_at(tk1, x), (k + 1) as int) by {
                lemma_concat_sum(old_out.take(p as int) + seq![e], old_out.skip(p as int), x);
                lemma_concat_sum(old_out.take(p as int), seq![e], x);
                lemma_concat_sum(old_out.take(p as int), old_out.skip(p as int), x);
                lemma_concat_sum(tk, seq![e], x);
                assert(tk + seq![e] =~= tk1);
            }
            if degree_sorted(t@) {
                assert(out@ =~= tk1);
            }
        }
        k = k + 1;
    }
    proof {
        assert(t@.take(t.len() as int) =~= t@);
    }
    out
}

/// A polynomial given by its terms; terms of equal degree add up.
#[derive(Clone, Debug)]
pub struct SparsePolynomial {
    pub coeffs: Vec<(usize, Fe)>,
}

impl SparsePolynomial {
    /// The terms.
    pub open spec fn terms(&self) -> Seq<(usize, Fe)> {
        self.coeffs@
    }

    /// The value at `x`, reduced.
    pub open spec fn value(&self, x: int) -> int {
        poly_eval(self.coeffs@, x)
    }

    /// The sum of the coefficients, reduced.
    pub open spec fn coefficient_total(&self) -> int {
        sum(coeff_term(self.coeffs@), self.coeffs@.len() as int) % modulus()
    }

    /// The largest degree of a term (zero without terms).
    pub open spec fn max_degree(&self) -> nat {
        max_index(self.coeffs@, self.coeffs@.len() as int)
    }

    /// The zero polynomial.
    pub fn zero() -> (r: Self)
        ensures
            r.coeffs@ == Seq::<(usize, Fe)>::empty(),
            forall|x: int| #[trigger] r.value(x) == 0,
    {
        SparsePolynomial { coeffs: Vec::new() }
    }

    /// The polynomial with the given terms: the zero terms at the end of the
    /// list are dropped, and the rest is sorted by degree, terms of equal
    /// degree keeping their order. The last term of highest degree among
    /// those kept has a nonzero coefficient.
    pub fn from_coefficients_vec(coeffs: Vec<(usize, Fe)>) -> (r: Self)
        requires
            last_top_term_nonzero(trimmed(coeffs@)),
        ensures
            forall|x: int| #[trigger] r.value(x) == poly_eval(coeffs@, x),
            degree_sorted(r.coeffs@),
            forall|d: usize| #[trigger] of_degree(r.coeffs@, d) == of_degree(trimmed(coeffs@), d),
            r.coeffs@.len() == trimmed(coeffs@).len(),
            degree_sorted(trimmed(coeffs@)) ==> r.coeffs@ == trimmed(coeffs@),
    {
        let mut cs = coeffs;
        while cs.len() > 0 && cs[cs.len() - 1].1.is_zero()
            invariant
                trimmed(cs@) == trimmed(coeffs@),
                forall|x: int| poly_eval(cs@, x) == poly_eval(coeffs@, x),
            decreases cs.len(),
        {
            let ghost before = cs@;
            cs.pop();
            proof {
                assert(cs@ =~= before.drop_last());
                assert(before.drop_last() =~= before.take(before.len() - 1));
                assert forall|x: int| poly_eval(cs@, x) == poly_eval(coeffs@, x) by {
                    lemma_trailing_zeros(before, before.len() - 1, x);
                }
            }
        }
        proof {
            assert(trimmed(cs@) == cs@);
        }
        let sorted = sort_by_degree(&cs);
        SparsePolynomial { coeffs: sorted }
    }

    /// The degree: the largest degree of a term, zero without terms.
    pub fn degree(&self) -> (r: usize)
        ensures
            r == self.max_degree(),
    {
        let mut m: usize = 0;
        let mut k: usize = 0;
        while k < self.coeffs.len()
            invariant
                k <= self.coeffs.len(),
                m == max_index(self.coeffs@, k as int),
            decreases self.coeffs.len() - k,
        {
            if self.coeffs[k].0 > m {
                m = self.coeffs[k].0;
            }
            k = k + 1;
        }
        m
    }

    /// The value at `x`.
    pub fn evaluate(&self, x: &Fe) -> (r: Fe)
        ensures
            r@ == self.value(x@),
    {
        let mut acc = Fe::zero();
        let mut k: usize = 0;
        while k < self.coeffs.len()
            invariant
                k <= self.coeffs.len(),
                acc@ == sum(term_at(self.coeffs@, x@), k as int) % modulus(),
            decreases self.coeffs.len() - k,
        {
            let (d, c) = self.coeffs[k];
            let xp = pow_fe(*x, d);
            let t = fe_mul(c, xp);
            proof {
                let s = sum(term_at(self.coeffs@, x@), k as int);
                lemma_mod_id(c@);
                lemma_mul_mod_noop_general(c@, power(x@, d as nat), modulus());
                assert(t@ == (c@ * power(x@, d as nat)) % modulus());
                lemma_fadd_acc(s, c@ * power(x@, d as nat));
                lemma_mod_twice(s, modulus());
                lemma_mod_twice(c@ * power(x@, d as nat), modulus());
            }
            acc = fe_add(acc, t);
            k = k + 1;
        }
        acc
    }

    /// The sum of the coefficients, that is the value at 1.
    pub fn coefficient_sum(&self) -> (r: Fe)
        ensures
            r@ == self.coefficient_total(),
    {
        let mut acc = Fe::zero();
        let mut k: usize = 0;
        while k < self.coeffs.len()
            invariant
                k <= self.coeffs.len(),
                acc@ == sum(coeff_term(self.coeffs@), k as int) % modulus(),
            decreases self.coeffs.len() - k,
        {
            let c = self.coeffs[k].1;
            proof {
                let s = sum(coeff_term(self.coeffs@), k as int);
                lemma_mod_id(c@);
                lemma_fadd_acc(s, c@);
                lemma_mod_twice(s, modulus());
            }
            acc = fe_add(acc, c);
            k = k + 1;
        }
        acc
    }

    /// The same polynomial with one term per degree up to its degree, trailing
    /// zero terms removed.
    fn normalize(&self) -> (r: Self)
        requires
            self.max_degree() < usize::MAX,
        ensures
            forall|x: int| #[trigger] r.value(x) == self.value(x),
            r.coeffs.len() <= self.max_degree() + 1,
            r.max_degree() <= self.max_degree(),
    {
        let dmax = self.degree();
        proof {
            lemma_max_index(self.coeffs@, self.coeffs@.len() as int);
        }
        let d = bucket(&self.coeffs, dmax + 1);
        let mut list: Vec<(usize, Fe)> = Vec::with_capacity(dmax + 1);
        let mut i: usize = 0;
        while i <= dmax
            invariant
                dmax < usize::MAX,
                d.len() == dmax + 1,
                i <= dmax + 1,
                list.len() == i,
                forall|j: int| 0 <= j < i ==> (#[trigger] list@[j]).0 == j && list@[j].1 == d@[j],
            decreases dmax + 1 - i,
        {
            list.push((i, d[i]));
            i = i + 1;
        }
        let ghost full = list@;
        proof {
            assert(degree_sorted(full));
            lemma_sorted_terms(full);
        }
        let r = SparsePolynomial::from_coefficients_vec(list);
        proof {
            assert forall|k: int| 0 <= k < r.coeffs@.len() implies #[trigger] r.coeffs@[k].0 <= dmax by {
                assert(r.coeffs@[k] == full[k]);
            }
            assert forall|x: int| #[trigger] r.value(x) == self.value(x) by {
                let cs = self.coeffs@;
                let w = pow_weight(x);
                let n = (dmax + 1) as int;
                lemma_entries_weighted(cs, n, w);
                lemma_sum_ext(entries_weighted(cs, w), term_at(cs, x), cs.len() as int);
                assert forall|j: int| 0 <= j < n implies #[trigger] term_at(full, x)(j) % modulus()
                    == table_weighted(cs, w)(j) % modulus() by {
                    vstd::arithmetic::div_mod::lemma_mul_mod_noop_left(entry_sum(cs, j), power(x, j as nat), modulus());
                }
                crate::arith::lemma_sum_cong(term_at(full, x), table_weighted(cs, w), n);
                vstd::arithmetic::div_mod::lemma_mod_twice(sum(term_at(cs, x), cs.len() as int), modulus());
            }
            lemma_max_index(r.coeffs@, r.coeffs@.len() as int);
            lemma_max_index_bound(r.coeffs@, r.coeffs@.len() as int, dmax as nat);
        }
        r
    }

    /// The product of two polynomials.
    pub fn mul(&self, other: &Self) -> (r: Self)
        requires
            self.coeffs.len() * other.coeffs.len() <= usize::MAX,
            self.max_degree() + other.max_degree() < usize::MAX,
        ensures
            forall|x: int| #[trigger] r.value(x) == fmul(self.value(x), other.value(x)),
            r.coeffs.len() <= self.max_degree() + other.max_degree() + 1,
            r.max_degree() <= self.max_degree() + other.max_degree(),
    {
        proof {
            lemma_max_index(self.coeffs@, self.coeffs@.len() as int);
            lemma_max_index(other.coeffs@, other.coeffs@.len() as int);
        }
        let pairs = self.mul_terms(other);
        proof {
            assert forall|i: int| 0 <= i < pairs.coeffs.len() implies #[trigger] pairs.coeffs@[i].0 <= self.max_degree() + other.max_degree() by {
                let m = other.coeffs.len() as int;
                assert(is_product_term(self.coeffs@, other.coeffs@, i, pairs.coeffs@[i]));
                assert(m > 0) by (nonlinear_arith)
                    requires
                        0 <= i < self.coeffs.len() * m,
                        m >= 0,
                ;
                vstd::arithmetic::div_mod::lemma_fundamental_div_mod(i, m);
                vstd::arithmetic::div_mod::lemma_mod_bound(i, m);
                assert(0 <= i / m < self.coeffs.len()) by {
                    vstd::arithmetic::div_mod::lemma_div_pos_is_pos(i, m);
                    vstd::arithmetic::div_mod::lemma_div_by_multiple_is_strongly_ordered(i, self.coeffs.len() * m, self.coeffs.len() as int, m);
                    assert(self.coeffs.len() * m == self.coeffs.len() as int * m);
                    vstd::arithmetic::div_mod::lemma_div_by_multiple(self.coeffs.len() as int, m);
                }
            }
            lemma_max_index_bound(pairs.coeffs@, pairs.coeffs@.len() as int, self.max_degree() + other.max_degree());
        }
        pairs.normalize()
    }

    /// The list of pairwise products of the terms.
    fn mul_terms(&self, other: &Self) -> (r: Self)
        requires
            self.coeffs.len() * other.coeffs.len() <= usize::MAX,
            forall|k: int, l: int| 0 <= k < self.coeffs.len() && 0 <= l < other.coeffs.len()
                ==> #[trigger] self.coeffs@[k].0 + #[trigger] other.coeffs@[l].0 <= usize::MAX,
        ensures
            forall|x: int| #[trigger] r.value(x) == fmul(self.value(x), other.value(x)),
            r.coeffs.len() == self.coeffs.len() * other.coeffs.len(),
            forall|i: int| 0 <= i < r.coeffs.len() ==> #[trigger] is_product_term(self.coeffs@, other.coeffs@, i, r.coeffs@[i]),
    {
        let n = self.coeffs.len();
        let m = other.coeffs.len();
        let mut out: Vec<(usize, Fe)> = Vec::new();
        let mut k: usize = 0;
        while k < n
            invariant
                n == self.coeffs.len(),
                m == other.coeffs.len(),
                k <= n,
                out.len() == k * m,
                n * m <= usize::MAX,
                forall|kk: int, l: int| 0 <= kk < self.coeffs.len() && 0 <= l < other.coeffs.len()
                    ==> #[trigger] self.coeffs@[kk].0 + #[trigger] other.coeffs@[l].0 <= usize::MAX,
                forall|i: int| 0 <= i < k * m ==> #[trigger] is_product_term(self.coeffs@, other.coeffs@, i, out@[i]),
            decreases n - k,
        {
            let mut l: usize = 0;
            proof {
                assert(k * m + m <= n * m) by (nonlinear_arith)
                    requires
                        k < n,
                ;
            }
            while l < m
                invariant
                    n == self.coeffs.len(),
                    m == other.coeffs.len(),
                    k < n,
                    l <= m,
                    k * m + m <= n * m,
                    n * m <= usize::MAX,
                    out.len() == k * m + l,
                    forall|kk: int, ll: int| 0 <= kk < self.coeffs.len() && 0 <= ll < other.coeffs.len()
                        ==> #[trigger] self.coeffs@[kk].0 + #[trigger] other.coeffs@[ll].0 <= usize::MAX,
                    forall|i: int| 0 <= i < k * m + l ==> #[trigger] is_product_term(self.coeffs@, other.coeffs@, i, out@[i]),
                decreases m - l,
            {
                let (d1, c1) = self.coeffs[k];
                let (d2, c2) = other.coeffs[l];
                let ghost i = k * m + l;
                proof {
                    crate::arith::lemma_packed(l as int, m as int, k as int);
                    assert(i == l + m * k) by (nonlinear_arith)
                        requires
                            i == k * m + l,
                    ;
                }
                out.push((d1 + d2, fe_mul(c1, c2)));
                l = l + 1;
            }
            proof {
                assert((k + 1) * m == k * m + m) by (nonlinear_arith);
            }
            k = k + 1;
        }
        let r = SparsePolynomial { coeffs: out };
        assert forall|x: int| #[trigger] r.value(x) == fmul(self.value(x), other.value(x)) by {
            lemma_product_eval(self.coeffs@, other.coeffs@, out@, x);
        }
        r
    }

    /// Adds the terms of `other`.
    pub fn add_assign(&mut self, other: &Self)
        ensures
            forall|x: int| #[trigger] final(self).value(x) == (old(self).value(x) + other.value(x))
                % modulus(),
            final(self).coeffs.len() == old(self).coeffs.len() + other.coeffs.len(),
            final(self).coeffs@ == old(self).coeffs@ + other.coeffs@,
    {
        let ghost before = self.coeffs@;
        let mut k: usize = 0;
        while k < other.coeffs.len()
            invariant
                k <= other.coeffs.len(),
                self.coeffs@ == before + other.coeffs@.take(k as int),
            decreases other.coeffs.len() - k,
        {
            self.coeffs.push(other.coeffs[k]);
            k = k + 1;
            proof {
                assert(self.coeffs@ =~= before + other.coeffs@.take(k as int));
            }
        }
        proof {
            assert(other.coeffs@.take(k as int) =~= other.coeffs@);
            assert forall|x: int| #[trigger] self.value(x) == (poly_eval(before, x) + other.value(x)) % modulus() by {
                lemma_concat_eval(before, other.coeffs@, x);
            }
        }
    }

    /// The polynomial `1 - self`.
    pub fn one_minus(&self) -> (r: Self)
        ensures
            forall|x: int| #[trigger] r.value(x) == (1 - self.value(x)) % modulus(),
            r.coeffs.len() == self.coeffs.len() + 1,
            r.max_degree() <= self.max_degree(),
    {
        let mut out: Vec<(usize, Fe)> = Vec::new();
        out.push((0, Fe::one()));
        let mut neg: Vec<(usize, Fe)> = Vec::new();
        let mut k: usize = 0;
        while k < self.coeffs.len()
            invariant
                k <= self.coeffs.len(),
                neg.len() == k,
                forall|i: int| 0 <= i < k ==> {
                    &&& (#[trigger] neg@[i]).0 == self.coeffs@[i].0
                    &&& neg@[i].1@ == (0 - self.coeffs@[i].1@) % modulus()
                },
            decreases self.coeffs.len() - k,
        {
            let (d, c) = self.coeffs[k];
            neg.push((d, fe_sub(Fe::zero(), c)));
            k = k + 1;
        }
        let ghost one = out@;
        let mut r = SparsePolynomial { coeffs: out };
        let negp = SparsePolynomial { coeffs: neg };
        proof {
            assert forall|x: int| #[trigger] negp.value(x) == (0 - self.value(x)) % modulus() by {
                lemma_negated_eval(self.coeffs@, negp.coeffs@, x);
            }
            assert forall|x: int| #[trigger] r.value(x) == 1 by {
                assert(sum(term_at(one, x), 1) == sum(term_at(one, x), 0) + term_at(one, x)(0));
                assert(power(x, 0) == 1);
                lemma_mod_id(1);
            }
        }
        r.add_assign(&negp);
        proof {
            lemma_max_index(self.coeffs@, self.coeffs@.len() as int);
            assert forall|kk: int| 0 <= kk < r.coeffs@.len() implies #[trigger] r.coeffs@[kk].0 <= self.max_degree() by {
                if kk > 0 {
                    assert(r.coeffs@[kk] == negp.coeffs@[kk - 1]);
                }
            }
            lemma_max_index_bound(r.coeffs@, r.coeffs@.len() as int, self.max_degree());
            assert forall|x: int| #[trigger] r.value(x) == (1 - self.value(x)) % modulus() by {
                vstd::arithmetic::div_mod::lemma_add_mod_noop_right(1, 0 - self.value(x), modulus());
            }
        }
        r
    }
}

/// `1^d == 1`.
pub proof fn lemma_power_one(d: nat)
    ensures
        power(1, d) == 1,
    decreases d,
{
    if d > 0 {
        lemma_power_one((d - 1) as nat);
    }
}

/// The sum of the coefficients is the value at one.
pub proof fn lemma_coefficient_total_at_one(p: SparsePolynomial)
    ensures
        p.coefficient_total() == p.value(1),
{
    let cs = p.coeffs@;
    assert forall|k: int| 0 <= k < cs.len() implies #[trigger] coeff_term(cs)(k) == term_at(cs, 1)(k) by {
        lemma_power_one(cs[k].0 as nat);
    }
    lemma_sum_ext(coeff_term(cs), term_at(cs, 1), cs.len() as int);
}

/// The polynomial built from the two terms `(0, a)` and `(1, b)` has degree
/// at most one and coefficients summing to `a + b`.
pub proof fn lemma_two_point_poly(points: Seq<(usize, Fe)>, p: SparsePolynomial)
    requires
        points.len() == 2,
        points[0].0 == 0,
        points[1].0 == 1,
        forall|x: int| #[trigger] p.value(x) == poly_eval(points, x),
        p.coeffs@ == trimmed(points),
    ensures
        p.max_degree() <= 1,
        p.coefficient_total() == (points[0].1@ + points[1].1@) % modulus(),
{
    assert(degree_sorted(points));
    lemma_sorted_terms(points);
    lemma_coefficient_total_at_one(p);
    assert(p.value(1) == poly_eval(points, 1));
    let f = term_at(points, 1);
    lemma_power_one(0);
    lemma_power_one(1);
    assert(sum(f, 2) == sum(f, 1) + f(1));
    assert(sum(f, 1) == sum(f, 0) + f(0));
    assert forall|k: int| 0 <= k < p.coeffs@.len() implies #[trigger] p.coeffs@[k].0 <= 1 by {
        assert(p.coeffs@[k] == points[k]);
    }
    lemma_max_index_bound(p.coeffs@, p.coeffs@.len() as int, 1);
}

/// `|i| x^i`.
pub open spec fn pow_weight(x: int) -> spec_fn(int) -> int {
    |i: int| power(x, i as nat)
}

/// Every index is at most the largest one.
pub proof fn lemma_max_index(cs: Seq<(usize, Fe)>, n: int)
    requires
        n <= cs.len(),
    ensures
        forall|k: int| 0 <= k < n ==> #[trigger] cs[k].0 <= max_index(cs, n),
    decreases n,
{
    if n > 0 {
        lemma_max_index(cs, n - 1);
    }
}

/// The largest index is at most any bound on the indices.
pub proof fn lemma_max_index_bound(cs: Seq<(usize, Fe)>, n: int, b: nat)
    requires
        n <= cs.len(),
        forall|k: int| 0 <= k < n ==> #[trigger] cs[k].0 <= b,
    ensures
        max_index(cs, n) <= b,
    decreases n,
{
    if n > 0 {
        lemma_max_index_bound(cs, n - 1, b);
    }
}

/// The largest index among the first `n` terms (zero without terms).
pub open spec fn max_index(cs: Seq<(usize, Fe)>, n: int) -> nat
    decreases n,
{
    if n <= 0 {
        0
    } else {
        let m = max_index(cs, n - 1);
        if cs[n - 1].0 > m {
            cs[n - 1].0 as nat
        } else {
            m
        }
    }
}

/// `t` is term `i = l + m k` of the product of the terms `a` and `b`.
pub open spec fn is_product_term(a: Seq<(usize, Fe)>, b: Seq<(usize, Fe)>, i: int, t: (usize, Fe)) -> bool {
    let m = b.len() as int;
    let k = i / m;
    let l = i % m;
    &&& t.0 == a[k].0 + b[l].0
    &&& t.1@ == fmul(a[k].1@, b[l].1@)
}

/// Dropping trailing zero terms keeps the value.
pub proof fn lemma_trailing_zeros(cs: Seq<(usize, Fe)>, n: int, x: int)
    requires
        0 <= n <= cs.len(),
        forall|k: int| n <= k < cs.len() ==> (#[trigger] cs[k]).1@ == 0,
    ensures
        poly_eval(cs.take(n), x) == poly_eval(cs, x),
    decreases cs.len() - n,
{
    if n < cs.len() {
        let t = cs.take(n + 1);
        assert(t.take(n) =~= cs.take(n));
        assert forall|k: int| n + 1 <= k < cs.len() implies (#[trigger] cs[k]).1@ == 0 by {}
        lemma_trailing_zeros(cs, n + 1, x);
        assert(sum(term_at(t, x), n + 1) == sum(term_at(t, x), n) + term_at(t, x)(n));
        assert(term_at(t, x)(n) == 0);
        lemma_sum_ext(term_at(t, x), term_at(cs.take(n), x), n);
    } else {
        assert(cs.take(n) =~= cs);
    }
}

/// The value of a concatenation is the sum of the values.
pub proof fn lemma_concat_eval(a: Seq<(usize, Fe)>, b: Seq<(usize, Fe)>, x: int)
    ensures
        poly_eval(a + b, x) == (poly_eval(a, x) + poly_eval(b, x)) % modulus(),
{
    let f = term_at(a + b, x);
    crate::arith::lemma_sum_shift(f, a.len() as int, b.len() as int);
    lemma_sum_ext(f, term_at(a, x), a.len() as int);
    lemma_sum_ext(|i: int| f(a.len() + i), term_at(b, x), b.len() as int);
    crate::arith::lemma_fadd_red(sum(term_at(a, x), a.len() as int), sum(term_at(b, x), b.len() as int));
}

/// Negating every coefficient negates the value.
pub proof fn lemma_negated_eval(a: Seq<(usize, Fe)>, neg: Seq<(usize, Fe)>, x: int)
    requires
        neg.len() == a.len(),
        forall|i: int| 0 <= i < a.len() ==> {
            &&& (#[trigger] neg[i]).0 == a[i].0
            &&& neg[i].1@ == (0 - a[i].1@) % modulus()
        },
    ensures
        poly_eval(neg, x) == (0 - poly_eval(a, x)) % modulus(),
{
    let p = modulus();
    let n = a.len() as int;
    let fa = term_at(a, x);
    let g = |i: int| (-1) * fa(i);
    assert forall|i: int| 0 <= i < n implies #[trigger] term_at(neg, x)(i) % p == g(i) % p by {
        let c = a[i].1@;
        let w = power(x, a[i].0 as nat);
        vstd::arithmetic::div_mod::lemma_mul_mod_noop_left(0 - c, w, p);
        assert((0 - c) * w == (-1) * (c * w)) by (nonlinear_arith);
    }
    crate::arith::lemma_sum_cong(term_at(neg, x), g, n);
    lemma_sum_times(fa, -1, g, n);
    vstd::arithmetic::div_mod::lemma_sub_mod_noop(0, sum(fa, n), p);
    lemma_mod_id(0);
}

/// The named pieces of the product proof.
pub open spec fn scaled(f: spec_fn(int) -> int, c: int) -> spec_fn(int) -> int {
    |i: int| c * f(i)
}

/// The value of the list of pairwise products is the product of the values.
pub proof fn lemma_product_eval(a: Seq<(usize, Fe)>, b: Seq<(usize, Fe)>, out: Seq<(usize, Fe)>, x: int)
    requires
        out.len() == a.len() * b.len(),
        forall|i: int| 0 <= i < out.len() ==> #[trigger] is_product_term(a, b, i, out[i]),
    ensures
        poly_eval(out, x) == fmul(poly_eval(a, x), poly_eval(b, x)),
{
    let p = modulus();
    let n = a.len() as int;
    let m = b.len() as int;
    let fo = term_at(out, x);
    let fa = term_at(a, x);
    let fb = term_at(b, x);
    let sb = sum(fb, m);
    let sa = sum(fa, n);
    lemma_sum_double(fo, m, n);
    assert(m * n == n * m) by (nonlinear_arith);
    // each block is congruent to a term of `a` times the sum of `b`
    assert forall|k: int| 0 <= k < n implies #[trigger] block_sums(fo, m)(k) % p == scaled(fa, sb)(k) % p by {
        let row = block_row(fo, m, k);
        let g = scaled(fb, fa(k));
        assert forall|l: int| 0 <= l < m implies #[trigger] row(l) % p == g(l) % p by {
            let i = l + m * k;
            crate::arith::lemma_packed(l, m, k);
            assert(0 <= i < n * m) by (nonlinear_arith)
                requires
                    0 <= l < m,
                    0 <= k < n,
                    i == l + m * k,
            ;
            assert(is_product_term(a, b, i, out[i]));
            let ca = a[k].1@;
            let cb = b[l].1@;
            let wa = power(x, a[k].0 as nat);
            let wb = power(x, b[l].0 as nat);
            lemma_power_adds(x, a[k].0 as nat, b[l].0 as nat);
            assert(out[i].0 as nat == a[k].0 as nat + b[l].0 as nat);
            vstd::arithmetic::div_mod::lemma_mul_mod_noop_left(ca * cb, wa * wb, p);
            assert((ca * cb) * (wa * wb) == (ca * wa) * (cb * wb)) by (nonlinear_arith);
        }
        crate::arith::lemma_sum_cong(row, g, m);
        lemma_sum_times(fb, fa(k), g, m);
        assert(fa(k) * sb == sb * fa(k)) by (nonlinear_arith);
    }
    crate::arith::lemma_sum_cong(block_sums(fo, m), scaled(fa, sb), n);
    lemma_sum_times(fa, sb, scaled(fa, sb), n);
    crate::arith::lemma_fmul_red(sa, sb);
    assert(sb * sa == sa * sb) by (nonlinear_arith);
}

/// `x^d`.
fn pow_fe(x: Fe, d: usize) -> (r: Fe)
    ensures
        r@ == power(x@, d as nat) % modulus(),
{
    let mut acc = Fe::one();
    let mut i: usize = 0;
    proof {
        lemma_mod_id(1);
    }
    while i < d
        invariant
            i <= d,
            acc@ == power(x@, i as nat) % modulus(),
        decreases d - i,
    {
        proof {
            lemma_mul_mod_noop_general(x@, power(x@, i as nat), modulus());
            lemma_mod_id(x@);
            assert(power(x@, (i + 1) as nat) == x@ * power(x@, i as nat));
            lemma_mul_mod_noop_general(power(x@, i as nat), x@, modulus());
            assert(acc@ * x@ == x@ * acc@) by (nonlinear_arith);
            assert(power(x@, i as nat) * x@ == x@ * power(x@, i as nat)) by (nonlinear_arith);
        }
        acc = fe_mul(acc, x);
        i = i + 1;
    }
    acc
}

} // verus!
