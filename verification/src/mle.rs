//! Dense and sparse multilinear extensions over the field.
//!
//! A dense extension holds its whole table; a sparse one holds a list of
//! `(index, value)` entries, entries with the same index adding up, and every
//! other index valued zero. The contracts speak of the table
//! (`table()`), a sequence of integers in `[0, p)`, and of the folding
//! operations of [`crate::mle_spec`].
use crate::arith::{lemma_fold_step, lemma_sum_cong, lemma_sum_ext, sum};
use crate::field::{fe_add, fe_mul, fe_sub, fmul, fsub, lemma_fe_range, modulus, Fe};
use crate::mle_spec::{fold, fold_all, lemma_fold_all_push, lemma_fold_len, mle_eval, reduced};
use vstd::arithmetic::div_mod::{lemma_add_mod_noop, lemma_mod_bound, lemma_mul_mod_noop_right, lemma_sub_mod_noop};
use vstd::arithmetic::power2::{lemma_pow2_unfold, pow2};
use vstd::prelude::*;

verus! {

broadcast use lemma_fe_range;

/// The values of a sequence of field elements.
pub open spec fn vals(s: Seq<Fe>) -> Seq<int> {
    s.map_values(|x: Fe| x@)
}

/// A table built from entries is reduced.
pub proof fn lemma_entries_table_reduced(es: Seq<(usize, Fe)>, n: nat)
    ensures
        reduced(entries_table(es, n)),
        entries_table(es, n).len() == pow2(n),
{
    assert forall|i: int| 0 <= i < entries_table(es, n).len() implies 0 <= #[trigger] entries_table(es, n)[i] < modulus() by {
        lemma_mod_bound(entry_sum(es, i), modulus());
    }
}

/// A copy of a slice of field elements.
pub fn copy_slice(s: &[Fe], from: usize, to: usize) -> (r: Vec<Fe>)
    requires
        from <= to <= s.len(),
    ensures
        r@ == s@.subrange(from as int, to as int),
{
    let mut v: Vec<Fe> = Vec::with_capacity(to - from);
    let mut k: usize = from;
    while k < to
        invariant
            from <= k <= to,
            to <= s.len(),
            v@ == s@.subrange(from as int, k as int),
        decreases to - k,
    {
        v.push(s[k]);
        k = k + 1;
        proof {
            assert(v@ =~= s@.subrange(from as int, k as int));
        }
    }
    v
}

/// The values of field elements are reduced.
pub proof fn lemma_vals_reduced(s: Seq<Fe>)
    ensures
        reduced(vals(s)),
        vals(s).len() == s.len(),
{
    assert forall|i: int| 0 <= i < vals(s).len() implies 0 <= #[trigger] vals(s)[i] < modulus() by {
        lemma_fe_range(s[i]);
    }
}

/// `2^n` as a `usize`.
pub fn pow2_usize(n: usize) -> (r: usize)
    requires
        pow2(n as nat) <= usize::MAX,
    ensures
        r == pow2(n as nat),
{
    let mut r: usize = 1;
    let mut i: usize = 0;
    proof {
        vstd::arithmetic::power2::lemma2_to64();
    }
    while i < n
        invariant
            i <= n,
            r == pow2(i as nat),
            pow2(n as nat) <= usize::MAX,
        decreases n - i,
    {
        proof {
            lemma_pow2_unfold((i + 1) as nat);
            if i + 1 < n {
                vstd::arithmetic::power2::lemma_pow2_strictly_increases((i + 1) as nat, n as nat);
            }
        }
        r = r * 2;
        i = i + 1;
    }
    r
}

/// Folds a table in half, fixing its lowest variable to `r`.
pub fn fold_table(e: &Vec<Fe>, r: Fe) -> (out: Vec<Fe>)
    ensures
        vals(out@) == fold(vals(e@), r@),
{
    let half = e.len() / 2;
    let mut out: Vec<Fe> = Vec::with_capacity(half);
    let mut b: usize = 0;
    while b < half
        invariant
            half == e.len() / 2,
            b <= half,
            out.len() == b,
            forall|j: int| 0 <= j < b ==> #[trigger] out@[j]@ == fold(vals(e@), r@)[j],
        decreases half - b,
    {
        let left = e[2 * b];
        let right = e[2 * b + 1];
        let v = fe_add(left, fe_mul(r, fe_sub(right, left)));
        proof {
            lemma_fold_step(left@, right@, r@);
        }
        out.push(v);
        b = b + 1;
    }
    assert(vals(out@) =~= fold(vals(e@), r@));
    out
}

/// A multilinear polynomial given by its full table of `2^num_vars` values.
#[derive(Clone, Debug)]
pub struct DenseMultilinearExtension {
    pub num_vars: usize,
    pub evaluations: Vec<Fe>,
}

impl View for DenseMultilinearExtension {
    type V = (usize, Seq<Fe>);

    open spec fn view(&self) -> (usize, Seq<Fe>) {
        (self.num_vars, self.evaluations@)
    }
}

impl DenseMultilinearExtension {
    /// A copy.
    pub fn duplicate(&self) -> (r: Self)
        ensures
            r@ == self@,
    {
        let mut ev: Vec<Fe> = Vec::with_capacity(self.evaluations.len());
        let mut k: usize = 0;
        while k < self.evaluations.len()
            invariant
                k <= self.evaluations.len(),
                ev@ == self.evaluations@.take(k as int),
            decreases self.evaluations.len() - k,
        {
            ev.push(self.evaluations[k]);
            k = k + 1;
            proof {
                assert(ev@ =~= self.evaluations@.take(k as int));
            }
        }
        assert(ev@ =~= self.evaluations@);
        DenseMultilinearExtension { num_vars: self.num_vars, evaluations: ev }
    }

    /// The table holds `2^num_vars` values.
    pub open spec fn wf(&self) -> bool {
        self.evaluations.len() == pow2(self.num_vars as nat)
    }

    /// The values of the table.
    pub open spec fn table(&self) -> Seq<int> {
        vals(self.evaluations@)
    }

    /// The extension with the given table; the table must hold `2^num_vars` values.
    pub fn from_evaluations_vec(num_vars: usize, evaluations: Vec<Fe>) -> (r: Self)
        requires
            evaluations.len() == pow2(num_vars as nat),
        ensures
            r.wf(),
            r.num_vars == num_vars,
            r.evaluations@ == evaluations@,
    {
        DenseMultilinearExtension { num_vars, evaluations }
    }

    /// The value at the hypercube point with index `i`.
    pub fn fix_variables(&self, point: &[Fe]) -> (r: Self)
        requires
            self.wf(),
            point.len() <= self.num_vars,
        ensures
            r.wf(),
            r.num_vars == self.num_vars - point.len(),
            r.table() == fold_all(self.table(), vals(point@)),
    {
        let nv = self.num_vars;
        let dim = point.len();
        let mut poly = self.evaluations.clone();
        let mut i: usize = 0;
        proof {
            assert(vals(point@).take(0) =~= Seq::<int>::empty());
        }
        while i < dim
            invariant
                dim == point.len(),
                dim <= nv,
                nv == self.num_vars,
                i <= dim,
                poly.len() == pow2((nv - i) as nat),
                vals(poly@) == fold_all(self.table(), vals(point@).take(i as int)),
            decreases dim - i,
        {
            let ghost before = vals(poly@);
            let next = fold_table(&poly, point[i]);
            proof {
                lemma_fold_len(before, point@[i as int]@, (nv - i - 1) as nat);
                lemma_fold_all_push(self.table(), vals(point@).take(i as int), point@[i as int]@);
                assert(vals(point@).take(i as int).push(point@[i as int]@) =~= vals(point@).take(
                    i + 1,
                ));
            }
            poly = next;
            i = i + 1;
        }
        proof {
            assert(vals(point@).take(dim as int) =~= vals(point@));
        }
        DenseMultilinearExtension { num_vars: nv - dim, evaluations: poly }
    }

    /// The value of the extension at `point`, which has one coordinate per variable.
    pub fn evaluate(&self, point: &[Fe]) -> (r: Fe)
        requires
            self.wf(),
            point.len() == self.num_vars,
        ensures
            r@ == mle_eval(self.table(), vals(point@)),
    {
        let fixed = self.fix_variables(point);
        proof {
            vstd::arithmetic::power2::lemma2_to64();
        }
        fixed.evaluations[0]
    }
}

/// The sum of the values of the first `n` entries with index `i` (unreduced).
pub open spec fn entry_sum_upto(es: Seq<(usize, Fe)>, i: int, n: int) -> int {
    sum(entry_term(es, i), n)
}

/// The contribution of entry `k` to index `i`.
pub open spec fn entry_term(es: Seq<(usize, Fe)>, i: int) -> spec_fn(int) -> int {
    |k: int| if es[k].0 == i { es[k].1@ } else { 0 }
}

/// The value of entry `k`.
pub open spec fn value_term(es: Seq<(usize, Fe)>) -> spec_fn(int) -> int {
    |k: int| es[k].1@
}

/// The sum of the values of the first `n` entries, whatever their index (unreduced).
pub open spec fn value_sum(es: Seq<(usize, Fe)>, n: int) -> int {
    sum(value_term(es), n)
}

/// The sum of the values of the entries with index `i` (unreduced).
pub open spec fn entry_sum(es: Seq<(usize, Fe)>, i: int) -> int {
    entry_sum_upto(es, i, es.len() as int)
}

/// `entry_sum` as the sum of any function that agrees with its terms.
pub proof fn lemma_entry_sum_as(es: Seq<(usize, Fe)>, i: int, f: spec_fn(int) -> int)
    requires
        forall|k: int| 0 <= k < es.len() ==> #[trigger] f(k) == if es[k].0 == i { es[k].1@ } else { 0 },
    ensures
        entry_sum(es, i) == sum(f, es.len() as int),
{
    lemma_sum_ext(f, entry_term(es, i), es.len() as int);
}

/// `value_sum` as the sum of any function that agrees with its terms.
pub proof fn lemma_value_sum_as(es: Seq<(usize, Fe)>, n: int, f: spec_fn(int) -> int)
    requires
        forall|k: int| 0 <= k < n ==> #[trigger] f(k) == es[k].1@,
    ensures
        value_sum(es, n) == sum(f, n),
{
    lemma_sum_ext(f, value_term(es), n);
}

/// `(a + r (b - a)) mod p` only depends on `a` and `b` modulo p, and equals
/// `((1 - r) a + r b) mod p`.
pub proof fn lemma_lin_cong(a: int, b: int, r: int)
    ensures
        ((a % modulus()) + r * ((b % modulus()) - (a % modulus()))) % modulus() == ((1 - r) * a
            + r * b) % modulus(),
{
    let p = modulus();
    let d = (b % p) - (a % p);
    lemma_sub_mod_noop(b, a, p);
    assert(d % p == (b - a) % p);
    lemma_mul_mod_noop_right(r, d, p);
    lemma_mul_mod_noop_right(r, b - a, p);
    assert((r * d) % p == (r * (b - a)) % p);
    lemma_add_mod_noop(a, r * d, p);
    lemma_add_mod_noop(a, r * (b - a), p);
    vstd::arithmetic::div_mod::lemma_mod_twice(a, p);
    lemma_add_mod_noop(a % p, r * d, p);
    assert(((a % p) + r * d) % p == (a + r * (b - a)) % p);
    assert(a + r * (b - a) == (1 - r) * a + r * b) by (nonlinear_arith);
}

/// The entries after fixing the lowest variable to `r`.
pub open spec fn entries_fixed_once(es: Seq<(usize, Fe)>, r: int, out: Seq<(usize, Fe)>) -> bool {
    &&& out.len() == es.len()
    &&& forall|k: int|
        0 <= k < es.len() ==> {
            &&& (#[trigger] out[k]).0 == es[k].0 / 2
            &&& out[k].1@ == if es[k].0 % 2 == 0 {
                fmul(es[k].1@, fsub(1, r))
            } else {
                fmul(es[k].1@, r)
            }
        }
}

/// Fixing the lowest variable of the entries folds their table.
pub proof fn lemma_entries_fixed_once(es: Seq<(usize, Fe)>, r: int, out: Seq<(usize, Fe)>, n: nat)
    requires
        entries_fixed_once(es, r, out),
    ensures
        entries_table(out, n) == fold(entries_table(es, n + 1), r),
{
    let p = modulus();
    let t = entries_table(es, n + 1);
    lemma_pow2_unfold(n + 1);
    assert forall|j: int| 0 <= j < pow2(n) implies #[trigger] entries_table(out, n)[j] == fold(
        t,
        r,
    )[j] by {
        let lhs = |k: int| if out[k].0 == j { out[k].1@ } else { 0 };
        let f0 = |k: int| if es[k].0 == 2 * j { es[k].1@ } else { 0 };
        let f1 = |k: int| if es[k].0 == 2 * j + 1 { es[k].1@ } else { 0 };
        let rhs = |k: int| (1 - r) * f0(k) + r * f1(k);
        assert forall|k: int| 0 <= k < es.len() implies #[trigger] lhs(k) % p == rhs(k) % p by {
            let v = es[k].1@;
            let i = es[k].0 as int;
            if i / 2 == j {
                if i % 2 == 0 {
                    assert(i == 2 * j);
                    lemma_mul_mod_noop_right(v, 1 - r, p);
                    assert(v * (1 - r) == (1 - r) * v) by (nonlinear_arith);
                } else {
                    assert(i == 2 * j + 1);
                    lemma_mul_mod_noop_right(v, r, p);
                    vstd::arithmetic::div_mod::lemma_mod_twice(v * r, p);
                    assert(v * r == r * v) by (nonlinear_arith);
                }
            } else {
                assert(i != 2 * j && i != 2 * j + 1);
                assert((1 - r) * 0 + r * 0 == 0) by (nonlinear_arith);
            }
        }
        let n_es = es.len() as int;
        lemma_sum_cong(lhs, rhs, n_es);
        let g0 = |k: int| (1 - r) * f0(k);
        let g1 = |k: int| r * f1(k);
        crate::arith::lemma_sum_times(f0, 1 - r, g0, n_es);
        crate::arith::lemma_sum_times(f1, r, g1, n_es);
        crate::arith::lemma_sum_plus(g0, g1, rhs, n_es);
        assert(entry_sum(out, j) == sum(lhs, out.len() as int));
        lemma_entry_sum_as(es, 2 * j, f0);
        lemma_entry_sum_as(es, 2 * j + 1, f1);
        lemma_entry_sum_as(out, j, lhs);
        let e0 = entry_sum(es, 2 * j);
        let e1 = entry_sum(es, 2 * j + 1);
        assert(sum(rhs, es.len() as int) == (1 - r) * e0 + r * e1);
        assert(entry_sum(out, j) % p == ((1 - r) * e0 + r * e1) % p);
        lemma_lin_cong(e0, e1, r);
        assert(2 * j + 1 < pow2(n + 1));
        assert(t[2 * j] == e0 % p);
        assert(t[2 * j + 1] == e1 % p);
    }
    assert(entries_table(out, n) =~= fold(t, r));
}

/// No two entries share an index.
pub open spec fn distinct_indices(es: Seq<(usize, Fe)>) -> bool {
    forall|j: int, k: int| 0 <= j < k < es.len() ==> #[trigger] es[j].0 != #[trigger] es[k].0
}

/// The value that the last entry with index `i` carries, or zero where no
/// entry has that index.
pub open spec fn last_value(es: Seq<(usize, Fe)>, i: int) -> int
    decreases es.len(),
{
    if es.len() == 0 {
        0
    } else if es.last().0 == i {
        es.last().1@
    } else {
        last_value(es.drop_last(), i)
    }
}

/// The table over `2^n` indices in which each index holds the value of the
/// last entry that names it.
pub open spec fn last_value_table(es: Seq<(usize, Fe)>, n: nat) -> Seq<int> {
    Seq::new(pow2(n), |i: int| last_value(es, i))
}

/// Where no entry names index `i`, its last value is zero.
pub proof fn lemma_last_value_absent(es: Seq<(usize, Fe)>, i: int)
    requires
        forall|k: int| 0 <= k < es.len() ==> #[trigger] es[k].0 != i,
    ensures
        last_value(es, i) == 0,
    decreases es.len(),
{
    if es.len() > 0 {
        assert(es.last().0 != i);
        lemma_last_value_absent(es.drop_last(), i);
    }
}

/// A last value is a field value.
pub proof fn lemma_last_value_reduced(es: Seq<(usize, Fe)>, i: int)
    ensures
        0 <= last_value(es, i) < modulus(),
    decreases es.len(),
{
    if es.len() > 0 {
        lemma_last_value_reduced(es.drop_last(), i);
    }
}

/// Over entries with distinct indices, the sum at an index is its last value.
pub proof fn lemma_entry_sum_distinct(es: Seq<(usize, Fe)>, i: int)
    requires
        distinct_indices(es),
    ensures
        entry_sum(es, i) == last_value(es, i),
    decreases es.len(),
{
    if es.len() > 0 {
        let n = es.len() - 1;
        let init = es.drop_last();
        assert(distinct_indices(init));
        lemma_entry_sum_distinct(init, i);
        lemma_sum_ext(entry_term(es, i), entry_term(init, i), n);
        if es.last().0 == i {
            assert forall|k: int| 0 <= k < init.len() implies #[trigger] init[k].0 != i by {
                assert(es[k].0 != es[n].0);
            }
            lemma_last_value_absent(init, i);
        }
    }
}

/// Overwriting the value of the entry with index `e.0`, in a list of
/// distinct indices, changes the last value at that index alone.
pub proof fn lemma_last_value_update(es: Seq<(usize, Fe)>, p: int, e: (usize, Fe), i: int)
    requires
        distinct_indices(es),
        0 <= p < es.len(),
        es[p].0 == e.0,
    ensures
        last_value(es.update(p, e), i) == if i == e.0 { e.1@ } else { last_value(es, i) },
    decreases es.len(),
{
    let n = es.len() - 1;
    let up = es.update(p, e);
    if p == n {
        assert(up.drop_last() =~= es.drop_last());
    } else {
        assert(up.drop_last() =~= es.drop_last().update(p, e));
        assert(distinct_indices(es.drop_last()));
        assert(es[n].0 != es[p].0);
        lemma_last_value_update(es.drop_last(), p, e, i);
    }
}

/// The table of a list of entries over `2^n` indices.
pub open spec fn entries_table(es: Seq<(usize, Fe)>, n: nat) -> Seq<int> {
    Seq::new(pow2(n), |i: int| entry_sum(es, i) % modulus())
}

/// The weighted contribution of entry `k` at index `i`.
pub open spec fn weighted_entry(es: Seq<(usize, Fe)>, w: spec_fn(int) -> int) -> spec_fn(int, int) -> int {
    |i: int, k: int| if es[k].0 == i { es[k].1@ * w(i) } else { 0 }
}

/// The entries' table weighted by `w`, entry by index.
pub open spec fn table_weighted(es: Seq<(usize, Fe)>, w: spec_fn(int) -> int) -> spec_fn(int) -> int {
    |i: int| entry_sum(es, i) * w(i)
}

/// Each entry weighted by `w` at its index.
pub open spec fn entries_weighted(es: Seq<(usize, Fe)>, w: spec_fn(int) -> int) -> spec_fn(int) -> int {
    |k: int| es[k].1@ * w(es[k].0 as int)
}

/// Summing entries weighted at their indices is summing the table weighted
/// index by index.
pub proof fn lemma_entries_weighted(es: Seq<(usize, Fe)>, n: int, w: spec_fn(int) -> int)
    requires
        0 <= n,
        forall|k: int| 0 <= k < es.len() ==> #[trigger] es[k].0 < n,
    ensures
        sum(table_weighted(es, w), n) == sum(entries_weighted(es, w), es.len() as int),
{
    let m = es.len() as int;
    let f2 = weighted_entry(es, w);
    crate::arith::lemma_sum_swap(f2, n, m);
    assert forall|i: int| 0 <= i < n implies #[trigger] crate::arith::row_sums(f2, m)(i) == table_weighted(es, w)(i) by {
        assert forall|k: int| 0 <= k < m implies #[trigger] crate::arith::row(f2, i)(k) == w(i) * entry_term(es, i)(k) by {
            let v = es[k].1@;
            assert(v * w(i) == w(i) * v) by (nonlinear_arith);
        }
        crate::arith::lemma_sum_times(entry_term(es, i), w(i), crate::arith::row(f2, i), m);
        assert(w(i) * entry_sum(es, i) == entry_sum(es, i) * w(i)) by (nonlinear_arith);
    }
    lemma_sum_ext(crate::arith::row_sums(f2, m), table_weighted(es, w), n);
    assert forall|k: int| 0 <= k < m implies #[trigger] crate::arith::col_sums(f2, n)(k) == entries_weighted(es, w)(k) by {
        crate::arith::lemma_sum_single(crate::arith::col(f2, k), es[k].0 as int, n);
    }
    lemma_sum_ext(crate::arith::col_sums(f2, n), entries_weighted(es, w), m);
}

/// The table of the entries over indices `0..n`: value `i` is the sum of the
/// entries with index `i`.
pub fn bucket(es: &Vec<(usize, Fe)>, n: usize) -> (d: Vec<Fe>)
    requires
        forall|k: int| 0 <= k < es.len() ==> #[trigger] es@[k].0 < n,
    ensures
        d.len() == n,
        forall|j: int| 0 <= j < n ==> (#[trigger] d@[j])@ == entry_sum(es@, j) % modulus(),
{
    let mut d: Vec<Fe> = Vec::with_capacity(n);
    let mut i: usize = 0;
    while i < n
        invariant
            i <= n,
            d.len() == i,
            forall|j: int| 0 <= j < i ==> (#[trigger] d@[j])@ == 0,
        decreases n - i,
    {
        d.push(Fe::zero());
        i = i + 1;
    }
    let mut k: usize = 0;
    proof {
        assert forall|j: int| 0 <= j < n implies (#[trigger] d@[j])@ == entry_sum_upto(es@, j, 0) % modulus() by {
            crate::arith::lemma_mod_id(0);
        }
    }
    while k < es.len()
        invariant
            k <= es.len(),
            d.len() == n,
            forall|kk: int| 0 <= kk < es.len() ==> #[trigger] es@[kk].0 < n,
            forall|j: int| 0 <= j < n ==> (#[trigger] d@[j])@ == entry_sum_upto(es@, j, k as int) % modulus(),
        decreases es.len() - k,
    {
        let (idx, v) = es[k];
        assert(es@[k as int].0 < n);
        let ghost old_d = d@;
        let nv = fe_add(d[idx], v);
        d.set(idx, nv);
        proof {
            let e = es@;
            assert forall|j: int| 0 <= j < n implies (#[trigger] d@[j])@ == entry_sum_upto(e, j, k + 1) % modulus() by {
                let s = entry_sum_upto(e, j, k as int);
                assert(entry_sum_upto(e, j, k + 1) == s + if e[k as int].0 == j { v@ } else { 0 });
                if j == idx {
                    crate::arith::lemma_mod_id(v@);
                    crate::arith::lemma_fadd_acc(s, v@);
                    vstd::arithmetic::div_mod::lemma_mod_twice(s, modulus());
                } else {
                    assert(d@[j] == old_d[j]);
                }
            }
        }
        k = k + 1;
    }
    d
}

/// The position of the entry with index `idx`, if one has it.
pub fn position_of(es: &Vec<(usize, Fe)>, idx: usize) -> (p: Option<usize>)
    ensures
        match p {
            Some(p) => p < es.len() && es@[p as int].0 == idx,
            None => forall|k: int| 0 <= k < es.len() ==> #[trigger] es@[k].0 != idx,
        },
{
    let mut j: usize = 0;
    while j < es.len()
        invariant
            j <= es.len(),
            forall|k: int| 0 <= k < j ==> #[trigger] es@[k].0 != idx,
        decreases es.len() - j,
    {
        if es[j].0 == idx {
            return Some(j);
        }
        j = j + 1;
    }
    None
}

/// A copy of a list of entries.
pub fn copy_entries(s: &Vec<(usize, Fe)>) -> (r: Vec<(usize, Fe)>)
    ensures
        r@ == s@,
{
    let mut es: Vec<(usize, Fe)> = Vec::with_capacity(s.len());
    let mut k: usize = 0;
    while k < s.len()
        invariant
            k <= s.len(),
            es@ == s@.take(k as int),
        decreases s.len() - k,
    {
        es.push(s[k]);
        k = k + 1;
        proof {
            assert(es@ =~= s@.take(k as int));
        }
    }
    assert(es@ =~= s@);
    es
}

/// A multilinear polynomial given by the entries of its table that may be
/// nonzero; entries with the same index add up.
#[derive(Clone, Debug)]
pub struct SparseMultilinearExtension {
    pub evaluations: Vec<(usize, Fe)>,
    pub num_vars: usize,
}

impl View for SparseMultilinearExtension {
    type V = (usize, Seq<(usize, Fe)>);

    open spec fn view(&self) -> (usize, Seq<(usize, Fe)>) {
        (self.num_vars, self.evaluations@)
    }
}

impl SparseMultilinearExtension {
    /// A copy.
    pub fn duplicate(&self) -> (r: Self)
        ensures
            r@ == self@,
    {
        SparseMultilinearExtension { evaluations: copy_entries(&self.evaluations), num_vars: self.num_vars }
    }

    /// Every entry's index addresses the hypercube, whose size fits a `usize`.
    pub open spec fn wf(&self) -> bool {
        &&& pow2(self.num_vars as nat) <= usize::MAX
        &&& forall|k: int|
            0 <= k < self.evaluations.len() ==> #[trigger] self.evaluations@[k].0 < pow2(
                self.num_vars as nat,
            )
    }

    /// The values of the table.
    pub open spec fn table(&self) -> Seq<int> {
        entries_table(self.evaluations@, self.num_vars as nat)
    }

    /// The extension whose table holds, at each index of the hypercube of
    /// `num_vars` variables, the value of the last of `evaluations` that
    /// names it, and zero at the others. Where the indices are distinct, the
    /// entries are kept as given.
    pub fn from_evaluations(num_vars: usize, evaluations: &[(usize, Fe)]) -> (r: Self)
        requires
            pow2(num_vars as nat) <= usize::MAX,
            forall|k: int| 0 <= k < evaluations.len() ==> #[trigger] evaluations@[k].0 < pow2(num_vars as nat),
        ensures
            r.wf(),
            r.num_vars == num_vars,
            distinct_indices(r.evaluations@),
            r.table() == last_value_table(evaluations@, num_vars as nat),
            distinct_indices(evaluations@) ==> r.evaluations@ == evaluations@,
    {
        let ghost evs = evaluations@;
        let mut es: Vec<(usize, Fe)> = Vec::with_capacity(evaluations.len());
        let mut k: usize = 0;
        while k < evaluations.len()
            invariant
                k <= evaluations.len(),
                evs == evaluations@,
                forall|kk: int| 0 <= kk < evs.len() ==> #[trigger] evs[kk].0 < pow2(num_vars as nat),
                forall|kk: int| 0 <= kk < es.len() ==> #[trigger] es@[kk].0 < pow2(num_vars as nat),
                distinct_indices(es@),
                forall|i: int| #[trigger] last_value(es@, i) == last_value(evs.take(k as int), i),
                distinct_indices(evs) ==> es@ == evs.take(k as int),
            decreases evaluations.len() - k,
        {
            let e = evaluations[k];
            let ghost before = es@;
            proof {
                assert(evs.take(k + 1).drop_last() =~= evs.take(k as int));
                assert(evs.take(k + 1).last() == e);
            }
            match position_of(&es, e.0) {
                Some(p) => {
                    es.set(p, e);
                    proof {
                        assert(es@ == before.update(p as int, e));
                        assert forall|a: int, b: int| 0 <= a < b < es@.len() implies #[trigger] es@[a].0 != #[trigger] es@[b].0 by {
                            assert(before[a].0 != before[b].0);
                        }
                        assert forall|i: int| #[trigger] last_value(es@, i) == last_value(evs.take(k + 1), i) by {
                            lemma_last_value_update(before, p as int, e, i);
                        }
                        if distinct_indices(evs) {
                            assert(before[p as int] == evs[p as int]);
                            assert(evs[p as int].0 != evs[k as int].0);
                        }
                    }
                },
                None => {
                    es.push(e);
                    proof {
                        assert(es@.drop_last() =~= before);
                        assert forall|a: int, b: int| 0 <= a < b < es@.len() implies #[trigger] es@[a].0 != #[trigger] es@[b].0 by {
                            if b == before.len() {
                                assert(before[a].0 != e.0);
                            } else {
                                assert(before[a].0 != before[b].0);
                            }
                        }
                        assert(es@.last() == e);
                        assert forall|i: int| #[trigger] last_value(es@, i) == last_value(evs.take(k + 1), i) by {
                            assert(last_value(before, i) == last_value(evs.take(k as int), i));
                        }
                        if distinct_indices(evs) {
                            assert(es@ =~= evs.take(k + 1));
                        }
                    }
                },
            }
            k = k + 1;
        }
        proof {
            assert(evs.take(evs.len() as int) =~= evs);
        }
        let r = SparseMultilinearExtension { evaluations: es, num_vars };
        proof {
            assert forall|i: int| 0 <= i < pow2(num_vars as nat) implies #[trigger] r.table()[i] == last_value_table(evs, num_vars as nat)[i] by {
                lemma_entry_sum_distinct(es@, i);
                lemma_last_value_reduced(evs, i);
                vstd::arithmetic::div_mod::lemma_small_mod(last_value(evs, i) as nat, modulus() as nat);
            }
            assert(r.table() =~= last_value_table(evs, num_vars as nat));
        }
        r
    }

    /// Fixes the lowest `point.len()` variables to the coordinates of `point`.
    pub fn fix_variables(&self, point: &[Fe]) -> (r: Self)
        requires
            self.wf(),
            point.len() <= self.num_vars,
        ensures
            r.wf(),
            r.num_vars == self.num_vars - point.len(),
            r.table() == fold_all(self.table(), vals(point@)),
    {
        let nv = self.num_vars;
        let dim = point.len();
        let mut cur = copy_entries(&self.evaluations);
        let mut i: usize = 0;
        proof {
            assert(vals(point@).take(0) =~= Seq::<int>::empty());
        }
        while i < dim
            invariant
                dim == point.len(),
                dim <= nv,
                nv == self.num_vars,
                i <= dim,
                self.wf(),
                forall|k: int| 0 <= k < cur.len() ==> #[trigger] cur@[k].0 < pow2((nv - i) as nat),
                entries_table(cur@, (nv - i) as nat) == fold_all(self.table(), vals(point@).take(i as int)),
            decreases dim - i,
        {
            let r = point[i];
            let w0 = fe_sub(Fe::one(), r);
            let mut next: Vec<(usize, Fe)> = Vec::with_capacity(cur.len());
            let mut k: usize = 0;
            while k < cur.len()
                invariant
                    k <= cur.len(),
                    next.len() == k,
                    w0@ == fsub(1, r@),
                    forall|kk: int| 0 <= kk < k ==> {
                        &&& (#[trigger] next@[kk]).0 == cur@[kk].0 / 2
                        &&& next@[kk].1@ == if cur@[kk].0 % 2 == 0 {
                            fmul(cur@[kk].1@, fsub(1, r@))
                        } else {
                            fmul(cur@[kk].1@, r@)
                        }
                    },
                decreases cur.len() - k,
            {
                let (idx, v) = cur[k];
                if idx % 2 == 0 {
                    next.push((idx / 2, fe_mul(v, w0)));
                } else {
                    next.push((idx / 2, fe_mul(v, r)));
                }
                k = k + 1;
            }
            proof {
                let m = (nv - i - 1) as nat;
                lemma_entries_fixed_once(cur@, r@, next@, m);
                lemma_pow2_unfold((nv - i) as nat);
                assert forall|kk: int| 0 <= kk < next.len() implies #[trigger] next@[kk].0 < pow2(m) by {
                    assert(cur@[kk].0 < pow2((nv - i) as nat));
                }
                lemma_fold_all_push(self.table(), vals(point@).take(i as int), r@);
                assert(vals(point@).take(i as int).push(r@) =~= vals(point@).take(i + 1));
            }
            cur = next;
            i = i + 1;
        }
        proof {
            assert(vals(point@).take(dim as int) =~= vals(point@));
            if dim > 0 {
                vstd::arithmetic::power2::lemma_pow2_strictly_increases((nv - dim) as nat, nv as nat);
            }
        }
        SparseMultilinearExtension { evaluations: cur, num_vars: nv - dim }
    }

    /// The value of the extension at `point`, which has one coordinate per variable.
    pub fn evaluate(&self, point: &[Fe]) -> (r: Fe)
        requires
            self.wf(),
            point.len() == self.num_vars,
        ensures
            r@ == mle_eval(self.table(), vals(point@)),
    {
        let fixed = self.fix_variables(point);
        let mut acc = Fe::zero();
        let mut k: usize = 0;
        proof {
            vstd::arithmetic::power2::lemma2_to64();
        }
        while k < fixed.evaluations.len()
            invariant
                k <= fixed.evaluations.len(),
                acc@ == value_sum(fixed.evaluations@, k as int) % modulus(),
            decreases fixed.evaluations.len() - k,
        {
            let v = fixed.evaluations[k];
            proof {
                let s = value_sum(fixed.evaluations@, k as int);
                assert(value_sum(fixed.evaluations@, k + 1) == s + v.1@);
                crate::arith::lemma_mod_id(v.1@);
                crate::arith::lemma_fadd_acc(s, v.1@);
                vstd::arithmetic::div_mod::lemma_mod_twice(s, modulus());
            }
            acc = fe_add(acc, v.1);
            k = k + 1;
        }
        proof {
            let es = fixed.evaluations@;
            let f0 = |kk: int| if es[kk].0 == 0 { es[kk].1@ } else { 0 };
            let vf = |kk: int| es[kk].1@;
            assert forall|kk: int| 0 <= kk < es.len() implies #[trigger] f0(kk) == vf(kk) by {
                assert(es[kk].0 < pow2(0));
            }
            lemma_sum_ext(f0, vf, es.len() as int);
            lemma_value_sum_as(es, es.len() as int, vf);
            lemma_entry_sum_as(es, 0, f0);
            assert(fixed.table()[0] == entry_sum(es, 0) % modulus());
            assert(mle_eval(self.table(), vals(point@)) == fixed.table()[0]);
        }
        acc
    }

    /// The same extension with its full table.
    pub fn to_dense_multilinear_extension(&self) -> (r: DenseMultilinearExtension)
        requires
            self.wf(),
        ensures
            r.wf(),
            r.num_vars == self.num_vars,
            r.table() == self.table(),
    {
        let size = pow2_usize(self.num_vars);
        let d = bucket(&self.evaluations, size);
        let r = DenseMultilinearExtension { num_vars: self.num_vars, evaluations: d };
        assert(r.table() =~= self.table());
        r
    }
}

} // verus!
