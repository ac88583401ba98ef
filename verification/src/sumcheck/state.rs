//! The abstract state of one sum-check execution over a GKR layer.
//!
//! Once the label is set, the prover stands behind the sum,
//! over the remaining hypercube, of
//! `add(x, y) (vi(x) + vj(y)) + mult(x, y) vi(x) vj(y)`,
//! where `x` ranges over the `nx` remaining variables of `vi` and `y` over
//! the `ny` remaining variables of `vj`, packed into one index `x + 2^nx y`.
//! Each round fixes the lowest remaining variable: first those of `x`,
//! then those of `y`.
use crate::arith::{block_row, block_sums, col, col_sums, lemma_packed, lemma_sum_cong, lemma_sum_double, lemma_sum_ext, lemma_sum_parity, lemma_sum_plus, lemma_sum_swap, lemma_sum_zero, row_sums, sum};
use crate::field::{modulus, Fe};
use crate::mle::{entries_table, entries_weighted, entry_sum, lemma_entries_weighted, table_weighted};
use crate::mle_spec::{bits, fold, fold_all, lemma_fold_len, mle_eval, reduced};
use vstd::arithmetic::power2::{lemma_pow2_adds, lemma_pow2_pos, lemma_pow2_unfold, pow2};
use vstd::prelude::*;

verus! {

/// The remaining instance of a sum-check execution.
pub struct RoundState {
    pub add: Seq<int>,
    pub mult: Seq<int>,
    pub vi: Seq<int>,
    pub vj: Seq<int>,
    pub nx: nat,
    pub ny: nat,
}

/// Fixing the lowest variable to 0 or 1 selects the even or odd entries.
pub proof fn lemma_fold_bit(e: Seq<int>, b: int, j: int)
    requires
        reduced(e),
        b == 0 || b == 1,
        0 <= j,
        2 * j + 1 < e.len(),
    ensures
        fold(e, b)[j] == e[2 * j + b],
{
    let x0 = e[2 * j];
    let x1 = e[2 * j + 1];
    if b == 0 {
        assert(x0 + 0 * (x1 - x0) == x0);
        crate::arith::lemma_mod_id(x0);
    } else {
        assert(x0 + 1 * (x1 - x0) == x1);
        crate::arith::lemma_mod_id(x1);
    }
}

impl RoundState {
    /// Table sizes match the numbers of variables, and every value is reduced.
    pub open spec fn wf(self) -> bool {
        &&& self.add.len() == pow2(self.nx + self.ny)
        &&& self.mult.len() == pow2(self.nx + self.ny)
        &&& self.vi.len() == pow2(self.nx)
        &&& self.vj.len() == pow2(self.ny)
        &&& reduced(self.add)
        &&& reduced(self.mult)
        &&& reduced(self.vi)
        &&& reduced(self.vj)
    }

    /// The number of points of the remaining hypercube.
    pub open spec fn size(self) -> int {
        pow2(self.nx + self.ny) as int
    }

    /// The term of the sum at packed index `i = x + 2^nx y` (unreduced).
    pub open spec fn term(self, i: int) -> int {
        let x = i % (pow2(self.nx) as int);
        let y = i / (pow2(self.nx) as int);
        self.add[i] * (self.vi[x] + self.vj[y]) + self.mult[i] * self.vi[x] * self.vj[y]
    }

    /// The terms of the sum, as a function.
    pub open spec fn terms(self) -> spec_fn(int) -> int {
        |i: int| self.term(i)
    }

    /// The sum the prover stands behind, reduced.
    pub open spec fn total(self) -> int {
        sum(self.terms(), self.size()) % modulus()
    }

    /// The terms as a function of `(x, y)`.
    pub open spec fn packed_terms(self) -> spec_fn(int, int) -> int {
        |x: int, y: int| self.term(x + pow2(self.nx) * y)
    }

    /// The weight of the multiplication predicate at index `i` in `g(b)`:
    /// `vi(x) vj(y)` when the lowest bit of `i` is `b`, else zero.
    pub open spec fn mult_weight(self, b: int) -> spec_fn(int) -> int {
        |i: int|
            if i % 2 == b {
                self.vi[i % (pow2(self.nx) as int)] * self.vj[i / (pow2(self.nx) as int)]
            } else {
                0
            }
    }

    /// The weight of the addition predicate at index `i` in `g(b)`:
    /// `vi(x) + vj(y)` when the lowest bit of `i` is `b`, else zero.
    pub open spec fn add_weight(self, b: int) -> spec_fn(int) -> int {
        |i: int|
            if i % 2 == b {
                self.vi[i % (pow2(self.nx) as int)] + self.vj[i / (pow2(self.nx) as int)]
            } else {
                0
            }
    }

    /// The terms whose lowest remaining variable is `b`.
    pub open spec fn parity_terms(self, b: int) -> spec_fn(int) -> int {
        |j: int| self.term(2 * j + b)
    }

    /// The part of the sum whose lowest remaining variable is `b`: the value
    /// `g(b)` of the round polynomial.
    pub open spec fn half(self, b: int) -> int {
        sum(self.parity_terms(b), self.size() / 2) % modulus()
    }

    /// The instance after fixing the lowest remaining variable to `r`.
    pub open spec fn fix(self, r: int) -> RoundState {
        if self.nx > 0 {
            RoundState {
                add: fold(self.add, r),
                mult: fold(self.mult, r),
                vi: fold(self.vi, r),
                vj: self.vj,
                nx: (self.nx - 1) as nat,
                ny: self.ny,
            }
        } else {
            RoundState {
                add: fold(self.add, r),
                mult: fold(self.mult, r),
                vi: self.vi,
                vj: fold(self.vj, r),
                nx: 0,
                ny: (self.ny - 1) as nat,
            }
        }
    }

    /// The instance after fixing the coordinates of `pts` in order.
    pub open spec fn fix_all(self, pts: Seq<int>) -> RoundState
        decreases pts.len(),
    {
        if pts.len() == 0 {
            self
        } else {
            self.fix(pts[0]).fix_all(pts.drop_first())
        }
    }
}

/// Fixing a variable keeps the instance well formed and halves it.
pub proof fn lemma_fix_wf(s: RoundState, r: int)
    requires
        s.wf(),
        s.nx + s.ny > 0,
    ensures
        s.fix(r).wf(),
        s.fix(r).nx + s.fix(r).ny + 1 == s.nx + s.ny,
        s.fix(r).size() * 2 == s.size(),
{
    let n = (s.nx + s.ny - 1) as nat;
    lemma_fold_len(s.add, r, n);
    lemma_fold_len(s.mult, r, n);
    lemma_pow2_unfold(s.nx + s.ny);
    if s.nx > 0 {
        lemma_fold_len(s.vi, r, (s.nx - 1) as nat);
    } else {
        lemma_fold_len(s.vj, r, (s.ny - 1) as nat);
    }
}

/// Fixing several variables keeps the instance well formed: the `x`
/// variables go first.
pub proof fn lemma_fix_all_wf(s: RoundState, pts: Seq<int>)
    requires
        s.wf(),
        pts.len() <= s.nx + s.ny,
    ensures
        s.fix_all(pts).wf(),
        s.fix_all(pts).nx + s.fix_all(pts).ny + pts.len() == s.nx + s.ny,
        pts.len() <= s.nx ==> s.fix_all(pts).nx == s.nx - pts.len() && s.fix_all(pts).ny == s.ny,
        pts.len() >= s.nx ==> s.fix_all(pts).nx == 0,
    decreases pts.len(),
{
    if pts.len() > 0 {
        lemma_fix_wf(s, pts[0]);
        lemma_fix_all_wf(s.fix(pts[0]), pts.drop_first());
    }
}

/// Fixing one more point after `pts`.
pub proof fn lemma_fix_all_push(s: RoundState, pts: Seq<int>, r: int)
    ensures
        s.fix_all(pts.push(r)) == s.fix_all(pts).fix(r),
    decreases pts.len(),
{
    if pts.len() == 0 {
        assert(pts.push(r).drop_first() =~= Seq::<int>::empty());
        assert(pts.push(r)[0] == r);
        assert(s.fix(r).fix_all(pts.push(r).drop_first()) == s.fix(r));
    } else {
        assert(pts.push(r).drop_first() =~= pts.drop_first().push(r));
        assert(pts.push(r)[0] == pts[0]);
        lemma_fix_all_push(s.fix(pts[0]), pts.drop_first(), r);
    }
}

/// Fixing points folds the predicates by all of them; while only `x`
/// variables are fixed, `vi` is folded too and `vj` is untouched.
pub proof fn lemma_fix_all_tables(s: RoundState, pts: Seq<int>)
    requires
        s.wf(),
        pts.len() <= s.nx + s.ny,
    ensures
        s.fix_all(pts).mult == fold_all(s.mult, pts),
        s.fix_all(pts).add == fold_all(s.add, pts),
        pts.len() <= s.nx ==> s.fix_all(pts).vi == fold_all(s.vi, pts),
        pts.len() <= s.nx ==> s.fix_all(pts).vj == s.vj,
    decreases pts.len(),
{
    if pts.len() > 0 {
        lemma_fix_wf(s, pts[0]);
        lemma_fix_all_tables(s.fix(pts[0]), pts.drop_first());
    }
}

/// Fixing every variable folds `vi` by the first `nx` points and `vj` by
/// the rest.
pub proof fn lemma_fix_all_split(s: RoundState, pts: Seq<int>)
    requires
        s.wf(),
        pts.len() == s.nx + s.ny,
    ensures
        s.fix_all(pts).vi == fold_all(s.vi, pts.take(s.nx as int)),
        s.fix_all(pts).vj == fold_all(s.vj, pts.skip(s.nx as int)),
        s.fix_all(pts).nx == 0,
        s.fix_all(pts).ny == 0,
    decreases pts.len(),
{
    if pts.len() == 0 {
        assert(pts.take(0) =~= Seq::<int>::empty());
        assert(pts.skip(0) =~= Seq::<int>::empty());
    } else {
        let r = pts[0];
        let rest = pts.drop_first();
        lemma_fix_wf(s, r);
        lemma_fix_all_split(s.fix(r), rest);
        if s.nx > 0 {
            let tk = pts.take(s.nx as int);
            assert(tk[0] == r);
            assert(tk.drop_first() =~= rest.take(s.nx - 1));
            assert(rest.skip(s.nx - 1) =~= pts.skip(s.nx as int));
        } else {
            assert(pts.take(0) =~= Seq::<int>::empty());
            assert(rest.take(0) =~= Seq::<int>::empty());
            assert(pts.skip(0) =~= pts);
            assert(rest.skip(0) =~= rest);
        }
    }
}

/// The sum is the sum of its two halves: `g(0) + g(1)` is the claim.
pub proof fn lemma_total_split(s: RoundState)
    requires
        s.wf(),
        s.nx + s.ny > 0,
    ensures
        s.total() == (s.half(0) + s.half(1)) % modulus(),
{
    lemma_pow2_unfold(s.nx + s.ny);
    let h = s.size() / 2;
    lemma_sum_parity(s.terms(), h);
    lemma_sum_ext(|j: int| s.terms()(2 * j), s.parity_terms(0), h);
    lemma_sum_ext(|j: int| s.terms()(2 * j + 1), s.parity_terms(1), h);
    crate::arith::lemma_fadd_red(sum(s.parity_terms(0), h), sum(s.parity_terms(1), h));
    assert(s.size() == 2 * h);
}

/// Fixing the lowest variable to `b` in {0, 1} leaves the half `g(b)`.
pub proof fn lemma_fix_bit(s: RoundState, b: int)
    requires
        s.wf(),
        s.nx + s.ny > 0,
        b == 0 || b == 1,
    ensures
        s.fix(b).total() == s.half(b),
{
    let t = s.fix(b);
    lemma_fix_wf(s, b);
    let h = t.size();
    assert forall|j: int| 0 <= j < h implies #[trigger] t.terms()(j) == s.parity_terms(b)(j) by {
        lemma_pow2_pos(s.nx);
        lemma_pow2_pos(t.nx);
        let i = 2 * j + b;
        lemma_fold_bit(s.add, b, j);
        lemma_fold_bit(s.mult, b, j);
        if s.nx > 0 {
            let hh = pow2(t.nx) as int;
            lemma_pow2_unfold(s.nx);
            assert(pow2(s.nx) as int == 2 * hh);
            let xx = j % hh;
            let yy = j / hh;
            vstd::arithmetic::div_mod::lemma_fundamental_div_mod(j, hh);
            vstd::arithmetic::div_mod::lemma_mod_bound(j, hh);
            assert(i == (2 * xx + b) + (2 * hh) * yy) by (nonlinear_arith)
                requires
                    i == 2 * j + b,
                    j == hh * yy + xx,
            ;
            lemma_packed(2 * xx + b, 2 * hh, yy);
            lemma_fold_bit(s.vi, b, xx);
        } else {
            assert(pow2(0) == 1) by {
                vstd::arithmetic::power2::lemma2_to64();
            }
            assert(i % 1 == 0 && i / 1 == i);
            assert(j % 1 == 0 && j / 1 == j);
            lemma_fold_bit(s.vj, b, j);
        }
    }
    lemma_sum_ext(t.terms(), s.parity_terms(b), h);
}

/// The sum over the hypercube as a double sum, over `x` outside and `y` inside.
pub proof fn lemma_total_rows(s: RoundState)
    ensures
        sum(s.terms(), s.size()) == sum(row_sums(s.packed_terms(), pow2(s.ny) as int), pow2(s.nx) as int),
{
    let a = pow2(s.nx) as int;
    let b = pow2(s.ny) as int;
    let f2 = s.packed_terms();
    lemma_pow2_adds(s.nx, s.ny);
    lemma_pow2_pos(s.nx);
    lemma_pow2_pos(s.ny);
    lemma_sum_double(s.terms(), a, b);
    lemma_sum_swap(f2, a, b);
    assert forall|y: int| 0 <= y < b implies #[trigger] col_sums(f2, a)(y) == block_sums(s.terms(), a)(y) by {
        lemma_sum_ext(col(f2, y), block_row(s.terms(), a, y), a);
    }
    lemma_sum_ext(col_sums(f2, a), block_sums(s.terms(), a), b);
}

/// `g(b)` computed from the entries of the two predicates, each weighted at
/// its index.
pub proof fn lemma_half_by_entries(s: RoundState, b: int, mes: Seq<(usize, Fe)>, aes: Seq<(usize, Fe)>)
    requires
        s.wf(),
        b == 0 || b == 1,
        entries_table(mes, s.nx + s.ny) == s.mult,
        entries_table(aes, s.nx + s.ny) == s.add,
        forall|k: int| 0 <= k < mes.len() ==> #[trigger] mes[k].0 < s.size(),
        forall|k: int| 0 <= k < aes.len() ==> #[trigger] aes[k].0 < s.size(),
    ensures
        s.nx + s.ny > 0 ==> s.half(b) == (sum(entries_weighted(mes, s.mult_weight(b)), mes.len() as int) + sum(
            entries_weighted(aes, s.add_weight(b)),
            aes.len() as int,
        )) % modulus(),
        s.nx + s.ny == 0 ==> (if b == 0 { s.total() } else { 0 }) == (sum(
            entries_weighted(mes, s.mult_weight(b)),
            mes.len() as int,
        ) + sum(entries_weighted(aes, s.add_weight(b)), aes.len() as int)) % modulus(),
{
    let p = modulus();
    let n = s.size();
    let mw = s.mult_weight(b);
    let aw = s.add_weight(b);
    lemma_entries_weighted(mes, n, mw);
    lemma_entries_weighted(aes, n, aw);
    let tm = table_weighted(mes, mw);
    let ta = table_weighted(aes, aw);
    let h = |i: int| tm(i) + ta(i);
    let g = |i: int| s.mult[i] * mw(i) + s.add[i] * aw(i);
    lemma_sum_plus(tm, ta, h, n);
    assert forall|i: int| 0 <= i < n implies #[trigger] h(i) % p == g(i) % p by {
        vstd::arithmetic::div_mod::lemma_mul_mod_noop_left(entry_sum(mes, i), mw(i), p);
        vstd::arithmetic::div_mod::lemma_mul_mod_noop_left(entry_sum(aes, i), aw(i), p);
        vstd::arithmetic::div_mod::lemma_add_mod_noop(tm(i), ta(i), p);
        vstd::arithmetic::div_mod::lemma_add_mod_noop(s.mult[i] * mw(i), s.add[i] * aw(i), p);
        assert(s.mult[i] == entry_sum(mes, i) % p);
        assert(s.add[i] == entry_sum(aes, i) % p);
    }
    lemma_sum_cong(h, g, n);
    if s.nx + s.ny == 0 {
        vstd::arithmetic::power2::lemma2_to64();
        assert(n == 1);
        assert(sum(g, 0) == 0);
        assert(sum(g, 1) == sum(g, 0) + g(0));
        assert(sum(s.terms(), 0) == 0);
        assert(sum(s.terms(), 1) == sum(s.terms(), 0) + s.term(0));
        assert(0int % 1 == 0 && 0int / 1 == 0);
        vstd::arithmetic::mul::lemma_mul_is_associative(s.mult[0], s.vi[0], s.vj[0]);
        crate::arith::lemma_mod_id(0);
        return;
    }
    lemma_pow2_unfold(s.nx + s.ny);
    let hh = n / 2;
    assert(n == 2 * hh);
    lemma_sum_parity(g, hh);
    let ge = |j: int| g(2 * j + b);
    let go = |j: int| g(2 * j + (1 - b));
    assert forall|j: int| 0 <= j < hh implies #[trigger] ge(j) == s.parity_terms(b)(j) by {
        let i = 2 * j + b;
        let x = i % (pow2(s.nx) as int);
        let y = i / (pow2(s.nx) as int);
        assert(i % 2 == b);
        vstd::arithmetic::mul::lemma_mul_is_associative(s.mult[i], s.vi[x], s.vj[y]);
    }
    assert forall|j: int| 0 <= j < hh implies #[trigger] go(j) == 0 by {
        assert((2 * j + (1 - b)) % 2 != b);
    }
    lemma_sum_ext(ge, s.parity_terms(b), hh);
    lemma_sum_zero(go, hh);
    if b == 0 {
        lemma_sum_ext(|j: int| g(2 * j), ge, hh);
        lemma_sum_ext(|j: int| g(2 * j + 1), go, hh);
    } else {
        lemma_sum_ext(|j: int| g(2 * j), go, hh);
        lemma_sum_ext(|j: int| g(2 * j + 1), ge, hh);
    }
}


/// The term of the layer sum at a point `q` of all the variables:
/// `add(q) (vi(q_x) + vj(q_y)) + mult(q) vi(q_x) vj(q_y)`, each table read
/// through its multilinear extension, `q_x` the first `nx` coordinates and
/// `q_y` the rest (unreduced).
pub open spec fn point_value(s: RoundState, q: Seq<int>) -> int {
    let z1 = mle_eval(s.vi, q.take(s.nx as int));
    let z2 = mle_eval(s.vj, q.skip(s.nx as int));
    mle_eval(s.add, q) * (z1 + z2) + mle_eval(s.mult, q) * z1 * z2
}

/// The terms `point_value(s, pts ++ bits(i, m))` over the `2^m` points `i`
/// of the remaining hypercube.
pub open spec fn point_values(s: RoundState, pts: Seq<int>, m: nat) -> spec_fn(int) -> int {
    |i: int| point_value(s, pts + bits(i, m))
}

/// The digits of a number packed from two: the low `a` digits of `i` and
/// then the digits of `i / 2^a`.
pub proof fn lemma_bits_split(i: int, a: nat, b: nat)
    requires
        0 <= i,
    ensures
        bits(i, a + b) == bits(i % (pow2(a) as int), a) + bits(i / (pow2(a) as int), b),
    decreases a,
{
    lemma_pow2_pos(a);
    if a == 0 {
        vstd::arithmetic::power2::lemma2_to64();
        assert(i / 1 == i);
        assert(a + b == b);
        assert(bits(i % 1, 0) =~= Seq::<int>::empty());
        assert(bits(i % (pow2(a) as int), a) + bits(i / (pow2(a) as int), b) =~= bits(i, a + b));
    } else {
        let a1 = (a - 1) as nat;
        lemma_pow2_unfold(a);
        lemma_pow2_pos(a1);
        lemma_bits_split(i / 2, a1, b);
        let c = pow2(a1) as int;
        vstd::arithmetic::div_mod::lemma_mod_breakdown(i, 2, c);
        vstd::arithmetic::div_mod::lemma_div_denominator(i, 2, c);
        let lo = i % (2 * c);
        assert(lo == 2 * ((i / 2) % c) + i % 2);
        assert(lo % 2 == i % 2 && lo / 2 == (i / 2) % c) by {
            vstd::arithmetic::div_mod::lemma_fundamental_div_mod_converse(lo, 2, (i / 2) % c, i % 2);
        }
        assert((a + b - 1) as nat == a1 + b);
        assert(bits(i, a + b) =~= seq![i % 2] + bits(i / 2, a1 + b));
        assert(bits(lo, a) =~= seq![lo % 2] + bits(lo / 2, a1));
        assert(bits(i, a + b) =~= bits(lo, a) + bits(i / (2 * c), b));
    }
}

/// Fixing `pts` and then `r` is fixing `pts ++ r`.
pub proof fn lemma_fix_all_concat(s: RoundState, pts: Seq<int>, r: Seq<int>)
    ensures
        s.fix_all(pts + r) == s.fix_all(pts).fix_all(r),
    decreases pts.len(),
{
    if pts.len() == 0 {
        assert(pts + r =~= r);
    } else {
        assert((pts + r).drop_first() =~= pts.drop_first() + r);
        assert((pts + r)[0] == pts[0]);
        lemma_fix_all_concat(s.fix(pts[0]), pts.drop_first(), r);
    }
}

/// With every variable fixed at `q`, the one term left is `point_value(s, q)`.
pub proof fn lemma_full_term(s: RoundState, q: Seq<int>)
    requires
        s.wf(),
        q.len() == s.nx + s.ny,
    ensures
        s.fix_all(q).term(0) == point_value(s, q),
{
    lemma_fix_all_tables(s, q);
    lemma_fix_all_split(s, q);
    lemma_fix_all_wf(s, q);
    vstd::arithmetic::power2::lemma2_to64();
    let f = s.fix_all(q);
    assert(f.nx == 0);
    assert(0int % 1 == 0 && 0int / 1 == 0);
}

/// Fixing every remaining variable at the digits of `i` leaves the term `i`.
pub proof fn lemma_term_at_bits(s: RoundState, i: int)
    requires
        s.wf(),
        0 <= i < s.size(),
    ensures
        s.fix_all(bits(i, s.nx + s.ny)).term(0) == s.term(i),
{
    let m = s.nx + s.ny;
    let q = bits(i, m);
    let aa = pow2(s.nx) as int;
    lemma_pow2_pos(s.nx);
    lemma_pow2_pos(s.ny);
    lemma_pow2_adds(s.nx, s.ny);
    lemma_bits_len(i, m);
    lemma_fix_all_tables(s, q);
    lemma_fix_all_split(s, q);
    let x = i % aa;
    let y = i / aa;
    assert(0 <= y < pow2(s.ny)) by {
        vstd::arithmetic::div_mod::lemma_fundamental_div_mod(i, aa);
        vstd::arithmetic::div_mod::lemma_mod_bound(i, aa);
        vstd::arithmetic::div_mod::lemma_div_pos_is_pos(i, aa);
        let p = pow2(s.ny) as int;
        assert(i < aa * p);
        assert(y < p) by (nonlinear_arith)
            requires
                i == aa * y + x,
                0 <= x,
                i < aa * p,
                aa > 0,
        ;
    }
    lemma_bits_split(i, s.nx, s.ny);
    assert(q.take(s.nx as int) =~= bits(x, s.nx)) by {
        lemma_bits_len(x, s.nx);
    }
    assert(q.skip(s.nx as int) =~= bits(y, s.ny)) by {
        lemma_bits_len(x, s.nx);
    }
    assert(m + 0 == m && s.nx + 0 == s.nx && s.ny + 0 == s.ny);
    crate::mle_spec::lemma_fold_bits(s.add, i, m, 0);
    crate::mle_spec::lemma_fold_bits(s.mult, i, m, 0);
    crate::mle_spec::lemma_fold_bits(s.vi, x, s.nx, 0);
    crate::mle_spec::lemma_fold_bits(s.vj, y, s.ny, 0);
    vstd::arithmetic::power2::lemma2_to64();
    assert(0int % 1 == 0 && 0int / 1 == 0);
}

/// The digits of `g` are `k` values.
pub proof fn lemma_bits_len(g: int, k: nat)
    ensures
        bits(g, k).len() == k,
    decreases k,
{
    if k > 0 {
        lemma_bits_len(g / 2, (k - 1) as nat);
    }
}

/// The sum a prover stands behind once `pts` are fixed, lowest variables
/// first, is the sum over the points `i` of the remaining hypercube of
/// `add(q) (vi(q_x) + vj(q_y)) + mult(q) vi(q_x) vj(q_y)` at
/// `q = pts ++ bits(i)`: at no point fixed, the layer sum; at every point
/// fixed, the single value at `pts`.
pub proof fn lemma_fixed_sum(s: RoundState, pts: Seq<int>)
    requires
        s.wf(),
        pts.len() <= s.nx + s.ny,
    ensures
        s.fix_all(pts).total() == sum(
            point_values(s, pts, (s.nx + s.ny - pts.len()) as nat),
            pow2((s.nx + s.ny - pts.len()) as nat) as int,
        ) % modulus(),
{
    let m = (s.nx + s.ny - pts.len()) as nat;
    let f = s.fix_all(pts);
    lemma_fix_all_wf(s, pts);
    assert(f.nx + f.ny == m);
    assert forall|i: int| 0 <= i < f.size() implies #[trigger] f.terms()(i) == point_values(s, pts, m)(i) by {
        lemma_term_at_bits(f, i);
        lemma_fix_all_concat(s, pts, bits(i, m));
        lemma_bits_len(i, m);
        lemma_full_term(s, pts + bits(i, m));
    }
    lemma_sum_ext(f.terms(), point_values(s, pts, m), f.size());
}

} // verus!
