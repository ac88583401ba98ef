//! The bookkeeping tables of the linear-time prover and what they hold.
//!
//! In phase one (some `x` variables remain), entry `x` of each table holds a
//! column of the remaining instance summed over `y`:
//! `mult_p[x] = Σ_y mult(x, y) vj(y)`, `mult_q[x] = vi(x)`,
//! `add_pred[x] = Σ_y add(x, y)`, `add_f2[x] = vi(x)` and
//! `add_pred_f3[x] = Σ_y add(x, y) vj(y)`.
//! In phase two (every `x` variable fixed at `b*`), entry `y` holds
//! `mult_p[y] = mult(y)`, `mult_q[y] = vi(b*) vj(y)`, `add_pred[y] = add(y)`,
//! `add_f2[y] = vi(b*) + vj(y)` and `add_pred_f3[y] = 0`.
//! Either way the remaining sum is
//! `Σ mult_p·mult_q + add_pred·add_f2 + add_pred_f3`, and fixing a variable
//! folds every table.
use crate::arith::{block_row, block_sums, lemma_packed, lemma_sum_cong, lemma_sum_double, lemma_sum_ext, lemma_sum_parity, lemma_sum_plus, lemma_sum_single, lemma_sum_times, lemma_sum_zero, row, row_sums, sum};
use crate::field::{fadd, fmul, modulus, Fe};
use crate::mle::{entries_table, entries_weighted, entry_sum, lemma_entries_weighted, lemma_lin_cong, table_weighted};
use crate::mle_spec::{fold, reduced};
use crate::sumcheck::state::{lemma_fix_bit, lemma_fix_wf, lemma_fold_bit, lemma_total_rows, RoundState};
use vstd::arithmetic::div_mod::{lemma_add_mod_noop, lemma_add_mod_noop_right, lemma_mul_mod_noop_left, lemma_mul_mod_noop_right};
use vstd::arithmetic::power2::{lemma_pow2_adds, lemma_pow2_pos, lemma_pow2_unfold, pow2};
use vstd::prelude::*;

verus! {

/// The function `y ↦ s[y]`.
pub open spec fn seq_fn(s: Seq<int>) -> spec_fn(int) -> int {
    |y: int| s[y]
}

/// The constant function `1`.
pub open spec fn one_fn() -> spec_fn(int) -> int {
    |y: int| 1
}

/// Column `x` of the table `e` laid out in rows of `a`, weighted by `w`:
/// `y ↦ e[x + a y] w(y)`.
pub open spec fn col_terms(e: Seq<int>, a: int, x: int, w: spec_fn(int) -> int) -> spec_fn(int) -> int {
    |y: int| e[x + a * y] * w(y)
}

/// The weighted sum of column `x` over `b` rows, reduced.
pub open spec fn col_sum(e: Seq<int>, a: int, x: int, w: spec_fn(int) -> int, b: int) -> int {
    sum(col_terms(e, a, x, w), b) % modulus()
}

/// The weight that selects the packed indices of column `x`, weighted by `w`
/// of their row.
pub open spec fn col_weight(a: int, x: int, w: spec_fn(int) -> int) -> spec_fn(int) -> int {
    |i: int| if i % a == x { w(i / a) } else { 0 }
}

/// `i ↦ u[i] v[i]`.
pub open spec fn prod_terms(u: Seq<int>, v: Seq<int>) -> spec_fn(int) -> int {
    |i: int| u[i] * v[i]
}

/// `i ↦ u[i] v[i] + w[i]`.
pub open spec fn affine_terms(u: Seq<int>, v: Seq<int>, w: Seq<int>) -> spec_fn(int) -> int {
    |i: int| u[i] * v[i] + w[i]
}

/// The terms of `f` at indices of parity `b`, zero elsewhere.
pub open spec fn parity_part(f: spec_fn(int) -> int, b: int) -> spec_fn(int) -> int {
    |i: int| if i % 2 == b { f(i) } else { 0 }
}

/// `j ↦ f(2 j + b)`.
pub open spec fn stride_part(f: spec_fn(int) -> int, b: int) -> spec_fn(int) -> int {
    |j: int| f(2 * j + b)
}

/// The remaining sum as the tables give it.
pub open spec fn tables_total(mp: Seq<int>, mq: Seq<int>, ap: Seq<int>, af2: Seq<int>, f3: Seq<int>) -> int {
    (sum(prod_terms(mp, mq), mp.len() as int) + sum(affine_terms(ap, af2, f3), ap.len() as int)) % modulus()
}

/// The phase-one contents of the tables for the remaining instance `st`.
pub open spec fn phase_one(st: RoundState, mp: Seq<int>, mq: Seq<int>, ap: Seq<int>, af2: Seq<int>, f3: Seq<int>) -> bool {
    let a = pow2(st.nx) as int;
    let b = pow2(st.ny) as int;
    &&& mp.len() == a
    &&& mq.len() == a
    &&& ap.len() == a
    &&& af2.len() == a
    &&& f3.len() == a
    &&& forall|x: int| 0 <= x < a ==> #[trigger] mp[x] == col_sum(st.mult, a, x, seq_fn(st.vj), b)
    &&& forall|x: int| 0 <= x < a ==> #[trigger] mq[x] == st.vi[x]
    &&& forall|x: int| 0 <= x < a ==> #[trigger] ap[x] == col_sum(st.add, a, x, one_fn(), b)
    &&& forall|x: int| 0 <= x < a ==> #[trigger] af2[x] == st.vi[x]
    &&& forall|x: int| 0 <= x < a ==> #[trigger] f3[x] == col_sum(st.add, a, x, seq_fn(st.vj), b)
}

/// The phase-two contents of the tables for the remaining instance `st`,
/// whose `x` variables are all fixed.
pub open spec fn phase_two(st: RoundState, mp: Seq<int>, mq: Seq<int>, ap: Seq<int>, af2: Seq<int>, f3: Seq<int>) -> bool {
    let b = pow2(st.ny) as int;
    &&& st.nx == 0
    &&& mp == st.mult
    &&& ap == st.add
    &&& mq.len() == b
    &&& af2.len() == b
    &&& f3.len() == b
    &&& forall|y: int| 0 <= y < b ==> #[trigger] mq[y] == fmul(st.vi[0], st.vj[y])
    &&& forall|y: int| 0 <= y < b ==> #[trigger] af2[y] == fadd(st.vi[0], st.vj[y])
    &&& forall|y: int| 0 <= y < b ==> #[trigger] f3[y] == 0
}

/// Summing the terms of one parity over `2 h` indices is summing every
/// other term.
pub proof fn lemma_sum_parity_part(f: spec_fn(int) -> int, b: int, h: int)
    requires
        b == 0 || b == 1,
        0 <= h,
    ensures
        sum(parity_part(f, b), 2 * h) == sum(stride_part(f, b), h),
{
    let g = parity_part(f, b);
    lemma_sum_parity(g, h);
    let ge = |j: int| g(2 * j + b);
    let go = |j: int| g(2 * j + (1 - b));
    assert forall|j: int| 0 <= j < h implies #[trigger] ge(j) == stride_part(f, b)(j) by {
        assert((2 * j + b) % 2 == b);
    }
    assert forall|j: int| 0 <= j < h implies #[trigger] go(j) == 0 by {
        assert((2 * j + (1 - b)) % 2 != b);
    }
    lemma_sum_ext(ge, stride_part(f, b), h);
    lemma_sum_zero(go, h);
    if b == 0 {
        lemma_sum_ext(|j: int| g(2 * j), ge, h);
        lemma_sum_ext(|j: int| g(2 * j + 1), go, h);
    } else {
        lemma_sum_ext(|j: int| g(2 * j), go, h);
        lemma_sum_ext(|j: int| g(2 * j + 1), ge, h);
    }
}

/// A column sum computed from the entries of a sparse table.
pub proof fn lemma_col_sum_entries(
    es: Seq<(usize, Fe)>,
    n: nat,
    e: Seq<int>,
    a: int,
    b: int,
    x: int,
    w: spec_fn(int) -> int,
)
    requires
        entries_table(es, n) == e,
        pow2(n) == a * b,
        0 <= x < a,
        0 <= b,
        forall|k: int| 0 <= k < es.len() ==> #[trigger] es[k].0 < a * b,
    ensures
        sum(entries_weighted(es, col_weight(a, x, w)), es.len() as int) % modulus() == col_sum(e, a, x, w, b),
{
    let p = modulus();
    let cw = col_weight(a, x, w);
    let tw = table_weighted(es, cw);
    lemma_entries_weighted(es, a * b, cw);
    lemma_sum_double(tw, a, b);
    let direct = |y: int| entry_sum(es, x + a * y) * w(y);
    assert forall|y: int| 0 <= y < b implies #[trigger] block_sums(tw, a)(y) == direct(y) by {
        assert forall|x2: int| 0 <= x2 < a && x2 != x implies #[trigger] block_row(tw, a, y)(x2) == 0 by {
            lemma_packed(x2, a, y);
        }
        lemma_sum_single(block_row(tw, a, y), x, a);
        lemma_packed(x, a, y);
    }
    lemma_sum_ext(block_sums(tw, a), direct, b);
    assert forall|y: int| 0 <= y < b implies #[trigger] direct(y) % p == col_terms(e, a, x, w)(y) % p by {
        assert(x + a * y < a * b) by (nonlinear_arith)
            requires
                0 <= x < a,
                0 <= y < b,
        ;
        assert(x + a * y >= 0) by (nonlinear_arith)
            requires
                0 <= x < a,
                0 <= y,
        ;
        lemma_mul_mod_noop_left(entry_sum(es, x + a * y), w(y), p);
    }
    lemma_sum_cong(direct, col_terms(e, a, x, w), b);
}

/// Folding a table folds each of its columns, read in rows of half the width.
pub proof fn lemma_fold_col_sum(e: Seq<int>, a2: int, b: int, r: int, w: spec_fn(int) -> int, x: int)
    requires
        e.len() == 2 * a2 * b,
        0 <= x < a2,
        0 <= b,
    ensures
        sum(col_terms(fold(e, r), a2, x, w), b) % modulus() == ((1 - r) * sum(
            col_terms(e, 2 * a2, 2 * x, w),
            b,
        ) + r * sum(col_terms(e, 2 * a2, 2 * x + 1, w), b)) % modulus(),
{
    let p = modulus();
    let c0 = col_terms(e, 2 * a2, 2 * x, w);
    let c1 = col_terms(e, 2 * a2, 2 * x + 1, w);
    let g0 = |y: int| (1 - r) * c0(y);
    let g1 = |y: int| r * c1(y);
    let h = |y: int| g0(y) + g1(y);
    assert forall|y: int| 0 <= y < b implies #[trigger] col_terms(fold(e, r), a2, x, w)(y) % p == h(y) % p by {
        let j = x + a2 * y;
        assert(j < a2 * b) by (nonlinear_arith)
            requires
                j == x + a2 * y,
                0 <= x < a2,
                0 <= y < b,
        ;
        assert(j >= 0) by (nonlinear_arith)
            requires
                j == x + a2 * y,
                0 <= x,
                0 <= y,
                0 < a2,
        ;
        assert(2 * x + 1 + (2 * a2) * y < e.len()) by (nonlinear_arith)
            requires
                j == x + a2 * y,
                j < a2 * b,
                e.len() == 2 * a2 * b,
        ;
        assert(2 * j == 2 * x + 2 * a2 * y) by (nonlinear_arith)
            requires
                j == x + a2 * y,
        ;
        let e0 = e[2 * x + (2 * a2) * y];
        let e1 = e[2 * x + 1 + (2 * a2) * y];
        assert(fold(e, r)[j] == (e0 + r * (e1 - e0)) % p);
        lemma_mul_mod_noop_left(e0 + r * (e1 - e0), w(y), p);
        assert((e0 + r * (e1 - e0)) * w(y) == (1 - r) * (e0 * w(y)) + r * (e1 * w(y))) by (nonlinear_arith);
    }
    lemma_sum_cong(col_terms(fold(e, r), a2, x, w), h, b);
    lemma_sum_times(c0, 1 - r, g0, b);
    lemma_sum_times(c1, r, g1, b);
    lemma_sum_plus(g0, g1, h, b);
}

/// Folding preserves the phase-one contents.
pub proof fn lemma_phase_one_fold(
    st: RoundState,
    mp: Seq<int>,
    mq: Seq<int>,
    ap: Seq<int>,
    af2: Seq<int>,
    f3: Seq<int>,
    r: int,
)
    requires
        st.wf(),
        st.nx > 0,
        phase_one(st, mp, mq, ap, af2, f3),
    ensures
        phase_one(st.fix(r), fold(mp, r), fold(mq, r), fold(ap, r), fold(af2, r), fold(f3, r)),
{
    let t = st.fix(r);
    lemma_fix_wf(st, r);
    let a = pow2(st.nx) as int;
    let a2 = pow2(t.nx) as int;
    let b = pow2(st.ny) as int;
    lemma_pow2_unfold(st.nx);
    lemma_pow2_adds(st.nx, st.ny);
    lemma_pow2_pos(st.ny);
    assert(a == 2 * a2);
    assert(st.mult.len() == 2 * a2 * b) by (nonlinear_arith)
        requires
            st.mult.len() == a * b,
            a == 2 * a2,
    ;
    assert(mq =~= st.vi);
    assert(af2 =~= st.vi);
    let p = modulus();
    assert forall|x: int| 0 <= x < a2 implies #[trigger] fold(mp, r)[x] == col_sum(t.mult, a2, x, seq_fn(t.vj), b) by {
        let s0 = sum(col_terms(st.mult, a, 2 * x, seq_fn(st.vj)), b);
        let s1 = sum(col_terms(st.mult, a, 2 * x + 1, seq_fn(st.vj)), b);
        assert(mp[2 * x] == s0 % p);
        assert(mp[2 * x + 1] == s1 % p);
        lemma_lin_cong(s0, s1, r);
        lemma_fold_col_sum(st.mult, a2, b, r, seq_fn(st.vj), x);
    }
    assert forall|x: int| 0 <= x < a2 implies #[trigger] fold(ap, r)[x] == col_sum(t.add, a2, x, one_fn(), b) by {
        let s0 = sum(col_terms(st.add, a, 2 * x, one_fn()), b);
        let s1 = sum(col_terms(st.add, a, 2 * x + 1, one_fn()), b);
        assert(ap[2 * x] == s0 % p);
        assert(ap[2 * x + 1] == s1 % p);
        lemma_lin_cong(s0, s1, r);
        lemma_fold_col_sum(st.add, a2, b, r, one_fn(), x);
    }
    assert forall|x: int| 0 <= x < a2 implies #[trigger] fold(f3, r)[x] == col_sum(t.add, a2, x, seq_fn(t.vj), b) by {
        let s0 = sum(col_terms(st.add, a, 2 * x, seq_fn(st.vj)), b);
        let s1 = sum(col_terms(st.add, a, 2 * x + 1, seq_fn(st.vj)), b);
        assert(f3[2 * x] == s0 % p);
        assert(f3[2 * x + 1] == s1 % p);
        lemma_lin_cong(s0, s1, r);
        lemma_fold_col_sum(st.add, a2, b, r, seq_fn(st.vj), x);
    }
}

/// Folding preserves the phase-two contents.
pub proof fn lemma_phase_two_fold(
    st: RoundState,
    mp: Seq<int>,
    mq: Seq<int>,
    ap: Seq<int>,
    af2: Seq<int>,
    f3: Seq<int>,
    r: int,
)
    requires
        st.wf(),
        st.ny > 0,
        phase_two(st, mp, mq, ap, af2, f3),
    ensures
        phase_two(st.fix(r), fold(mp, r), fold(mq, r), fold(ap, r), fold(af2, r), fold(f3, r)),
{
    let t = st.fix(r);
    lemma_fix_wf(st, r);
    let p = modulus();
    let c = st.vi[0];
    lemma_pow2_unfold(st.ny);
    assert forall|y: int| 0 <= y < pow2(t.ny) implies #[trigger] fold(mq, r)[y] == fmul(t.vi[0], t.vj[y]) by {
        let v0 = st.vj[2 * y];
        let v1 = st.vj[2 * y + 1];
        lemma_lin_cong(c * v0, c * v1, r);
        lemma_mul_mod_noop_right(c, v0 + r * (v1 - v0), p);
        assert(c * (v0 + r * (v1 - v0)) == (1 - r) * (c * v0) + r * (c * v1)) by (nonlinear_arith);
    }
    assert forall|y: int| 0 <= y < pow2(t.ny) implies #[trigger] fold(af2, r)[y] == fadd(t.vi[0], t.vj[y]) by {
        let v0 = st.vj[2 * y];
        let v1 = st.vj[2 * y + 1];
        lemma_lin_cong(c + v0, c + v1, r);
        lemma_add_mod_noop_right(c, v0 + r * (v1 - v0), p);
        assert(c + (v0 + r * (v1 - v0)) == (1 - r) * (c + v0) + r * (c + v1)) by (nonlinear_arith);
    }
    assert forall|y: int| 0 <= y < pow2(t.ny) implies #[trigger] fold(f3, r)[y] == 0 by {
        assert(f3[2 * y] == 0 && f3[2 * y + 1] == 0);
        assert(0 + r * (0 - 0) == 0) by (nonlinear_arith);
    }
}

/// In phase one the tables sum to the remaining sum.
pub proof fn lemma_phase_one_total(st: RoundState, mp: Seq<int>, mq: Seq<int>, ap: Seq<int>, af2: Seq<int>, f3: Seq<int>)
    requires
        st.wf(),
        phase_one(st, mp, mq, ap, af2, f3),
    ensures
        tables_total(mp, mq, ap, af2, f3) == st.total(),
{
    let p = modulus();
    let a = pow2(st.nx) as int;
    let b = pow2(st.ny) as int;
    lemma_pow2_pos(st.nx);
    lemma_pow2_pos(st.ny);
    lemma_pow2_adds(st.nx, st.ny);
    let f2 = st.packed_terms();
    let pt = prod_terms(mp, mq);
    let at = affine_terms(ap, af2, f3);
    let c = |x: int| pt(x) + at(x);
    lemma_sum_plus(pt, at, c, a);
    assert forall|x: int| 0 <= x < a implies #[trigger] c(x) % p == row_sums(f2, b)(x) % p by {
        let vjf = seq_fn(st.vj);
        let cm = col_terms(st.mult, a, x, vjf);
        let c1 = col_terms(st.add, a, x, one_fn());
        let cv = col_terms(st.add, a, x, vjf);
        let sm = sum(cm, b);
        let s1 = sum(c1, b);
        let sv = sum(cv, b);
        let v = st.vi[x];
        let gm = |y: int| v * cm(y);
        let g1 = |y: int| v * c1(y);
        let gm1 = |y: int| gm(y) + g1(y);
        let total_row = |y: int| gm1(y) + cv(y);
        assert forall|y: int| 0 <= y < b implies #[trigger] row(f2, x)(y) == total_row(y) by {
            lemma_packed(x, a, y);
            let i = x + a * y;
            assert(0 <= i < a * b) by (nonlinear_arith)
                requires
                    i == x + a * y,
                    0 <= x < a,
                    0 <= y < b,
            ;
            let m = st.mult[i];
            let ad = st.add[i];
            let w = st.vj[y];
            assert(ad * (v + w) + m * v * w == v * (m * w) + v * (ad * 1) + ad * w) by (nonlinear_arith);
        }
        lemma_sum_ext(row(f2, x), total_row, b);
        lemma_sum_times(cm, v, gm, b);
        lemma_sum_times(c1, v, g1, b);
        lemma_sum_plus(gm, g1, gm1, b);
        lemma_sum_plus(gm1, cv, total_row, b);
        // c(x) = (sm % p) v + (s1 % p) v + sv % p
        lemma_mul_mod_noop_left(sm, v, p);
        lemma_mul_mod_noop_left(s1, v, p);
        lemma_add_mod_noop((sm % p) * v, (s1 % p) * v, p);
        lemma_add_mod_noop(sm * v, s1 * v, p);
        lemma_add_mod_noop((sm % p) * v + (s1 % p) * v, sv % p, p);
        lemma_add_mod_noop(sm * v + s1 * v, sv, p);
        vstd::arithmetic::div_mod::lemma_mod_twice(sv, p);
        vstd::arithmetic::div_mod::lemma_mod_twice((sm % p) * v + (s1 % p) * v, p);
        assert(sm * v == v * sm && s1 * v == v * s1) by (nonlinear_arith);
    }
    lemma_sum_cong(c, row_sums(f2, b), a);
    lemma_total_rows(st);
    lemma_add_mod_noop(sum(pt, a), sum(at, a), p);
}

/// In phase two the tables sum to the remaining sum.
pub proof fn lemma_phase_two_total(st: RoundState, mp: Seq<int>, mq: Seq<int>, ap: Seq<int>, af2: Seq<int>, f3: Seq<int>)
    requires
        st.wf(),
        phase_two(st, mp, mq, ap, af2, f3),
    ensures
        tables_total(mp, mq, ap, af2, f3) == st.total(),
{
    let p = modulus();
    let b = pow2(st.ny) as int;
    assert(pow2(0) == 1) by {
        vstd::arithmetic::power2::lemma2_to64();
    }
    assert(st.nx + st.ny == st.ny);
    let pt = prod_terms(mp, mq);
    let at = affine_terms(ap, af2, f3);
    let c = |y: int| pt(y) + at(y);
    lemma_sum_plus(pt, at, c, b);
    let v = st.vi[0];
    assert forall|y: int| 0 <= y < b implies #[trigger] c(y) % p == st.terms()(y) % p by {
        assert(y % 1 == 0 && y / 1 == y);
        let m = st.mult[y];
        let ad = st.add[y];
        let w = st.vj[y];
        lemma_mul_mod_noop_right(m, v * w, p);
        lemma_mul_mod_noop_right(ad, v + w, p);
        lemma_add_mod_noop(m * ((v * w) % p), ad * ((v + w) % p), p);
        lemma_add_mod_noop(m * (v * w), ad * (v + w), p);
        assert(m * ((v * w) % p) + (ad * ((v + w) % p) + 0) == m * ((v * w) % p) + ad * ((v + w) % p));
        assert(ad * (v + w) + m * v * w == m * (v * w) + ad * (v + w)) by (nonlinear_arith);
    }
    lemma_sum_cong(c, st.terms(), b);
    lemma_add_mod_noop(sum(pt, b), sum(at, b), p);
}

/// The round polynomial's value `g(b)` from the tables: the terms at the
/// indices whose lowest bit is `b`.
pub proof fn lemma_tables_half(
    st: RoundState,
    mp: Seq<int>,
    mq: Seq<int>,
    ap: Seq<int>,
    af2: Seq<int>,
    f3: Seq<int>,
    b: int,
)
    requires
        st.wf(),
        b == 0 || b == 1,
        (st.nx > 0 && phase_one(st, mp, mq, ap, af2, f3)) || (st.ny > 0 && phase_two(st, mp, mq, ap, af2, f3)),
        reduced(mp),
        reduced(mq),
        reduced(ap),
        reduced(af2),
        reduced(f3),
    ensures
        mp.len() == mq.len() && mp.len() == ap.len() && mp.len() == af2.len() && mp.len() == f3.len(),
        mp.len() % 2 == 0,
        st.half(b) == (sum(stride_part(prod_terms(mp, mq), b), mp.len() as int / 2) + sum(
            stride_part(affine_terms(ap, af2, f3), b),
            mp.len() as int / 2,
        )) % modulus(),
{
    let t = st.fix(b);
    lemma_fix_wf(st, b);
    lemma_fix_bit(st, b);
    if st.nx > 0 && phase_one(st, mp, mq, ap, af2, f3) {
        lemma_pow2_unfold(st.nx);
        lemma_phase_one_fold(st, mp, mq, ap, af2, f3, b);
        lemma_phase_one_total(t, fold(mp, b), fold(mq, b), fold(ap, b), fold(af2, b), fold(f3, b));
    } else {
        lemma_pow2_unfold(st.ny);
        lemma_pow2_adds(st.nx, st.ny);
        assert(pow2(0) == 1) by {
            vstd::arithmetic::power2::lemma2_to64();
        }
        lemma_phase_two_fold(st, mp, mq, ap, af2, f3, b);
        lemma_phase_two_total(t, fold(mp, b), fold(mq, b), fold(ap, b), fold(af2, b), fold(f3, b));
    }
    let h = mp.len() as int / 2;
    assert forall|j: int| 0 <= j < h implies #[trigger] prod_terms(fold(mp, b), fold(mq, b))(j) == stride_part(
        prod_terms(mp, mq),
        b,
    )(j) by {
        lemma_fold_bit(mp, b, j);
        lemma_fold_bit(mq, b, j);
    }
    assert forall|j: int| 0 <= j < h implies #[trigger] affine_terms(fold(ap, b), fold(af2, b), fold(f3, b))(j)
        == stride_part(affine_terms(ap, af2, f3), b)(j) by {
        lemma_fold_bit(ap, b, j);
        lemma_fold_bit(af2, b, j);
        lemma_fold_bit(f3, b, j);
    }
    lemma_sum_ext(prod_terms(fold(mp, b), fold(mq, b)), stride_part(prod_terms(mp, mq), b), h);
    lemma_sum_ext(
        affine_terms(fold(ap, b), fold(af2, b), fold(f3, b)),
        stride_part(affine_terms(ap, af2, f3), b),
        h,
    );
}

} // verus!
