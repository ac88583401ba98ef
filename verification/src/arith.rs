//! Sums over integer ranges and lemmas of modular arithmetic.
use crate::field::{fadd, fmul, fsub, modulus};
use vstd::arithmetic::div_mod::*;
use vstd::arithmetic::mul::*;
use vstd::prelude::*;

verus! {

/// `f(0) + f(1) + ... + f(n - 1)` (zero when `n <= 0`).
pub open spec fn sum(f: spec_fn(int) -> int, n: int) -> int
    decreases n,
{
    if n <= 0 {
        0
    } else {
        sum(f, n - 1) + f(n - 1)
    }
}

/// Sums of functions that agree on the range are equal.
pub proof fn lemma_sum_ext(f: spec_fn(int) -> int, g: spec_fn(int) -> int, n: int)
    requires
        forall|i: int| 0 <= i < n ==> #[trigger] f(i) == g(i),
    ensures
        sum(f, n) == sum(g, n),
    decreases n,
{
    if n > 0 {
        lemma_sum_ext(f, g, n - 1);
    }
}

/// Sums of functions that agree modulo p on the range agree modulo p.
pub proof fn lemma_sum_cong(f: spec_fn(int) -> int, g: spec_fn(int) -> int, n: int)
    requires
        forall|i: int| 0 <= i < n ==> #[trigger] f(i) % modulus() == g(i) % modulus(),
    ensures
        sum(f, n) % modulus() == sum(g, n) % modulus(),
    decreases n,
{
    if n > 0 {
        lemma_sum_cong(f, g, n - 1);
        lemma_add_mod_noop(sum(f, n - 1), f(n - 1), modulus());
        lemma_add_mod_noop(sum(g, n - 1), g(n - 1), modulus());
    }
}

/// The sum of a pointwise sum is the sum of the sums.
pub proof fn lemma_sum_add(f: spec_fn(int) -> int, g: spec_fn(int) -> int, n: int)
    ensures
        sum(|i: int| f(i) + g(i), n) == sum(f, n) + sum(g, n),
    decreases n,
{
    if n > 0 {
        lemma_sum_add(f, g, n - 1);
    }
}

/// `sum(h) == sum(f) + sum(g)` when `h` is pointwise `f + g`.
pub proof fn lemma_sum_plus(f: spec_fn(int) -> int, g: spec_fn(int) -> int, h: spec_fn(int) -> int, n: int)
    requires
        forall|i: int| 0 <= i < n ==> #[trigger] h(i) == f(i) + g(i),
    ensures
        sum(h, n) == sum(f, n) + sum(g, n),
    decreases n,
{
    if n > 0 {
        lemma_sum_plus(f, g, h, n - 1);
    }
}

/// `sum(h) == c * sum(f)` when `h` is pointwise `c * f`.
pub proof fn lemma_sum_times(f: spec_fn(int) -> int, c: int, h: spec_fn(int) -> int, n: int)
    requires
        forall|i: int| 0 <= i < n ==> #[trigger] h(i) == c * f(i),
    ensures
        sum(h, n) == c * sum(f, n),
    decreases n,
{
    if n > 0 {
        lemma_sum_times(f, c, h, n - 1);
        lemma_mul_is_distributive_add(c, sum(f, n - 1), f(n - 1));
    }
}

/// A sum whose terms are all zero is zero.
pub proof fn lemma_sum_zero(f: spec_fn(int) -> int, n: int)
    requires
        forall|i: int| 0 <= i < n ==> #[trigger] f(i) == 0,
    ensures
        sum(f, n) == 0,
    decreases n,
{
    if n > 0 {
        lemma_sum_zero(f, n - 1);
    }
}

/// A sum with a single nonzero term `k` equals that term.
pub proof fn lemma_sum_single(f: spec_fn(int) -> int, k: int, n: int)
    requires
        0 <= k < n,
        forall|i: int| 0 <= i < n && i != k ==> #[trigger] f(i) == 0,
    ensures
        sum(f, n) == f(k),
    decreases n,
{
    if n - 1 == k {
        lemma_sum_zero(f, n - 1);
    } else {
        lemma_sum_single(f, k, n - 1);
    }
}

/// Splitting a range after its first `n` elements.
pub proof fn lemma_sum_shift(f: spec_fn(int) -> int, n: int, m: int)
    requires
        0 <= n,
        0 <= m,
    ensures
        sum(f, n + m) == sum(f, n) + sum(|i: int| f(n + i), m),
    decreases m,
{
    if m > 0 {
        lemma_sum_shift(f, n, m - 1);
        assert(sum(f, n + m) == sum(f, n + m - 1) + f(n + m - 1));
    }
}

/// A sum over `2n` elements splits into its even and its odd terms.
pub proof fn lemma_sum_parity(f: spec_fn(int) -> int, n: int)
    requires
        0 <= n,
    ensures
        sum(f, 2 * n) == sum(|j: int| f(2 * j), n) + sum(|j: int| f(2 * j + 1), n),
    decreases n,
{
    if n > 0 {
        lemma_sum_parity(f, n - 1);
        assert(sum(f, 2 * n) == sum(f, 2 * n - 1) + f(2 * n - 1));
        assert(sum(f, 2 * n - 1) == sum(f, 2 * (n - 1)) + f(2 * (n - 1)));
    }
}

/// The terms `f(x + a y)` of block `y`.
pub open spec fn block_row(f: spec_fn(int) -> int, a: int, y: int) -> spec_fn(int) -> int {
    |x: int| f(x + a * y)
}

/// The sums of the blocks of `a` consecutive terms.
pub open spec fn block_sums(f: spec_fn(int) -> int, a: int) -> spec_fn(int) -> int {
    |y: int| sum(block_row(f, a, y), a)
}

/// A sum over `a * b` packed indices `x + a * y` is a double sum.
pub proof fn lemma_sum_double(f: spec_fn(int) -> int, a: int, b: int)
    requires
        0 <= a,
        0 <= b,
    ensures
        sum(f, a * b) == sum(block_sums(f, a), b),
    decreases b,
{
    if b > 0 {
        lemma_sum_double(f, a, b - 1);
        assert(a * b == a * (b - 1) + a) by (nonlinear_arith);
        assert(a * (b - 1) >= 0) by (nonlinear_arith)
            requires
                a >= 0,
                b >= 1,
        ;
        lemma_sum_shift(f, a * (b - 1), a);
        lemma_sum_ext(block_row(f, a, b - 1), |i: int| f(a * (b - 1) + i), a);
        assert(sum(block_sums(f, a), b) == sum(block_sums(f, a), b - 1) + block_sums(f, a)(b - 1));
        assert(sum(f, a * b) == sum(f, a * (b - 1) + a));
    } else {
        assert(a * b == 0) by (nonlinear_arith)
            requires
                b == 0,
        ;
    }
}

/// Row `x` of a function of two arguments.
pub open spec fn row(f: spec_fn(int, int) -> int, x: int) -> spec_fn(int) -> int {
    |y: int| f(x, y)
}

/// Column `y` of a function of two arguments.
pub open spec fn col(f: spec_fn(int, int) -> int, y: int) -> spec_fn(int) -> int {
    |x: int| f(x, y)
}

/// The sums of the rows, each over `b` columns.
pub open spec fn row_sums(f: spec_fn(int, int) -> int, b: int) -> spec_fn(int) -> int {
    |x: int| sum(row(f, x), b)
}

/// The sums of the columns, each over `a` rows.
pub open spec fn col_sums(f: spec_fn(int, int) -> int, a: int) -> spec_fn(int) -> int {
    |y: int| sum(col(f, y), a)
}

/// The order of a double sum can be swapped.
pub proof fn lemma_sum_swap(f: spec_fn(int, int) -> int, a: int, b: int)
    requires
        0 <= a,
        0 <= b,
    ensures
        sum(row_sums(f, b), a) == sum(col_sums(f, a), b),
    decreases a,
{
    if a > 0 {
        lemma_sum_swap(f, a - 1, b);
        assert forall|y: int| 0 <= y < b implies #[trigger] col_sums(f, a)(y) == col_sums(f, a - 1)(
            y,
        ) + row(f, a - 1)(y) by {
            assert(sum(col(f, y), a) == sum(col(f, y), a - 1) + col(f, y)(a - 1));
        }
        lemma_sum_plus(col_sums(f, a - 1), row(f, a - 1), col_sums(f, a), b);
    } else {
        lemma_sum_zero(col_sums(f, a), b);
    }
}

/// A packed index `x + a y` with `x < a` splits back into `x` and `y`.
pub proof fn lemma_packed(x: int, a: int, y: int)
    requires
        0 <= x < a,
    ensures
        (x + a * y) % a == x,
        (x + a * y) / a == y,
{
    assert(x + a * y == y * a + x) by (nonlinear_arith);
    lemma_fundamental_div_mod_converse_mod(x + a * y, a, y, x);
    lemma_fundamental_div_mod_converse_div(x + a * y, a, y, x);
}

/// Accumulating `a v + a w + (m v) w`, each product reduced, onto `S`.
pub proof fn lemma_acc_term(s: int, a: int, v: int, w: int, m: int)
    ensures
        fadd(fadd(fadd(s % modulus(), fmul(a, v)), fmul(a, w)), fmul(fmul(m, v), w)) == (s + (a * (v
            + w) + m * v * w)) % modulus(),
{
    let p = modulus();
    lemma_mul_mod_noop_left(m * v, w, p);
    lemma_add_mod_noop(s, a * v, p);
    lemma_mod_twice(s, p);
    lemma_mod_twice(a * v, p);
    lemma_add_mod_noop(s + a * v, a * w, p);
    lemma_mod_twice(a * w, p);
    lemma_add_mod_noop(s + a * v + a * w, (m * v) * w, p);
    lemma_mod_twice((m * v) * w, p);
    lemma_mod_twice(s + a * v, p);
    lemma_mod_twice(s + a * v + a * w, p);
    assert(s + a * v + a * w + (m * v) * w == s + (a * (v + w) + m * v * w)) by (nonlinear_arith);
}

/// `(x mod p)` for `x` in `[0, p)` is `x`.
pub proof fn lemma_mod_id(x: int)
    requires
        0 <= x < modulus(),
    ensures
        x % modulus() == x,
{
    lemma_small_mod(x as nat, modulus() as nat);
}

/// The folding step `a0 + r (a1 - a0)` computed with field operations.
pub proof fn lemma_fold_step(a0: int, a1: int, r: int)
    ensures
        fadd(a0, fmul(r, fsub(a1, a0))) == (a0 + r * (a1 - a0)) % modulus(),
{
    let p = modulus();
    lemma_mul_mod_noop_right(r, a1 - a0, p);
    lemma_add_mod_noop_right(a0, r * (a1 - a0), p);
}

/// Adding a reduced term to a reduced accumulator.
pub proof fn lemma_fadd_acc(s: int, t: int)
    ensures
        fadd(s % modulus(), t % modulus()) == (s + t) % modulus(),
{
    lemma_add_mod_noop(s, t, modulus());
}

/// Multiplying reduced factors.
pub proof fn lemma_fmul_red(a: int, b: int)
    ensures
        fmul(a % modulus(), b % modulus()) == (a * b) % modulus(),
{
    lemma_mul_mod_noop_general(a, b, modulus());
}

/// Adding reduced terms.
pub proof fn lemma_fadd_red(a: int, b: int)
    ensures
        fadd(a % modulus(), b % modulus()) == (a + b) % modulus(),
{
    lemma_add_mod_noop(a, b, modulus());
}

/// Two reduced products: `((v a mod p) c) mod p == v (a c) mod p`.
pub proof fn lemma_fmul3(v: int, a: int, c: int)
    ensures
        fmul(fmul(v, a), c) == (v * (a * c)) % modulus(),
{
    lemma_mul_mod_noop_left(v * a, c, modulus());
    lemma_mul_is_associative(v, a, c);
}

/// `v a + v c`, each product reduced, is `v (a + c) mod p`.
pub proof fn lemma_fmul_distrib(v: int, a: int, c: int)
    ensures
        fadd(fmul(v, a), fmul(v, c)) == (v * (a + c)) % modulus(),
{
    lemma_add_mod_noop(v * a, v * c, modulus());
    lemma_mul_is_distributive_add(v, a, c);
}

/// The GKR verifier's evaluation `(z1 z2) m + a (z1 + z2)`, each
/// operation reduced, is `(a (z1 + z2) + m z1 z2) mod p`.
pub proof fn lemma_layer_claim(z1: int, z2: int, a: int, m: int)
    ensures
        fadd(fmul(fmul(z1, z2), m), fmul(a, fadd(z1, z2))) == (a * (z1 + z2) + m * z1 * z2) % modulus(),
{
    let p = modulus();
    lemma_mul_mod_noop_left(z1 * z2, m, p);
    lemma_mul_mod_noop_right(a, z1 + z2, p);
    lemma_add_mod_noop((z1 * z2) * m, a * (z1 + z2), p);
    assert((z1 * z2) * m + a * (z1 + z2) == a * (z1 + z2) + m * z1 * z2) by (nonlinear_arith);
}

} // verus!
