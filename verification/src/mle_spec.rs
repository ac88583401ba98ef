//! The mathematics of multilinear extensions.
//!
//! A multilinear polynomial in `n` variables is given by its `2^n` values on
//! the boolean hypercube, indexed little-endian: bit `t` of an index is the
//! value of variable `t`. Fixing the lowest variable to `r` folds the table
//! in half (`fold`); fixing several variables folds once per coordinate, in
//! order (`fold_all`); evaluating at a point fixes every variable.
use crate::arith::{lemma_mod_id, lemma_sum_cong, lemma_sum_ext, lemma_sum_parity, sum};
use crate::field::modulus;
use vstd::arithmetic::div_mod::{lemma_mod_bound, lemma_mul_mod_noop_left};

use vstd::arithmetic::power2::{lemma_pow2_pos, lemma_pow2_unfold, pow2};
use vstd::prelude::*;

verus! {

/// Every value lies in `[0, p)`.
pub open spec fn reduced(e: Seq<int>) -> bool {
    forall|i: int| 0 <= i < e.len() ==> 0 <= #[trigger] e[i] < modulus()
}

/// Fixes the lowest variable of the table `e` to `r`.
pub open spec fn fold(e: Seq<int>, r: int) -> Seq<int> {
    Seq::new(e.len() / 2, |j: int| (e[2 * j] + r * (e[2 * j + 1] - e[2 * j])) % modulus())
}

/// Fixes the lowest `pts.len()` variables of `e` to the coordinates of `pts`,
/// lowest first.
pub open spec fn fold_all(e: Seq<int>, pts: Seq<int>) -> Seq<int>
    decreases pts.len(),
{
    if pts.len() == 0 {
        e
    } else {
        fold_all(fold(e, pts[0]), pts.drop_first())
    }
}

/// The value of the multilinear extension of `e` at the point `pts`.
pub open spec fn mle_eval(e: Seq<int>, pts: Seq<int>) -> int {
    fold_all(e, pts)[0]
}

/// The low-bit-first binary digits of `g`, as field values `0` and `1`.
pub open spec fn bits(g: int, k: nat) -> Seq<int>
    decreases k,
{
    if k == 0 {
        Seq::empty()
    } else {
        seq![g % 2].add(bits(g / 2, (k - 1) as nat))
    }
}

/// The Lagrange basis polynomial of the hypercube point `g` at `pts`:
/// the product over coordinates of `pts[t]` or `1 - pts[t]`, as bit `t` of
/// `g` is set or not (an exact integer, not reduced).
pub open spec fn chi(g: int, pts: Seq<int>) -> int
    decreases pts.len(),
{
    if pts.len() == 0 {
        1
    } else {
        (if g % 2 == 0 {
            1 - pts[0]
        } else {
            pts[0]
        }) * chi(g / 2, pts.drop_first())
    }
}

/// The Lagrange form of a partial evaluation: entry `j` of `e` after fixing
/// its lowest `pts.len()` variables, as an unreduced sum.
pub open spec fn lagrange(e: Seq<int>, pts: Seq<int>, j: int) -> int {
    sum(lagrange_terms(e, pts, j), pow2(pts.len()) as int)
}

/// The terms of `lagrange`.
pub open spec fn lagrange_terms(e: Seq<int>, pts: Seq<int>, j: int) -> spec_fn(int) -> int {
    |g: int| e[g + pow2(pts.len()) * j] * chi(g, pts)
}

/// Fixing a single coordinate is one fold.
pub proof fn lemma_fold_all_single(e: Seq<int>, r: int)
    ensures
        fold_all(e, seq![r]) == fold(e, r),
{
    assert(seq![r].drop_first() =~= Seq::<int>::empty());
    assert(fold_all(fold(e, r), Seq::<int>::empty()) == fold(e, r));
}

/// Folding halves the length and keeps the values reduced.
pub proof fn lemma_fold_len(e: Seq<int>, r: int, n: nat)
    requires
        e.len() == pow2(n + 1),
    ensures
        fold(e, r).len() == pow2(n),
        reduced(fold(e, r)),
{
    lemma_pow2_unfold(n + 1);
    assert forall|i: int| 0 <= i < fold(e, r).len() implies 0 <= #[trigger] fold(e, r)[i]
        < modulus() by {
        lemma_mod_bound(e[2 * i] + r * (e[2 * i + 1] - e[2 * i]), modulus());
    }
}

/// Folding `k` times halves the length `k` times.
pub proof fn lemma_fold_all_len(e: Seq<int>, pts: Seq<int>, n: nat)
    requires
        e.len() == pow2(n + pts.len()),
    ensures
        fold_all(e, pts).len() == pow2(n),
        pts.len() > 0 ==> reduced(fold_all(e, pts)),
    decreases pts.len(),
{
    if pts.len() > 0 {
        let m = (n + pts.len() - 1) as nat;
        lemma_fold_len(e, pts[0], m);
        lemma_fold_all_len(fold(e, pts[0]), pts.drop_first(), n);
    }
}

/// Folding a reduced table keeps it reduced.
pub proof fn lemma_fold_all_reduced(e: Seq<int>, pts: Seq<int>, n: nat)
    requires
        e.len() == pow2(n + pts.len()),
        reduced(e),
    ensures
        reduced(fold_all(e, pts)),
{
    lemma_fold_all_len(e, pts, n);
}

/// Fixing one more coordinate after `pts`.
pub proof fn lemma_fold_all_push(e: Seq<int>, pts: Seq<int>, r: int)
    ensures
        fold_all(e, pts.push(r)) == fold(fold_all(e, pts), r),
    decreases pts.len(),
{
    if pts.len() == 0 {
        assert(pts.push(r).drop_first() =~= Seq::<int>::empty());
        assert(pts.push(r)[0] == r);
        assert(fold_all(fold(e, r), pts.push(r).drop_first()) == fold(e, r));
        assert(fold_all(e, pts) == e);
    } else {
        assert(pts.push(r)[0] == pts[0]);
        assert(pts.push(r).drop_first() =~= pts.drop_first().push(r));
        lemma_fold_all_push(fold(e, pts[0]), pts.drop_first(), r);
    }
}

/// Fixing the coordinates of `a` and then those of `b`.
pub proof fn lemma_fold_all_concat(e: Seq<int>, a: Seq<int>, b: Seq<int>)
    ensures
        fold_all(e, a + b) == fold_all(fold_all(e, a), b),
    decreases a.len(),
{
    if a.len() == 0 {
        assert(a + b =~= b);
    } else {
        assert((a + b).drop_first() =~= a.drop_first() + b);
        lemma_fold_all_concat(fold(e, a[0]), a.drop_first(), b);
    }
}

/// Fixing variables to the bits of `g` selects the entries `g + 2^k j`.
pub proof fn lemma_fold_bits(e: Seq<int>, g: int, k: nat, m: nat)
    requires
        e.len() == pow2(k + m),
        reduced(e),
        0 <= g < pow2(k),
    ensures
        fold_all(e, bits(g, k)).len() == pow2(m),
        forall|j: int|
            0 <= j < pow2(m) ==> #[trigger] fold_all(e, bits(g, k))[j] == e[g + pow2(k) * j],
    decreases k,
{
    lemma_pow2_pos(k);
    lemma_pow2_pos(m);
    if k == 0 {
        assert(bits(g, k) =~= Seq::<int>::empty());
        assert forall|j: int| 0 <= j < pow2(m) implies #[trigger] fold_all(e, bits(g, k))[j]
            == e[g + pow2(k) * j] by {
            vstd::arithmetic::power2::lemma2_to64();
        }
    } else {
        let km = (k - 1 + m) as nat;
        let b = g % 2;
        let e1 = fold(e, b);
        lemma_fold_len(e, b, km);
        lemma_pow2_unfold(k);
        assert(bits(g, k).drop_first() =~= bits(g / 2, (k - 1) as nat));
        assert(bits(g, k)[0] == b);
        assert(0 <= g / 2 < pow2((k - 1) as nat));
        lemma_fold_bits(e1, g / 2, (k - 1) as nat, m);
        assert forall|j: int| 0 <= j < pow2(m) implies #[trigger] fold_all(e, bits(g, k))[j]
            == e[g + pow2(k) * j] by {
            let jj = g / 2 + pow2((k - 1) as nat) * j;
            lemma_pow2_pos((k - 1) as nat);
            assert(0 <= jj < pow2(km)) by {
                lemma_pow2_adds_local((k - 1) as nat, m);
                assert(pow2((k - 1) as nat) * j + g / 2 < pow2((k - 1) as nat) * (j + 1))
                    by (nonlinear_arith)
                    requires
                        g / 2 < pow2((k - 1) as nat),
                ;
                assert(pow2((k - 1) as nat) * (j + 1) <= pow2((k - 1) as nat) * pow2(m))
                    by (nonlinear_arith)
                    requires
                        j + 1 <= pow2(m),
                        pow2((k - 1) as nat) > 0,
                ;
                assert(pow2((k - 1) as nat) * j >= 0) by (nonlinear_arith)
                    requires
                        j >= 0,
                        pow2((k - 1) as nat) > 0,
                ;
            }
            assert(2 * jj + b == g + pow2(k) * j) by (nonlinear_arith)
                requires
                    jj == g / 2 + pow2((k - 1) as nat) * j,
                    pow2(k) == 2 * pow2((k - 1) as nat),
                    b == g % 2,
                    g == 2 * (g / 2) + g % 2,
            ;
            let x0 = e[2 * jj];
            let x1 = e[2 * jj + 1];
            if b == 0 {
                assert(x0 + 0 * (x1 - x0) == x0);
                lemma_mod_id(x0);
            } else {
                assert(x0 + 1 * (x1 - x0) == x1);
                lemma_mod_id(x1);
            }
        }
    }
}

/// `2^(a + b) = 2^a 2^b`.
pub proof fn lemma_pow2_adds_local(a: nat, b: nat)
    ensures
        pow2(a + b) == pow2(a) * pow2(b),
{
    vstd::arithmetic::power2::lemma_pow2_adds(a, b);
}

/// The multilinear extension is the Lagrange interpolation of its table:
/// fixing `pts` agrees, modulo p, with the sum of `chi`-weighted entries.
pub proof fn lemma_fold_all_lagrange(e: Seq<int>, pts: Seq<int>, m: nat, j: int)
    requires
        e.len() == pow2(pts.len() + m),
        0 <= j < pow2(m),
    ensures
        fold_all(e, pts)[j] % modulus() == lagrange(e, pts, j) % modulus(),
    decreases pts.len(),
{
    let p = modulus();
    let k = pts.len();
    lemma_pow2_pos(m);
    if k == 0 {
        vstd::arithmetic::power2::lemma2_to64();
        assert(chi(0, pts) == 1);
        let f = |g: int| e[g + pow2(pts.len()) * j] * chi(g, pts);
        assert(sum(f, 0) == 0);
        assert(sum(f, 1) == f(0));
        assert(lagrange(e, pts, j) == e[j] * chi(0, pts));
    } else {
        let r = pts[0];
        let rest = pts.drop_first();
        let e1 = fold(e, r);
        let h = pow2((k - 1) as nat) as int;
        lemma_pow2_unfold(k);
        lemma_pow2_pos((k - 1) as nat);
        lemma_pow2_adds_local((k - 1) as nat, m);
        lemma_pow2_adds_local(k, m);
        lemma_fold_len(e, r, (k - 1 + m) as nat);
        lemma_fold_all_lagrange(e1, rest, m, j);
        let term = |g: int| e[g + pow2(k) * j] * chi(g, pts);
        let t1 = |hh: int| e1[hh + h * j] * chi(hh, rest);
        let t2 = |hh: int| term(2 * hh) + term(2 * hh + 1);
        // each term of the folded sum is congruent to a pair of terms
        assert forall|hh: int| 0 <= hh < h implies #[trigger] t1(hh) % p == t2(hh) % p by {
            let idx = hh + h * j;
            assert(0 <= idx < pow2((k - 1 + m) as nat)) by {
                assert(h * j + hh < h * (j + 1)) by (nonlinear_arith)
                    requires
                        hh < h,
                ;
                assert(h * (j + 1) <= h * pow2(m)) by (nonlinear_arith)
                    requires
                        j + 1 <= pow2(m),
                        h > 0,
                ;
                assert(h * j >= 0) by (nonlinear_arith)
                    requires
                        j >= 0,
                        h > 0,
                ;
            }
            assert(2 * idx == 2 * hh + pow2(k) * j) by (nonlinear_arith)
                requires
                    idx == hh + h * j,
                    pow2(k) == 2 * h,
            ;
            let a0 = e[2 * idx];
            let a1 = e[2 * idx + 1];
            let c = chi(hh, rest);
            assert((2 * hh) % 2 == 0 && (2 * hh) / 2 == hh);
            assert((2 * hh + 1) % 2 == 1 && (2 * hh + 1) / 2 == hh);
            assert(chi(2 * hh, pts) == (1 - r) * c);
            assert(chi(2 * hh + 1, pts) == r * c);
            assert(e1[idx] == (a0 + r * (a1 - a0)) % p);
            lemma_mul_mod_noop_left(a0 + r * (a1 - a0), c, p);
            assert((a0 + r * (a1 - a0)) * c == a0 * ((1 - r) * c) + a1 * (r * c))
                by (nonlinear_arith);
        }
        lemma_sum_cong(t1, t2, h);
        lemma_sum_parity(term, h);
        assert(sum(term, pow2(k) as int) == sum(term, 2 * h));
        lemma_sum_ext(
            t2,
            |hh: int| (|jj: int| term(2 * jj))(hh) + (|jj: int| term(2 * jj + 1))(hh),
            h,
        );
        crate::arith::lemma_sum_add(|jj: int| term(2 * jj), |jj: int| term(2 * jj + 1), h);
        assert(lagrange(e1, rest, j) == sum(t1, h));
        assert(lagrange(e, pts, j) == sum(term, pow2(k) as int));
    }
}

/// Evaluation agrees with the Lagrange form.
pub proof fn lemma_mle_eval_lagrange(e: Seq<int>, pts: Seq<int>)
    requires
        e.len() == pow2(pts.len()),
    ensures
        mle_eval(e, pts) % modulus() == lagrange(e, pts, 0) % modulus(),
{
    assert(pts.len() + 0 == pts.len());
    vstd::arithmetic::power2::lemma2_to64();
    lemma_fold_all_lagrange(e, pts, 0, 0);
}

} // verus!
