//! The GKR identity: the multilinear extension of a layer's values at a
//! point `g` is the sum over the hypercube of the next layer of the wiring
//! predicates fixed at `g`, applied to the next layer's values.
use crate::arith::{col, col_sums, lemma_mod_id, lemma_sum_cong, lemma_sum_plus, lemma_sum_swap, lemma_sum_times, row, row_sums, sum};
use crate::field::modulus;
use crate::mle_spec::{
    chi, fold_all, lagrange, lagrange_terms, lemma_fold_all_lagrange, lemma_fold_all_len,
    lemma_mle_eval_lagrange, mle_eval, reduced,
};
use crate::sumcheck::state::RoundState;
use vstd::arithmetic::div_mod::{lemma_add_mod_noop, lemma_mul_mod_noop_left, lemma_mul_mod_noop_right};
use vstd::arithmetic::power2::{lemma_pow2_adds, lemma_pow2_pos, pow2};
use vstd::prelude::*;

verus! {

/// The term of the GKR sum for output gate `a` at the packed pair
/// `j = b + t c`: `add(a, b, c) (w(b) + w(c)) + mult(a, b, c) w(b) w(c)`,
/// the predicates being indexed by `a + aa j`.
pub open spec fn layer_term(ad: Seq<int>, mu: Seq<int>, wv: Seq<int>, a: int, aa: int, t: int) -> spec_fn(int) -> int {
    |j: int| ad[a + aa * j] * (wv[j % t] + wv[j / t]) + mu[a + aa * j] * wv[j % t] * wv[j / t]
}

/// Every value of the layer is its GKR sum over the next layer.
pub open spec fn layer_relation(ad: Seq<int>, mu: Seq<int>, wv: Seq<int>, wi: Seq<int>, aa: int, t: int) -> bool {
    forall|a: int| 0 <= a < aa ==> #[trigger] wi[a] == sum(layer_term(ad, mu, wv, a, aa, t), t * t) % modulus()
}

/// The instance a layer's sum-check starts from, once the label is set
/// to `g`.
pub open spec fn gkr_start(ad: Seq<int>, mu: Seq<int>, wv: Seq<int>, g: Seq<int>, t: nat) -> RoundState {
    RoundState { add: fold_all(ad, g), mult: fold_all(mu, g), vi: wv, vj: wv, nx: t, ny: t }
}

/// `chi(a, g)` times the term of gate `a` at pair `j`.
pub open spec fn weighted_layer_terms(ad: Seq<int>, mu: Seq<int>, wv: Seq<int>, g: Seq<int>, aa: int, t: int) -> spec_fn(int, int) -> int {
    |a: int, j: int| chi(a, g) * layer_term(ad, mu, wv, a, aa, t)(j)
}

/// The GKR identity: the sum the sum-check of a layer starts from is the
/// value at `g` of the multilinear extension of the layer.
pub proof fn lemma_gkr_identity(ad: Seq<int>, mu: Seq<int>, wv: Seq<int>, wi: Seq<int>, g: Seq<int>, t: nat)
    requires
        ad.len() == pow2(g.len() + 2 * t),
        mu.len() == pow2(g.len() + 2 * t),
        wv.len() == pow2(t),
        wi.len() == pow2(g.len()),
        reduced(wi),
        layer_relation(ad, mu, wv, wi, pow2(g.len()) as int, pow2(t) as int),
    ensures
        gkr_start(ad, mu, wv, g, t).total() == mle_eval(wi, g),
{
    let p = modulus();
    let st = gkr_start(ad, mu, wv, g, t);
    let aa = pow2(g.len()) as int;
    let tt = pow2(t) as int;
    let n = tt * tt;
    let m2 = (2 * t) as nat;
    lemma_pow2_adds(t, t);
    lemma_pow2_pos(t);
    lemma_pow2_pos(g.len());
    assert(t + t == m2);
    assert(pow2(m2) == n);
    assert(st.size() == n);
    let f2 = weighted_layer_terms(ad, mu, wv, g, aa, tt);
    // (1) each term of the sum is, modulo p, the column of weighted gate terms
    assert forall|j: int| 0 <= j < n implies #[trigger] st.terms()(j) % p == col_sums(f2, aa)(j) % p by {
        lemma_fold_all_lagrange(ad, g, m2, j);
        lemma_fold_all_lagrange(mu, g, m2, j);
        let u = wv[j % tt];
        let v = wv[j / tt];
        let la = lagrange(ad, g, j);
        let lm = lagrange(mu, g, j);
        let x = fold_all(ad, g)[j];
        let y = fold_all(mu, g)[j];
        assert(j % (pow2(st.nx) as int) == j % tt);
        assert(st.term(j) == x * (u + v) + y * u * v);
        // the column: (u + v) la + (u v) lm
        let ca = |a: int| (u + v) * lagrange_terms(ad, g, j)(a);
        let cm = |a: int| (u * v) * lagrange_terms(mu, g, j)(a);
        let cs = |a: int| ca(a) + cm(a);
        assert forall|a: int| 0 <= a < aa implies #[trigger] col(f2, j)(a) == cs(a) by {
            let c = chi(a, g);
            let da = ad[a + aa * j];
            let dm = mu[a + aa * j];
            assert(c * (da * (u + v) + dm * u * v) == (u + v) * (da * c) + (u * v) * (dm * c)) by (nonlinear_arith);
        }
        crate::arith::lemma_sum_ext(col(f2, j), cs, aa);
        lemma_sum_times(lagrange_terms(ad, g, j), u + v, ca, aa);
        lemma_sum_times(lagrange_terms(mu, g, j), u * v, cm, aa);
        lemma_sum_plus(ca, cm, cs, aa);
        assert(col_sums(f2, aa)(j) == (u + v) * la + (u * v) * lm);
        // x ≡ la and y ≡ lm
        lemma_mul_mod_noop_left(x, u + v, p);
        lemma_mul_mod_noop_left(la, u + v, p);
        lemma_mul_mod_noop_left(y, u * v, p);
        lemma_mul_mod_noop_left(lm, u * v, p);
        lemma_add_mod_noop(x * (u + v), y * (u * v), p);
        lemma_add_mod_noop(la * (u + v), lm * (u * v), p);
        assert(y * u * v == y * (u * v)) by (nonlinear_arith);
        assert(la * (u + v) == (u + v) * la && lm * (u * v) == (u * v) * lm) by (nonlinear_arith);
    }
    lemma_sum_cong(st.terms(), col_sums(f2, aa), n);
    // (2) swap the two sums
    lemma_sum_swap(f2, aa, n);
    // (3) each gate's row sums, modulo p, to chi(a, g) times its value
    assert forall|a: int| 0 <= a < aa implies #[trigger] row_sums(f2, n)(a) % p == lagrange_terms(wi, g, 0)(a) % p by {
        let c = chi(a, g);
        let lt = layer_term(ad, mu, wv, a, aa, tt);
        lemma_sum_times(lt, c, row(f2, a), n);
        assert(wi[a] == sum(lt, n) % p);
        lemma_mul_mod_noop_right(c, sum(lt, n), p);
        lemma_mod_id(wi[a]);
        lemma_mul_mod_noop_right(c, wi[a], p);
        assert(lagrange_terms(wi, g, 0)(a) == wi[a + aa * 0] * c);
        assert(a + aa * 0 == a);
        assert(wi[a] * c == c * wi[a]) by (nonlinear_arith);
    }
    lemma_sum_cong(row_sums(f2, n), lagrange_terms(wi, g, 0), aa);
    // (4) the Lagrange form of the layer's extension
    lemma_mle_eval_lagrange(wi, g);
    assert(g.len() + 0 == g.len());
    lemma_fold_all_len(wi, g, 0);
    crate::mle_spec::lemma_fold_all_reduced(wi, g, 0);
    vstd::arithmetic::power2::lemma2_to64();
    lemma_mod_id(mle_eval(wi, g));
}

} // verus!
