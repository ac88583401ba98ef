//! Small helpers shared across the crate.
use crate::field::{fe_add, fe_mul, fe_sub, lemma_fe_range, modulus, Fe};
use crate::mle::vals;
use crate::mle_spec::bits;
use crate::random::{deterministic_rng, random_fe};
use vstd::arithmetic::power2::{lemma_pow2_unfold, pow2};
use vstd::prelude::*;

verus! {

broadcast use lemma_fe_range;

/// `n` is a power of two.
pub open spec fn is_pow2(n: int) -> bool {
    exists|k: nat| pow2(k) == n
}

/// Returns `log2(n)` for a power of two `n`, which is required.
pub fn log2_pow2(n: usize) -> (r: usize)
    requires
        is_pow2(n as int),
    ensures
        pow2(r as nat) == n,
{
    let ghost k = choose|k: nat| pow2(k) == n;
    let mut m = n;
    let mut r: usize = 0;
    proof {
        vstd::arithmetic::power2::lemma2_to64();
        if k > 0 {
            vstd::arithmetic::power2::lemma_pow2_strictly_increases(0, k);
        }
    }
    while m > 1
        invariant
            r <= k,
            m == pow2((k - r) as nat),
            n == pow2(k),
            r <= n,
            pow2(r as nat) * m == n,
        decreases m,
    {
        proof {
            if k == r {
                vstd::arithmetic::power2::lemma2_to64();
                assert(false);
            }
            lemma_pow2_unfold((k - r) as nat);
            lemma_pow2_unfold((r + 1) as nat);
            assert(pow2((r + 1) as nat) * pow2((k - r - 1) as nat) == n) by (nonlinear_arith)
                requires
                    pow2((r + 1) as nat) == 2 * pow2(r as nat),
                    m == 2 * pow2((k - r - 1) as nat),
                    pow2(r as nat) * m == n,
            ;
            vstd::arithmetic::power2::lemma_pow2_pos((k - r - 1) as nat);
            assert(pow2((r + 1) as nat) <= n) by (nonlinear_arith)
                requires
                    pow2((r + 1) as nat) * pow2((k - r - 1) as nat) == n,
                    pow2((k - r - 1) as nat) >= 1,
            ;
            vstd::arithmetic::power2::lemma_pow2_strictly_increases(r as nat, (r + 1) as nat);
            assert(r + 1 <= n) by {
                lemma_pow2_ge((r + 1) as nat);
            }
        }
        m = m / 2;
        r = r + 1;
    }
    proof {
        if k > r {
            vstd::arithmetic::power2::lemma_pow2_strictly_increases(0, (k - r) as nat);
        }
        vstd::arithmetic::power2::lemma2_to64();
    }
    r
}

/// `2^n >= n`.
pub proof fn lemma_pow2_ge(n: nat)
    ensures
        pow2(n) >= n,
    decreases n,
{
    vstd::arithmetic::power2::lemma2_to64();
    if n > 0 {
        lemma_pow2_ge((n - 1) as nat);
        lemma_pow2_unfold(n);
        vstd::arithmetic::power2::lemma_pow2_pos((n - 1) as nat);
    }
}

/// Maps an index in `{0,1}^nv` to the corresponding vector of field
/// elements, least significant bit first.
pub fn index_to_field_element(index: usize, nv: usize) -> (r: Vec<Fe>)
    ensures
        vals(r@) == bits(index as int, nv as nat),
        r.len() == nv,
{
    let mut ans: Vec<Fe> = Vec::with_capacity(nv);
    let mut idx = index;
    let mut rem = nv;
    proof {
        assert(vals(ans@) + bits(idx as int, rem as nat) =~= bits(index as int, nv as nat));
    }
    while rem != 0
        invariant
            vals(ans@) + bits(idx as int, rem as nat) == bits(index as int, nv as nat),
            ans.len() + rem == nv,
        decreases rem,
    {
        let bit = Fe::from_u64((idx % 2) as u64);
        proof {
            let tail = bits(idx as int / 2, (rem - 1) as nat);
            assert(bits(idx as int, rem as nat) == seq![idx as int % 2].add(tail));
            assert(vals(ans@.push(bit)) =~= vals(ans@).push(idx as int % 2));
            assert(vals(ans@).push(idx as int % 2) + tail =~= vals(ans@) + seq![idx as int % 2].add(tail));
        }
        ans.push(bit);
        idx = idx / 2;
        rem = rem - 1;
    }
    proof {
        assert(bits(idx as int, 0) =~= Seq::<int>::empty());
        assert(vals(ans@) + Seq::<int>::empty() =~= vals(ans@));
    }
    ans
}

/// The point `b + t (c - b)` of the line with `l(0) = b` and `l(1) = c`.
pub open spec fn line(b: Seq<int>, c: Seq<int>, t: int) -> Seq<int> {
    Seq::new(b.len(), |i: int| (b[i] + t * (c[i] - b[i])) % modulus())
}

/// The line passes through `b` at 0 and through `c` at 1.
pub proof fn lemma_line_endpoints(b: Seq<int>, c: Seq<int>)
    requires
        b.len() == c.len(),
        crate::mle_spec::reduced(b),
        crate::mle_spec::reduced(c),
    ensures
        line(b, c, 0) == b,
        line(b, c, 1) == c,
{
    assert forall|i: int| 0 <= i < b.len() implies #[trigger] line(b, c, 0)[i] == b[i] by {
        assert(b[i] + 0 * (c[i] - b[i]) == b[i]);
        crate::arith::lemma_mod_id(b[i]);
    }
    assert forall|i: int| 0 <= i < b.len() implies #[trigger] line(b, c, 1)[i] == c[i] by {
        assert(b[i] + 1 * (c[i] - b[i]) == c[i]);
        crate::arith::lemma_mod_id(c[i]);
    }
    assert(line(b, c, 0) =~= b);
    assert(line(b, c, 1) =~= c);
}

/// Evaluates the unique line `l` with `l(0) = b_star` and `l(1) = c_star` at
/// the point `t`; the two endpoints have the same length.
pub fn line_point(b_star: &[Fe], c_star: &[Fe], t: Fe) -> (r: Vec<Fe>)
    requires
        b_star.len() == c_star.len(),
    ensures
        vals(r@) == line(vals(b_star@), vals(c_star@), t@),
{
    let mut out: Vec<Fe> = Vec::with_capacity(b_star.len());
    let mut i: usize = 0;
    while i < b_star.len()
        invariant
            b_star.len() == c_star.len(),
            i <= b_star.len(),
            out.len() == i,
            forall|j: int| 0 <= j < i ==> #[trigger] out@[j]@ == line(vals(b_star@), vals(c_star@), t@)[j],
        decreases b_star.len() - i,
    {
        let b = b_star[i];
        let c = c_star[i];
        let v = fe_add(b, fe_mul(t, fe_sub(c, b)));
        proof {
            crate::arith::lemma_fold_step(b@, c@, t@);
        }
        out.push(v);
        i = i + 1;
    }
    assert(vals(out@) =~= line(vals(b_star@), vals(c_star@), t@));
    out
}

/// Returns a gate label of the given length, drawn from a fresh
/// deterministic generator: only for simulation.
pub fn random_gate(label_length: usize) -> (r: Vec<Fe>)
    ensures
        r.len() == label_length,
{
    let mut rng = deterministic_rng();
    let mut out: Vec<Fe> = Vec::with_capacity(label_length);
    let mut i: usize = 0;
    while i < label_length
        invariant
            i <= label_length,
            out.len() == i,
        decreases label_length - i,
    {
        out.push(random_fe(&mut rng));
        i = i + 1;
    }
    out
}

} // verus!
