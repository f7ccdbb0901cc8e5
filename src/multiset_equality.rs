//! The sorted split of witness and table, and the grand-product
//! accumulator over it.
use vstd::prelude::*;
use crate::field::{Scalar, fadd, fmul, modulus, is_invertible, lemma_mul_inverse_cancels};
use crate::multiset::{MultiSet, vals, is_sorted, lemma_sorted_unique};

verus! {

/// `h1` and `h2` split the sorted union of `f` and `t`: both have the length
/// of `t`, the last element of `h1` is the first of `h2`, and `h1` followed
/// by the rest of `h2` is `f` and `t` together in sorted order.
pub open spec fn is_sorted_split(f: Seq<Scalar>, t: Seq<Scalar>, h1: Seq<Scalar>, h2: Seq<Scalar>) -> bool {
    &&& t.len() > 0
    &&& h1.len() == t.len()
    &&& h2.len() == t.len()
    &&& h1.last() == h2[0]
    &&& is_sorted(h1 + h2.drop_first())
    &&& (h1 + h2.drop_first()).to_multiset() == (f + t).to_multiset()
}

/// Sorts `f` and `t` together and splits the result into two halves of the
/// length of `t` that overlap in one element.
pub fn compute_h1_h2(f: &MultiSet, t: &MultiSet) -> (r: (MultiSet, MultiSet))
    requires
        t@.len() == f@.len() + 1,
    ensures
        is_sorted_split(f@, t@, r.0@, r.1@),
{
    let all = f.concat(t).sort();
    let n = t.len();
    let h1 = all.slice(0, n);
    let h2 = all.slice(n - 1, all.len());
    assert(h1@ + h2@.drop_first() =~= all@);
    (h1, h2)
}

/// The sorted split of `f` and `t` is unique.
pub proof fn lemma_sorted_split_unique(
    f: Seq<Scalar>,
    t: Seq<Scalar>,
    h1: Seq<Scalar>,
    h2: Seq<Scalar>,
    g1: Seq<Scalar>,
    g2: Seq<Scalar>,
)
    requires
        is_sorted_split(f, t, h1, h2),
        is_sorted_split(f, t, g1, g2),
    ensures
        h1 == g1,
        h2 == g2,
{
    let s = h1 + h2.drop_first();
    let r = g1 + g2.drop_first();
    lemma_sorted_unique(s, r);
    assert(h1 =~= s.take(t.len() as int));
    assert(g1 =~= r.take(t.len() as int));
    assert(h2.drop_first() =~= s.skip(t.len() as int));
    assert(g2.drop_first() =~= r.skip(t.len() as int));
    assert(h2 =~= seq![h2[0]] + h2.drop_first());
    assert(g2 =~= seq![g2[0]] + g2.drop_first());
}

/// `gamma * (1 + beta)`, the constant term of each factor over consecutive pairs.
pub open spec fn gamma_one_beta(beta: nat, gamma: nat) -> nat {
    fmul(gamma, fadd(1, beta))
}

/// `gamma * (1 + beta) + s[i] + beta * s[i + 1]`.
pub open spec fn pair_term(s: Seq<nat>, i: int, beta: nat, gamma: nat) -> nat {
    fadd(fadd(gamma_one_beta(beta, gamma), s[i]), fmul(beta, s[i + 1]))
}

/// The numerator of step `i`: `(1 + beta) * (gamma + f[i])` times the pair term of `t`.
pub open spec fn step_numerator(f: Seq<nat>, t: Seq<nat>, i: int, beta: nat, gamma: nat) -> nat {
    fmul(fmul(fadd(1, beta), fadd(gamma, f[i])), pair_term(t, i, beta, gamma))
}

/// The denominator of step `i`: the pair terms of `h1` and `h2`.
pub open spec fn step_denominator(h1: Seq<nat>, h2: Seq<nat>, i: int, beta: nat, gamma: nat) -> nat {
    fmul(pair_term(h1, i, beta, gamma), pair_term(h2, i, beta, gamma))
}

/// The evaluations of the accumulator: `z[0] = 1` and
/// `z[i + 1] * denominator(i) = z[i] * numerator(i)`, one value per element of `t`.
pub open spec fn is_accumulator(
    z: Seq<nat>,
    f: Seq<nat>,
    t: Seq<nat>,
    h1: Seq<nat>,
    h2: Seq<nat>,
    beta: nat,
    gamma: nat,
) -> bool {
    &&& z.len() == t.len()
    &&& z[0] == 1
    &&& forall|i: int|
        0 <= i < t.len() - 1 ==> fmul(#[trigger] z[i + 1], step_denominator(h1, h2, i, beta, gamma))
            == fmul(z[i], step_numerator(f, t, i, beta, gamma))
}

fn pair_term_at(s: &MultiSet, i: usize, beta: &Scalar, gamma_beta: &Scalar) -> (r: Scalar)
    requires
        i + 1 < s@.len(),
        i < usize::MAX,
    ensures
        r.val() == fadd(fadd(gamma_beta.val(), s@[i as int].val()), fmul(beta.val(), s@[i + 1].val())),
{
    let next = s.0[i + 1];
    gamma_beta.add(&s.0[i]).add(&beta.mul(&next))
}

/// The accumulator's evaluations; `None` exactly where a denominator has no
/// inverse, which is always so where one of them is zero.
pub fn compute_accumulator_values(
    f: &MultiSet,
    t: &MultiSet,
    h1: &MultiSet,
    h2: &MultiSet,
    beta: Scalar,
    gamma: Scalar,
) -> (r: Option<MultiSet>)
    requires
        t@.len() == f@.len() + 1,
        h1@.len() == t@.len(),
        h2@.len() == t@.len(),
    ensures
        r matches Some(z) ==> is_accumulator(
            vals(z@),
            vals(f@),
            vals(t@),
            vals(h1@),
            vals(h2@),
            beta.val(),
            gamma.val(),
        ),
        (exists|i: int|
            0 <= i < t@.len() - 1 && step_denominator(
                vals(h1@),
                vals(h2@),
                i,
                beta.val(),
                gamma.val(),
            ) == 0) ==> r is None,
        (forall|i: int|
            0 <= i < t@.len() - 1 ==> is_invertible(
                #[trigger] step_denominator(vals(h1@), vals(h2@), i, beta.val(), gamma.val()),
            )) ==> r is Some,
{
    let ghost (fv, tv, h1v, h2v, b, g) = (
        vals(f@),
        vals(t@),
        vals(h1@),
        vals(h2@),
        beta.val(),
        gamma.val(),
    );
    let one = Scalar::one();
    let one_beta = one.add(&beta);
    let gamma_beta = gamma.mul(&one_beta);
    let mut z = MultiSet::new();
    z.push(one);
    let n = t.len();
    let mut i: usize = 0;
    while i + 1 < n
        invariant
            n == t@.len(),
            t@.len() == f@.len() + 1,
            fv == vals(f@),
            tv == vals(t@),
            h1v == vals(h1@),
            h2v == vals(h2@),
            b == beta.val(),
            g == gamma.val(),
            h1@.len() == n,
            h2@.len() == n,
            i + 1 <= n,
            z@.len() == i + 1,
            z@[0].val() == 1,
            one_beta.val() == fadd(1, b),
            gamma_beta.val() == gamma_one_beta(b, g),
            forall|k: int| 0 <= k < z@.len() ==> z@[k].val() < modulus(),
            forall|k: int|
                0 <= k < i ==> fmul(#[trigger] z@[k + 1].val(), step_denominator(h1v, h2v, k, b, g))
                    == fmul(z@[k].val(), step_numerator(fv, tv, k, b, g)),
            forall|k: int| 0 <= k < i ==> step_denominator(h1v, h2v, k, b, g) != 0,
        decreases n - i,
    {
        let num = one_beta.mul(&gamma.add(&f.0[i])).mul(&pair_term_at(t, i, &beta, &gamma_beta));
        let den = pair_term_at(h1, i, &beta, &gamma_beta).mul(&pair_term_at(h2, i, &beta, &gamma_beta));
        proof {
            assert(h1v[i as int] == h1@[i as int].val() && h1v[i + 1] == h1@[i + 1].val());
            assert(h2v[i as int] == h2@[i as int].val() && h2v[i + 1] == h2@[i + 1].val());
            assert(den.val() == step_denominator(h1v, h2v, i as int, b, g));
        }
        match den.inverse() {
            None => {
                return None;
            },
            Some(q) => {
                let prev = z.last();
                let a = prev.mul(&num);
                let next = a.mul(&q);
                proof {
                    lemma_mul_inverse_cancels(a.val(), q.val(), den.val());
                    assert(tv[i as int] == t@[i as int].val() && tv[i + 1] == t@[i + 1].val());
                    assert(fv[i as int] == f@[i as int].val());
                    assert(den.val() == step_denominator(h1v, h2v, i as int, b, g));
                    assert(num.val() == step_numerator(fv, tv, i as int, b, g));
                    assert(den.val() != 0) by {
                        if den.val() == 0 {
                            assert(fmul(den.val(), q.val()) == 0) by (nonlinear_arith)
                                requires den.val() == 0;
                        }
                    }
                }
                z.push(next);
                i = i + 1;
            },
        }
    }
    let ghost zv = vals(z@);
    assert forall|k: int| 0 <= k < tv.len() - 1 implies fmul(#[trigger] zv[k + 1], step_denominator(h1v, h2v, k, b, g))
        == fmul(zv[k], step_numerator(fv, tv, k, b, g)) by {
        assert(zv[k + 1] == z@[k + 1].val());
    }
    Some(z)
}

/// The accumulator closes: its last evaluation is one.
pub fn accumulator_closes(z: &MultiSet) -> (r: bool)
    ensures
        r == (z@.len() > 0 && vals(z@).last() == 1),
{
    if z.is_empty() {
        return false;
    }
    let last = z.last();
    proof {
        assert(vals(z@).last() == z@.last().val());
    }
    last.to_u64() == 1
}

} // verus!
