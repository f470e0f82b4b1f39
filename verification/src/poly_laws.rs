//! How many roots a polynomial has.
use crate::algebra::{
    cong, is_prime, lemma_cong_add, lemma_cong_mul, lemma_cong_sub, lemma_mod_reduced,
    lemma_poly_eval_cons, poly_eval,
};
use crate::lagrange::{divided, lemma_divided};
use vstd::prelude::*;

verus! {

/// Every coefficient vanishes modulo `m`.
pub open spec fn vanishes(c: Seq<int>, m: int) -> bool {
    forall|i: int| 0 <= i < c.len() ==> cong(#[trigger] c[i], 0, m)
}

/// No two entries are congruent modulo `m`.
pub open spec fn incongruent(zs: Seq<int>, m: int) -> bool {
    forall|i: int, j: int| 0 <= i < j < zs.len() ==> !cong(#[trigger] zs[i], #[trigger] zs[j], m)
}

/// A polynomial with a root vanishes where its quotient by the root does.
proof fn lemma_quotient_vanishes(c: Seq<int>, a: int, m: int)
    requires
        m > 1,
        cong(poly_eval(c, a), 0, m),
        vanishes(divided(c, a), m),
    ensures
        vanishes(c, m),
    decreases c.len(),
{
    if c.len() > 0 {
        let rest = c.drop_first();
        assert(c =~= seq![c[0]] + rest);
        lemma_poly_eval_cons(c[0], rest, a);
        let e = poly_eval(rest, a);
        if c.len() == 1 {
            assert(rest =~= Seq::<int>::empty());
            assert(e == 0);
            assert(0 * a == 0);
        } else {
            let q = divided(c, a);
            assert(q =~= seq![e] + divided(rest, a));
            assert(q[0] == e);
            assert forall|i: int| 0 <= i < divided(rest, a).len() implies cong(
                #[trigger] divided(rest, a)[i],
                0,
                m,
            ) by {
                assert(q[i + 1] == divided(rest, a)[i]);
            }
            lemma_quotient_vanishes(rest, a, m);
            lemma_cong_mul(e, 0, a, a, m);
            assert(0 * a == 0);
            lemma_cong_sub(e * a + c[0], 0, e * a, 0, m);
        }
        assert forall|i: int| 0 <= i < c.len() implies cong(#[trigger] c[i], 0, m) by {
            if i > 0 {
                assert(rest[i - 1] == c[i]);
            }
        }
    }
}

/// A polynomial over a prime field that does not vanish has fewer roots than coefficients.
pub proof fn law_few_roots(c: Seq<int>, zs: Seq<int>, p: int)
    requires
        is_prime(p),
        !vanishes(c, p),
        incongruent(zs, p),
        forall|i: int| 0 <= i < zs.len() ==> cong(poly_eval(c, #[trigger] zs[i]), 0, p),
    ensures
        zs.len() < c.len(),
    decreases zs.len(),
{
    if zs.len() > 0 {
        let a = zs.last();
        let rest = zs.drop_last();
        let q = divided(c, a);
        assert(zs[zs.len() - 1] == a);
        assert(cong(poly_eval(c, zs[zs.len() - 1]), 0, p));
        lemma_divided(c, a, a);
        if vanishes(q, p) {
            lemma_quotient_vanishes(c, a, p);
        }
        assert forall|i: int| 0 <= i < rest.len() implies cong(
            poly_eval(q, #[trigger] rest[i]),
            0,
            p,
        ) by {
            let z = rest[i];
            assert(zs[i] == z);
            assert(cong(poly_eval(c, zs[i]), 0, p));
            assert(!cong(zs[i], zs[zs.len() - 1], p));
            lemma_divided(c, a, z);
            lemma_cong_sub(poly_eval(c, z), 0, poly_eval(c, a), 0, p);
            lemma_mod_reduced(0, p);
            let e = poly_eval(q, z);
            assert(((z - a) * e) % p == 0);
            if (z - a) % p == 0 {
                lemma_cong_add(z - a, 0, a, a, p);
            }
        }
        assert forall|i: int, j: int| 0 <= i < j < rest.len() implies !cong(
            #[trigger] rest[i],
            #[trigger] rest[j],
            p,
        ) by {
            assert(rest[i] == zs[i] && rest[j] == zs[j]);
        }
        law_few_roots(q, rest, p);
    }
}

} // verus!
