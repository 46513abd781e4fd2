//! The product of two ciphertexts through a ring extended by further
//! moduli, the second operand being scaled into them, in terms of the
//! integers that the ring elements stand for.

use crate::congruence::{
    lemma_congruent_difference, lemma_congruent_divisor, lemma_congruent_multiple,
};
use crate::correctness::noisy_rows;
use crate::crt::{lemma_modulus_divides_product, lemma_product_concat};
use crate::extension::{lemma_scaled_rows, rounded_all};
use crate::integer_ring::{
    bounded, centered_coefficients, combine, lemma_combine_bounded, lemma_product_bounded,
    lemma_product_left, lemma_product_right, lemma_residues_equal, lemma_residues_of_centered,
    lemma_residues_shape, residues, ring_product,
};
use crate::rns::product_of;
use crate::rows_algebra::{lemma_backward_forward_rows, lemma_valid_ring};
use crate::rq::{backward_rows, forward_rows};
use crate::scaler::scaled_rows;
use crate::tensor::{
    folding, lemma_folding_bound, lemma_inverse, lemma_operand_bounds, lemma_part_bounds,
    lemma_phase_of_three, lemma_phase_product_residues, lemma_rounding_phase,
    lemma_rounding_remainder, lemma_scaled_expansion, phase_of_three, ProductData,
};
use vstd::arithmetic::div_mod::*;
use vstd::prelude::*;

verus! {

/// What a product of two ciphertexts whose second operand is scaled into
/// the extending moduli is made of, as integers.
pub struct ScaledProduct {
    /// The operands, the secret and the noises.
    pub d: ProductData,
    /// The moduli that extend the ring.
    pub ext: Seq<u64>,
}

impl ScaledProduct {
    /// The product of the extending moduli.
    pub open spec fn p(self) -> int {
        product_of(self.ext) as int
    }

    /// The first ring element of the second operand, scaled by `P / Q`.
    pub open spec fn c0(self) -> Seq<int> {
        rounded_all(self.d.b0, self.p() as nat, self.d.q() as nat)
    }

    /// The second ring element of the second operand, scaled by `P / Q`.
    pub open spec fn c1(self) -> Seq<int> {
        rounded_all(self.d.b1, self.p() as nat, self.d.q() as nat)
    }

    /// The first ring element of the product, over the integers.
    pub open spec fn z0(self) -> Seq<int> {
        ring_product(self.d.a0, self.c0())
    }

    /// The second ring element of the product, over the integers.
    pub open spec fn z1(self) -> Seq<int> {
        combine(ring_product(self.d.a0, self.c1()), ring_product(self.d.a1, self.c0()), 1, 1)
    }

    /// The third ring element of the product, over the integers.
    pub open spec fn z2(self) -> Seq<int> {
        ring_product(self.d.a1, self.c1())
    }

    /// The first ring element of the product as the extended ring holds
    /// it: centered modulo the product of its moduli.
    pub open spec fn t0(self) -> Seq<int> {
        centered_coefficients(residues(self.z0(), self.d.em), self.d.em, self.d.n)
    }

    /// The second ring element of the product as the extended ring holds
    /// it.
    pub open spec fn t1(self) -> Seq<int> {
        centered_coefficients(residues(self.z1(), self.d.em), self.d.em, self.d.n)
    }

    /// The third ring element of the product as the extended ring holds
    /// it.
    pub open spec fn t2(self) -> Seq<int> {
        centered_coefficients(residues(self.z2(), self.d.em), self.d.em, self.d.n)
    }

    /// The first ring element of the product, brought down by `t / P`.
    pub open spec fn d0(self) -> Seq<int> {
        rounded_all(self.t0(), self.d.t as nat, self.p() as nat)
    }

    /// The second ring element of the product, brought down.
    pub open spec fn d1(self) -> Seq<int> {
        rounded_all(self.t1(), self.d.t as nat, self.p() as nat)
    }

    /// The third ring element of the product, brought down.
    pub open spec fn d2(self) -> Seq<int> {
        rounded_all(self.t2(), self.d.t as nat, self.p() as nat)
    }

    /// The noise that folding the third ring element adds.
    pub open spec fn folding_noise(self) -> Seq<int> {
        folding(self.d2(), self.d.key_noise, self.d.m, self.d.m.len())
    }

    /// The phase of the relinearized product.
    pub open spec fn phase_out(self) -> Seq<int> {
        combine(
            phase_of_three(self.d0(), self.d1(), self.d2(), self.d.s),
            self.folding_noise(),
            1,
            1,
        )
    }

    /// The data are those of a product, and the extended ring is the ring
    /// with the extending moduli.
    pub open spec fn shaped(self) -> bool {
        &&& self.d.shaped()
        &&& self.d.em == self.d.m + self.ext
        &&& self.p() >= 1
    }

    /// The phase of the scaled second operand.
    pub open spec fn phi_c(self) -> Seq<int> {
        combine(ring_product(self.c1(), self.d.s), self.c0(), 1, 1)
    }

    /// The product of the phase of the first operand and that of the
    /// scaled second operand.
    pub open spec fn phases(self) -> Seq<int> {
        ring_product(self.d.phi_a(), self.phi_c())
    }

    /// The phase of the three ring elements that the extended ring holds.
    pub open spec fn u(self) -> Seq<int> {
        phase_of_three(self.t0(), self.t1(), self.t2(), self.d.s)
    }

    /// The multiples of the product of the extended moduli by which the
    /// phase that the extended ring holds differs from the product of the
    /// phases.
    pub open spec fn wraps(self) -> Seq<int> {
        Seq::new(
            self.d.n,
            |k: int| (self.u()[k] - self.phases()[k]) / (self.p() * self.d.q()),
        )
    }

    /// What rounding leaves of the scaled second operand: `2 Q` times its
    /// phase less `2 P` times the phase of the second operand.
    pub open spec fn sigma(self) -> Seq<int> {
        combine(self.phi_c(), self.d.phi_b(), 2 * self.d.q(), -2 * self.p())
    }

    /// What rounding leaves of the phase: `2 P` times the phase brought
    /// down less `2 t` times the phase that the extended ring holds.
    pub open spec fn r(self) -> Seq<int> {
        combine(
            phase_of_three(self.d0(), self.d1(), self.d2(), self.d.s),
            self.u(),
            2 * self.p(),
            -2 * (self.d.t as int),
        )
    }

    /// The noise of the product: its phase less its scaled message times
    /// `-1/t`, and less a multiple of the ciphertext modulus.
    pub open spec fn e_out(self) -> Seq<int> {
        Seq::new(
            self.d.n,
            |k: int|
                self.phase_out()[k] - self.d.delta() * (self.d.j() * self.d.w()[k]) - self.d.q()
                    * (self.d.j() * self.d.mk()[k] + self.d.t * self.d.kk()[k] + self.d.t
                    * self.wraps()[k]),
        )
    }

    /// One more than how many times the product of the extending moduli
    /// goes into the ciphertext modulus.
    pub open spec fn slack(self) -> int {
        self.d.q() / self.p() + 1
    }

    /// The bound on what the roundings leave of the noise.
    pub open spec fn rounding_bound(self) -> int {
        self.d.message_bound() + (1 + self.d.n * self.d.bound) * (1 + self.d.n * self.d.bound) + 1
            + self.d.t * (self.d.n * (self.slack() * ((1 + self.d.n * self.d.bound) * (1
            + self.d.n * self.d.bound))))
    }

    /// The bound on the noise of the product.
    pub open spec fn noise_bound(self) -> int {
        self.d.folding_bound() + self.d.t * (2 * (self.d.n * (self.d.bound * self.d.t)))
            + self.d.t * (2 * (self.d.n * (self.d.bound * self.d.multiple_bound()))) + 2 * (
        self.d.n * (self.d.t * self.d.multiple_bound())) + self.rounding_bound()
    }

    /// The ciphertext modulus leaves room for the noise of the product.
    pub open spec fn within_product_budget(self) -> bool {
        2 * (self.d.t * self.noise_bound() + self.d.t * self.d.message_bound()) < self.d.q()
    }
}

/// The sizes of the data of a product with a scaled operand.
pub proof fn lemma_scaled_shape(sp: ScaledProduct)
    requires
        sp.shaped(),
    ensures
        sp.d.q() >= 2,
        sp.d.pq() == sp.p() * sp.d.q(),
        sp.c0().len() == sp.d.n,
        sp.c1().len() == sp.d.n,
        sp.z0().len() == sp.d.n,
        sp.z1().len() == sp.d.n,
        sp.z2().len() == sp.d.n,
        sp.t0().len() == sp.d.n,
        sp.t1().len() == sp.d.n,
        sp.t2().len() == sp.d.n,
        sp.d0().len() == sp.d.n,
        sp.d1().len() == sp.d.n,
        sp.d2().len() == sp.d.n,
        sp.phi_c().len() == sp.d.n,
        sp.phases().len() == sp.d.n,
        sp.u().len() == sp.d.n,
{
    lemma_operand_bounds(sp.d);
    lemma_product_concat(sp.d.m, sp.ext);
    let p = sp.p();
    let q = sp.d.q();
    assert(p * q == q * p) by (nonlinear_arith);
}

/// Bringing down the ring elements of the product gives the residues of
/// the coefficients that the extended ring holds, scaled by `t / P` and
/// rounded.
pub proof fn lemma_scaled_lowered(sp: ScaledProduct)
    requires
        sp.shaped(),
    ensures
        scaled_rows(
            backward_rows(forward_rows(residues(sp.z0(), sp.d.em), sp.d.em, sp.d.n), sp.d.em, sp.d.n),
            sp.d.em,
            sp.d.m,
            sp.d.n,
            sp.d.t as nat,
            sp.p() as nat,
        ) == residues(sp.d0(), sp.d.m),
        scaled_rows(
            backward_rows(forward_rows(residues(sp.z1(), sp.d.em), sp.d.em, sp.d.n), sp.d.em, sp.d.n),
            sp.d.em,
            sp.d.m,
            sp.d.n,
            sp.d.t as nat,
            sp.p() as nat,
        ) == residues(sp.d1(), sp.d.m),
        scaled_rows(
            backward_rows(forward_rows(residues(sp.z2(), sp.d.em), sp.d.em, sp.d.n), sp.d.em, sp.d.n),
            sp.d.em,
            sp.d.m,
            sp.d.n,
            sp.d.t as nat,
            sp.p() as nat,
        ) == residues(sp.d2(), sp.d.m),
{
    let em = sp.d.em;
    let m = sp.d.m;
    let n = sp.d.n;
    let t = sp.d.t as nat;
    let p = sp.p() as nat;
    lemma_scaled_shape(sp);
    lemma_residues_shape(sp.z0(), em, n);
    lemma_residues_shape(sp.z1(), em, n);
    lemma_residues_shape(sp.z2(), em, n);
    lemma_backward_forward_rows(residues(sp.z0(), em), em, n);
    lemma_backward_forward_rows(residues(sp.z1(), em), em, n);
    lemma_backward_forward_rows(residues(sp.z2(), em), em, n);
    lemma_scaled_rows(residues(sp.z0(), em), em, m, n, t, p);
    lemma_scaled_rows(residues(sp.z1(), em), em, m, n, t, p);
    lemma_scaled_rows(residues(sp.z2(), em), em, m, n, t, p);
}

/// The phase that the extended ring holds is the product of the phases
/// plus a multiple of the product of the extended moduli.
pub proof fn lemma_wraps(sp: ScaledProduct, k: int)
    requires
        sp.shaped(),
        0 <= k < sp.d.n,
    ensures
        sp.u()[k] == sp.phases()[k] + (sp.p() * sp.d.q()) * sp.wraps()[k],
{
    let em = sp.d.em;
    let n = sp.d.n;
    let s = sp.d.s;
    lemma_scaled_shape(sp);
    // what the ring holds has the residues of the products
    lemma_residues_shape(sp.z0(), em, n);
    lemma_residues_shape(sp.z1(), em, n);
    lemma_residues_shape(sp.z2(), em, n);
    lemma_residues_of_centered(residues(sp.z0(), em), em, n);
    lemma_residues_of_centered(residues(sp.z1(), em), em, n);
    lemma_residues_of_centered(residues(sp.z2(), em), em, n);
    lemma_phase_of_three(sp.t0(), sp.t1(), sp.t2(), s, em, n);
    lemma_phase_of_three(sp.z0(), sp.z1(), sp.z2(), s, em, n);
    let held = residues(sp.u(), em);
    let whole = residues(phase_of_three(sp.z0(), sp.z1(), sp.z2(), s), em);
    assert(forward_rows(held, em, n) == forward_rows(whole, em, n));
    lemma_residues_shape(sp.u(), em, n);
    lemma_residues_shape(phase_of_three(sp.z0(), sp.z1(), sp.z2(), s), em, n);
    lemma_backward_forward_rows(held, em, n);
    lemma_backward_forward_rows(whole, em, n);
    lemma_phase_product_residues(sp.d.a0, sp.d.a1, sp.c0(), sp.c1(), s, em, n);
    assert(held == residues(sp.phases(), em));
    lemma_residues_equal(sp.u(), sp.phases(), em, n, k);
    let big = sp.p() * sp.d.q();
    assert(big >= 2) by (nonlinear_arith)
        requires
            big == sp.p() * sp.d.q(),
            sp.p() >= 1,
            sp.d.q() >= 2,
    ;
    lemma_congruent_difference(sp.u()[k], sp.phases()[k], big);
    lemma_fundamental_div_mod(sp.u()[k] - sp.phases()[k], big);
}

/// What rounding leaves of the scaled second operand is the phase of what
/// it leaves of each of its ring elements, and is at most `Q (1 + n b)` in
/// absolute value.
pub proof fn lemma_sigma(sp: ScaledProduct)
    requires
        sp.shaped(),
    ensures
        bounded(sp.sigma(), sp.d.q() * (1 + sp.d.n * sp.d.bound)),
        sp.sigma().len() == sp.d.n,
{
    let d = sp.d;
    let q = d.q();
    let p = sp.p();
    let n = d.n as int;
    let b = d.bound;
    let nb = n * b;
    let s = d.s;
    lemma_scaled_shape(sp);
    let g0 = combine(sp.c0(), d.b0, 2 * q, -2 * p);
    let g1 = combine(sp.c1(), d.b1, 2 * q, -2 * p);
    assert forall|k: int| 0 <= k < n implies -q <= #[trigger] g0[k] <= q by {
        lemma_rounding_remainder(d.b0[k], p as nat, q as nat);
        assert((2 * q) * sp.c0()[k] + (-2 * p) * d.b0[k] == 2 * q * sp.c0()[k] - 2 * p * d.b0[k])
            by (nonlinear_arith);
    }
    assert forall|k: int| 0 <= k < n implies -q <= #[trigger] g1[k] <= q by {
        lemma_rounding_remainder(d.b1[k], p as nat, q as nat);
        assert((2 * q) * sp.c1()[k] + (-2 * p) * d.b1[k] == 2 * q * sp.c1()[k] - 2 * p * d.b1[k])
            by (nonlinear_arith);
    }
    lemma_product_left(sp.c1(), d.b1, s, 2 * q, -2 * p);
    lemma_product_bounded(g1, s, q, b);
    assert(nb >= 0) by (nonlinear_arith)
        requires
            nb == n * b,
            n >= 0,
            b >= 0,
    ;
    let b1 = n * (q * b);
    assert(b1 >= 0 && q + b1 == q * (1 + nb)) by (nonlinear_arith)
        requires
            b1 == n * (q * b),
            nb == n * b,
            n >= 0,
            q >= 0,
            b >= 0,
    ;
    lemma_combine_bounded(ring_product(g1, s), g0, 1, 1, b1, q);
    let alt = combine(ring_product(g1, s), g0, 1, 1);
    assert forall|k: int| 0 <= k < n implies sp.sigma()[k] == alt[k] by {
        let cs = ring_product(sp.c1(), s)[k];
        let bs = ring_product(d.b1, s)[k];
        let cv = sp.c0()[k];
        let bv = d.b0[k];
        assert(ring_product(g1, s)[k] == (2 * q) * cs + (-2 * p) * bs);
        assert(alt[k] == 1 * ((2 * q) * cs + (-2 * p) * bs) + 1 * ((2 * q) * cv + (-2 * p) * bv));
        assert(sp.sigma()[k] == (2 * q) * (1 * cs + 1 * cv) + (-2 * p) * (1 * bs + 1 * bv));
        assert((2 * q) * (cs + cv) == (2 * q) * cs + (2 * q) * cv) by (nonlinear_arith);
        assert((-2 * p) * (bs + bv) == (-2 * p) * bs + (-2 * p) * bv) by (nonlinear_arith);
    }
    assert(sp.sigma() =~= alt);
}

/// The noise of the product, up to the noises that add to it, times four
/// times the product of all the moduli: this is what the products of the
/// noises and of the messages, and the roundings, leave.
pub proof fn lemma_scaled_identity(sp: ScaledProduct, k: int)
    requires
        sp.shaped(),
        sp.d.linked(),
        0 <= k < sp.d.n,
    ensures
        4 * (sp.p() * sp.d.q()) * (sp.e_out()[k] - sp.folding_noise()[k] - sp.d.j() * sp.d.x()[k]
            - sp.d.t * sp.d.ek()[k] + sp.d.mk()[k]) == 4 * sp.p() * (sp.d.t * sp.d.ee()[k]
            - sp.d.x()[k] - sp.d.delta() * sp.d.w()[k]) + 2 * sp.d.t * ring_product(
            sp.d.phi_a(),
            sp.sigma(),
        )[k] + 2 * sp.d.q() * sp.r()[k],
{
    let d = sp.d;
    let q = d.q();
    let p = sp.p();
    let t = d.t as int;
    let dl = d.delta();
    let j = d.j();
    lemma_scaled_shape(sp);
    lemma_operand_bounds(d);
    lemma_scaled_expansion(d, k);
    lemma_wraps(sp, k);
    lemma_product_right(d.phi_a(), sp.phi_c(), d.phi_b(), 2 * q, -2 * p);
    let a = phase_of_three(sp.d0(), sp.d1(), sp.d2(), d.s)[k];
    let nk = sp.folding_noise()[k];
    let u = sp.u()[k];
    let w = sp.phases()[k];
    let v = ring_product(d.phi_a(), d.phi_b())[k];
    let kw = sp.wraps()[k];
    let g = ring_product(d.phi_a(), sp.sigma())[k];
    let r = sp.r()[k];
    let ee = d.ee()[k];
    let x = d.x()[k];
    let mw = d.w()[k];
    let ek = d.ek()[k];
    let mk = d.mk()[k];
    let kk = d.kk()[k];
    let e = sp.e_out()[k];
    let first = j * x + dl * (j * mw) + t * ek - mk;
    let second = j * mk + t * kk;
    let big = p * q;
    assert(sp.phase_out()[k] == 1 * a + 1 * nk);
    assert(e == a + nk - dl * (j * mw) - q * (second + t * kw));
    assert(r == (2 * p) * a + (-2 * t) * u);
    assert(g == (2 * q) * w + (-2 * p) * v);
    assert(u == w + big * kw);
    assert(t * v == t * ee - x - dl * mw + q * first + q * (q * second));
    let inner = e - nk - j * x - t * ek + mk;
    assert(q * (second + t * kw) == q * second + q * (t * kw)) by (nonlinear_arith);
    assert(inner == a - first - q * second - q * (t * kw));
    // the left side
    let x1 = q * (t * w);
    let x2 = p * (t * v);
    let x3 = q * (p * a);
    let x4 = p * (q * first);
    let x5 = p * (q * (q * second));
    let x6 = q * (t * (big * kw));
    assert(big * inner == x3 - x4 - x5 - x6) by {
        assert(big * inner == big * a - big * first - big * (q * second) - big * (q * (t * kw)))
            by (nonlinear_arith)
            requires
                inner == a - first - q * second - q * (t * kw),
        ;
        assert(big * a == x3) by (nonlinear_arith)
            requires
                big == p * q,
                x3 == q * (p * a),
        ;
        assert(big * first == x4) by (nonlinear_arith)
            requires
                big == p * q,
                x4 == p * (q * first),
        ;
        assert(big * (q * second) == x5) by (nonlinear_arith)
            requires
                big == p * q,
                x5 == p * (q * (q * second)),
        ;
        assert(big * (q * (t * kw)) == x6) by (nonlinear_arith)
            requires
                big == p * q,
                x6 == q * (t * (big * kw)),
        ;
    }
    // the right side
    let part = t * ee - x - dl * mw;
    assert(part == t * v - q * first - q * (q * second));
    assert(p * part == x2 - x4 - x5) by (nonlinear_arith)
        requires
            part == t * v - q * first - q * (q * second),
            x2 == p * (t * v),
            x4 == p * (q * first),
            x5 == p * (q * (q * second)),
    ;
    assert(t * g == 2 * x1 - 2 * x2) by (nonlinear_arith)
        requires
            g == (2 * q) * w + (-2 * p) * v,
            x1 == q * (t * w),
            x2 == p * (t * v),
    ;
    assert(q * r == 2 * x3 - 2 * x1 - 2 * x6) by {
        assert(t * u == t * w + t * (big * kw)) by (nonlinear_arith)
            requires
                u == w + big * kw,
        ;
        assert(q * (t * u) == x1 + x6) by (nonlinear_arith)
            requires
                t * u == t * w + t * (big * kw),
                x1 == q * (t * w),
                x6 == q * (t * (big * kw)),
        ;
        assert(q * r == 2 * (q * (p * a)) - 2 * (q * (t * u))) by (nonlinear_arith)
            requires
                r == (2 * p) * a + (-2 * t) * u,
        ;
    }
    assert(4 * big * inner == 4 * (big * inner)) by (nonlinear_arith);
    assert(4 * p * part == 4 * (p * part)) by (nonlinear_arith);
    assert(2 * t * g == 2 * (t * g)) by (nonlinear_arith);
    assert(2 * q * r == 2 * (q * r)) by (nonlinear_arith);
}

/// Where the ciphertext modulus leaves room for the noise of the product,
/// the noise and the scaled message of the product are within the budget.
pub proof fn lemma_scaled_within_budget(sp: ScaledProduct, k: int)
    requires
        sp.shaped(),
        sp.d.linked(),
        sp.within_product_budget(),
        0 <= k < sp.d.n,
    ensures
        -sp.d.q() <= 2 * (sp.d.t * sp.e_out()[k] - sp.d.m_out()[k]) < sp.d.q(),
{
    let d = sp.d;
    let q = d.q();
    let p = sp.p();
    let n = d.n as int;
    let b = d.bound;
    let t = d.t as int;
    let nb = n * b;
    let c = sp.slack();
    let bk = d.multiple_bound();
    let bw = d.message_bound();
    let bf = d.folding_bound();
    let bx = 2 * (n * (b * t));
    let bek = 2 * (n * (b * bk));
    let bmk = 2 * (n * (t * bk));
    let bee = n * (b * b);
    let sq = (1 + nb) * (1 + nb);
    let bc = t * (n * (c * sq));
    let bz = sp.rounding_bound();
    let be = sp.noise_bound();
    lemma_scaled_shape(sp);
    lemma_operand_bounds(d);
    lemma_inverse(d);
    let j = d.j();
    let dl = d.delta();
    // the signs of the bounds
    assert(nb >= 0 && bk >= 2 && bk >= nb) by (nonlinear_arith)
        requires
            nb == n * b,
            bk == 2 + n * b + t,
            n >= 0,
            b >= 0,
            t >= 0,
    ;
    assert(sq >= 1) by (nonlinear_arith)
        requires
            sq == (1 + nb) * (1 + nb),
            nb >= 0,
    ;
    assert(bw >= 0 && bx >= 0 && bek >= 0 && bmk >= 0 && bee >= 0) by (nonlinear_arith)
        requires
            bw == n * (t * t),
            bx == 2 * (n * (b * t)),
            bek == 2 * (n * (b * bk)),
            bmk == 2 * (n * (t * bk)),
            bee == n * (b * b),
            n >= 0,
            b >= 0,
            t >= 0,
            bk >= 0,
    ;
    // the slack
    lemma_fundamental_div_mod(q, p);
    lemma_mod_bound(q, p);
    lemma_div_pos_is_pos(q, p);
    assert(c >= 1);
    assert(q < c * p) by (nonlinear_arith)
        requires
            q == p * (q / p) + q % p,
            q % p < p,
            c == q / p + 1,
    ;
    assert(bc >= 0) by (nonlinear_arith)
        requires
            bc == t * (n * (c * sq)),
            t >= 0,
            n >= 0,
            c >= 0,
            sq >= 0,
    ;
    assert(bz == bw + sq + 1 + bc);
    let qm = 0x4000_0000_0000_0000int;
    let each = n * (qm * b);
    assert(each >= b) by (nonlinear_arith)
        requires
            each == n * (qm * b),
            n >= 1,
            qm >= 1,
            b >= 0,
    ;
    assert(bf >= b) by (nonlinear_arith)
        requires
            bf == d.m.len() * each,
            d.m.len() >= 1,
            each >= b,
            b >= 0,
    ;
    assert(be == bf + t * bx + t * bek + bmk + bz);
    assert(t * bx >= bx && t * bek >= 0) by (nonlinear_arith)
        requires
            t >= 2,
            bx >= 0,
            bek >= 0,
    ;
    assert(be >= b && be >= 0);
    assert(t * be >= be && t * bw >= 0) by (nonlinear_arith)
        requires
            t >= 2,
            be >= 0,
            bw >= 0,
    ;
    assert(b <= q);
    // the parts of the noise
    lemma_part_bounds(d, k);
    lemma_folding_bound(sp.d2(), d.key_noise, d.m, d.n, b, d.m.len());
    lemma_rounding_phase(sp.t0(), sp.t1(), sp.t2(), d.s, d.t as nat, p as nat, b);
    lemma_sigma(sp);
    let pb = q * (1 + nb);
    lemma_product_bounded(d.phi_a(), sp.sigma(), pb, pb);
    let ee = d.ee()[k];
    let x = d.x()[k];
    let w = d.w()[k];
    let ek = d.ek()[k];
    let mk = d.mk()[k];
    let r = sp.r()[k];
    let g = ring_product(d.phi_a(), sp.sigma())[k];
    let nk = sp.folding_noise()[k];
    let e = sp.e_out()[k];
    assert(-bee <= ee <= bee);
    assert(-bw <= w <= bw);
    assert(-bx <= x <= bx);
    assert(-bek <= ek <= bek);
    assert(-bmk <= mk <= bmk);
    assert(-(p * sq) <= r <= p * sq);
    assert(-bf <= nk <= bf);
    let bg = n * (pb * pb);
    assert(-bg <= g <= bg);
    assert(bg == n * ((q * q) * sq)) by (nonlinear_arith)
        requires
            bg == n * (pb * pb),
            pb == q * (1 + nb),
            sq == (1 + nb) * (1 + nb),
    ;
    // what the products and the roundings leave
    lemma_scaled_identity(sp, k);
    let big = p * q;
    assert(big >= 2) by (nonlinear_arith)
        requires
            big == p * q,
            p >= 1,
            q >= 2,
    ;
    let inner = e - nk - j * x - t * ek + mk;
    let part = t * ee - x - dl * w;
    let rest = 4 * p * part + 2 * t * g + 2 * q * r;
    assert(4 * big * inner == rest);
    assert(-(q * bw) <= dl * w <= q * bw) by (nonlinear_arith)
        requires
            0 <= dl < q,
            -bw <= w <= bw,
    ;
    assert(-(t * bee) <= t * ee <= t * bee) by (nonlinear_arith)
        requires
            -bee <= ee <= bee,
            t >= 0,
    ;
    assert(2 * (t * bee) <= t * bek) by (nonlinear_arith)
        requires
            bee == n * (b * b),
            bek == 2 * (n * (b * bk)),
            bk >= nb,
            nb == n * b,
            n >= 1,
            b >= 0,
            t >= 0,
    ;
    assert(2 * (t * bee) + 2 * bx <= 2 * be);
    assert(2 * be <= 2 * (t * be));
    assert(t * bee + bx <= q);
    assert(-(q + q * bw) <= part <= q + q * bw);
    assert(-(big * (1 + bw)) <= p * part <= big * (1 + bw)) by (nonlinear_arith)
        requires
            -(q + q * bw) <= part <= q + q * bw,
            big == p * q,
            p >= 1,
    ;
    // the rounding of the second operand
    assert(-(big * bc) <= t * g <= big * bc) by {
        assert(-(t * bg) <= t * g <= t * bg) by (nonlinear_arith)
            requires
                -bg <= g <= bg,
                t >= 0,
        ;
        assert(q * q <= big * c) by (nonlinear_arith)
            requires
                q < c * p,
                big == p * q,
                q >= 0,
        ;
        let nsq = n * sq;
        assert(nsq >= 0) by (nonlinear_arith)
            requires
                nsq == n * sq,
                n >= 0,
                sq >= 0,
        ;
        assert(bg == (q * q) * nsq) by (nonlinear_arith)
            requires
                bg == n * ((q * q) * sq),
                nsq == n * sq,
        ;
        assert((q * q) * nsq <= (big * c) * nsq) by (nonlinear_arith)
            requires
                q * q <= big * c,
                nsq >= 0,
        ;
        assert(t * ((big * c) * nsq) == big * bc) by (nonlinear_arith)
            requires
                bc == t * (n * (c * sq)),
                nsq == n * sq,
        ;
        assert(t * bg <= t * ((big * c) * nsq)) by (nonlinear_arith)
            requires
                bg <= (big * c) * nsq,
                t >= 0,
        ;
    }
    assert(-(big * sq) <= q * r <= big * sq) by (nonlinear_arith)
        requires
            -(p * sq) <= r <= p * sq,
            big == p * q,
            q >= 0,
    ;
    assert(4 * p * part == 4 * (p * part)) by (nonlinear_arith);
    assert(2 * t * g == 2 * (t * g)) by (nonlinear_arith);
    assert(2 * q * r == 2 * (q * r)) by (nonlinear_arith);
    assert(4 * big * inner == 4 * (big * inner)) by (nonlinear_arith);
    assert(big * bz == big * (1 + bw) + big * bc + big * sq) by (nonlinear_arith)
        requires
            bz == bw + sq + 1 + bc,
    ;
    assert(big * bc >= 0 && big * sq >= 0) by (nonlinear_arith)
        requires
            big >= 0,
            bc >= 0,
            sq >= 0,
    ;
    assert(-(4 * (big * bz)) <= 4 * (big * inner) <= 4 * (big * bz));
    assert(-bz <= inner <= bz) by (nonlinear_arith)
        requires
            -(big * bz) <= big * inner <= big * bz,
            big >= 2,
    ;
    assert(-(t * bx) <= j * x <= t * bx) by (nonlinear_arith)
        requires
            1 <= j <= t,
            -bx <= x <= bx,
    ;
    assert(-(t * bek) <= t * ek <= t * bek) by (nonlinear_arith)
        requires
            t >= 0,
            -bek <= ek <= bek,
    ;
    assert(-be <= e <= be);
    assert(-(t * be) <= t * e <= t * be) by (nonlinear_arith)
        requires
            t >= 0,
            -be <= e <= be,
    ;
    assert(-(t * bw) <= j * w <= t * bw) by (nonlinear_arith)
        requires
            1 <= j <= t,
            -bw <= w <= bw,
    ;
    assert(d.m_out()[k] == j * w);
}

/// The phase of the relinearized product is, modulo each modulus of the
/// ring, the noise of the product plus its scaled message times `-1/t`.
pub proof fn lemma_scaled_carried(sp: ScaledProduct)
    requires
        sp.shaped(),
        sp.d.linked(),
    ensures
        residues(sp.phase_out(), sp.d.m) == noisy_rows(
            sp.e_out(),
            sp.d.m_out(),
            sp.d.delta(),
            sp.d.m,
            sp.d.n,
        ),
        sp.phase_out().len() == sp.d.n,
        sp.e_out().len() == sp.d.n,
        sp.d.m_out().len() == sp.d.n,
{
    let d = sp.d;
    let q = d.q();
    lemma_scaled_shape(sp);
    let left = residues(sp.phase_out(), d.m);
    let right = noisy_rows(sp.e_out(), d.m_out(), d.delta(), d.m, d.n);
    assert forall|i: int| 0 <= i < d.m.len() implies left[i] =~= right[i] by {
        lemma_valid_ring(d.m, d.n, i);
        let pi = d.m[i] as int;
        assert forall|l: int| 0 <= l < d.m.len() implies (#[trigger] d.m[l]) >= 1 by {
            lemma_valid_ring(d.m, d.n, l);
        }
        lemma_modulus_divides_product(d.m, i);
        assert forall|k: int| 0 <= k < d.n implies left[i][k] == right[i][k] by {
            let z = d.j() * d.mk()[k] + d.t * d.kk()[k] + d.t * sp.wraps()[k];
            let y = sp.e_out()[k] + d.delta() * d.m_out()[k];
            assert(sp.phase_out()[k] == y + q * z);
            lemma_congruent_multiple(y, z, q);
            lemma_congruent_divisor(y + q * z, y, q, pi);
        }
    }
    assert(left =~= right);
}

} // verus!
