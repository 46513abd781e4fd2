//! The product of two ciphertexts, in terms of the integers that the ring
//! elements stand for.

use crate::congruence::{congruent, lemma_congruent_divisor, lemma_residue_congruent};
use crate::correctness::{delta_value, noisy_rows};
use crate::extension::{lemma_lowered, rounded_all};
use crate::integer_ring::{
    bounded, combine, lemma_combine_bounded, lemma_product_bounded, lemma_product_left,
    lemma_product_right, lemma_residues_combine, lemma_residues_product, lemma_residues_shape,
    residues, ring_product,
};
use crate::key_switching::switched;
use crate::moduli::delta_exists;
use crate::plaintext::plain_rows;
use crate::rns::product_of;
use crate::rows_algebra::{lemma_add_rows_is_lincomb, lemma_forward_rows_shape, lemma_valid_ring};
use crate::rq::{
    add_rows, backward_rows, forward_rows, mul_rows, valid_ring, value_rows, well_shaped,
    zero_rows,
};
use crate::scaler::{rounded, scaled_rows};
use crate::secret_key::phase;
use vstd::arithmetic::div_mod::*;
use vstd::prelude::*;

verus! {

/// What a product of two ciphertexts is made of, as integers.
pub struct ProductData {
    /// The moduli of the ring of the ciphertexts.
    pub m: Seq<u64>,
    /// The moduli of the extended ring.
    pub em: Seq<u64>,
    /// The degree of the rings.
    pub n: nat,
    /// The plaintext modulus.
    pub t: u64,
    /// The bound on the coefficients of the secret and of the noises.
    pub bound: int,
    /// The coefficients of the secret.
    pub s: Seq<int>,
    /// The centered coefficients of the first ring element of the first
    /// operand.
    pub a0: Seq<int>,
    /// The centered coefficients of its second ring element.
    pub a1: Seq<int>,
    /// The centered coefficients of the first ring element of the second
    /// operand.
    pub b0: Seq<int>,
    /// The centered coefficients of its second ring element.
    pub b1: Seq<int>,
    /// The noise of the first operand.
    pub ea: Seq<int>,
    /// The scaled message of the first operand.
    pub ma: Seq<int>,
    /// The noise of the second operand.
    pub eb: Seq<int>,
    /// The scaled message of the second operand.
    pub mb: Seq<int>,
    /// The noises of the components of the relinearization key.
    pub key_noise: Seq<Seq<int>>,
}

/// `x0 + x1 s + (x2 s) s`: the phase of three ring elements, as integers.
pub open spec fn phase_of_three(x0: Seq<int>, x1: Seq<int>, x2: Seq<int>, s: Seq<int>) -> Seq<int> {
    combine(combine(x0, ring_product(x1, s), 1, 1), ring_product(ring_product(x2, s), s), 1, 1)
}

/// The residues of the coefficients of `x` modulo `q`, as integers.
pub open spec fn digits(x: Seq<int>, q: int) -> Seq<int> {
    Seq::new(x.len(), |j: int| x[j] % q)
}

/// The noise that the first `i` components of a key with the noises
/// `key_noise` add when the ring element `x` is folded: the sum of the
/// products of its digits and the noises.
pub open spec fn folding(x: Seq<int>, key_noise: Seq<Seq<int>>, m: Seq<u64>, i: nat) -> Seq<int>
    decreases i,
{
    if i == 0 {
        Seq::new(x.len(), |j: int| 0int)
    } else {
        combine(
            folding(x, key_noise, m, (i - 1) as nat),
            ring_product(digits(x, m[i - 1] as int), key_noise[i - 1]),
            1,
            1,
        )
    }
}

impl ProductData {
    /// The ciphertext modulus.
    pub open spec fn q(self) -> int {
        product_of(self.m) as int
    }

    /// The product of the moduli of the extended ring.
    pub open spec fn pq(self) -> int {
        product_of(self.em) as int
    }

    /// The number `-1/t` modulo the ciphertext modulus.
    pub open spec fn delta(self) -> int {
        delta_value(self.t, self.m)
    }

    /// The first ring element of the product in the extended ring.
    pub open spec fn t0(self) -> Seq<int> {
        ring_product(self.a0, self.b0)
    }

    /// The second ring element of the product in the extended ring.
    pub open spec fn t1(self) -> Seq<int> {
        combine(ring_product(self.a0, self.b1), ring_product(self.a1, self.b0), 1, 1)
    }

    /// The third ring element of the product in the extended ring.
    pub open spec fn t2(self) -> Seq<int> {
        ring_product(self.a1, self.b1)
    }

    /// The first ring element of the product, brought down.
    pub open spec fn d0(self) -> Seq<int> {
        rounded_all(self.t0(), self.t as nat, self.q() as nat)
    }

    /// The second ring element of the product, brought down.
    pub open spec fn d1(self) -> Seq<int> {
        rounded_all(self.t1(), self.t as nat, self.q() as nat)
    }

    /// The third ring element of the product, brought down.
    pub open spec fn d2(self) -> Seq<int> {
        rounded_all(self.t2(), self.t as nat, self.q() as nat)
    }

    /// The noise that the first `i` components of the key add when the
    /// third ring element is folded.
    pub open spec fn folding_noise(self, i: nat) -> Seq<int> {
        folding(self.d2(), self.key_noise, self.m, i)
    }

    /// The phase of the relinearized product.
    pub open spec fn phase_out(self) -> Seq<int> {
        combine(
            phase_of_three(self.d0(), self.d1(), self.d2(), self.s),
            self.folding_noise(self.m.len()),
            1,
            1,
        )
    }

    /// The data are those of a product in rings of the degree, with
    /// bounded secret and noises and centered operands.
    pub open spec fn shaped(self) -> bool {
        &&& valid_ring(self.m, self.n)
        &&& valid_ring(self.em, self.n)
        &&& delta_exists(self.t as int, self.m)
        &&& 2 <= self.t
        &&& self.bound >= 0
        &&& self.s.len() == self.n
        &&& self.a0.len() == self.n
        &&& self.a1.len() == self.n
        &&& self.b0.len() == self.n
        &&& self.b1.len() == self.n
        &&& self.ea.len() == self.n
        &&& self.ma.len() == self.n
        &&& self.eb.len() == self.n
        &&& self.mb.len() == self.n
        &&& self.key_noise.len() == self.m.len()
        &&& forall|l: int|
            0 <= l < self.m.len() ==> (#[trigger] self.key_noise[l]).len() == self.n && bounded(
                self.key_noise[l],
                self.bound,
            )
        &&& bounded(self.s, self.bound)
        &&& bounded(self.ea, self.bound)
        &&& bounded(self.eb, self.bound)
        &&& bounded(self.ma, self.t as int)
        &&& bounded(self.mb, self.t as int)
        &&& bounded(self.a0, self.q())
        &&& bounded(self.a1, self.q())
        &&& bounded(self.b0, self.q())
        &&& bounded(self.b1, self.q())
    }

    /// The data are those of a product through an extended ring that has
    /// room for the product of the phases.
    pub open spec fn ready(self) -> bool {
        self.shaped() && self.extension_has_room()
    }

    /// The product of the moduli of the extended ring is more than four
    /// times the bound on the product of the phases of the operands.
    pub open spec fn extension_has_room(self) -> bool {
        4 * self.n * (self.q() * self.q()) * ((1 + self.n * self.bound) * (1 + self.n
            * self.bound)) < self.pq()
    }
}

/// The ring elements of a product in a ring are the transforms of the
/// residues of the products of the coefficients of the operands.
pub proof fn lemma_tensor_rows(
    x0: Seq<int>,
    x1: Seq<int>,
    y0: Seq<int>,
    y1: Seq<int>,
    em: Seq<u64>,
    n: nat,
)
    requires
        valid_ring(em, n),
        x0.len() == n,
        x1.len() == n,
        y0.len() == n,
        y1.len() == n,
    ensures
        mul_rows(
            forward_rows(residues(x0, em), em, n),
            forward_rows(residues(y0, em), em, n),
            em,
        ) == forward_rows(residues(ring_product(x0, y0), em), em, n),
        add_rows(
            mul_rows(
                forward_rows(residues(x0, em), em, n),
                forward_rows(residues(y1, em), em, n),
                em,
            ),
            mul_rows(
                forward_rows(residues(x1, em), em, n),
                forward_rows(residues(y0, em), em, n),
                em,
            ),
            em,
        ) == forward_rows(
            residues(combine(ring_product(x0, y1), ring_product(x1, y0), 1, 1), em),
            em,
            n,
        ),
        mul_rows(
            forward_rows(residues(x1, em), em, n),
            forward_rows(residues(y1, em), em, n),
            em,
        ) == forward_rows(residues(ring_product(x1, y1), em), em, n),
{
    lemma_residues_product(x0, y0, em, n);
    lemma_residues_product(x0, y1, em, n);
    lemma_residues_product(x1, y0, em, n);
    lemma_residues_product(x1, y1, em, n);
    let x = ring_product(x0, y1);
    let y = ring_product(x1, y0);
    lemma_residues_combine(x, y, 1, 1, em, n);
    lemma_add_rows_is_lincomb(
        forward_rows(residues(x, em), em, n),
        forward_rows(residues(y, em), em, n),
        em,
    );
}

/// The ring elements of the product in the extended ring have
/// coefficients below half the product of the extended moduli.
pub proof fn lemma_tensor_bounds(d: ProductData)
    requires
        d.ready(),
    ensures
        bounded(d.t0(), d.n * (d.q() * d.q())),
        bounded(d.t1(), 2 * (d.n * (d.q() * d.q()))),
        bounded(d.t2(), d.n * (d.q() * d.q())),
        d.t0().len() == d.n,
        d.t1().len() == d.n,
        d.t2().len() == d.n,
        4 * (d.n * (d.q() * d.q())) < d.pq(),
        d.q() >= 2,
{
    let q = d.q();
    let n = d.n as int;
    crate::rns::lemma_product_at_least_two(d.m);
    lemma_product_bounded(d.a0, d.b0, q, q);
    lemma_product_bounded(d.a0, d.b1, q, q);
    lemma_product_bounded(d.a1, d.b0, q, q);
    lemma_product_bounded(d.a1, d.b1, q, q);
    assert(n * (q * q) >= 0) by (nonlinear_arith)
        requires
            n >= 0,
    ;
    lemma_combine_bounded(
        ring_product(d.a0, d.b1),
        ring_product(d.a1, d.b0),
        1,
        1,
        n * (q * q),
        n * (q * q),
    );
    let w = (1 + n * d.bound) * (1 + n * d.bound);
    assert(w >= 1) by (nonlinear_arith)
        requires
            w == (1 + n * d.bound) * (1 + n * d.bound),
            n >= 0,
            d.bound >= 0,
    ;
    assert(4 * (n * (q * q)) <= 4 * n * (q * q) * w) by (nonlinear_arith)
        requires
            w >= 1,
            n >= 0,
    ;
}

/// Bringing down the ring elements of the product gives the residues of
/// their coefficients, scaled by `t / Q` and rounded.
pub proof fn lemma_lowered_rows(d: ProductData)
    requires
        d.ready(),
    ensures
        scaled_rows(
            backward_rows(forward_rows(residues(d.t0(), d.em), d.em, d.n), d.em, d.n),
            d.em,
            d.m,
            d.n,
            d.t as nat,
            d.q() as nat,
        ) == residues(d.d0(), d.m),
        scaled_rows(
            backward_rows(forward_rows(residues(d.t1(), d.em), d.em, d.n), d.em, d.n),
            d.em,
            d.m,
            d.n,
            d.t as nat,
            d.q() as nat,
        ) == residues(d.d1(), d.m),
        scaled_rows(
            backward_rows(forward_rows(residues(d.t2(), d.em), d.em, d.n), d.em, d.n),
            d.em,
            d.m,
            d.n,
            d.t as nat,
            d.q() as nat,
        ) == residues(d.d2(), d.m),
{
    lemma_tensor_bounds(d);
    lemma_lowered(d.t0(), d.em, d.m, d.n, d.t as nat, d.q() as nat);
    lemma_lowered(d.t1(), d.em, d.m, d.n, d.t as nat, d.q() as nat);
    lemma_lowered(d.t2(), d.em, d.m, d.n, d.t as nat, d.q() as nat);
}

/// The phase of three transformed ring elements under the secret is the
/// transform of the residues of their phase as integers.
pub proof fn lemma_phase_of_three(
    x0: Seq<int>,
    x1: Seq<int>,
    x2: Seq<int>,
    s: Seq<int>,
    m: Seq<u64>,
    n: nat,
)
    requires
        valid_ring(m, n),
        x0.len() == n,
        x1.len() == n,
        x2.len() == n,
        s.len() == n,
    ensures
        phase(
            seq![
                forward_rows(residues(x0, m), m, n),
                forward_rows(residues(x1, m), m, n),
                forward_rows(residues(x2, m), m, n),
            ],
            forward_rows(residues(s, m), m, n),
            m,
            0,
        ) == forward_rows(residues(phase_of_three(x0, x1, x2, s), m), m, n),
{
    reveal_with_fuel(phase, 4);
    let f0 = forward_rows(residues(x0, m), m, n);
    let f1 = forward_rows(residues(x1, m), m, n);
    let f2 = forward_rows(residues(x2, m), m, n);
    let fs = forward_rows(residues(s, m), m, n);
    let limbs = seq![f0, f1, f2];
    assert(phase(limbs, fs, m, 1) == add_rows(mul_rows(f2, fs, m), f1, m));
    assert(phase(limbs, fs, m, 0) == add_rows(
        mul_rows(add_rows(mul_rows(f2, fs, m), f1, m), fs, m),
        f0,
        m,
    ));
    let x2s = ring_product(x2, s);
    lemma_residues_product(x2, s, m, n);
    let inner = combine(x2s, x1, 1, 1);
    lemma_residues_combine(x2s, x1, 1, 1, m, n);
    lemma_add_rows_is_lincomb(forward_rows(residues(x2s, m), m, n), f1, m);
    let inner_s = ring_product(inner, s);
    lemma_residues_product(inner, s, m, n);
    lemma_residues_combine(inner_s, x0, 1, 1, m, n);
    lemma_add_rows_is_lincomb(forward_rows(residues(inner_s, m), m, n), f0, m);
    // (x2 s + x1) s + x0 == x0 + x1 s + (x2 s) s
    lemma_product_left(x2s, x1, s, 1, 1);
    let got = combine(inner_s, x0, 1, 1);
    let want = phase_of_three(x0, x1, x2, s);
    assert(got =~= want);
}

/// The rows of residues of the digits of `x` modulo a modulus of the ring
/// are the rows of values of the row of `x` at that modulus.
pub proof fn lemma_digit_rows(x: Seq<int>, m: Seq<u64>, n: nat, l: int)
    requires
        valid_ring(m, n),
        x.len() == n,
        0 <= l < m.len(),
    ensures
        plain_rows(residues(x, m)[l], m, n) == forward_rows(
            residues(digits(x, m[l] as int), m),
            m,
            n,
        ),
{
    lemma_valid_ring(m, n, l);
    let row = residues(x, m)[l];
    let left = value_rows(row, m, n);
    let right = residues(digits(x, m[l] as int), m);
    assert forall|i: int| 0 <= i < m.len() implies left[i] =~= right[i] by {
        assert forall|j: int| 0 <= j < n implies left[i][j] == right[i][j] by {
            lemma_mod_bound(x[j], m[l] as int);
        }
    }
    assert(left =~= right);
}

/// The noise that folding adds is the transform of the residues of the
/// folding noise as integers.
pub proof fn lemma_folding_noise(
    x: Seq<int>,
    key_noise: Seq<Seq<int>>,
    m: Seq<u64>,
    n: nat,
    i: nat,
)
    requires
        valid_ring(m, n),
        x.len() == n,
        key_noise.len() == m.len(),
        forall|l: int| 0 <= l < m.len() ==> (#[trigger] key_noise[l]).len() == n,
        i <= m.len(),
    ensures
        switched(
            zero_rows(m.len(), n),
            residues(x, m),
            Seq::new(m.len(), |l: int| forward_rows(residues(key_noise[l], m), m, n)),
            m,
            n,
            i,
        ) == forward_rows(residues(folding(x, key_noise, m, i), m), m, n),
        folding(x, key_noise, m, i).len() == n,
    decreases i,
{
    let zero = zero_rows(m.len(), n);
    let noises = Seq::new(m.len(), |l: int| forward_rows(residues(key_noise[l], m), m, n));
    if i == 0 {
        let z = folding(x, key_noise, m, 0);
        let r = residues(z, m);
        assert forall|j: int| 0 <= j < m.len() implies forward_rows(r, m, n)[j] == zero[j] by {
            lemma_valid_ring(m, n, j);
            lemma_small_mod(0, m[j] as nat);
            assert(r[j] =~= crate::ntt_linear::constant_seq(0, n));
            crate::ntt_linear::lemma_ntt_constant(
                0,
                n,
                crate::ntt::twiddles(m[j] as int, n),
                1,
                m[j] as int,
            );
            assert(zero[j] =~= crate::ntt_linear::repeated(0, n));
        }
        assert(forward_rows(r, m, n) =~= zero);
    } else {
        let l = (i - 1) as int;
        lemma_folding_noise(x, key_noise, m, n, (i - 1) as nat);
        let before = folding(x, key_noise, m, (i - 1) as nat);
        let dg = digits(x, m[l] as int);
        let term = ring_product(dg, key_noise[l]);
        lemma_digit_rows(x, m, n, l);
        lemma_residues_product(dg, key_noise[l], m, n);
        lemma_residues_combine(before, term, 1, 1, m, n);
        lemma_add_rows_is_lincomb(
            forward_rows(residues(before, m), m, n),
            forward_rows(residues(term, m), m, n),
            m,
        );
    }
}

impl ProductData {
    /// The phase of the first operand: its first ring element plus its
    /// second times the secret.
    pub open spec fn phi_a(self) -> Seq<int> {
        combine(ring_product(self.a1, self.s), self.a0, 1, 1)
    }

    /// The phase of the second operand.
    pub open spec fn phi_b(self) -> Seq<int> {
        combine(ring_product(self.b1, self.s), self.b0, 1, 1)
    }

    /// The phase of the three ring elements of the product in the extended
    /// ring.
    pub open spec fn u(self) -> Seq<int> {
        phase_of_three(self.t0(), self.t1(), self.t2(), self.s)
    }

    /// The bound on the coefficients of the product of the two phases.
    pub open spec fn phase_bound(self) -> int {
        self.n * (self.q() * self.q()) * ((1 + self.n * self.bound) * (1 + self.n * self.bound))
    }
}

/// One entry of the product of two phases: `(a1 s + a0)(b1 s + b0)` is
/// `((a1 b1) s + (a0 b1 + a1 b0)) s + a0 b0`, with every sum and product
/// reduced.
pub proof fn lemma_tensor_entry(a0: int, a1: int, b0: int, b1: int, s: int, q: int)
    requires
        q > 0,
    ensures
        ((((((((a1 * b1) % q) * s) % q + ((a0 * b1) % q + (a1 * b0) % q) % q) % q) * s) % q) + (a0
            * b0) % q) % q == ((((a1 * s) % q + a0) % q) * (((b1 * s) % q + b0) % q)) % q,
{
    let t2 = (a1 * b1) % q;
    let t1 = ((a0 * b1) % q + (a1 * b0) % q) % q;
    let t0 = (a0 * b0) % q;
    let inner = ((t2 * s) % q + t1) % q;
    let pa = ((a1 * s) % q + a0) % q;
    let pb = ((b1 * s) % q + b0) % q;
    lemma_residue_congruent(a1 * b1, q);
    lemma_residue_congruent(a0 * b1, q);
    lemma_residue_congruent(a1 * b0, q);
    lemma_residue_congruent(a0 * b0, q);
    lemma_residue_congruent((a0 * b1) % q + (a1 * b0) % q, q);
    crate::congruence::lemma_congruent_add((a0 * b1) % q, (a1 * b0) % q, a0 * b1, a1 * b0, q);
    crate::congruence::lemma_congruent_mul(t2, s, a1 * b1, s, q);
    lemma_residue_congruent(t2 * s, q);
    crate::congruence::lemma_congruent_add((t2 * s) % q, t1, (a1 * b1) * s, a0 * b1 + a1 * b0, q);
    lemma_residue_congruent((t2 * s) % q + t1, q);
    crate::congruence::lemma_congruent_mul(inner, s, (a1 * b1) * s + (a0 * b1 + a1 * b0), s, q);
    lemma_residue_congruent(inner * s, q);
    crate::congruence::lemma_congruent_add(
        (inner * s) % q,
        t0,
        ((a1 * b1) * s + (a0 * b1 + a1 * b0)) * s,
        a0 * b0,
        q,
    );
    // the right side
    lemma_residue_congruent(a1 * s, q);
    lemma_residue_congruent(b1 * s, q);
    lemma_residue_congruent((a1 * s) % q + a0, q);
    lemma_residue_congruent((b1 * s) % q + b0, q);
    crate::congruence::lemma_congruent_add((a1 * s) % q, a0, a1 * s, a0, q);
    crate::congruence::lemma_congruent_add((b1 * s) % q, b0, b1 * s, b0, q);
    crate::congruence::lemma_congruent_mul(pa, pb, a1 * s + a0, b1 * s + b0, q);
    assert(((a1 * b1) * s + (a0 * b1 + a1 * b0)) * s + a0 * b0 == (a1 * s + a0) * (b1 * s + b0))
        by {
        assert((a1 * s + a0) * (b1 * s + b0) == (a1 * s) * (b1 * s + b0) + a0 * (b1 * s + b0))
            by (nonlinear_arith);
        assert((a1 * s) * (b1 * s + b0) == (a1 * s) * (b1 * s) + (a1 * s) * b0)
            by (nonlinear_arith);
        assert(a0 * (b1 * s + b0) == a0 * (b1 * s) + a0 * b0) by (nonlinear_arith);
        assert((a1 * s) * (b1 * s) == ((a1 * b1) * s) * s) by (nonlinear_arith);
        assert((a1 * s) * b0 == (a1 * b0) * s) by (nonlinear_arith);
        assert(a0 * (b1 * s) == (a0 * b1) * s) by (nonlinear_arith);
        assert(((a1 * b1) * s + (a0 * b1 + a1 * b0)) * s == ((a1 * b1) * s) * s + (a0 * b1) * s
            + (a1 * b0) * s) by (nonlinear_arith);
    }
}

/// The phase of the product of two pairs of ring elements is the product
/// of their phases, row by row.
pub proof fn lemma_tensor_phase(
    a0: Seq<Seq<u64>>,
    a1: Seq<Seq<u64>>,
    b0: Seq<Seq<u64>>,
    b1: Seq<Seq<u64>>,
    s: Seq<Seq<u64>>,
    m: Seq<u64>,
    n: nat,
)
    requires
        valid_ring(m, n),
        well_shaped(a0, m, n),
        well_shaped(a1, m, n),
        well_shaped(b0, m, n),
        well_shaped(b1, m, n),
        well_shaped(s, m, n),
    ensures
        phase(
            seq![
                mul_rows(a0, b0, m),
                add_rows(mul_rows(a0, b1, m), mul_rows(a1, b0, m), m),
                mul_rows(a1, b1, m),
            ],
            s,
            m,
            0,
        ) == mul_rows(
            add_rows(mul_rows(a1, s, m), a0, m),
            add_rows(mul_rows(b1, s, m), b0, m),
            m,
        ),
{
    reveal_with_fuel(phase, 4);
    let t0 = mul_rows(a0, b0, m);
    let t1 = add_rows(mul_rows(a0, b1, m), mul_rows(a1, b0, m), m);
    let t2 = mul_rows(a1, b1, m);
    let limbs = seq![t0, t1, t2];
    let left = phase(limbs, s, m, 0);
    assert(phase(limbs, s, m, 1) == add_rows(mul_rows(t2, s, m), t1, m));
    assert(left == add_rows(mul_rows(add_rows(mul_rows(t2, s, m), t1, m), s, m), t0, m));
    let right = mul_rows(
        add_rows(mul_rows(a1, s, m), a0, m),
        add_rows(mul_rows(b1, s, m), b0, m),
        m,
    );
    assert forall|i: int| 0 <= i < m.len() implies left[i] =~= right[i] by {
        lemma_valid_ring(m, n, i);
        let q = m[i] as int;
        assert forall|j: int| 0 <= j < n implies left[i][j] == right[i][j] by {
            let x0 = a0[i][j] as int;
            let x1 = a1[i][j] as int;
            let y0 = b0[i][j] as int;
            let y1 = b1[i][j] as int;
            let sv = s[i][j] as int;
            lemma_tensor_entry(x0, x1, y0, y1, sv, q);
            lemma_mod_bound(x1 * y1, q);
            lemma_mod_bound(x0 * y1, q);
            lemma_mod_bound(x1 * y0, q);
            lemma_mod_bound(x0 * y0, q);
            lemma_mod_bound((x0 * y1) % q + (x1 * y0) % q, q);
            lemma_mod_bound(((x1 * y1) % q) * sv, q);
            lemma_mod_bound((((x1 * y1) % q) * sv) % q + ((x0 * y1) % q + (x1 * y0) % q) % q, q);
            lemma_mod_bound(x1 * sv, q);
            lemma_mod_bound(y1 * sv, q);
            lemma_mod_bound((x1 * sv) % q + x0, q);
            lemma_mod_bound((y1 * sv) % q + y0, q);
            let inner = ((((x1 * y1) % q) * sv) % q + ((x0 * y1) % q + (x1 * y0) % q) % q) % q;
            lemma_mod_bound(inner * sv, q);
            lemma_mod_bound((inner * sv) % q + (x0 * y0) % q, q);
        }
    }
    assert(left =~= right);
}

/// The phase of an operand, as a transformed ring element of a ring, is
/// the transform of the residues of its phase as integers.
pub proof fn lemma_operand_phase(x0: Seq<int>, x1: Seq<int>, s: Seq<int>, m: Seq<u64>, n: nat)
    requires
        valid_ring(m, n),
        x0.len() == n,
        x1.len() == n,
        s.len() == n,
    ensures
        add_rows(
            mul_rows(
                forward_rows(residues(x1, m), m, n),
                forward_rows(residues(s, m), m, n),
                m,
            ),
            forward_rows(residues(x0, m), m, n),
            m,
        ) == forward_rows(residues(combine(ring_product(x1, s), x0, 1, 1), m), m, n),
{
    let x1s = ring_product(x1, s);
    lemma_residues_product(x1, s, m, n);
    lemma_residues_combine(x1s, x0, 1, 1, m, n);
    lemma_add_rows_is_lincomb(
        forward_rows(residues(x1s, m), m, n),
        forward_rows(residues(x0, m), m, n),
        m,
    );
}

/// Two integers less than half of `q` in absolute value that are congruent
/// modulo `q` are equal.
pub proof fn lemma_congruent_small(x: int, y: int, bound: int, q: int)
    requires
        q > 0,
        -bound <= x <= bound,
        -bound <= y <= bound,
        2 * bound < q,
        congruent(x, y, q),
    ensures
        x == y,
{
    crate::congruence::lemma_congruent_difference(x, y, q);
    let c = x / q - y / q;
    assert(c == 0) by (nonlinear_arith)
        requires
            x - y == q * c,
            -q < x - y < q,
            q > 0,
    ;
    assert(q * 0 == 0);
}

/// The bounds on the coefficients of the phases of the operands.
pub proof fn lemma_operand_bounds(d: ProductData)
    requires
        d.shaped(),
    ensures
        bounded(d.phi_a(), d.q() * (1 + d.n * d.bound)),
        bounded(d.phi_b(), d.q() * (1 + d.n * d.bound)),
        d.phi_a().len() == d.n,
        d.phi_b().len() == d.n,
        d.q() * (1 + d.n * d.bound) >= 0,
        d.q() >= 2,
{
    let q = d.q();
    let n = d.n as int;
    let b = d.bound;
    let nb = n * b;
    crate::rns::lemma_product_at_least_two(d.m);
    assert(nb >= 0) by (nonlinear_arith)
        requires
            nb == n * b,
            n >= 0,
            b >= 0,
    ;
    assert(q * b >= 0) by (nonlinear_arith)
        requires
            q >= 0,
            b >= 0,
    ;
    assert(n * (q * b) >= 0) by (nonlinear_arith)
        requires
            n >= 0,
            q * b >= 0,
    ;
    let pb = q * (1 + nb);
    assert(pb == n * (q * b) + q) by (nonlinear_arith)
        requires
            pb == q * (1 + nb),
            nb == n * b,
    ;
    lemma_product_bounded(d.a1, d.s, q, b);
    lemma_combine_bounded(ring_product(d.a1, d.s), d.a0, 1, 1, n * (q * b), q);
    lemma_product_bounded(d.b1, d.s, q, b);
    lemma_combine_bounded(ring_product(d.b1, d.s), d.b0, 1, 1, n * (q * b), q);
}

/// The bounds on the coefficients of the product of the phases and of the
/// phase of the product in the extended ring.
pub proof fn lemma_phase_bounds(d: ProductData)
    requires
        d.ready(),
    ensures
        bounded(d.phi_a(), d.q() * (1 + d.n * d.bound)),
        bounded(d.phi_b(), d.q() * (1 + d.n * d.bound)),
        bounded(ring_product(d.phi_a(), d.phi_b()), d.phase_bound()),
        bounded(d.u(), d.phase_bound()),
        d.phi_a().len() == d.n,
        d.phi_b().len() == d.n,
        d.u().len() == d.n,
        d.phase_bound() >= 0,
        4 * d.phase_bound() < d.pq(),
{
    let q = d.q();
    let n = d.n as int;
    let b = d.bound;
    let nb = n * b;
    lemma_tensor_bounds(d);
    assert(nb >= 0) by (nonlinear_arith)
        requires
            nb == n * b,
            n >= 0,
            b >= 0,
    ;
    assert(q * b >= 0) by (nonlinear_arith)
        requires
            q >= 0,
            b >= 0,
    ;
    assert(n * (q * b) >= 0) by (nonlinear_arith)
        requires
            n >= 0,
            q * b >= 0,
    ;
    let pb = q * (1 + nb);
    lemma_operand_bounds(d);
    // their product
    lemma_product_bounded(d.phi_a(), d.phi_b(), pb, pb);
    assert(n * (pb * pb) == d.phase_bound()) by (nonlinear_arith)
        requires
            pb == q * (1 + nb),
            nb == n * b,
            d.phase_bound() == n * (q * q) * ((1 + n * b) * (1 + n * b)),
    ;
    // the phase of the three ring elements
    let nqq = n * (q * q);
    assert(nqq >= 0) by (nonlinear_arith)
        requires
            nqq == n * (q * q),
            n >= 0,
    ;
    lemma_product_bounded(d.t1(), d.s, 2 * nqq, b);
    lemma_product_bounded(d.t2(), d.s, nqq, b);
    let b2 = n * (nqq * b);
    assert(b2 >= 0) by (nonlinear_arith)
        requires
            b2 == n * (nqq * b),
            n >= 0,
            nqq >= 0,
            b >= 0,
    ;
    lemma_product_bounded(ring_product(d.t2(), d.s), d.s, b2, b);
    let b1 = n * ((2 * nqq) * b);
    assert(b1 >= 0) by (nonlinear_arith)
        requires
            b1 == n * ((2 * nqq) * b),
            n >= 0,
            nqq >= 0,
            b >= 0,
    ;
    lemma_combine_bounded(d.t0(), ring_product(d.t1(), d.s), 1, 1, nqq, b1);
    let b3 = n * (b2 * b);
    assert(b3 >= 0) by (nonlinear_arith)
        requires
            b3 == n * (b2 * b),
            n >= 0,
            b2 >= 0,
            b >= 0,
    ;
    lemma_combine_bounded(
        combine(d.t0(), ring_product(d.t1(), d.s), 1, 1),
        ring_product(ring_product(d.t2(), d.s), d.s),
        1,
        1,
        nqq + b1,
        b3,
    );
    assert(nqq + b1 + b3 == d.phase_bound()) by {
        assert(b1 == nqq * (2 * nb)) by (nonlinear_arith)
            requires
                b1 == n * ((2 * nqq) * b),
                nb == n * b,
        ;
        assert(b3 == nqq * (nb * nb)) by (nonlinear_arith)
            requires
                b3 == n * (b2 * b),
                b2 == n * (nqq * b),
                nb == n * b,
        ;
        assert((1 + nb) * (1 + nb) == 1 + 2 * nb + nb * nb) by (nonlinear_arith);
        assert(nqq * (1 + 2 * nb + nb * nb) == nqq + nqq * (2 * nb) + nqq * (nb * nb))
            by (nonlinear_arith);
        assert(d.phase_bound() == nqq * ((1 + nb) * (1 + nb))) by (nonlinear_arith)
            requires
                d.phase_bound() == n * (q * q) * ((1 + n * b) * (1 + n * b)),
                nqq == n * (q * q),
                nb == n * b,
        ;
    }
    assert(d.phase_bound() >= 0);
    assert(4 * d.phase_bound() == 4 * n * (q * q) * ((1 + n * b) * (1 + n * b)))
        by (nonlinear_arith)
        requires
            d.phase_bound() == n * (q * q) * ((1 + n * b) * (1 + n * b)),
    ;
}

/// The phase of the three ring elements of a product has, in any ring,
/// the residues of the product of the phases of the operands.
pub proof fn lemma_phase_product_residues(
    x0: Seq<int>,
    x1: Seq<int>,
    y0: Seq<int>,
    y1: Seq<int>,
    s: Seq<int>,
    em: Seq<u64>,
    n: nat,
)
    requires
        valid_ring(em, n),
        x0.len() == n,
        x1.len() == n,
        y0.len() == n,
        y1.len() == n,
        s.len() == n,
    ensures
        residues(
            phase_of_three(
                ring_product(x0, y0),
                combine(ring_product(x0, y1), ring_product(x1, y0), 1, 1),
                ring_product(x1, y1),
                s,
            ),
            em,
        ) == residues(
            ring_product(
                combine(ring_product(x1, s), x0, 1, 1),
                combine(ring_product(y1, s), y0, 1, 1),
            ),
            em,
        ),
{
    let fx0 = forward_rows(residues(x0, em), em, n);
    let fx1 = forward_rows(residues(x1, em), em, n);
    let fy0 = forward_rows(residues(y0, em), em, n);
    let fy1 = forward_rows(residues(y1, em), em, n);
    let fs = forward_rows(residues(s, em), em, n);
    lemma_residues_shape(x0, em, n);
    lemma_residues_shape(x1, em, n);
    lemma_residues_shape(y0, em, n);
    lemma_residues_shape(y1, em, n);
    lemma_residues_shape(s, em, n);
    lemma_forward_rows_shape(residues(x0, em), em, n);
    lemma_forward_rows_shape(residues(x1, em), em, n);
    lemma_forward_rows_shape(residues(y0, em), em, n);
    lemma_forward_rows_shape(residues(y1, em), em, n);
    lemma_forward_rows_shape(residues(s, em), em, n);
    // the three ring elements, as rows
    let z0 = ring_product(x0, y0);
    let z1 = combine(ring_product(x0, y1), ring_product(x1, y0), 1, 1);
    let z2 = ring_product(x1, y1);
    lemma_tensor_rows(x0, x1, y0, y1, em, n);
    // the left side, as rows
    lemma_phase_of_three(z0, z1, z2, s, em, n);
    // the right side
    lemma_tensor_phase(fx0, fx1, fy0, fy1, fs, em, n);
    lemma_operand_phase(x0, x1, s, em, n);
    lemma_operand_phase(y0, y1, s, em, n);
    let px = combine(ring_product(x1, s), x0, 1, 1);
    let py = combine(ring_product(y1, s), y0, 1, 1);
    lemma_residues_product(px, py, em, n);
    let left = residues(phase_of_three(z0, z1, z2, s), em);
    let right = residues(ring_product(px, py), em);
    assert(forward_rows(left, em, n) == forward_rows(right, em, n));
    lemma_residues_shape(phase_of_three(z0, z1, z2, s), em, n);
    lemma_residues_shape(ring_product(px, py), em, n);
    crate::rows_algebra::lemma_backward_forward_rows(left, em, n);
    crate::rows_algebra::lemma_backward_forward_rows(right, em, n);
}

/// The phase of the three ring elements of the product in the extended
/// ring is the product of the phases of the operands, over the integers.
pub proof fn lemma_phase_product(d: ProductData)
    requires
        d.ready(),
    ensures
        d.u() == ring_product(d.phi_a(), d.phi_b()),
{
    lemma_phase_bounds(d);
    lemma_phase_product_residues(d.a0, d.a1, d.b0, d.b1, d.s, d.em, d.n);
    let p = ring_product(d.phi_a(), d.phi_b());
    assert forall|k: int| 0 <= k < d.n implies d.u()[k] == p[k] by {
        crate::integer_ring::lemma_residues_equal(d.u(), p, d.em, d.n, k);
        lemma_congruent_small(d.u()[k], p[k], d.phase_bound(), d.pq());
    }
    assert(d.u() =~= p);
}

impl ProductData {
    /// What the phase of the first operand is modulo the ciphertext
    /// modulus: its noise plus its scaled message times `-1/t`.
    pub open spec fn ya(self) -> Seq<int> {
        combine(self.ea, self.ma, 1, self.delta())
    }

    /// What the phase of the second operand is modulo the ciphertext
    /// modulus.
    pub open spec fn yb(self) -> Seq<int> {
        combine(self.eb, self.mb, 1, self.delta())
    }

    /// The operands carry their messages with their noises.
    pub open spec fn linked(self) -> bool {
        &&& residues(self.phi_a(), self.m) == residues(self.ya(), self.m)
        &&& residues(self.phi_b(), self.m) == residues(self.yb(), self.m)
    }

    /// The multiple of the ciphertext modulus by which the phase of the
    /// first operand exceeds its noise and scaled message.
    pub open spec fn ka(self) -> Seq<int> {
        Seq::new(self.n, |k: int| (self.phi_a()[k] - self.ya()[k]) / self.q())
    }

    /// The multiple of the ciphertext modulus by which the phase of the
    /// second operand exceeds its noise and scaled message.
    pub open spec fn kb(self) -> Seq<int> {
        Seq::new(self.n, |k: int| (self.phi_b()[k] - self.yb()[k]) / self.q())
    }

    /// The inverse of the ciphertext modulus modulo `t`: `(t delta + 1) / Q`.
    pub open spec fn j(self) -> int {
        (self.t * self.delta() + 1) / self.q()
    }

    /// The product of the noises.
    pub open spec fn ee(self) -> Seq<int> {
        ring_product(self.ea, self.eb)
    }

    /// The products of a noise and a message.
    pub open spec fn x(self) -> Seq<int> {
        combine(ring_product(self.ea, self.mb), ring_product(self.ma, self.eb), 1, 1)
    }

    /// The product of the scaled messages.
    pub open spec fn w(self) -> Seq<int> {
        ring_product(self.ma, self.mb)
    }

    /// The products of a noise and a multiple.
    pub open spec fn ek(self) -> Seq<int> {
        combine(ring_product(self.ea, self.kb()), ring_product(self.ka(), self.eb), 1, 1)
    }

    /// The products of a message and a multiple.
    pub open spec fn mk(self) -> Seq<int> {
        combine(ring_product(self.ma, self.kb()), ring_product(self.ka(), self.mb), 1, 1)
    }

    /// The product of the multiples.
    pub open spec fn kk(self) -> Seq<int> {
        ring_product(self.ka(), self.kb())
    }
}

/// The phases of the operands are their noises and scaled messages plus
/// multiples of the ciphertext modulus.
pub proof fn lemma_multiples(d: ProductData)
    requires
        d.shaped(),
        d.linked(),
    ensures
        d.phi_a() == combine(d.ya(), d.ka(), 1, d.q()),
        d.phi_b() == combine(d.yb(), d.kb(), 1, d.q()),
        d.ka().len() == d.n,
        d.kb().len() == d.n,
        d.ya().len() == d.n,
        d.yb().len() == d.n,
{
    let q = d.q();
    lemma_operand_bounds(d);
    assert forall|k: int| 0 <= k < d.n implies d.phi_a()[k] == 1 * d.ya()[k] + q * d.ka()[k]
        && d.phi_b()[k] == 1 * d.yb()[k] + q * d.kb()[k] by {
        crate::integer_ring::lemma_residues_equal(d.phi_a(), d.ya(), d.m, d.n, k);
        crate::integer_ring::lemma_residues_equal(d.phi_b(), d.yb(), d.m, d.n, k);
        crate::congruence::lemma_congruent_difference(d.phi_a()[k], d.ya()[k], q);
        crate::congruence::lemma_congruent_difference(d.phi_b()[k], d.yb()[k], q);
        lemma_fundamental_div_mod(d.phi_a()[k] - d.ya()[k], q);
        lemma_fundamental_div_mod(d.phi_b()[k] - d.yb()[k], q);
    }
    assert(d.phi_a() =~= combine(d.ya(), d.ka(), 1, q));
    assert(d.phi_b() =~= combine(d.yb(), d.kb(), 1, q));
}

/// `t delta + 1` is `j Q`, with `0 < j <= t`, and `0 <= delta < Q`.
pub proof fn lemma_inverse(d: ProductData)
    requires
        d.shaped(),
    ensures
        d.t * d.delta() + 1 == d.j() * d.q(),
        1 <= d.j() <= d.t,
        0 <= d.delta() < d.q(),
{
    let q = d.q();
    let t = d.t as int;
    let delta = d.delta();
    crate::rns::lemma_product_at_least_two(d.m);
    crate::crt::lemma_delta(t, d.m);
    lemma_mod_bound(
        crate::rns::garner_sum(
            d.m,
            crate::moduli::delta_rests(t, d.m),
            d.m.len(),
        ) as int,
        q,
    );
    crate::congruence::lemma_congruent_difference(t * delta, -1, q);
    lemma_fundamental_div_mod(t * delta + 1, q);
    let j = d.j();
    assert(t * delta + 1 == q * j);
    assert(q * j == j * q) by (nonlinear_arith);
    assert(t * delta >= 0) by (nonlinear_arith)
        requires
            t >= 0,
            delta >= 0,
    ;
    assert(t * delta <= t * (q - 1)) by (nonlinear_arith)
        requires
            t >= 0,
            delta <= q - 1,
    ;
    assert(1 <= j <= t) by (nonlinear_arith)
        requires
            t * delta + 1 == q * j,
            0 <= t * delta <= t * (q - 1),
            q >= 2,
            t >= 2,
    ;
}

/// The product of the phases of the operands, expanded: the products of
/// the noises, the messages and the multiples, with their factors.
pub proof fn lemma_expanded(d: ProductData, k: int)
    requires
        d.shaped(),
        d.linked(),
        0 <= k < d.n,
    ensures
        ring_product(d.phi_a(), d.phi_b())[k] == d.ee()[k] + d.delta() * d.x()[k] + d.delta() * (
        d.delta() * d.w()[k]) + d.q() * (d.ek()[k] + d.delta() * d.mk()[k]) + d.q() * (d.q()
            * d.kk()[k]),
{
    let q = d.q();
    let dl = d.delta();
    lemma_multiples(d);
    let ya = d.ya();
    let yb = d.yb();
    let ka = d.ka();
    let kb = d.kb();
    let pb = d.phi_b();
    // (ya + q ka) * phi_b
    lemma_product_left(ya, ka, pb, 1, q);
    // ya * (yb + q kb), ka * (yb + q kb)
    lemma_product_right(ya, yb, kb, 1, q);
    lemma_product_right(ka, yb, kb, 1, q);
    // (ea + dl ma) * yb, (ea + dl ma) * kb
    lemma_product_left(d.ea, d.ma, yb, 1, dl);
    lemma_product_left(d.ea, d.ma, kb, 1, dl);
    // ea * (eb + dl mb), ma * (eb + dl mb), ka * (eb + dl mb)
    lemma_product_right(d.ea, d.eb, d.mb, 1, dl);
    lemma_product_right(d.ma, d.eb, d.mb, 1, dl);
    lemma_product_right(ka, d.eb, d.mb, 1, dl);
    let ee = d.ee()[k];
    let em = ring_product(d.ea, d.mb)[k];
    let me = ring_product(d.ma, d.eb)[k];
    let w = d.w()[k];
    let eak = ring_product(d.ea, kb)[k];
    let mak = ring_product(d.ma, kb)[k];
    let kae = ring_product(ka, d.eb)[k];
    let kam = ring_product(ka, d.mb)[k];
    let kk = d.kk()[k];
    let yy = ring_product(ya, yb)[k];
    let yk = ring_product(ya, kb)[k];
    let ky = ring_product(ka, yb)[k];
    assert(ring_product(d.phi_a(), pb)[k] == 1 * (1 * yy + q * yk) + q * (1 * ky + q * kk));
    assert(yy == 1 * (1 * ee + dl * em) + dl * (1 * me + dl * w));
    assert(yk == 1 * eak + dl * mak);
    assert(ky == 1 * kae + dl * kam);
    assert(d.x()[k] == 1 * em + 1 * me);
    assert(d.ek()[k] == 1 * eak + 1 * kae);
    assert(d.mk()[k] == 1 * mak + 1 * kam);
    assert(dl * (em + me) == dl * em + dl * me) by (nonlinear_arith);
    assert(dl * (me + dl * w) == dl * me + dl * (dl * w)) by (nonlinear_arith);
    assert(dl * (mak + kam) == dl * mak + dl * kam) by (nonlinear_arith);
    assert(q * (eak + dl * mak) + q * (kae + dl * kam + q * kk) == q * ((eak + kae) + (dl * mak
        + dl * kam)) + q * (q * kk)) by (nonlinear_arith);
}

impl ProductData {
    /// What rounding leaves of the first ring element: `2 Q d0 - 2 t t0`.
    pub open spec fn rho0(self) -> Seq<int> {
        combine(self.d0(), self.t0(), 2 * self.q(), -2 * (self.t as int))
    }

    /// What rounding leaves of the second ring element.
    pub open spec fn rho1(self) -> Seq<int> {
        combine(self.d1(), self.t1(), 2 * self.q(), -2 * (self.t as int))
    }

    /// What rounding leaves of the third ring element.
    pub open spec fn rho2(self) -> Seq<int> {
        combine(self.d2(), self.t2(), 2 * self.q(), -2 * (self.t as int))
    }

    /// What rounding leaves of the phase.
    pub open spec fn r(self) -> Seq<int> {
        phase_of_three(self.rho0(), self.rho1(), self.rho2(), self.s)
    }

    /// The scaled message of the product: the product of the scaled
    /// messages times the inverse of the ciphertext modulus modulo `t`.
    pub open spec fn m_out(self) -> Seq<int> {
        Seq::new(self.n, |k: int| self.j() * self.w()[k])
    }

    /// The noise of the product: its phase less its scaled message times
    /// `-1/t`, and less a multiple of the ciphertext modulus.
    pub open spec fn e_out(self) -> Seq<int> {
        Seq::new(
            self.n,
            |k: int|
                self.phase_out()[k] - self.delta() * (self.j() * self.w()[k]) - self.q() * (self.j()
                    * self.mk()[k] + self.t * self.kk()[k]),
        )
    }
}

/// The phase of three ring elements is linear in them.
pub proof fn lemma_phase_of_three_linear(
    x0: Seq<int>,
    x1: Seq<int>,
    x2: Seq<int>,
    y0: Seq<int>,
    y1: Seq<int>,
    y2: Seq<int>,
    a: int,
    b: int,
    s: Seq<int>,
)
    requires
        x0.len() == s.len(),
        x1.len() == s.len(),
        x2.len() == s.len(),
        y0.len() == s.len(),
        y1.len() == s.len(),
        y2.len() == s.len(),
    ensures
        phase_of_three(
            combine(x0, y0, a, b),
            combine(x1, y1, a, b),
            combine(x2, y2, a, b),
            s,
        ) == combine(phase_of_three(x0, x1, x2, s), phase_of_three(y0, y1, y2, s), a, b),
{
    lemma_product_left(x1, y1, s, a, b);
    lemma_product_left(x2, y2, s, a, b);
    lemma_product_left(ring_product(x2, s), ring_product(y2, s), s, a, b);
    let left = phase_of_three(
        combine(x0, y0, a, b),
        combine(x1, y1, a, b),
        combine(x2, y2, a, b),
        s,
    );
    let right = combine(phase_of_three(x0, x1, x2, s), phase_of_three(y0, y1, y2, s), a, b);
    assert forall|k: int| 0 <= k < s.len() implies left[k] == right[k] by {
        let xa = x0[k];
        let xb = ring_product(x1, s)[k];
        let xc = ring_product(ring_product(x2, s), s)[k];
        let ya = y0[k];
        let yb = ring_product(y1, s)[k];
        let yc = ring_product(ring_product(y2, s), s)[k];
        assert(left[k] == 1 * (1 * (a * xa + b * ya) + 1 * (a * xb + b * yb)) + 1 * (a * xc + b
            * yc));
        assert(right[k] == a * (1 * (1 * xa + 1 * xb) + 1 * xc) + b * (1 * (1 * ya + 1 * yb) + 1
            * yc));
        assert(a * (xa + xb + xc) == a * xa + a * xb + a * xc) by (nonlinear_arith);
        assert(b * (ya + yb + yc) == b * ya + b * yb + b * yc) by (nonlinear_arith);
    }
    assert(left =~= right);
}

/// Rounding leaves at most `den` in absolute value: `2 den d - 2 num x`
/// for the rounded `d` of `x num / den`.
pub proof fn lemma_rounding_remainder(x: int, num: nat, den: nat)
    requires
        den > 0,
    ensures
        -(den as int) <= 2 * den * rounded(x, num, den) - 2 * num * x <= den,
{
    let top = 2 * x * num + den;
    let bottom = (2 * den) as int;
    lemma_fundamental_div_mod(top, bottom);
    lemma_mod_bound(top, bottom);
    let dv = rounded(x, num, den);
    assert(dv == top / bottom);
    assert(bottom * dv == 2 * den * dv) by (nonlinear_arith)
        requires
            bottom == 2 * den,
    ;
    assert(2 * x * num == 2 * num * x) by (nonlinear_arith);
}

/// What rounding leaves of a phase: for the three ring elements `x`
/// scaled by `num / den` and rounded, `2 den` times the phase of the
/// rounded less `2 num` times the phase of `x` is the phase of what
/// rounding leaves of each, and is at most `den (1 + n b)^2` in absolute
/// value where the secret is at most `b`.
pub proof fn lemma_rounding_phase(
    x0: Seq<int>,
    x1: Seq<int>,
    x2: Seq<int>,
    s: Seq<int>,
    num: nat,
    den: nat,
    b: int,
)
    requires
        den > 0,
        b >= 0,
        x0.len() == s.len(),
        x1.len() == s.len(),
        x2.len() == s.len(),
        bounded(s, b),
    ensures
        phase_of_three(
            combine(rounded_all(x0, num, den), x0, 2 * (den as int), -2 * (num as int)),
            combine(rounded_all(x1, num, den), x1, 2 * (den as int), -2 * (num as int)),
            combine(rounded_all(x2, num, den), x2, 2 * (den as int), -2 * (num as int)),
            s,
        ) == combine(
            phase_of_three(
                rounded_all(x0, num, den),
                rounded_all(x1, num, den),
                rounded_all(x2, num, den),
                s,
            ),
            phase_of_three(x0, x1, x2, s),
            2 * (den as int),
            -2 * (num as int),
        ),
        bounded(
            combine(
                phase_of_three(
                    rounded_all(x0, num, den),
                    rounded_all(x1, num, den),
                    rounded_all(x2, num, den),
                    s,
                ),
                phase_of_three(x0, x1, x2, s),
                2 * (den as int),
                -2 * (num as int),
            ),
            den * ((1 + s.len() * b) * (1 + s.len() * b)),
        ),
{
    let q = den as int;
    let t = num as int;
    let n = s.len() as int;
    let nb = n * b;
    let y0 = rounded_all(x0, num, den);
    let y1 = rounded_all(x1, num, den);
    let y2 = rounded_all(x2, num, den);
    let rho0 = combine(y0, x0, 2 * q, -2 * t);
    let rho1 = combine(y1, x1, 2 * q, -2 * t);
    let rho2 = combine(y2, x2, 2 * q, -2 * t);
    lemma_phase_of_three_linear(y0, y1, y2, x0, x1, x2, 2 * q, -2 * t, s);
    assert forall|k: int| 0 <= k < n implies -q <= #[trigger] rho0[k] <= q by {
        lemma_rounding_remainder(x0[k], num, den);
        assert((2 * q) * y0[k] + (-2 * t) * x0[k] == 2 * q * y0[k] - 2 * t * x0[k])
            by (nonlinear_arith);
    }
    assert forall|k: int| 0 <= k < n implies -q <= #[trigger] rho1[k] <= q by {
        lemma_rounding_remainder(x1[k], num, den);
        assert((2 * q) * y1[k] + (-2 * t) * x1[k] == 2 * q * y1[k] - 2 * t * x1[k])
            by (nonlinear_arith);
    }
    assert forall|k: int| 0 <= k < n implies -q <= #[trigger] rho2[k] <= q by {
        lemma_rounding_remainder(x2[k], num, den);
        assert((2 * q) * y2[k] + (-2 * t) * x2[k] == 2 * q * y2[k] - 2 * t * x2[k])
            by (nonlinear_arith);
    }
    assert(nb >= 0) by (nonlinear_arith)
        requires
            nb == n * b,
            n >= 0,
            b >= 0,
    ;
    lemma_product_bounded(rho1, s, q, b);
    lemma_product_bounded(rho2, s, q, b);
    let b1 = n * (q * b);
    assert(b1 >= 0 && b1 == q * nb) by (nonlinear_arith)
        requires
            b1 == n * (q * b),
            nb == n * b,
            n >= 0,
            q >= 0,
            b >= 0,
    ;
    lemma_product_bounded(ring_product(rho2, s), s, b1, b);
    let b2 = n * (b1 * b);
    assert(b2 >= 0 && b2 == q * (nb * nb)) by (nonlinear_arith)
        requires
            b2 == n * (b1 * b),
            b1 == q * nb,
            nb == n * b,
            n >= 0,
            q >= 0,
            b >= 0,
            b1 >= 0,
    ;
    lemma_combine_bounded(rho0, ring_product(rho1, s), 1, 1, q, b1);
    lemma_combine_bounded(
        combine(rho0, ring_product(rho1, s), 1, 1),
        ring_product(ring_product(rho2, s), s),
        1,
        1,
        q + b1,
        b2,
    );
    assert(q + b1 + b2 <= q * ((1 + nb) * (1 + nb))) by (nonlinear_arith)
        requires
            b1 == q * nb,
            b2 == q * (nb * nb),
            q >= 0,
            nb >= 0,
    ;
}

/// What rounding leaves of the phase of the product: twice the ciphertext
/// modulus times the phase brought down, less twice `t` times the phase in
/// the extended ring; and its bound.
pub proof fn lemma_rounded_phase(d: ProductData)
    requires
        d.ready(),
    ensures
        d.r() == combine(
            phase_of_three(d.d0(), d.d1(), d.d2(), d.s),
            d.u(),
            2 * d.q(),
            -2 * (d.t as int),
        ),
        bounded(d.r(), d.q() * ((1 + d.n * d.bound) * (1 + d.n * d.bound))),
        d.r().len() == d.n,
{
    lemma_tensor_bounds(d);
    lemma_rounding_phase(d.t0(), d.t1(), d.t2(), d.s, d.t as nat, d.q() as nat, d.bound);
}

/// The product of the phases of the operands times `t`: what is left of
/// the products of the noises and of the messages, plus multiples of the
/// ciphertext modulus and of its square.
pub proof fn lemma_scaled_expansion(d: ProductData, k: int)
    requires
        d.shaped(),
        d.linked(),
        0 <= k < d.n,
    ensures
        d.t * ring_product(d.phi_a(), d.phi_b())[k] == d.t * d.ee()[k] - d.x()[k] - d.delta()
            * d.w()[k] + d.q() * (d.j() * d.x()[k] + d.delta() * (d.j() * d.w()[k]) + d.t
            * d.ek()[k] - d.mk()[k]) + d.q() * (d.q() * (d.j() * d.mk()[k] + d.t * d.kk()[k])),
{
    let q = d.q();
    let t = d.t as int;
    let dl = d.delta();
    let j = d.j();
    lemma_expanded(d, k);
    lemma_inverse(d);
    let u = ring_product(d.phi_a(), d.phi_b())[k];
    let ee = d.ee()[k];
    let x = d.x()[k];
    let w = d.w()[k];
    let ek = d.ek()[k];
    let mk = d.mk()[k];
    let kk = d.kk()[k];
    // t delta == j q - 1
    let td = t * dl;
    assert(td == j * q - 1);
    assert(t * u == t * ee + td * x + td * (dl * w) + q * (t * ek) + q * (td * mk) + q * (q * (t
        * kk))) by {
        assert(t * (dl * x) == td * x) by (nonlinear_arith)
            requires
                td == t * dl,
        ;
        assert(t * (dl * (dl * w)) == td * (dl * w)) by (nonlinear_arith)
            requires
                td == t * dl,
        ;
        assert(t * (q * (ek + dl * mk)) == q * (t * ek) + q * (td * mk)) by (nonlinear_arith)
            requires
                td == t * dl,
        ;
        assert(t * (q * (q * kk)) == q * (q * (t * kk))) by (nonlinear_arith);
        assert(t * (ee + dl * x + dl * (dl * w) + q * (ek + dl * mk) + q * (q * kk)) == t * ee + t
            * (dl * x) + t * (dl * (dl * w)) + t * (q * (ek + dl * mk)) + t * (q * (q * kk)))
            by (nonlinear_arith);
    }
    assert(td * x == q * (j * x) - x) by (nonlinear_arith)
        requires
            td == j * q - 1,
    ;
    assert(td * (dl * w) == q * (dl * (j * w)) - dl * w) by (nonlinear_arith)
        requires
            td == j * q - 1,
    ;
    assert(q * (td * mk) == q * (q * (j * mk)) - q * mk) by (nonlinear_arith)
        requires
            td == j * q - 1,
    ;
    assert(q * (j * x + dl * (j * w) + t * ek - mk) == q * (j * x) + q * (dl * (j * w)) + q * (t
        * ek) - q * mk) by (nonlinear_arith);
    assert(q * (j * mk + t * kk) == q * (j * mk) + q * (t * kk)) by (nonlinear_arith);
    assert(q * (q * (j * mk + t * kk)) == q * (q * (j * mk)) + q * (q * (t * kk))) by {
        assert(q * (q * (j * mk) + q * (t * kk)) == q * (q * (j * mk)) + q * (q * (t * kk)))
            by (nonlinear_arith);
    }
}

/// The noise of the product, up to the noises that add to it, times twice
/// the ciphertext modulus: this is what the products of the noises and of
/// the messages, and the rounding, leave.
pub proof fn lemma_noise_identity(d: ProductData, k: int)
    requires
        d.ready(),
        d.linked(),
        0 <= k < d.n,
    ensures
        2 * d.q() * (d.e_out()[k] - d.folding_noise(d.m.len())[k] - d.j() * d.x()[k] - d.t
            * d.ek()[k] + d.mk()[k]) == 2 * d.t * d.ee()[k] - 2 * d.x()[k] - 2 * (d.delta()
            * d.w()[k]) + d.r()[k],
{
    let q = d.q();
    let t = d.t as int;
    let dl = d.delta();
    let j = d.j();
    lemma_phase_product(d);
    lemma_scaled_expansion(d, k);
    lemma_rounded_phase(d);
    let p = phase_of_three(d.d0(), d.d1(), d.d2(), d.s)[k];
    let nk = d.folding_noise(d.m.len())[k];
    let u = d.u()[k];
    let r = d.r()[k];
    let ee = d.ee()[k];
    let x = d.x()[k];
    let w = d.w()[k];
    let ek = d.ek()[k];
    let mk = d.mk()[k];
    let kk = d.kk()[k];
    let e = d.e_out()[k];
    assert(d.phase_out()[k] == 1 * p + 1 * nk);
    assert(e == p + nk - dl * (j * w) - q * (j * mk + t * kk));
    assert(r == (2 * q) * p + (-2 * t) * u);
    assert((2 * q) * p + (-2 * t) * u == 2 * q * p - 2 * t * u) by (nonlinear_arith);
    let first = j * x + dl * (j * w) + t * ek - mk;
    let second = j * mk + t * kk;
    let inner = e - nk - j * x - t * ek + mk;
    assert(inner == p - first - q * second);
    assert(t * u == t * ee - x - dl * w + q * first + q * (q * second));
    assert(q * inner == q * p - q * first - q * (q * second)) by (nonlinear_arith)
        requires
            inner == p - first - q * second,
    ;
    assert(2 * q * inner == 2 * (q * inner)) by (nonlinear_arith);
    assert(2 * q * p == 2 * (q * p)) by (nonlinear_arith);
    assert(2 * t * u == 2 * (t * u)) by (nonlinear_arith);
    assert(2 * t * ee == 2 * (t * ee)) by (nonlinear_arith);
}

impl ProductData {
    /// The bound on the multiples of the ciphertext modulus in the phases
    /// of the operands.
    pub open spec fn multiple_bound(self) -> int {
        2 + self.n * self.bound + self.t
    }

    /// The bound on the product of the scaled messages.
    pub open spec fn message_bound(self) -> int {
        self.n * (self.t * self.t)
    }

    /// The bound on the noise that folding the third ring element adds:
    /// for each modulus, `n` products of a residue below `2^62` and a
    /// coefficient of noise.
    pub open spec fn folding_bound(self) -> int {
        self.m.len() * (self.n * (0x4000_0000_0000_0000 * self.bound))
    }

    /// The bound on the noise of the product.
    pub open spec fn noise_bound(self) -> int {
        self.folding_bound() + self.t * (2 * (self.n * (self.bound * self.t))) + self.t * (2 * (
        self.n * (self.bound * self.multiple_bound()))) + 2 * (self.n * (self.t
            * self.multiple_bound())) + (self.message_bound() + (1 + self.n * self.bound) * (1
            + self.n * self.bound) + 1)
    }

    /// The ciphertext modulus leaves room for the noise of the product.
    pub open spec fn within_product_budget(self) -> bool {
        2 * (self.t * self.noise_bound() + self.t * self.message_bound()) < self.q()
    }
}

/// The noise that folding adds is bounded: for each component, by `n`
/// products of a residue below `2^62` and a coefficient of noise.
pub proof fn lemma_folding_bound(
    x: Seq<int>,
    key_noise: Seq<Seq<int>>,
    m: Seq<u64>,
    n: nat,
    b: int,
    i: nat,
)
    requires
        valid_ring(m, n),
        x.len() == n,
        key_noise.len() == m.len(),
        forall|l: int|
            0 <= l < m.len() ==> (#[trigger] key_noise[l]).len() == n && bounded(key_noise[l], b),
        b >= 0,
        i <= m.len(),
    ensures
        bounded(folding(x, key_noise, m, i), i * (n * (0x4000_0000_0000_0000 * b))),
        folding(x, key_noise, m, i).len() == n,
    decreases i,
{
    let ni = n as int;
    let qm = 0x4000_0000_0000_0000int;
    let each = ni * (qm * b);
    assert(each >= 0) by (nonlinear_arith)
        requires
            each == ni * (qm * b),
            ni >= 0,
            qm >= 0,
            b >= 0,
    ;
    if i > 0 {
        let l = (i - 1) as int;
        lemma_folding_bound(x, key_noise, m, n, b, (i - 1) as nat);
        let dg = digits(x, m[l] as int);
        lemma_valid_ring(m, n, l);
        assert forall|j: int| 0 <= j < dg.len() implies -qm <= #[trigger] dg[j] <= qm by {
            lemma_mod_bound(x[j], m[l] as int);
        }
        assert(bounded(key_noise[l], b));
        lemma_product_bounded(dg, key_noise[l], qm, b);
        let before = (i - 1) * each;
        assert(before >= 0) by (nonlinear_arith)
            requires
                before == (i - 1) * each,
                i >= 1,
                each >= 0,
        ;
        lemma_combine_bounded(
            folding(x, key_noise, m, (i - 1) as nat),
            ring_product(dg, key_noise[l]),
            1,
            1,
            before,
            each,
        );
        assert(before + each == i * each) by (nonlinear_arith)
            requires
                before == (i - 1) * each,
        ;
    }
}

/// The multiples of the ciphertext modulus in the phases of the operands
/// are bounded.
pub proof fn lemma_multiple_bound(d: ProductData)
    requires
        d.shaped(),
        d.linked(),
        d.bound <= d.q(),
    ensures
        bounded(d.ka(), d.multiple_bound()),
        bounded(d.kb(), d.multiple_bound()),
        d.multiple_bound() >= 0,
{
    let q = d.q();
    let n = d.n as int;
    let b = d.bound;
    let t = d.t as int;
    let nb = n * b;
    let bk = d.multiple_bound();
    lemma_multiples(d);
    lemma_operand_bounds(d);
    lemma_inverse(d);
    assert(nb >= 0) by (nonlinear_arith)
        requires
            nb == n * b,
            n >= 0,
            b >= 0,
    ;
    assert forall|k: int| 0 <= k < d.n implies -bk <= #[trigger] d.ka()[k] <= bk by {
        let p = d.phi_a()[k];
        let e = d.ea[k];
        let mv = d.ma[k];
        let kv = d.ka()[k];
        assert(-(q * (1 + nb)) <= p <= q * (1 + nb));
        assert(-b <= e <= b);
        assert(-t <= mv <= t);
        assert(p == 1 * (1 * e + d.delta() * mv) + q * kv);
        assert(-(q * t) <= d.delta() * mv <= q * t) by (nonlinear_arith)
            requires
                0 <= d.delta() < q,
                -t <= mv <= t,
        ;
        assert(q * (1 + nb) + b + q * t <= q * bk) by (nonlinear_arith)
            requires
                bk == 2 + nb + t,
                b <= q,
                q >= 0,
        ;
        assert(-bk <= kv <= bk) by (nonlinear_arith)
            requires
                -(q * bk) <= q * kv <= q * bk,
                q >= 2,
        ;
    }
    assert forall|k: int| 0 <= k < d.n implies -bk <= #[trigger] d.kb()[k] <= bk by {
        let p = d.phi_b()[k];
        let e = d.eb[k];
        let mv = d.mb[k];
        let kv = d.kb()[k];
        assert(-(q * (1 + nb)) <= p <= q * (1 + nb));
        assert(-b <= e <= b);
        assert(-t <= mv <= t);
        assert(p == 1 * (1 * e + d.delta() * mv) + q * kv);
        assert(-(q * t) <= d.delta() * mv <= q * t) by (nonlinear_arith)
            requires
                0 <= d.delta() < q,
                -t <= mv <= t,
        ;
        assert(q * (1 + nb) + b + q * t <= q * bk) by (nonlinear_arith)
            requires
                bk == 2 + nb + t,
                b <= q,
                q >= 0,
        ;
        assert(-bk <= kv <= bk) by (nonlinear_arith)
            requires
                -(q * bk) <= q * kv <= q * bk,
                q >= 2,
        ;
    }
}

/// The bounds on the products of the noises, the messages and the
/// multiples of the operands.
pub proof fn lemma_part_bounds(d: ProductData, k: int)
    requires
        d.shaped(),
        d.linked(),
        d.bound <= d.q(),
        0 <= k < d.n,
    ensures
        -(d.n * (d.bound * d.bound)) <= d.ee()[k] <= d.n * (d.bound * d.bound),
        -(2 * (d.n * (d.bound * d.t))) <= d.x()[k] <= 2 * (d.n * (d.bound * d.t)),
        -d.message_bound() <= d.w()[k] <= d.message_bound(),
        -(2 * (d.n * (d.bound * d.multiple_bound()))) <= d.ek()[k] <= 2 * (d.n * (d.bound
            * d.multiple_bound())),
        -(2 * (d.n * (d.t * d.multiple_bound()))) <= d.mk()[k] <= 2 * (d.n * (d.t
            * d.multiple_bound())),
{
    let n = d.n as int;
    let b = d.bound;
    let t = d.t as int;
    let bk = d.multiple_bound();
    lemma_multiple_bound(d);
    lemma_product_bounded(d.ea, d.eb, b, b);
    lemma_product_bounded(d.ea, d.mb, b, t);
    lemma_product_bounded(d.ma, d.eb, t, b);
    lemma_product_bounded(d.ma, d.mb, t, t);
    lemma_product_bounded(d.ea, d.kb(), b, bk);
    lemma_product_bounded(d.ka(), d.eb, bk, b);
    lemma_product_bounded(d.ma, d.kb(), t, bk);
    lemma_product_bounded(d.ka(), d.mb, bk, t);
    let x = d.x()[k];
    let ek = d.ek()[k];
    let mk = d.mk()[k];
    assert(-(2 * (n * (b * t))) <= x <= 2 * (n * (b * t))) by {
        let u1 = ring_product(d.ea, d.mb)[k];
        let u2 = ring_product(d.ma, d.eb)[k];
        assert(x == 1 * u1 + 1 * u2);
        assert(-(n * (b * t)) <= u1 <= n * (b * t));
        assert(-(n * (t * b)) <= u2 <= n * (t * b));
        assert(n * (t * b) == n * (b * t)) by (nonlinear_arith);
    }
    assert(-(2 * (n * (b * bk))) <= ek <= 2 * (n * (b * bk))) by {
        let u1 = ring_product(d.ea, d.kb())[k];
        let u2 = ring_product(d.ka(), d.eb)[k];
        assert(ek == 1 * u1 + 1 * u2);
        assert(-(n * (b * bk)) <= u1 <= n * (b * bk));
        assert(-(n * (bk * b)) <= u2 <= n * (bk * b));
        assert(n * (bk * b) == n * (b * bk)) by (nonlinear_arith);
    }
    assert(-(2 * (n * (t * bk))) <= mk <= 2 * (n * (t * bk))) by {
        let u1 = ring_product(d.ma, d.kb())[k];
        let u2 = ring_product(d.ka(), d.mb)[k];
        assert(mk == 1 * u1 + 1 * u2);
        assert(-(n * (t * bk)) <= u1 <= n * (t * bk));
        assert(-(n * (bk * t)) <= u2 <= n * (bk * t));
        assert(n * (bk * t) == n * (t * bk)) by (nonlinear_arith);
    }
}

/// Where the ciphertext modulus leaves room for the noise of the product,
/// the noise and the scaled message of the product are within the budget.
pub proof fn lemma_product_within_budget(d: ProductData, k: int)
    requires
        d.ready(),
        d.linked(),
        d.within_product_budget(),
        0 <= k < d.n,
    ensures
        -d.q() <= 2 * (d.t * d.e_out()[k] - d.m_out()[k]) < d.q(),
{
    let q = d.q();
    let n = d.n as int;
    let b = d.bound;
    let t = d.t as int;
    let nb = n * b;
    let bk = d.multiple_bound();
    let bw = d.message_bound();
    let bf = d.folding_bound();
    let bx = 2 * (n * (b * t));
    let bek = 2 * (n * (b * bk));
    let bmk = 2 * (n * (t * bk));
    let bee = n * (b * b);
    let sq = (1 + nb) * (1 + nb);
    let bz = bw + sq + 1;
    let be = d.noise_bound();
    lemma_tensor_bounds(d);
    lemma_inverse(d);
    let j = d.j();
    let dl = d.delta();
    // the signs of the bounds
    assert(nb >= 0 && bk >= 2 && bk >= nb) by (nonlinear_arith)
        requires
            nb == n * b,
            bk == 2 + n * b + t,
            n >= 0,
            b >= 0,
            t >= 0,
    ;
    assert(sq >= 1) by (nonlinear_arith)
        requires
            sq == (1 + nb) * (1 + nb),
            nb >= 0,
    ;
    assert(bw >= 0 && bx >= 0 && bek >= 0 && bmk >= 0 && bee >= 0) by (nonlinear_arith)
        requires
            bw == n * (t * t),
            bx == 2 * (n * (b * t)),
            bek == 2 * (n * (b * bk)),
            bmk == 2 * (n * (t * bk)),
            bee == n * (b * b),
            n >= 0,
            b >= 0,
            t >= 0,
            bk >= 0,
    ;
    let qm = 0x4000_0000_0000_0000int;
    let each = n * (qm * b);
    assert(each >= b) by (nonlinear_arith)
        requires
            each == n * (qm * b),
            n >= 1,
            qm >= 1,
            b >= 0,
    ;
    assert(bf >= b) by (nonlinear_arith)
        requires
            bf == d.m.len() * each,
            d.m.len() >= 1,
            each >= b,
            b >= 0,
    ;
    assert(be == bf + t * bx + t * bek + bmk + bz);
    assert(t * bx >= bx && t * bek >= 0) by (nonlinear_arith)
        requires
            t >= 2,
            bx >= 0,
            bek >= 0,
    ;
    assert(be >= b && be >= 0);
    assert(t * be >= be && t * bw >= 0) by (nonlinear_arith)
        requires
            t >= 2,
            be >= 0,
            bw >= 0,
    ;
    assert(b <= q);
    // the parts of the noise
    lemma_part_bounds(d, k);
    lemma_folding_bound(d.d2(), d.key_noise, d.m, d.n, d.bound, d.m.len());
    lemma_rounded_phase(d);
    let ee = d.ee()[k];
    let x = d.x()[k];
    let w = d.w()[k];
    let ek = d.ek()[k];
    let mk = d.mk()[k];
    let r = d.r()[k];
    let nk = d.folding_noise(d.m.len())[k];
    let e = d.e_out()[k];
    assert(-bee <= ee <= bee);
    assert(-bw <= w <= bw);
    assert(-bx <= x <= bx);
    assert(-bek <= ek <= bek);
    assert(-bmk <= mk <= bmk);
    assert(-(q * sq) <= r <= q * sq);
    assert(-bf <= nk <= bf);
    // what the products and the rounding leave
    lemma_noise_identity(d, k);
    let inner = e - nk - j * x - t * ek + mk;
    let rest = 2 * t * ee - 2 * x - 2 * (dl * w) + r;
    assert(2 * q * inner == rest);
    assert(-(q * bw) <= dl * w <= q * bw) by (nonlinear_arith)
        requires
            0 <= dl < q,
            -bw <= w <= bw,
    ;
    assert(-(t * bee) <= t * ee <= t * bee) by (nonlinear_arith)
        requires
            -bee <= ee <= bee,
            t >= 0,
    ;
    assert(2 * t * ee == 2 * (t * ee)) by (nonlinear_arith);
    // 2 t bee <= t bek, as bk >= b
    assert(2 * (t * bee) <= t * bek) by (nonlinear_arith)
        requires
            bee == n * (b * b),
            bek == 2 * (n * (b * bk)),
            bk >= nb,
            nb == n * b,
            n >= 1,
            b >= 0,
            t >= 0,
    ;
    assert(2 * (t * bee) + 2 * bx <= 2 * be) ;
    assert(2 * be <= 2 * (t * be));
    assert(2 * (t * bee) + 2 * bx < q);
    assert(-(2 * q * bz) <= rest <= 2 * q * bz) by (nonlinear_arith)
        requires
            rest == 2 * (t * ee) - 2 * x - 2 * (dl * w) + r,
            -(t * bee) <= t * ee <= t * bee,
            -bx <= x <= bx,
            -(q * bw) <= dl * w <= q * bw,
            -(q * sq) <= r <= q * sq,
            2 * (t * bee) + 2 * bx < q,
            bz == bw + sq + 1,
            q >= 0,
            sq >= 0,
    ;
    assert(-bz <= inner <= bz) by (nonlinear_arith)
        requires
            2 * q * inner == rest,
            -(2 * q * bz) <= rest <= 2 * q * bz,
            q >= 2,
    ;
    assert(-(t * bx) <= j * x <= t * bx) by (nonlinear_arith)
        requires
            1 <= j <= t,
            -bx <= x <= bx,
    ;
    assert(-(t * bek) <= t * ek <= t * bek) by (nonlinear_arith)
        requires
            t >= 0,
            -bek <= ek <= bek,
    ;
    assert(-be <= e <= be);
    assert(-(t * be) <= t * e <= t * be) by (nonlinear_arith)
        requires
            t >= 0,
            -be <= e <= be,
    ;
    assert(-(t * bw) <= j * w <= t * bw) by (nonlinear_arith)
        requires
            1 <= j <= t,
            -bw <= w <= bw,
    ;
    assert(d.m_out()[k] == j * w);
}

/// The phase of the relinearized product is, modulo each modulus of the
/// ring, the noise of the product plus its scaled message times `-1/t`.
pub proof fn lemma_product_carried(d: ProductData)
    requires
        d.ready(),
        d.linked(),
    ensures
        residues(d.phase_out(), d.m) == noisy_rows(d.e_out(), d.m_out(), d.delta(), d.m, d.n),
        d.phase_out().len() == d.n,
        d.e_out().len() == d.n,
        d.m_out().len() == d.n,
{
    let q = d.q();
    lemma_tensor_bounds(d);
    let left = residues(d.phase_out(), d.m);
    let right = noisy_rows(d.e_out(), d.m_out(), d.delta(), d.m, d.n);
    assert forall|i: int| 0 <= i < d.m.len() implies left[i] =~= right[i] by {
        lemma_valid_ring(d.m, d.n, i);
        let p = d.m[i] as int;
        assert forall|l: int| 0 <= l < d.m.len() implies (#[trigger] d.m[l]) >= 1 by {
            lemma_valid_ring(d.m, d.n, l);
        }
        crate::crt::lemma_modulus_divides_product(d.m, i);
        assert forall|k: int| 0 <= k < d.n implies left[i][k] == right[i][k] by {
            let z = d.j() * d.mk()[k] + d.t * d.kk()[k];
            let y = d.e_out()[k] + d.delta() * d.m_out()[k];
            assert(d.phase_out()[k] == y + q * z);
            crate::congruence::lemma_congruent_multiple(y, z, q);
            lemma_congruent_divisor(y + q * z, y, q, p);
        }
    }
    assert(left =~= right);
}

/// The scaled message of the product is the product of the messages times
/// the ciphertext modulus, modulo `t`: where the scaled messages of the
/// operands are the messages `a` and `b` times the ciphertext modulus
/// modulo `t`.
pub proof fn lemma_message_out(d: ProductData, a: Seq<int>, b: Seq<int>, k: int)
    requires
        d.shaped(),
        d.t < 0x4000_0000_0000_0000,
        a.len() == d.n,
        b.len() == d.n,
        0 <= k < d.n,
        forall|i: int|
            0 <= i < d.n ==> congruent(#[trigger] d.ma[i], (d.q() % (d.t as int)) * a[i], d.t as int),
        forall|i: int|
            0 <= i < d.n ==> congruent(#[trigger] d.mb[i], (d.q() % (d.t as int)) * b[i], d.t as int),
    ensures
        congruent(d.m_out()[k], (d.q() % (d.t as int)) * ring_product(a, b)[k], d.t as int),
{
    let q = d.q();
    let t = d.t as int;
    let c = q % t;
    let j = d.j();
    crate::rns::lemma_product_at_least_two(d.m);
    lemma_inverse(d);
    let ca = combine(a, a, c, 0);
    let cb = combine(b, b, c, 0);
    let mu = ring_product(a, b)[k];
    // the product of the scaled messages is that of the messages times c
    assert(crate::integer_ring::residues_modulo(d.ma, t) =~= crate::integer_ring::residues_modulo(
        ca,
        t,
    ));
    assert(crate::integer_ring::residues_modulo(d.mb, t) =~= crate::integer_ring::residues_modulo(
        cb,
        t,
    ));
    crate::integer_ring::lemma_product_residues(d.ma, d.mb, t);
    crate::integer_ring::lemma_product_residues(ca, cb, t);
    let w = d.w()[k];
    let v = ring_product(ca, cb)[k];
    assert(crate::integer_ring::residues_modulo(d.w(), t)[k]
        == crate::integer_ring::residues_modulo(ring_product(ca, cb), t)[k]);
    lemma_mod_bound(w, t);
    lemma_mod_bound(v, t);
    assert(congruent(w, v, t));
    lemma_product_left(a, a, cb, c, 0);
    lemma_product_right(a, b, b, c, 0);
    assert(v == c * ring_product(a, cb)[k] + 0 * ring_product(a, cb)[k]);
    assert(ring_product(a, cb)[k] == c * mu + 0 * mu);
    assert(v == c * (c * mu));
    // j c is one modulo t
    lemma_residue_congruent(q, t);
    crate::congruence::lemma_congruent_mul(j, c, j, q, t);
    crate::congruence::lemma_congruent_multiple(1, d.delta(), t);
    assert(j * q == 1 + t * d.delta());
    assert(congruent(j * c, 1, t));
    crate::congruence::lemma_congruent_mul(j, w, j, v, t);
    crate::congruence::lemma_congruent_mul(j * c, c * mu, 1, c * mu, t);
    assert(j * v == (j * c) * (c * mu)) by (nonlinear_arith)
        requires
            v == c * (c * mu),
    ;
    assert(d.m_out()[k] == j * w);
}

} // verus!
