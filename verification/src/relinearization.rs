//! Relinearization keeps the phase: folding a third ring element into the
//! first two with a key that carries the square of the secret leaves the
//! phase of the three ring elements, plus the noise of the key.

use crate::congruence::{
    congruent, lemma_congruent_add, lemma_congruent_mul, lemma_residue_congruent,
};
use crate::crt::lemma_garner_sum_residue;
use crate::key_switching::{component_body, component_seed, switched, KeySwitchingKey};
use crate::ntt::{lemma_forward_backward, lemma_ntt_shape, ntt, twiddles};
use crate::ntt_linear::{
    constant_seq, lemma_lincomb_reduced, lemma_ntt_constant, lemma_ntt_linear, lincomb, repeated,
};
use crate::plaintext::plain_rows;
use crate::rns::{garner, garner_sum, project_value};
use crate::rows_algebra::{lemma_forward_rows_shape, lemma_valid_ring};
use crate::rq::{
    add_rows, backward_rows, column, forward_rows, mul_rows, scale_rows, small_rows, sub_rows,
    valid_ring, value_rows, well_shaped, zero_rows,
};
use crate::secret_key::{phase, SecretKey};
use crate::zq::{is_reduced, mul_mod};
use vstd::arithmetic::div_mod::*;
use vstd::prelude::*;

verus! {

/// The noise of the component `l` of a key made with the words, in
/// transformed form.
pub open spec fn component_noise(
    words: Seq<u64>,
    variance: nat,
    moduli: Seq<u64>,
    n: nat,
    l: int,
) -> Seq<Seq<u64>> {
    forward_rows(
        small_rows(words.subrange(n * l, n * (l + 1)), variance, moduli, n),
        moduli,
        n,
    )
}

/// The noises of the components of a key made with the words.
pub open spec fn key_noise_limbs(words: Seq<u64>, variance: nat, moduli: Seq<u64>, n: nat) -> Seq<
    Seq<Seq<u64>>,
> {
    Seq::new(moduli.len(), |l: int| component_noise(words, variance, moduli, n, l))
}

/// The rows that hold everywhere the residues of the Garner coefficient at
/// `l`.
pub open spec fn garner_rows(moduli: Seq<u64>, n: nat, l: int) -> Seq<Seq<u64>> {
    Seq::new(
        moduli.len(),
        |j: int| repeated((garner(moduli, l) % (moduli[j] as nat)) as u64, n),
    )
}

/// The rows of the Garner coefficients.
pub open spec fn garner_limbs(moduli: Seq<u64>, n: nat) -> Seq<Seq<Seq<u64>>> {
    Seq::new(moduli.len(), |l: int| garner_rows(moduli, n, l))
}

/// The noise that folding `d2` with a key of the given noise adds to the
/// phase: each row of `d2`, read as a polynomial, times the noise of the
/// component at its index.
pub open spec fn switching_noise(
    d2: Seq<Seq<u64>>,
    words: Seq<u64>,
    variance: nat,
    moduli: Seq<u64>,
    n: nat,
) -> Seq<Seq<u64>> {
    switched(
        zero_rows(moduli.len(), n),
        d2,
        key_noise_limbs(words, variance, moduli, n),
        moduli,
        n,
        moduli.len(),
    )
}

/// Entry-wise products of rows of the ring have the shape of the ring.
pub proof fn lemma_mul_rows_shape(x: Seq<Seq<u64>>, y: Seq<Seq<u64>>, moduli: Seq<u64>, n: nat)
    requires
        valid_ring(moduli, n),
        well_shaped(x, moduli, n),
    ensures
        well_shaped(mul_rows(x, y, moduli), moduli, n),
{
    let p = mul_rows(x, y, moduli);
    assert forall|i: int| 0 <= i < p.len() implies (#[trigger] p[i]).len() == n && is_reduced(
        p[i],
        moduli[i] as int,
    ) by {
        lemma_valid_ring(moduli, n, i);
        assert forall|j: int| 0 <= j < n implies (#[trigger] p[i][j]) < moduli[i] by {
            lemma_mod_bound((x[i][j] as int) * (y[i][j] as int), moduli[i] as int);
        }
    }
}

/// Sums of rows of the ring have the shape of the ring.
pub proof fn lemma_add_rows_shape(x: Seq<Seq<u64>>, y: Seq<Seq<u64>>, moduli: Seq<u64>, n: nat)
    requires
        valid_ring(moduli, n),
        well_shaped(x, moduli, n),
    ensures
        well_shaped(add_rows(x, y, moduli), moduli, n),
{
    let p = add_rows(x, y, moduli);
    assert forall|i: int| 0 <= i < p.len() implies (#[trigger] p[i]).len() == n && is_reduced(
        p[i],
        moduli[i] as int,
    ) by {
        lemma_valid_ring(moduli, n, i);
        assert forall|j: int| 0 <= j < n implies (#[trigger] p[i][j]) < moduli[i] by {
            lemma_mod_bound((x[i][j] as int) + (y[i][j] as int), moduli[i] as int);
        }
    }
}

/// Rows of zeros have the shape of the ring.
pub proof fn lemma_zero_rows_shape(moduli: Seq<u64>, n: nat)
    requires
        valid_ring(moduli, n),
    ensures
        well_shaped(zero_rows(moduli.len(), n), moduli, n),
{
    let zero = zero_rows(moduli.len(), n);
    assert forall|r: int| 0 <= r < zero.len() implies (#[trigger] zero[r]).len() == n
        && is_reduced(zero[r], moduli[r] as int) by {
        lemma_valid_ring(moduli, n, r);
    }
}

/// What folding adds keeps the shape of the ring.
pub proof fn lemma_switched_shape(
    acc: Seq<Seq<u64>>,
    p: Seq<Seq<u64>>,
    key: Seq<Seq<Seq<u64>>>,
    moduli: Seq<u64>,
    n: nat,
    i: nat,
)
    requires
        valid_ring(moduli, n),
        well_shaped(acc, moduli, n),
    ensures
        well_shaped(switched(acc, p, key, moduli, n, i), moduli, n),
    decreases i,
{
    if i > 0 {
        lemma_switched_shape(acc, p, key, moduli, n, (i - 1) as nat);
        lemma_add_rows_shape(
            switched(acc, p, key, moduli, n, (i - 1) as nat),
            mul_rows(plain_rows(p[i - 1], moduli, n), key[i - 1], moduli),
            moduli,
            n,
        );
    }
}

/// The forward transform undoes the backward transform, row by row.
pub proof fn lemma_forward_backward_rows(x: Seq<Seq<u64>>, moduli: Seq<u64>, n: nat)
    requires
        valid_ring(moduli, n),
        well_shaped(x, moduli, n),
    ensures
        forward_rows(backward_rows(x, moduli, n), moduli, n) == x,
{
    let b = backward_rows(x, moduli, n);
    assert forall|i: int| 0 <= i < x.len() implies forward_rows(b, moduli, n)[i] == x[i] by {
        lemma_valid_ring(moduli, n, i);
        lemma_forward_backward(x[i], moduli[i] as int, n);
    }
    assert(forward_rows(b, moduli, n) =~= x);
}

/// One component of a key that carries the square of the secret: its
/// random half times the secret, plus its other half, is its noise plus
/// the Garner coefficient times the square of the secret.
pub proof fn lemma_component(
    s: Seq<Seq<u64>>,
    a: Seq<Seq<u64>>,
    e: Seq<Seq<u64>>,
    moduli: Seq<u64>,
    n: nat,
    l: int,
)
    requires
        valid_ring(moduli, n),
        well_shaped(s, moduli, n),
        well_shaped(a, moduli, n),
        well_shaped(e, moduli, n),
        0 <= l < moduli.len(),
    ensures
        add_rows(
            mul_rows(a, s, moduli),
            component_body(
                s,
                backward_rows(mul_rows(s, s, moduli), moduli, n),
                a,
                e,
                moduli,
                n,
                l,
            ),
            moduli,
        ) == add_rows(
            forward_rows(e, moduli, n),
            mul_rows(garner_rows(moduli, n, l), mul_rows(s, s, moduli), moduli),
            moduli,
        ),
{
    let ss = mul_rows(s, s, moduli);
    let from = backward_rows(ss, moduli, n);
    let a_s = mul_rows(a, s, moduli);
    let b_as = backward_rows(a_s, moduli, n);
    let c = project_value(moduli, garner(moduli, l));
    let x1 = sub_rows(e, b_as, moduli);
    let x2 = scale_rows(from, c, moduli);
    let x = add_rows(x1, x2, moduli);
    let body = component_body(s, from, a, e, moduli, n, l);
    assert(body == forward_rows(x, moduli, n));
    lemma_mul_rows_shape(s, s, moduli, n);
    lemma_mul_rows_shape(a, s, moduli, n);
    lemma_forward_backward_rows(ss, moduli, n);
    lemma_forward_backward_rows(a_s, moduli, n);
    let fe = forward_rows(e, moduli, n);
    let g = garner_rows(moduli, n, l);
    let left = add_rows(a_s, body, moduli);
    let right = add_rows(fe, mul_rows(g, ss, moduli), moduli);
    assert forall|j: int| 0 <= j < moduli.len() implies left[j] =~= right[j] by {
        lemma_valid_ring(moduli, n, j);
        let q = moduli[j] as int;
        let tw = twiddles(q, n);
        let cj = c[j];
        lemma_mod_bound(garner(moduli, l) as int, q);
        // the shapes of the rows in coefficient form
        crate::ntt::lemma_intt_shape(ss[j], crate::ntt::inv_twiddles(q, n), 1, q);
        crate::ntt::lemma_intt_shape(a_s[j], crate::ntt::inv_twiddles(q, n), 1, q);
        assert(from[j].len() == n && is_reduced(from[j], q));
        assert(b_as[j].len() == n && is_reduced(b_as[j], q));
        // x1 = e - B(a s), x2 = c from, x = x1 + x2, as combinations
        let x1j = lincomb(e[j], b_as[j], 1, -1, q);
        assert(x1[j] =~= x1j) by {
            assert forall|pos: int| 0 <= pos < n implies x1[j][pos] == x1j[pos] by {
                assert(1 * (e[j][pos] as int) + (-1) * (b_as[j][pos] as int) == (
                e[j][pos] as int) - (b_as[j][pos] as int));
            }
        }
        let x2j = lincomb(from[j], from[j], cj as int, 0, q);
        assert(x2[j] =~= x2j) by {
            assert forall|pos: int| 0 <= pos < n implies x2[j][pos] == x2j[pos] by {
                let f = from[j][pos] as int;
                assert(f * (cj as int) == (cj as int) * f + 0 * f) by (nonlinear_arith);
            }
        }
        lemma_lincomb_reduced(e[j], b_as[j], 1, -1, q);
        lemma_lincomb_reduced(from[j], from[j], cj as int, 0, q);
        let xj = lincomb(x1j, x2j, 1, 1, q);
        assert(x[j] =~= xj) by {
            assert forall|pos: int| 0 <= pos < n implies x[j][pos] == xj[pos] by {
                assert(1 * (x1j[pos] as int) + 1 * (x2j[pos] as int) == (x1j[pos] as int) + (
                x2j[pos] as int));
            }
        }
        // the transforms of the combinations
        lemma_ntt_linear(x1j, x2j, 1, 1, tw, 1, q);
        lemma_ntt_linear(e[j], b_as[j], 1, -1, tw, 1, q);
        lemma_ntt_linear(from[j], from[j], cj as int, 0, tw, 1, q);
        assert(ntt(b_as[j], tw, 1, q) == a_s[j]);
        assert(ntt(from[j], tw, 1, q) == ss[j]);
        lemma_ntt_shape(e[j], tw, 1, q);
        let fej = ntt(e[j], tw, 1, q);
        assert(fe[j] == fej);
        assert forall|pos: int| 0 <= pos < n implies left[j][pos] == right[j][pos] by {
            let ev = fej[pos] as int;
            let av = a_s[j][pos] as int;
            let sv = ss[j][pos] as int;
            let t1 = (1 * ev + (-1) * av) % q;
            let t2 = ((cj as int) * sv + 0 * sv) % q;
            let bv = (1 * t1 + 1 * t2) % q;
            lemma_mod_bound(1 * ev + (-1) * av, q);
            lemma_mod_bound((cj as int) * sv + 0 * sv, q);
            lemma_mod_bound(1 * t1 + 1 * t2, q);
            assert(body[j][pos] == bv);
            lemma_residue_congruent(ev - av, q);
            lemma_residue_congruent((cj as int) * sv, q);
            lemma_congruent_add(t1, t2, ev - av, (cj as int) * sv, q);
            lemma_residue_congruent(t1 + t2, q);
            lemma_congruent_add(av, bv, av, (ev - av) + (cj as int) * sv, q);
            // the right side
            assert(g[j][pos] == cj);
            lemma_residue_congruent((cj as int) * sv, q);
            lemma_congruent_add(ev, mul_mod(cj as int, sv, q), ev, (cj as int) * sv, q);
        }
    }
    assert(left =~= right);
}

/// One step of the folding, entry by entry: where the phase so far is
/// `base + noise + garner * square`, adding a digit times a component
/// keeps that form.
pub proof fn lemma_fold_step(
    b: int,
    a: int,
    nz: int,
    h: int,
    base: int,
    sv: int,
    ssv: int,
    dg: int,
    mask: int,
    body: int,
    fe: int,
    gv: int,
    q: int,
)
    requires
        q > 0,
        congruent(ssv, sv * sv, q),
        congruent(b * sv + a, base + nz + h * ssv, q),
        congruent(mask * sv + body, fe + gv * ssv, q),
    ensures
        congruent(
            ((b + (dg * mask) % q) % q) * sv + (a + (dg * body) % q) % q,
            base + (nz + (dg * fe) % q) % q + ((h + (dg * gv) % q) % q) * ssv,
            q,
        ),
{
    let b2 = (b + (dg * mask) % q) % q;
    let a2 = (a + (dg * body) % q) % q;
    let n2 = (nz + (dg * fe) % q) % q;
    let h2 = (h + (dg * gv) % q) % q;
    lemma_residue_congruent(dg * mask, q);
    lemma_residue_congruent(dg * body, q);
    lemma_residue_congruent(dg * fe, q);
    lemma_residue_congruent(dg * gv, q);
    lemma_residue_congruent(b + (dg * mask) % q, q);
    lemma_residue_congruent(a + (dg * body) % q, q);
    lemma_residue_congruent(nz + (dg * fe) % q, q);
    lemma_residue_congruent(h + (dg * gv) % q, q);
    lemma_congruent_add(b, (dg * mask) % q, b, dg * mask, q);
    lemma_congruent_add(a, (dg * body) % q, a, dg * body, q);
    lemma_congruent_add(nz, (dg * fe) % q, nz, dg * fe, q);
    lemma_congruent_add(h, (dg * gv) % q, h, dg * gv, q);
    // left == (b + dg mask) sv + a + dg body
    lemma_congruent_mul(b2, sv, b + dg * mask, sv, q);
    lemma_congruent_add(b2 * sv, a2, (b + dg * mask) * sv, a + dg * body, q);
    // right == base + nz + dg fe + (h + dg gv) ssv
    lemma_congruent_mul(h2, ssv, h + dg * gv, ssv, q);
    lemma_congruent_add(base, n2, base, nz + dg * fe, q);
    lemma_congruent_add(base + n2, h2 * ssv, base + nz + dg * fe, (h + dg * gv) * ssv, q);
    // the two agree by the hypotheses
    let comp_left = mask * sv + body;
    let comp_right = fe + gv * ssv;
    lemma_congruent_mul(dg, comp_left, dg, comp_right, q);
    lemma_congruent_add(b * sv + a, dg * comp_left, base + nz + h * ssv, dg * comp_right, q);
    assert((b + dg * mask) * sv + (a + dg * body) == (b * sv + a) + dg * comp_left) by {
        assert((b + dg * mask) * sv == b * sv + (dg * mask) * sv) by (nonlinear_arith);
        assert((dg * mask) * sv == dg * (mask * sv)) by (nonlinear_arith);
        assert(dg * (mask * sv + body) == dg * (mask * sv) + dg * body) by (nonlinear_arith);
    }
    assert(base + nz + dg * fe + (h + dg * gv) * ssv == (base + nz + h * ssv) + dg * comp_right)
        by {
        assert((h + dg * gv) * ssv == h * ssv + (dg * gv) * ssv) by (nonlinear_arith);
        assert((dg * gv) * ssv == dg * (gv * ssv)) by (nonlinear_arith);
        assert(dg * (fe + gv * ssv) == dg * fe + dg * (gv * ssv)) by (nonlinear_arith);
    }
}

/// The keys of a folding: as many components as moduli, each of the shape
/// of the ring, and each a component of a key that carries the square of
/// the secret.
pub open spec fn folding_ready(
    s: Seq<Seq<u64>>,
    bodies: Seq<Seq<Seq<u64>>>,
    masks: Seq<Seq<Seq<u64>>>,
    noises: Seq<Seq<Seq<u64>>>,
    moduli: Seq<u64>,
    n: nat,
) -> bool {
    &&& bodies.len() == moduli.len()
    &&& masks.len() == moduli.len()
    &&& noises.len() == moduli.len()
    &&& forall|l: int|
        0 <= l < moduli.len() ==> well_shaped(#[trigger] bodies[l], moduli, n) && well_shaped(
            masks[l],
            moduli,
            n,
        ) && well_shaped(noises[l], moduli, n) && add_rows(
            mul_rows(masks[l], s, moduli),
            bodies[l],
            moduli,
        ) == add_rows(
            noises[l],
            mul_rows(garner_rows(moduli, n, l), mul_rows(s, s, moduli), moduli),
            moduli,
        )
}

/// The phase during a folding, entry by entry: after the first `i`
/// components it is the phase before, plus the noise added so far, plus
/// the Garner combination so far times the square of the secret.
pub proof fn lemma_fold_entry(
    s: Seq<Seq<u64>>,
    c0: Seq<Seq<u64>>,
    c1: Seq<Seq<u64>>,
    d2: Seq<Seq<u64>>,
    bodies: Seq<Seq<Seq<u64>>>,
    masks: Seq<Seq<Seq<u64>>>,
    noises: Seq<Seq<Seq<u64>>>,
    moduli: Seq<u64>,
    n: nat,
    i: nat,
    j: int,
    pos: int,
)
    requires
        valid_ring(moduli, n),
        well_shaped(s, moduli, n),
        well_shaped(c0, moduli, n),
        well_shaped(c1, moduli, n),
        well_shaped(d2, moduli, n),
        folding_ready(s, bodies, masks, noises, moduli, n),
        i <= moduli.len(),
        0 <= j < moduli.len(),
        0 <= pos < n,
    ensures
        congruent(
            (switched(c1, d2, masks, moduli, n, i)[j][pos] as int) * (s[j][pos] as int) + (switched(
                c0,
                d2,
                bodies,
                moduli,
                n,
                i,
            )[j][pos] as int),
            ((c1[j][pos] as int) * (s[j][pos] as int) + (c0[j][pos] as int)) + (switched(
                zero_rows(moduli.len(), n),
                d2,
                noises,
                moduli,
                n,
                i,
            )[j][pos] as int) + (switched(
                zero_rows(moduli.len(), n),
                d2,
                garner_limbs(moduli, n),
                moduli,
                n,
                i,
            )[j][pos] as int) * (mul_rows(s, s, moduli)[j][pos] as int),
            moduli[j] as int,
        ),
    decreases i,
{
    let q = moduli[j] as int;
    let zero = zero_rows(moduli.len(), n);
    let garners = garner_limbs(moduli, n);
    lemma_valid_ring(moduli, n, j);
    let sv = s[j][pos] as int;
    let ssv = mul_rows(s, s, moduli)[j][pos] as int;
    if i == 0 {
        assert(0 * ssv == 0);
    } else {
        let l = i - 1;
        lemma_fold_entry(s, c0, c1, d2, bodies, masks, noises, moduli, n, l as nat, j, pos);
        let a_prev = switched(c0, d2, bodies, moduli, n, l as nat);
        let b_prev = switched(c1, d2, masks, moduli, n, l as nat);
        let n_prev = switched(zero, d2, noises, moduli, n, l as nat);
        let h_prev = switched(zero, d2, garners, moduli, n, l as nat);
        lemma_zero_rows_shape(moduli, n);
        lemma_switched_shape(c0, d2, bodies, moduli, n, l as nat);
        lemma_switched_shape(c1, d2, masks, moduli, n, l as nat);
        lemma_switched_shape(zero, d2, noises, moduli, n, l as nat);
        lemma_switched_shape(zero, d2, garners, moduli, n, l as nat);
        let digit = plain_rows(d2[l], moduli, n);
        assert(well_shaped(digit, moduli, n)) by {
            crate::correctness::lemma_material_shape(
                Seq::<u8>::empty(),
                Seq::<u64>::empty(),
                0,
                d2[l],
                moduli,
                n,
            );
            lemma_forward_rows_shape(value_rows(d2[l], moduli, n), moduli, n);
        }
        let dg = digit[j][pos] as int;
        let mask = masks[l][j][pos] as int;
        let body = bodies[l][j][pos] as int;
        let fe = noises[l][j][pos] as int;
        let gv = garners[l][j][pos] as int;
        assert(well_shaped(bodies[l], moduli, n));
        // the component, entry by entry
        let comp_left = add_rows(mul_rows(masks[l], s, moduli), bodies[l], moduli);
        let comp_right = add_rows(
            noises[l],
            mul_rows(garner_rows(moduli, n, l), mul_rows(s, s, moduli), moduli),
            moduli,
        );
        assert(comp_left[j][pos] == comp_right[j][pos]);
        lemma_residue_congruent(mask * sv, q);
        lemma_residue_congruent((mask * sv) % q + body, q);
        lemma_congruent_add((mask * sv) % q, body, mask * sv, body, q);
        lemma_residue_congruent(gv * ssv, q);
        lemma_residue_congruent(fe + (gv * ssv) % q, q);
        lemma_congruent_add(fe, (gv * ssv) % q, fe, gv * ssv, q);
        assert(congruent(mask * sv + body, fe + gv * ssv, q));
        lemma_residue_congruent(sv * sv, q);
        lemma_fold_step(
            b_prev[j][pos] as int,
            a_prev[j][pos] as int,
            n_prev[j][pos] as int,
            h_prev[j][pos] as int,
            (c1[j][pos] as int) * sv + (c0[j][pos] as int),
            sv,
            ssv,
            dg,
            mask,
            body,
            fe,
            gv,
            q,
        );
        lemma_mod_bound((b_prev[j][pos] as int) + (dg * mask) % q, q);
        lemma_mod_bound((a_prev[j][pos] as int) + (dg * body) % q, q);
        lemma_mod_bound((n_prev[j][pos] as int) + (dg * fe) % q, q);
        lemma_mod_bound((h_prev[j][pos] as int) + (dg * gv) % q, q);
        lemma_mod_bound(dg * mask, q);
        lemma_mod_bound(dg * body, q);
        lemma_mod_bound(dg * fe, q);
        lemma_mod_bound(dg * gv, q);
    }
}

/// The Garner combination of the digits of `d2` is the transform of `d2`:
/// after the first `i` components, the row `j` of the combination is the
/// transform of the Garner sums of the first `i` residues of each
/// coefficient.
pub proof fn lemma_garner_fold(d2: Seq<Seq<u64>>, moduli: Seq<u64>, n: nat, i: nat, j: int)
    requires
        valid_ring(moduli, n),
        well_shaped(d2, moduli, n),
        i <= moduli.len(),
        0 <= j < moduli.len(),
    ensures
        switched(zero_rows(moduli.len(), n), d2, garner_limbs(moduli, n), moduli, n, i)[j] == ntt(
            Seq::new(
                n,
                |pos: int|
                    (garner_sum(moduli, column(d2, pos), i) % (moduli[j] as nat)) as u64,
            ),
            twiddles(moduli[j] as int, n),
            1,
            moduli[j] as int,
        ),
    decreases i,
{
    let q = moduli[j] as int;
    let tw = twiddles(q, n);
    let zero = zero_rows(moduli.len(), n);
    let garners = garner_limbs(moduli, n);
    lemma_valid_ring(moduli, n, j);
    let partial = Seq::new(
        n,
        |pos: int| (garner_sum(moduli, column(d2, pos), i) % (moduli[j] as nat)) as u64,
    );
    lemma_zero_rows_shape(moduli, n);
    lemma_switched_shape(zero, d2, garners, moduli, n, i);
    if i == 0 {
        lemma_small_mod(0, q as nat);
        assert(partial =~= constant_seq(0, n));
        lemma_ntt_constant(0, n, tw, 1, q);
        assert(zero[j] =~= repeated(0, n));
    } else {
        let l = i - 1;
        lemma_garner_fold(d2, moduli, n, l as nat, j);
        let before = Seq::new(
            n,
            |pos: int| (garner_sum(moduli, column(d2, pos), l as nat) % (moduli[j] as nat)) as u64,
        );
        let h_prev = switched(zero, d2, garners, moduli, n, l as nat);
        lemma_switched_shape(zero, d2, garners, moduli, n, l as nat);
        let values = value_rows(d2[l], moduli, n)[j];
        let digit = plain_rows(d2[l], moduli, n)[j];
        assert(digit == ntt(values, tw, 1, q));
        let c = (garner(moduli, l) % (moduli[j] as nat)) as u64;
        lemma_mod_bound(garner(moduli, l) as int, q);
        assert forall|pos: int| 0 <= pos < n implies (#[trigger] before[pos]) < q && (
        #[trigger] values[pos]) < q by {
            lemma_mod_bound(garner_sum(moduli, column(d2, pos), l as nat) as int, q);
            lemma_mod_bound(d2[l][pos] as int, q);
        }
        lemma_ntt_linear(before, values, 1, c as int, tw, 1, q);
        lemma_ntt_shape(before, tw, 1, q);
        lemma_ntt_shape(values, tw, 1, q);
        let h_now = switched(zero, d2, garners, moduli, n, i)[j];
        let combined = lincomb(ntt(before, tw, 1, q), digit, 1, c as int, q);
        assert(h_now =~= combined) by {
            assert forall|pos: int| 0 <= pos < n implies h_now[pos] == combined[pos] by {
                let hv = h_prev[j][pos] as int;
                let dv = digit[pos] as int;
                assert(garners[l][j][pos] == c);
                lemma_residue_congruent(dv * (c as int), q);
                lemma_congruent_add(hv, (dv * (c as int)) % q, hv, dv * (c as int), q);
                assert(1 * hv + (c as int) * dv == hv + dv * (c as int)) by (nonlinear_arith);
            }
        }
        assert(lincomb(before, values, 1, c as int, q) =~= partial) by {
            assert forall|pos: int| 0 <= pos < n implies lincomb(
                before,
                values,
                1,
                c as int,
                q,
            )[pos] == partial[pos] by {
                let col = column(d2, pos);
                let sum_before = garner_sum(moduli, col, l as nat) as int;
                let g = garner(moduli, l) as int;
                let r = d2[l][pos] as int;
                assert(col[l] == d2[l][pos]);
                lemma_residue_congruent(sum_before, q);
                lemma_residue_congruent(g, q);
                lemma_residue_congruent(r, q);
                lemma_mod_bound(r, q);
                lemma_congruent_mul(c as int, r % q, g, r, q);
                lemma_congruent_add(sum_before % q, (c as int) * (r % q), sum_before, g * r, q);
                assert(1 * (sum_before % q) + (c as int) * (r % q) == sum_before % q + (c as int)
                    * (r % q));
                lemma_mod_bound(sum_before + g * r, q);
            }
        }
    }
}

/// The Garner combination of all the digits of `d2` is the transform of
/// `d2`.
pub proof fn lemma_garner_recombination(d2: Seq<Seq<u64>>, moduli: Seq<u64>, n: nat)
    requires
        valid_ring(moduli, n),
        well_shaped(d2, moduli, n),
    ensures
        switched(
            zero_rows(moduli.len(), n),
            d2,
            garner_limbs(moduli, n),
            moduli,
            n,
            moduli.len(),
        ) == forward_rows(d2, moduli, n),
{
    let k = moduli.len();
    let h = switched(zero_rows(k, n), d2, garner_limbs(moduli, n), moduli, n, k);
    let zero = zero_rows(k, n);
    lemma_zero_rows_shape(moduli, n);
    lemma_switched_shape(zero, d2, garner_limbs(moduli, n), moduli, n, k);
    assert forall|j: int| 0 <= j < k implies h[j] == forward_rows(d2, moduli, n)[j] by {
        lemma_garner_fold(d2, moduli, n, k, j);
        lemma_valid_ring(moduli, n, j);
        let q = moduli[j] as int;
        let partial = Seq::new(
            n,
            |pos: int| (garner_sum(moduli, column(d2, pos), k) % (moduli[j] as nat)) as u64,
        );
        assert(partial =~= d2[j]) by {
            assert forall|pos: int| 0 <= pos < n implies partial[pos] == d2[j][pos] by {
                let col = column(d2, pos);
                lemma_garner_sum_residue(moduli, col, k, j);
                assert(col[j] == d2[j][pos]);
                lemma_small_mod(d2[j][pos] as nat, q as nat);
            }
        }
    }
    assert(h =~= forward_rows(d2, moduli, n));
}

/// Relinearization keeps the phase: the two ring elements into which the
/// third ring element `d2`, in coefficient form, was folded with a key that
/// carries the square of the secret have, under the secret, the phase of
/// the three ring elements plus the noise of the folding.
pub proof fn lemma_folding_keeps_phase(
    s: Seq<Seq<u64>>,
    c0: Seq<Seq<u64>>,
    c1: Seq<Seq<u64>>,
    d2: Seq<Seq<u64>>,
    bodies: Seq<Seq<Seq<u64>>>,
    masks: Seq<Seq<Seq<u64>>>,
    noises: Seq<Seq<Seq<u64>>>,
    moduli: Seq<u64>,
    n: nat,
)
    requires
        valid_ring(moduli, n),
        well_shaped(s, moduli, n),
        well_shaped(c0, moduli, n),
        well_shaped(c1, moduli, n),
        well_shaped(d2, moduli, n),
        folding_ready(s, bodies, masks, noises, moduli, n),
    ensures
        phase(
            seq![
                switched(c0, d2, bodies, moduli, n, moduli.len()),
                switched(c1, d2, masks, moduli, n, moduli.len()),
            ],
            s,
            moduli,
            0,
        ) == add_rows(
            phase(seq![c0, c1, forward_rows(d2, moduli, n)], s, moduli, 0),
            switched(zero_rows(moduli.len(), n), d2, noises, moduli, n, moduli.len()),
            moduli,
        ),
{
    reveal_with_fuel(phase, 4);
    let k = moduli.len();
    let zero = zero_rows(k, n);
    let a = switched(c0, d2, bodies, moduli, n, k);
    let b = switched(c1, d2, masks, moduli, n, k);
    let nz = switched(zero, d2, noises, moduli, n, k);
    let h = switched(zero, d2, garner_limbs(moduli, n), moduli, n, k);
    let c2 = forward_rows(d2, moduli, n);
    lemma_garner_recombination(d2, moduli, n);
    lemma_zero_rows_shape(moduli, n);
    lemma_switched_shape(c0, d2, bodies, moduli, n, k);
    lemma_switched_shape(c1, d2, masks, moduli, n, k);
    lemma_switched_shape(zero, d2, noises, moduli, n, k);
    lemma_forward_rows_shape(d2, moduli, n);
    let two = seq![a, b];
    let three = seq![c0, c1, c2];
    let left = phase(two, s, moduli, 0);
    let whole = phase(three, s, moduli, 0);
    let right = add_rows(whole, nz, moduli);
    assert(left == add_rows(mul_rows(b, s, moduli), a, moduli));
    assert(phase(three, s, moduli, 1) == add_rows(mul_rows(c2, s, moduli), c1, moduli));
    assert(whole == add_rows(
        mul_rows(add_rows(mul_rows(c2, s, moduli), c1, moduli), s, moduli),
        c0,
        moduli,
    ));
    assert forall|j: int| 0 <= j < k implies left[j] =~= right[j] by {
        lemma_valid_ring(moduli, n, j);
        let q = moduli[j] as int;
        assert forall|pos: int| 0 <= pos < n implies left[j][pos] == right[j][pos] by {
            lemma_fold_entry(s, c0, c1, d2, bodies, masks, noises, moduli, n, k, j, pos);
            let sv = s[j][pos] as int;
            let ssv = mul_rows(s, s, moduli)[j][pos] as int;
            let av = a[j][pos] as int;
            let bv = b[j][pos] as int;
            let nv = nz[j][pos] as int;
            let hv = h[j][pos] as int;
            let c0v = c0[j][pos] as int;
            let c1v = c1[j][pos] as int;
            let c2v = c2[j][pos] as int;
            assert(hv == c2v);
            // left == b s + a
            lemma_residue_congruent(bv * sv, q);
            lemma_congruent_add((bv * sv) % q, av, bv * sv, av, q);
            lemma_mod_bound((bv * sv) % q + av, q);
            // right == ((c2 s + c1) s + c0) + n
            let inner = ((c2v * sv) % q + c1v) % q;
            lemma_mod_bound((c2v * sv) % q + c1v, q);
            lemma_residue_congruent(c2v * sv, q);
            lemma_residue_congruent((c2v * sv) % q + c1v, q);
            lemma_congruent_add((c2v * sv) % q, c1v, c2v * sv, c1v, q);
            lemma_congruent_mul(inner, sv, c2v * sv + c1v, sv, q);
            lemma_residue_congruent(inner * sv, q);
            let whole_value = ((inner * sv) % q + c0v) % q;
            lemma_mod_bound((inner * sv) % q + c0v, q);
            assert(whole[j][pos] == whole_value);
            lemma_residue_congruent((inner * sv) % q + c0v, q);
            lemma_congruent_add((inner * sv) % q, c0v, (c2v * sv + c1v) * sv, c0v, q);
            lemma_congruent_add(whole_value, nv, (c2v * sv + c1v) * sv + c0v, nv, q);
            lemma_mod_bound(whole_value + nv, q);
            // the square of the secret
            lemma_residue_congruent(sv * sv, q);
            lemma_congruent_mul(c2v, ssv, c2v, sv * sv, q);
            lemma_congruent_add(c1v * sv + c0v + nv, c2v * ssv, c1v * sv + c0v + nv, c2v * (sv * sv), q);
            assert((c2v * sv + c1v) * sv + c0v + nv == c1v * sv + c0v + nv + c2v * (sv * sv))
                by {
                assert((c2v * sv + c1v) * sv == (c2v * sv) * sv + c1v * sv) by (nonlinear_arith);
                assert((c2v * sv) * sv == c2v * (sv * sv)) by (nonlinear_arith);
            }
        }
    }
    assert(left =~= right);
}

/// A key that carries the square of the secret, made with a seed and
/// words of noise, is ready for the folding, with the noise of the words.
pub proof fn lemma_key_ready(sk: &SecretKey, key: &KeySwitchingKey, seed: Seq<u8>, words: Seq<u64>)
    requires
        sk.wf(),
        key.wf(),
        *key.parameters() == *sk.parameters(),
        sk.made_with(key, sk.square(), seed, words),
    ensures
        folding_ready(
            sk.secret().rows(),
            key.body_limbs(),
            key.mask_limbs(),
            key_noise_limbs(
                words,
                sk.parameters().variance() as nat,
                sk.parameters().moduli()@,
                sk.parameters().degree() as nat,
            ),
            sk.parameters().moduli()@,
            sk.parameters().degree() as nat,
        ),
{
    let par = sk.parameters();
    let moduli = par.moduli()@;
    let n = par.degree() as nat;
    let variance = par.variance() as nat;
    let s = sk.secret().rows();
    let noises = key_noise_limbs(words, variance, moduli, n);
    assert(valid_ring(moduli, n));
    assert forall|l: int| 0 <= l < moduli.len() implies well_shaped(
        #[trigger] key.body_limbs()[l],
        moduli,
        n,
    ) && well_shaped(key.mask_limbs()[l], moduli, n) && well_shaped(noises[l], moduli, n)
        && add_rows(mul_rows(key.mask_limbs()[l], s, moduli), key.body_limbs()[l], moduli)
        == add_rows(
        noises[l],
        mul_rows(garner_rows(moduli, n, l), mul_rows(s, s, moduli), moduli),
        moduli,
    ) by {
        assert(key.bodies()[l].fits(par.context()));
        assert(key.masks()[l].fits(par.context()));
        let e = small_rows(words.subrange(n * l, n * (l + 1)), variance, moduli, n);
        let a = key.mask_limbs()[l];
        crate::correctness::lemma_material_shape(
            component_seed(seed, moduli.len(), l),
            words.subrange(n * l, n * (l + 1)),
            variance,
            Seq::<u64>::empty(),
            moduli,
            n,
        );
        lemma_forward_rows_shape(e, moduli, n);
        lemma_component(s, a, e, moduli, n, l);
    }
}

/// Relinearization keeps the phase: the two ring elements into which the
/// third ring element `c2`, in coefficient form, was folded with the key
/// have, under the secret, the phase of the three ring elements plus the
/// noise of the folding.
pub proof fn lemma_relinearization_keeps_phase(
    sk: &SecretKey,
    key: &KeySwitchingKey,
    seed: Seq<u8>,
    words: Seq<u64>,
    c0: Seq<Seq<u64>>,
    c1: Seq<Seq<u64>>,
    c2: Seq<Seq<u64>>,
)
    requires
        sk.wf(),
        key.wf(),
        *key.parameters() == *sk.parameters(),
        sk.made_with(key, sk.square(), seed, words),
        well_shaped(c0, sk.parameters().moduli()@, sk.parameters().degree() as nat),
        well_shaped(c1, sk.parameters().moduli()@, sk.parameters().degree() as nat),
        well_shaped(c2, sk.parameters().moduli()@, sk.parameters().degree() as nat),
    ensures
        phase(
            seq![
                switched(
                    c0,
                    c2,
                    key.body_limbs(),
                    sk.parameters().moduli()@,
                    sk.parameters().degree() as nat,
                    sk.parameters().moduli()@.len(),
                ),
                switched(
                    c1,
                    c2,
                    key.mask_limbs(),
                    sk.parameters().moduli()@,
                    sk.parameters().degree() as nat,
                    sk.parameters().moduli()@.len(),
                ),
            ],
            sk.secret().rows(),
            sk.parameters().moduli()@,
            0,
        ) == add_rows(
            phase(
                seq![
                    c0,
                    c1,
                    forward_rows(c2, sk.parameters().moduli()@, sk.parameters().degree() as nat),
                ],
                sk.secret().rows(),
                sk.parameters().moduli()@,
                0,
            ),
            switching_noise(
                c2,
                words,
                sk.parameters().variance() as nat,
                sk.parameters().moduli()@,
                sk.parameters().degree() as nat,
            ),
            sk.parameters().moduli()@,
        ),
{
    let par = sk.parameters();
    lemma_key_ready(sk, key, seed, words);
    lemma_folding_keeps_phase(
        sk.secret().rows(),
        c0,
        c1,
        c2,
        key.body_limbs(),
        key.mask_limbs(),
        key_noise_limbs(words, par.variance() as nat, par.moduli()@, par.degree() as nat),
        par.moduli()@,
        par.degree() as nat,
    );
}

} // verus!
