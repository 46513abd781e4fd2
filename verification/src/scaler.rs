//! Rescaling of ring elements from one basis of moduli to another.
//!
//! Each coefficient is read as the centered number that its residues stand
//! for, multiplied by a rational factor, rounded to the nearest integer
//! (halves upward), and reduced modulo each modulus of the destination.

use crate::bigint::{
    big_add, big_div, big_from_word, big_less, big_mul, big_rem, big_sub, big_to_word, big_value,
};
use crate::errors::Error;
use crate::rns::{lemma_product_at_least_two, lift_value, product_of, project_value, ScalingFactor};
use crate::rq::{column, rows_of, Context, Poly, Representation};
use num_bigint::BigUint;
use std::rc::Rc;
use vstd::arithmetic::div_mod::*;
use vstd::arithmetic::mul::*;
use vstd::prelude::*;

verus! {

/// The representative of `x` modulo `q` that is nearest to zero: `x` itself
/// below `q / 2`, and `x - q` from there on.
pub open spec fn centered(x: nat, q: nat) -> int {
    if 2 * x < q {
        x as int
    } else {
        x - q
    }
}

/// `value * num / den`, rounded to the nearest integer, halves upward.
pub open spec fn rounded(value: int, num: nat, den: nat) -> int {
    (2 * value * num + den) / (2 * den) as int
}

/// The centered number of coefficient `j`, times `num / den`, rounded.
pub open spec fn scaled_coefficient(
    rows: Seq<Seq<u64>>,
    j: int,
    from: Seq<u64>,
    num: nat,
    den: nat,
) -> int {
    rounded(centered(lift_value(from, column(rows, j)), product_of(from)), num, den)
}

/// The rows of the element scaled by `num / den` into the basis `to`.
pub open spec fn scaled_rows(
    rows: Seq<Seq<u64>>,
    from: Seq<u64>,
    to: Seq<u64>,
    degree: nat,
    num: nat,
    den: nat,
) -> Seq<Seq<u64>> {
    Seq::new(
        to.len(),
        |i: int|
            Seq::new(
                degree,
                |j: int| (scaled_coefficient(rows, j, from, num, den) % (to[i] as int)) as u64,
            ),
    )
}

/// Adding a multiple of the denominator to a numerator adds the multiple
/// to the quotient.
pub proof fn lemma_rounded_shift(value: int, num: nat, den: nat, shift: nat)
    requires
        den > 0,
    ensures
        (2 * value * num + den + 2 * den * shift) / (2 * den) as int == rounded(value, num, den)
            + shift,
{
    lemma_hoist_over_denominator(2 * value * num + den, shift as int, 2 * den);
    assert(shift as int * (2 * den) == 2 * den * shift) by (nonlinear_arith);
}

/// A converter of ring elements from one ring to another of the same
/// degree, by a rational factor.
#[derive(Debug, Clone, PartialEq, Eq)]
pub struct Scaler {
    from: Rc<Context>,
    to: Rc<Context>,
    factor: ScalingFactor,
    two_num: BigUint,
    two_den: BigUint,
    bias: BigUint,
    bias_negative: BigUint,
    shift: Vec<u64>,
}

impl Scaler {
    /// The ring that the converter reads from.
    pub closed spec fn source(&self) -> &Context {
        &*self.from
    }

    /// The ring that the converter writes to.
    pub closed spec fn target(&self) -> &Context {
        &*self.to
    }

    /// The numerator of the factor.
    pub closed spec fn num(&self) -> nat {
        self.factor.num()
    }

    /// The denominator of the factor.
    pub closed spec fn den(&self) -> nat {
        self.factor.den()
    }

    /// The constants are those of the two rings and the factor.
    pub closed spec fn wf(&self) -> bool {
        let q = product_of(self.from.moduli()@);
        let num = self.factor.num();
        let den = self.factor.den();
        &&& self.from.wf()
        &&& self.to.wf()
        &&& self.from.degree() == self.to.degree()
        &&& den > 0
        &&& big_value(self.two_num) == 2 * num
        &&& big_value(self.two_den) == 2 * den
        &&& big_value(self.bias) == den + 2 * den * (num * q)
        &&& big_value(self.bias_negative) == den + 2 * den * (num * q) - 2 * num * q
        &&& self.shift@ == project_value(self.to.moduli()@, num * q)
    }

    /// What a well-formed converter is made of.
    pub proof fn lemma_wf(&self)
        requires
            self.wf(),
        ensures
            self.source().wf(),
            self.target().wf(),
            self.source().degree() == self.target().degree(),
            self.den() > 0,
    {
    }

    /// The converter from `from` to `to` by `factor`; fails where the two
    /// rings do not have the same degree.
    pub fn new(from: &Rc<Context>, to: &Rc<Context>, factor: ScalingFactor) -> (r: Result<
        Scaler,
        Error,
    >)
        requires
            from.wf(),
            to.wf(),
            factor.wf(),
        ensures
            r is Ok <==> from.degree() == to.degree(),
            r matches Ok(s) ==> s.wf() && *s.source() == **from && *s.target() == **to && s.num()
                == factor.num() && s.den() == factor.den(),
            r matches Err(e) ==> e == Error::IncompatibleContexts,
    {
        if from.degree() != to.degree() {
            return Err(Error::IncompatibleContexts);
        }
        let two = big_from_word(2);
        let q = from.rns().modulus();
        let two_num = big_mul(&two, factor.numerator());
        let two_den = big_mul(&two, factor.denominator());
        let num_q = big_mul(factor.numerator(), q);
        let two_num_q = big_mul(&two_num, q);
        let bias = big_add(factor.denominator(), &big_mul(&two_den, &num_q));
        proof {
            let n = factor.num();
            let d = factor.den();
            let qq = product_of(from.moduli()@);
            assert(2 * n * qq <= d + 2 * d * (n * qq)) by (nonlinear_arith)
                requires
                    d >= 1,
            ;
            assert((2 * n) * qq == 2 * n * qq) by (nonlinear_arith);
            assert((2 * d) * (n * qq) == 2 * d * (n * qq)) by (nonlinear_arith);
        }
        let bias_negative = big_sub(&bias, &two_num_q);
        let shift = to.rns().project(&num_q);
        Ok(
            Scaler {
                from: from.clone(),
                to: to.clone(),
                factor,
                two_num,
                two_den,
                bias,
                bias_negative,
                shift,
            },
        )
    }

    /// The ring that the converter reads from.
    pub fn source_context(&self) -> (r: &Rc<Context>)
        ensures
            **r == *self.source(),
    {
        &self.from
    }

    /// The ring that the converter writes to.
    pub fn target_context(&self) -> (r: &Rc<Context>)
        ensures
            **r == *self.target(),
    {
        &self.to
    }

    /// The number `rounded(centered(x)) + num * Q` for the number `x` of a
    /// coefficient: the scaled coefficient, shifted so as not to be negative.
    fn scale_number(&self, x: &BigUint) -> (r: BigUint)
        requires
            self.wf(),
            big_value(*x) < product_of(self.from.moduli()@),
        ensures
            big_value(r) == rounded(
                centered(big_value(*x), product_of(self.from.moduli()@)),
                self.factor.num(),
                self.factor.den(),
            ) + self.factor.num() * product_of(self.from.moduli()@),
    {
        let ghost q = product_of(self.from.moduli()@);
        let ghost num = self.factor.num();
        let ghost den = self.factor.den();
        let ghost xv = big_value(*x);
        let twice = big_mul(&big_from_word(2), x);
        let negative = !big_less(&twice, self.from.rns().modulus());
        let scaled = big_mul(&self.two_num, x);
        let shifted = if negative {
            big_add(&scaled, &self.bias_negative)
        } else {
            big_add(&scaled, &self.bias)
        };
        proof {
            let c = centered(xv, q);
            lemma_rounded_shift(c, num, den, num * q);
            if negative {
                assert((2 * num) * xv + (den + 2 * den * (num * q) - 2 * num * q) == 2 * c * num
                    + den + 2 * den * (num * q)) by (nonlinear_arith)
                    requires
                        c == xv - q,
                ;
            } else {
                assert((2 * num) * xv + (den + 2 * den * (num * q)) == 2 * c * num + den + 2 * den
                    * (num * q)) by (nonlinear_arith)
                    requires
                        c == xv,
                ;
            }
        }
        big_div(&shifted, &self.two_den)
    }

    /// The element scaled by the factor into the destination ring, in
    /// coefficient form; fails where `p` is not in coefficient form.
    pub fn scale(&self, p: &Poly) -> (r: Result<Poly, Error>)
        requires
            self.wf(),
            p.fits(self.source()),
        ensures
            r is Ok <==> p.representation() == Representation::PowerBasis,
            r matches Ok(s) ==> s.fits(self.target()) && s.representation()
                == Representation::PowerBasis && !s.variable_time() && s.rows() == scaled_rows(
                p.rows(),
                self.source().moduli()@,
                self.target().moduli()@,
                self.target().degree() as nat,
                self.num(),
                self.den(),
            ),
            r matches Err(e) ==> e == Error::Representation,
    {
        if p.representation() != Representation::PowerBasis {
            return Err(Error::Representation);
        }
        let n = self.to.degree();
        let k = self.to.moduli().len();
        let ghost from_m = self.from.moduli()@;
        let ghost to_m = self.to.moduli()@;
        let ghost num = self.factor.num();
        let ghost den = self.factor.den();
        let ghost target = scaled_rows(p.rows(), from_m, to_m, n as nat, num, den);
        proof {
            self.from.lemma_wf();
            self.to.lemma_wf();
            lemma_product_at_least_two(from_m);
        }
        // Column by column: all the residues of one coefficient at a time.
        let mut columns: Vec<Vec<u64>> = Vec::with_capacity(n);
        let mut j: usize = 0;
        while j < n
            invariant
                self.wf(),
                p.fits(self.source()),
                n == self.to.degree(),
                k == self.to.moduli().len(),
                from_m == self.from.moduli()@,
                to_m == self.to.moduli()@,
                num == self.factor.num(),
                den == self.factor.den(),
                product_of(from_m) >= 2,
                target == scaled_rows(p.rows(), from_m, to_m, n as nat, num, den),
                j <= n,
                columns.len() == j,
                forall|c: int| 0 <= c < j ==> (#[trigger] columns@[c])@.len() == k,
                forall|c: int, i: int|
                    0 <= c < j && 0 <= i < k ==> (#[trigger] columns@[c]@[i]) == target[i][c],
            decreases n - j,
        {
            let x = p.lift_coefficient(j, &self.from);
            proof {
                lemma_mod_bound(
                    crate::rns::garner_sum(from_m, column(p.rows(), j as int), from_m.len()) as int,
                    product_of(from_m) as int,
                );
            }
            let t = self.scale_number(&x);
            let ghost value = scaled_coefficient(p.rows(), j as int, from_m, num, den);
            let ghost delta = num * product_of(from_m);
            let mut col: Vec<u64> = Vec::with_capacity(k);
            let mut i: usize = 0;
            while i < k
                invariant
                    self.wf(),
                    k == self.to.moduli().len(),
                    to_m == self.to.moduli()@,
                    num == self.factor.num(),
                    from_m == self.from.moduli()@,
                    delta == num * product_of(from_m),
                    big_value(t) == value + delta,
                    i <= k,
                    col.len() == i,
                    forall|l: int| 0 <= l < i ==> col@[l] == (value % (to_m[l] as int)) as u64,
                decreases k - i,
            {
                let m = self.to.modulus_at(i);
                let rest = big_rem(&t, &big_from_word(m.modulus()));
                proof {
                    lemma_mod_bound(big_value(t) as int, m@);
                }
                let word = match big_to_word(&rest) {
                    Some(w) => w,
                    None => 0,
                };
                proof {
                    let pi = m@;
                    lemma_mod_bound(delta as int, pi);
                    lemma_sub_mod_noop(big_value(t) as int, delta as int, pi);
                    lemma_mod_bound(value, pi);
                }
                col.push(m.sub(word, self.shift[i]));
                i += 1;
            }
            columns.push(col);
            j += 1;
        }
        // Row by row.
        let mut rows: Vec<Vec<u64>> = Vec::with_capacity(k);
        let mut i: usize = 0;
        while i < k
            invariant
                n == self.to.degree(),
                k == to_m.len(),
                columns.len() == n,
                target == scaled_rows(p.rows(), from_m, to_m, n as nat, num, den),
                forall|c: int| 0 <= c < n ==> (#[trigger] columns@[c])@.len() == k,
                forall|c: int, i: int|
                    0 <= c < n && 0 <= i < k ==> (#[trigger] columns@[c]@[i]) == target[i][c],
                i <= k,
                rows.len() == i,
                forall|l: int| 0 <= l < i ==> (#[trigger] rows@[l])@ == target[l],
            decreases k - i,
        {
            let mut row: Vec<u64> = Vec::with_capacity(n);
            let mut j: usize = 0;
            while j < n
                invariant
                    i < k,
                    columns.len() == n,
                    target == scaled_rows(p.rows(), from_m, to_m, n as nat, num, den),
                    k == to_m.len(),
                    forall|c: int| 0 <= c < n ==> (#[trigger] columns@[c])@.len() == k,
                    forall|c: int, i: int|
                        0 <= c < n && 0 <= i < k ==> (#[trigger] columns@[c]@[i]) == target[i][c],
                    j <= n,
                    row.len() == j,
                    forall|c: int| 0 <= c < j ==> row@[c] == target[i as int][c],
                decreases n - j,
            {
                row.push(columns[j][i]);
                j += 1;
            }
            assert(row@ =~= target[i as int]);
            rows.push(row);
            i += 1;
        }
        proof {
            assert(rows_of(rows) =~= target);
            assert forall|i: int| 0 <= i < target.len() implies (#[trigger] target[i]).len()
                == n && crate::zq::is_reduced(target[i], to_m[i] as int) by {
                assert forall|c: int| 0 <= c < target[i].len() implies (#[trigger] target[i][c])
                    < to_m[i] by {
                    lemma_mod_bound(
                        scaled_coefficient(p.rows(), c, from_m, num, den),
                        to_m[i] as int,
                    );
                }
            }
        }
        match Poly::from_rows(rows, Representation::PowerBasis, &self.to) {
            Ok(s) => Ok(s),
            Err(_) => Err(Error::Representation),
        }
    }
}

} // verus!
