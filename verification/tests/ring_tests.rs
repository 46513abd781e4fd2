use bfv::errors::Error;
use bfv::moduli::{extend_basis, generate_moduli, moduli_sizes_of, sum_sizes};
use bfv::ntt::NttOperator;
use bfv::rns::{RnsContext, ScalingFactor};
use bfv::rq::{Context, Poly, Representation};
use bfv::sampling::random_vec;
use bfv::scaler::Scaler;
use bfv::slots::{log2_floor, matrix_reps_index_map, reverse};
use bfv::views::ResidueView;
use bfv::zq::Modulus;
use ndarray::ArrayView1;
use num_bigint::BigUint;
use std::rc::Rc;

fn negacyclic(q: &Modulus, a: &[u64], b: &[u64]) -> Vec<u64> {
    let n = a.len();
    let mut c = vec![0u64; n];
    for i in 0..n {
        for j in 0..n {
            let term = q.mul(a[i], b[j]);
            if i + j >= n {
                c[i + j - n] = q.sub(c[i + j - n], term);
            } else {
                c[i + j] = q.add(c[i + j], term);
            }
        }
    }
    c
}

#[test]
fn the_transform_needs_a_suitable_prime() {
    let supported = Modulus::new(1153).unwrap();
    assert!(NttOperator::new(&supported, 8).is_some());
    assert!(NttOperator::new(&supported, 64).is_some());
    // 1153 - 1 = 2^7 * 9 is not a multiple of 2 * 128
    assert!(NttOperator::new(&supported, 128).is_none());
    // the length is a power of two of at least 8
    assert!(NttOperator::new(&supported, 4).is_none());
    assert!(NttOperator::new(&supported, 24).is_none());
    assert!(NttOperator::new(&supported, 0).is_none());
    // 17 is the smallest prime for the length 8
    assert!(NttOperator::new(&Modulus::new(17).unwrap(), 8).is_some());
    // 33 is 1 modulo 16 and composite
    assert!(NttOperator::new(&Modulus::new(33).unwrap(), 8).is_none());
    assert!(NttOperator::new(&Modulus::new(2).unwrap(), 8).is_none());
}

#[test]
fn the_transforms_undo_each_other() {
    for (p, n) in [(17u64, 8usize), (1153, 8), (1153, 64), (4611686018326724609, 1024)] {
        let q = Modulus::new(p).unwrap();
        let op = NttOperator::new(&q, n).unwrap();
        for _ in 0..10 {
            let a = random_vec(&q, n);
            let mut b = a.clone();
            op.forward(&mut b);
            assert_ne!(a, b);
            op.backward(&mut b);
            assert_eq!(a, b);
            op.backward(&mut b);
            op.forward(&mut b);
            assert_eq!(a, b);
        }
    }
}

#[test]
fn the_transform_of_a_constant_is_constant() {
    let q = Modulus::new(1153).unwrap();
    let op = NttOperator::new(&q, 8).unwrap();
    let mut a = vec![42, 0, 0, 0, 0, 0, 0, 0];
    op.forward(&mut a);
    assert_eq!(a, vec![42; 8]);
    let mut zero = vec![0; 8];
    op.forward(&mut zero);
    assert_eq!(zero, vec![0; 8]);
    op.backward(&mut zero);
    assert_eq!(zero, vec![0; 8]);
}

#[test]
fn the_transform_is_linear_and_turns_products_into_products() {
    let q = Modulus::new(1153).unwrap();
    let op = NttOperator::new(&q, 8).unwrap();
    for _ in 0..20 {
        let a = random_vec(&q, 8);
        let b = random_vec(&q, 8);

        let mut sum = a.clone();
        q.add_vec(&mut sum, &b);
        op.forward(&mut sum);
        let mut fa = a.clone();
        let mut fb = b.clone();
        op.forward(&mut fa);
        op.forward(&mut fb);
        let mut sum_of_transforms = fa.clone();
        q.add_vec(&mut sum_of_transforms, &fb);
        assert_eq!(sum, sum_of_transforms);

        let mut product = fa.clone();
        q.mul_vec(&mut product, &fb);
        op.backward(&mut product);
        assert_eq!(product, negacyclic(&q, &a, &b));
    }
    // x * x^7 = x^8 = -1
    let mut x = vec![0, 1, 0, 0, 0, 0, 0, 0];
    let mut x7 = vec![0, 0, 0, 0, 0, 0, 0, 1];
    op.forward(&mut x);
    op.forward(&mut x7);
    q.mul_vec(&mut x, &x7);
    op.backward(&mut x);
    assert_eq!(x, vec![1152, 0, 0, 0, 0, 0, 0, 0]);
}

#[test]
fn residues_stand_for_their_number() {
    let moduli = vec![1153u64, 2017, 4611686018326724609];
    let rns = RnsContext::new(&moduli).unwrap();
    assert_eq!(rns.len(), 3);
    let product = BigUint::from(1153u64) * BigUint::from(2017u64) * BigUint::from(4611686018326724609u64);
    assert_eq!(rns.modulus(), &product);

    for x in [
        BigUint::from(0u64),
        BigUint::from(1u64),
        BigUint::from(123456789u64),
        &product - BigUint::from(1u64),
    ] {
        let rests = rns.project(&x);
        assert_eq!(rests.len(), 3);
        for i in 0..3 {
            assert_eq!(BigUint::from(rests[i]), &x % BigUint::from(moduli[i]));
        }
        assert_eq!(rns.lift(&ResidueView(ArrayView1::from(&rests))), x);
    }
    // a number beyond the product comes back reduced
    let beyond = &product + BigUint::from(5u64);
    assert_eq!(rns.lift(&ResidueView(ArrayView1::from(&rns.project(&beyond)))), BigUint::from(5u64));
    assert_eq!(rns.lift(&ResidueView(ArrayView1::from(&vec![1, 1, 1]))), BigUint::from(1u64));
    assert_eq!(rns.lift(&ResidueView(ArrayView1::from(&vec![1152, 2016, 4611686018326724608]))), &product - BigUint::from(1u64));

    // a Garner coefficient is 1 modulo its modulus and 0 modulo the others
    for i in 0..3 {
        let g = rns.get_garner(i).unwrap();
        for j in 0..3 {
            let expected = if i == j { 1u64 } else { 0u64 };
            assert_eq!(g % BigUint::from(moduli[j]), BigUint::from(expected));
        }
    }
    assert!(rns.get_garner(3).is_none());
}

#[test]
fn a_basis_needs_coprime_moduli_in_range() {
    assert_eq!(RnsContext::new(&vec![]).err(), Some(Error::EmptyBasis));
    assert_eq!(RnsContext::new(&vec![1153, 1]).err(), Some(Error::ModulusOutOfRange));
    assert_eq!(RnsContext::new(&vec![1 << 62]).err(), Some(Error::ModulusOutOfRange));
    assert_eq!(RnsContext::new(&vec![1153, 1153]).err(), Some(Error::ModuliNotCoprime));
    assert_eq!(RnsContext::new(&vec![1153, 2017, 1153]).err(), Some(Error::ModuliNotCoprime));
    assert!(RnsContext::new(&vec![1153]).is_ok());
    assert!(RnsContext::new(&vec![2]).is_ok());
}

#[test]
fn a_ring_needs_a_degree_and_moduli_that_fit() {
    assert_eq!(Context::new(&vec![1153], 7).err(), Some(Error::InvalidDegree));
    assert_eq!(Context::new(&vec![1153], 4).err(), Some(Error::InvalidDegree));
    assert_eq!(Context::new(&vec![], 8).err(), Some(Error::EmptyBasis));
    assert_eq!(Context::new(&vec![0], 8).err(), Some(Error::ModulusOutOfRange));
    assert_eq!(Context::new(&vec![1153, 1153], 8).err(), Some(Error::ModuliNotCoprime));
    assert_eq!(Context::new(&vec![1153], 128).err(), Some(Error::NttUnsupported));
    assert_eq!(Context::new(&vec![1153, 19], 8).err(), Some(Error::NttUnsupported));
    let ctx = Context::new(&vec![1153, 2017], 8).unwrap();
    assert_eq!(ctx.moduli(), &vec![1153, 2017]);
    assert_eq!(ctx.degree(), 8);
}

#[test]
fn ring_elements_from_values_and_rows() {
    let ctx = Context::new(&vec![1153, 2017], 8).unwrap();
    let p = Poly::from_values(&vec![1, 1153, 3000], &ctx, Representation::PowerBasis).unwrap();
    assert_eq!(p.representation(), Representation::PowerBasis);
    assert!(!p.variable_time());
    assert_eq!(p.row(0), &vec![1, 0, 694, 0, 0, 0, 0, 0]);
    assert_eq!(p.row(1), &vec![1, 1153, 983, 0, 0, 0, 0, 0]);
    assert_eq!(
        Poly::from_values(&vec![0; 9], &ctx, Representation::PowerBasis).err(),
        Some(Error::InvalidValues)
    );

    let rows = p.to_rows();
    let q = Poly::from_rows(rows.clone(), Representation::PowerBasis, &ctx).unwrap();
    assert_eq!(p, q);
    assert_eq!(
        Poly::from_rows(vec![rows[0].clone()], Representation::PowerBasis, &ctx).err(),
        Some(Error::InvalidPolynomial)
    );
    let mut short = rows.clone();
    short[1].pop();
    assert_eq!(
        Poly::from_rows(short, Representation::PowerBasis, &ctx).err(),
        Some(Error::InvalidPolynomial)
    );
    let mut unreduced = rows.clone();
    unreduced[0][7] = 1153;
    assert_eq!(
        Poly::from_rows(unreduced, Representation::PowerBasis, &ctx).err(),
        Some(Error::InvalidPolynomial)
    );

    let zero = Poly::zero(&ctx, Representation::Ntt);
    assert_eq!(zero.row(0), &vec![0; 8]);
    assert_eq!(zero.row(1), &vec![0; 8]);

    let c = Poly::constant(&BigUint::from(1153u64 * 2017 + 5), &ctx);
    assert_eq!(c.row(0), &vec![5, 0, 0, 0, 0, 0, 0, 0]);
    assert_eq!(c.row(1), &vec![5, 0, 0, 0, 0, 0, 0, 0]);
    assert_eq!(c.lift_coefficient(0, &ctx), BigUint::from(5u64));
}

#[test]
fn ring_arithmetic_and_changes_of_representation() {
    let ctx = Context::new(&vec![1153, 2017], 8).unwrap();
    let a_values = vec![1, 2, 3, 4, 5, 6, 7, 8];
    let b_values = vec![1152, 0, 0, 0, 0, 0, 0, 1];
    let a = Poly::from_values(&a_values, &ctx, Representation::PowerBasis).unwrap();
    let b = Poly::from_values(&b_values, &ctx, Representation::PowerBasis).unwrap();

    let mut sum = a.duplicate();
    sum.add_assign(&b, &ctx);
    assert_eq!(sum.row(0), &vec![0, 2, 3, 4, 5, 6, 7, 9]);
    assert_eq!(sum.row(1), &vec![1153, 2, 3, 4, 5, 6, 7, 9]);
    let mut difference = a.duplicate();
    difference.sub_assign(&b, &ctx);
    assert_eq!(difference.row(0), &vec![2, 2, 3, 4, 5, 6, 7, 7]);
    let mut opposite = a.duplicate();
    opposite.neg_assign(&ctx);
    assert_eq!(opposite.row(0), &vec![1152, 1151, 1150, 1149, 1148, 1147, 1146, 1145]);
    assert_eq!(opposite.row(1), &vec![2016, 2015, 2014, 2013, 2012, 2011, 2010, 2009]);
    let mut scaled = a.duplicate();
    scaled.scale_assign(&vec![2, 3], &ctx);
    assert_eq!(scaled.row(0), &vec![2, 4, 6, 8, 10, 12, 14, 16]);
    assert_eq!(scaled.row(1), &vec![3, 6, 9, 12, 15, 18, 21, 24]);

    // the product in the ring, through the transforms, with and without companions
    let q0 = Modulus::new(1153).unwrap();
    let q1 = Modulus::new(2017).unwrap();
    let b0: Vec<u64> = b_values.iter().map(|x| x % 1153).collect();
    let b1: Vec<u64> = b_values.iter().map(|x| x % 2017).collect();
    for representation in [Representation::Ntt, Representation::NttShoup] {
        let mut product = a.duplicate();
        product.change_representation(Representation::Ntt, &ctx);
        let mut factor = b.duplicate();
        factor.change_representation(representation, &ctx);
        assert_eq!(factor.representation(), representation);
        product.mul_assign(&factor, &ctx);
        product.change_representation(Representation::PowerBasis, &ctx);
        assert_eq!(product.row(0), &negacyclic(&q0, &a_values, &b0));
        assert_eq!(product.row(1), &negacyclic(&q1, &a_values, &b1));
    }

    // every change of representation comes back to the same element
    for to in [Representation::Ntt, Representation::NttShoup, Representation::PowerBasis] {
        let mut c = a.duplicate();
        c.change_representation(to, &ctx);
        assert_eq!(c.representation(), to);
        c.change_representation(Representation::PowerBasis, &ctx);
        assert_eq!(c, a);
    }
    let mut c = a.duplicate();
    c.change_representation(Representation::Ntt, &ctx);
    let transformed = c.duplicate();
    c.change_representation(Representation::NttShoup, &ctx);
    c.change_representation(Representation::Ntt, &ctx);
    assert_eq!(c, transformed);

    let mut flagged = a.duplicate();
    flagged.allow_variable_time_computations();
    assert!(flagged.variable_time());
    flagged.add_assign(&b, &ctx);
    assert_eq!(flagged.row(0), sum.row(0));
    flagged.disallow_variable_time_computations();
    assert!(!flagged.variable_time());

    let mut erased = a.duplicate();
    erased.change_representation(Representation::NttShoup, &ctx);
    erased.zeroize();
    assert_eq!(erased.row(0), &vec![0; 8]);
    assert_eq!(erased.row(1), &vec![0; 8]);
    assert_eq!(erased.representation(), Representation::NttShoup);
}

#[test]
fn seeded_elements_depend_on_the_seed_alone() {
    let ctx = Context::new(&vec![1153, 2017], 8).unwrap();
    let a = Poly::random_from_seed(&ctx, Representation::Ntt, &[7u8; 32]);
    let b = Poly::random_from_seed(&ctx, Representation::Ntt, &[7u8; 32]);
    let c = Poly::random_from_seed(&ctx, Representation::Ntt, &[8u8; 32]);
    assert_eq!(a, b);
    assert_ne!(a, c);
    assert!(a.row(0).iter().all(|x| *x < 1153));
    assert!(a.row(1).iter().all(|x| *x < 2017));
    assert_ne!(a.row(0), &vec![0; 8]);
    // the residues are read in the form that is asked for, not transformed
    let d = Poly::random_from_seed(&ctx, Representation::PowerBasis, &[7u8; 32]);
    assert_eq!(a.to_rows(), d.to_rows());
    assert_ne!(
        Poly::random(&ctx, Representation::Ntt),
        Poly::random(&ctx, Representation::Ntt)
    );
}

#[test]
fn small_elements_have_small_coefficients() {
    let ctx = Context::new(&vec![1153, 2017], 8).unwrap();
    let words = vec![0b0111, 0b1100, 0, 0b0011, 0b1111, 1, 4, 0b1000];
    let p = Poly::small_from_words(&words, &ctx, 1).unwrap();
    assert_eq!(p.row(0), &vec![1, 1151, 0, 2, 0, 1, 1152, 1152]);
    assert_eq!(p.row(1), &vec![1, 2015, 0, 2, 0, 1, 2016, 2016]);
    assert_eq!(Poly::small_from_words(&words, &ctx, 0).err(), Some(Error::Variance));
    assert_eq!(Poly::small_from_words(&words, &ctx, 17).err(), Some(Error::Variance));
    assert_eq!(
        Poly::small(&ctx, Representation::PowerBasis, 17).err(),
        Some(Error::Variance)
    );
    for variance in [1usize, 8, 16] {
        let p = Poly::small(&ctx, Representation::PowerBasis, variance).unwrap();
        let bound = 2 * variance as u64;
        assert!(p.row(0).iter().all(|x| *x <= bound || *x >= 1153 - bound));
        assert!(p.row(1).iter().all(|x| *x <= bound || *x >= 2017 - bound));
    }
}

#[test]
fn scaling_rounds_to_the_nearest_integer() {
    let from = Rc::new(Context::new(&vec![1153], 8).unwrap());
    let to = Rc::new(Context::new(&vec![2017], 8).unwrap());
    // 1150, 1149 and 1148 stand for -3, -4 and -5
    let values = vec![7, 8, 4, 1150, 1149, 1148, 3, 1];
    let p = Poly::from_values(&values, &from, Representation::PowerBasis).unwrap();

    let third = ScalingFactor::new(&BigUint::from(1u64), &BigUint::from(3u64)).unwrap();
    let scaler = Scaler::new(&from, &to, third).unwrap();
    let scaled = scaler.scale(&p).unwrap();
    assert_eq!(scaled.row(0), &vec![2, 3, 1, 2016, 2016, 2015, 1, 0]);

    // halves are rounded upward
    let half = ScalingFactor::new(&BigUint::from(1u64), &BigUint::from(2u64)).unwrap();
    let scaler = Scaler::new(&from, &to, half).unwrap();
    let scaled = scaler.scale(&p).unwrap();
    assert_eq!(scaled.row(0), &vec![4, 4, 2, 2016, 2015, 2015, 2, 1]);

    // the factor one extends the basis: centered values keep their sign
    let scaler = Scaler::new(&from, &to, ScalingFactor::one()).unwrap();
    let scaled = scaler.scale(&p).unwrap();
    assert_eq!(scaled.row(0), &vec![7, 8, 4, 2014, 2013, 2012, 3, 1]);

    let seven_halves = ScalingFactor::new(&BigUint::from(7u64), &BigUint::from(2u64)).unwrap();
    let scaler = Scaler::new(&from, &to, seven_halves).unwrap();
    let scaled = scaler.scale(&p).unwrap();
    // 7 * 3.5 = 24.5 -> 25, 28, 14, -10.5 -> -10, -14, -17.5 -> -17, 10.5 -> 11, 3.5 -> 4
    assert_eq!(scaled.row(0), &vec![25, 28, 14, 2007, 2003, 2000, 11, 4]);

    let mut transformed = p.duplicate();
    transformed.change_representation(Representation::Ntt, &from);
    assert_eq!(scaler.scale(&transformed).err(), Some(Error::Representation));

    assert!(ScalingFactor::new(&BigUint::from(1u64), &BigUint::from(0u64)).is_none());
    let other_degree = Rc::new(Context::new(&vec![2017], 16).unwrap());
    assert_eq!(
        Scaler::new(&from, &other_degree, ScalingFactor::one()).err(),
        Some(Error::IncompatibleContexts)
    );
}

#[test]
fn scaling_between_bases_of_several_moduli() {
    let from = Rc::new(Context::new(&vec![1153, 2017], 8).unwrap());
    let to = Rc::new(Context::new(&vec![1153, 2017, 3217], 8).unwrap());
    let q = 1153u64 * 2017;
    // the number q - 10 stands for -10, the number 1000000 for itself
    let values = vec![q - 10, 1_000_000, 0, 1, q / 2, q / 2 + 1, 17, 5];
    let mut rows = vec![vec![0u64; 8], vec![0u64; 8]];
    for (j, v) in values.iter().enumerate() {
        rows[0][j] = v % 1153;
        rows[1][j] = v % 2017;
    }
    let p = Poly::from_rows(rows, Representation::PowerBasis, &from).unwrap();
    let up = Scaler::new(&from, &to, ScalingFactor::one()).unwrap();
    let extended = up.scale(&p).unwrap();
    // q / 2 is the largest number that stands for itself
    let signed: Vec<i64> = vec![-10, 1_000_000, 0, 1, (q / 2) as i64, (q / 2 + 1) as i64 - q as i64, 17, 5];
    for (i, m) in [1153i64, 2017, 3217].iter().enumerate() {
        let expected: Vec<u64> = signed.iter().map(|v| v.rem_euclid(*m) as u64).collect();
        assert_eq!(extended.row(i), &expected);
    }
    // and back, the extension is undone
    let down = Scaler::new(&to, &from, ScalingFactor::one()).unwrap();
    assert_eq!(down.scale(&extended).unwrap(), p);
}

#[test]
fn moduli_are_chosen_from_the_largest_down() {
    assert_eq!(
        generate_moduli(&vec![11, 11, 62], 8),
        Ok(vec![2017, 1889, 4611686018427387761])
    );
    assert_eq!(generate_moduli(&vec![], 8), Ok(vec![]));
    assert_eq!(generate_moduli(&vec![11, 9], 8), Err(Error::ModulusSize));
    assert_eq!(generate_moduli(&vec![63], 8), Err(Error::ModulusSize));
    // there are fewer than twelve primes of ten binary digits that are 1 modulo 16
    assert_eq!(generate_moduli(&vec![10; 12], 8), Err(Error::PrimeGeneration));
    assert_eq!(
        extend_basis(&vec![4611686018427387761], 8, 2),
        Some(vec![4611686018427387617, 4611686018427387409])
    );
    assert_eq!(extend_basis(&vec![1153], 8, 0), Some(vec![]));
    assert_eq!(moduli_sizes_of(&vec![1153, 2017, 4611686018427387761]), vec![11, 11, 62]);
    assert_eq!(sum_sizes(&vec![11, 11, 62]), 84);
    assert_eq!(sum_sizes(&vec![]), 0);
}

#[test]
fn the_order_of_the_slots() {
    assert_eq!(log2_floor(1), 0);
    assert_eq!(log2_floor(8), 3);
    assert_eq!(log2_floor(9), 3);
    assert_eq!(log2_floor(0), 0);
    assert_eq!(reverse(0b001, 3), 0b100);
    assert_eq!(reverse(0b110, 3), 0b011);
    assert_eq!(reverse(1, 1), 1);
    assert_eq!(reverse(5, 0), 0);
    // powers of 3 modulo 16: 1, 3, 9, 11, and their opposites 15, 13, 7, 5
    assert_eq!(matrix_reps_index_map(8), vec![0, 4, 1, 5, 7, 3, 6, 2]);
    for n in [2usize, 8, 64, 1024] {
        let map = matrix_reps_index_map(n);
        assert_eq!(map.len(), n);
        // no two slots have the same coefficient index
        let mut sorted = map.clone();
        sorted.sort();
        assert_eq!(sorted, (0..n).collect::<Vec<usize>>());
    }
}
