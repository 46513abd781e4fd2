use bfv::ciphertext::Ciphertext;
use bfv::parameters::BfvParameters;
use bfv::plaintext::{Encoding, Plaintext};
use bfv::sampling::random_vec;
use bfv::secret_key::SecretKey;
use std::rc::Rc;

fn negacyclic_product(params: &BfvParameters, a: &[u64], b: &[u64]) -> Vec<u64> {
    let n = params.degree();
    let t = params.plaintext();
    let mut c = vec![0u64; n];
    for i in 0..n {
        for j in 0..n {
            if i + j >= n {
                c[(i + j) % n] = t.sub(c[(i + j) % n], t.mul(a[i], b[j]));
            } else {
                c[i + j] = t.add(c[i + j], t.mul(a[i], b[j]));
            }
        }
    }
    c
}

#[test]
fn test_add() {
    let ntests = 100;
    for params in [
        Rc::new(BfvParameters::default(1).unwrap()),
        Rc::new(BfvParameters::default(2).unwrap()),
    ] {
        for _ in 0..ntests {
            let a = random_vec(params.plaintext(), params.degree());
            let b = random_vec(params.plaintext(), params.degree());
            let mut c = a.clone();
            params.plaintext().add_vec(&mut c, &b);

            let sk = SecretKey::random(&params);

            for encoding in [Encoding::Poly, Encoding::Simd] {
                let pt_a = Plaintext::try_encode(&a, encoding, &params).unwrap();
                let pt_b = Plaintext::try_encode(&b, encoding, &params).unwrap();

                let mut ct_a = sk.encrypt(&pt_a).unwrap();
                let ct_b = sk.encrypt(&pt_b).unwrap();
                let ct_c = ct_a.add(&ct_b).unwrap();
                ct_a.add_assign(&ct_b).unwrap();

                let pt_c = sk.decrypt(&ct_c).unwrap();
                assert_eq!(pt_c.try_decode(encoding).unwrap(), c);
                let pt_c = sk.decrypt(&ct_a).unwrap();
                assert_eq!(pt_c.try_decode(encoding).unwrap(), c);
            }
        }
    }
}

#[test]
fn test_sub() {
    for params in [
        Rc::new(BfvParameters::default(1).unwrap()),
        Rc::new(BfvParameters::default(2).unwrap()),
    ] {
        let ntests = 100;
        for _ in 0..ntests {
            let a = random_vec(params.plaintext(), params.degree());
            let b = random_vec(params.plaintext(), params.degree());
            let mut c = a.clone();
            params.plaintext().sub_vec(&mut c, &b);

            let sk = SecretKey::random(&params);

            for encoding in [Encoding::Poly, Encoding::Simd] {
                let pt_a = Plaintext::try_encode(&a, encoding, &params).unwrap();
                let pt_b = Plaintext::try_encode(&b, encoding, &params).unwrap();

                let mut ct_a = sk.encrypt(&pt_a).unwrap();
                let ct_b = sk.encrypt(&pt_b).unwrap();
                let ct_c = ct_a.sub(&ct_b).unwrap();
                ct_a.sub_assign(&ct_b).unwrap();

                let pt_c = sk.decrypt(&ct_c).unwrap();
                assert_eq!(pt_c.try_decode(encoding).unwrap(), c);
                let pt_c = sk.decrypt(&ct_a).unwrap();
                assert_eq!(pt_c.try_decode(encoding).unwrap(), c);
            }
        }
    }
}

#[test]
fn test_neg() {
    for params in [
        Rc::new(BfvParameters::default(1).unwrap()),
        Rc::new(BfvParameters::default(2).unwrap()),
    ] {
        let ntests = 100;
        for _ in 0..ntests {
            let a = random_vec(params.plaintext(), params.degree());
            let mut c = a.clone();
            params.plaintext().neg_vec(&mut c);

            let sk = SecretKey::random(&params);
            for encoding in [Encoding::Poly, Encoding::Simd] {
                let pt_a = Plaintext::try_encode(&a, encoding, &params).unwrap();

                let ct_a = sk.encrypt(&pt_a).unwrap();
                let ct_c = ct_a.neg().unwrap();

                let pt_c = sk.decrypt(&ct_c).unwrap();
                assert_eq!(pt_c.try_decode(encoding).unwrap(), c);
            }
        }
    }
}

#[test]
fn test_scalar_mul() {
    for params in [
        Rc::new(BfvParameters::default(1).unwrap()),
        Rc::new(BfvParameters::default(2).unwrap()),
    ] {
        let ntests = 100;
        for _ in 0..ntests {
            let a = random_vec(params.plaintext(), params.degree());
            let b = random_vec(params.plaintext(), params.degree());

            let sk = SecretKey::random(&params);
            for encoding in [Encoding::Poly, Encoding::Simd] {
                let c = match encoding {
                    Encoding::Poly => negacyclic_product(&params, &a, &b),
                    Encoding::Simd => {
                        let mut c = a.clone();
                        params.plaintext().mul_vec(&mut c, &b);
                        c
                    }
                };

                let pt_a = Plaintext::try_encode(&a, encoding, &params).unwrap();
                let pt_b = Plaintext::try_encode(&b, encoding, &params).unwrap();

                let mut ct_a = sk.encrypt(&pt_a).unwrap();
                let ct_c = ct_a.mul(&pt_b).unwrap();
                ct_a.mul_assign(&pt_b).unwrap();

                let pt_c = sk.decrypt(&ct_c).unwrap();
                assert_eq!(pt_c.try_decode(encoding).unwrap(), c);
                let pt_c = sk.decrypt(&ct_a).unwrap();
                assert_eq!(pt_c.try_decode(encoding).unwrap(), c);
            }
        }
    }
}

#[test]
fn add() {
    for params in [
        Rc::new(BfvParameters::default(1).unwrap()),
        Rc::new(BfvParameters::default(2).unwrap()),
    ] {
        let zero = Ciphertext::zero(&params);
        for _ in 0..50 {
            let a = random_vec(params.plaintext(), params.degree());
            let b = random_vec(params.plaintext(), params.degree());
            let mut c = a.clone();
            params.plaintext().add_vec(&mut c, &b);

            let sk = SecretKey::random(&params);

            for encoding in [Encoding::Poly, Encoding::Simd] {
                let pt_a = Plaintext::try_encode(&a, encoding, &params).unwrap();
                let pt_b = Plaintext::try_encode(&b, encoding, &params).unwrap();

                let mut ct_a = sk.encrypt(&pt_a).unwrap();
                assert_eq!(ct_a, ct_a.add(&zero).unwrap());
                assert_eq!(ct_a, zero.add(&ct_a).unwrap());
                let ct_b = sk.encrypt(&pt_b).unwrap();
                let ct_c = ct_a.add(&ct_b).unwrap();
                ct_a.add_assign(&ct_b).unwrap();

                let pt_c = sk.decrypt(&ct_c).unwrap();
                assert_eq!(pt_c.try_decode(encoding).unwrap(), c);
                let pt_c = sk.decrypt(&ct_a).unwrap();
                assert_eq!(pt_c.try_decode(encoding).unwrap(), c);
            }
        }
    }
}

#[test]
fn add_scalar() {
    for params in [
        Rc::new(BfvParameters::default(1).unwrap()),
        Rc::new(BfvParameters::default(2).unwrap()),
    ] {
        for _ in 0..50 {
            let a = random_vec(params.plaintext(), params.degree());
            let b = random_vec(params.plaintext(), params.degree());
            let mut c = a.clone();
            params.plaintext().add_vec(&mut c, &b);

            let sk = SecretKey::random(&params);

            for encoding in [Encoding::Poly, Encoding::Simd] {
                let zero = Plaintext::zero(encoding, &params).unwrap();
                let pt_a = Plaintext::try_encode(&a, encoding, &params).unwrap();
                let pt_b = Plaintext::try_encode(&b, encoding, &params).unwrap();

                let mut ct_a = sk.encrypt(&pt_a).unwrap();
                assert_eq!(
                    sk.decrypt(&ct_a.add_plaintext(&zero).unwrap())
                        .unwrap()
                        .try_decode(encoding)
                        .unwrap(),
                    a
                );
                assert_eq!(
                    sk.decrypt(&zero.add(&ct_a).unwrap())
                        .unwrap()
                        .try_decode(encoding)
                        .unwrap(),
                    a
                );
                let ct_c = ct_a.add_plaintext(&pt_b).unwrap();
                ct_a.add_assign_plaintext(&pt_b).unwrap();

                let pt_c = sk.decrypt(&ct_c).unwrap();
                assert_eq!(pt_c.try_decode(encoding).unwrap(), c);
                let pt_c = sk.decrypt(&ct_a).unwrap();
                assert_eq!(pt_c.try_decode(encoding).unwrap(), c);
            }
        }
    }
}

#[test]
fn sub() {
    for params in [
        Rc::new(BfvParameters::default(1).unwrap()),
        Rc::new(BfvParameters::default(2).unwrap()),
    ] {
        let zero = Ciphertext::zero(&params);
        for _ in 0..50 {
            let a = random_vec(params.plaintext(), params.degree());
            let mut a_neg = a.clone();
            params.plaintext().neg_vec(&mut a_neg);
            let b = random_vec(params.plaintext(), params.degree());
            let mut c = a.clone();
            params.plaintext().sub_vec(&mut c, &b);

            let sk = SecretKey::random(&params);

            for encoding in [Encoding::Poly, Encoding::Simd] {
                let pt_a = Plaintext::try_encode(&a, encoding, &params).unwrap();
                let pt_b = Plaintext::try_encode(&b, encoding, &params).unwrap();

                let mut ct_a = sk.encrypt(&pt_a).unwrap();
                assert_eq!(ct_a, ct_a.sub(&zero).unwrap());
                assert_eq!(
                    sk.decrypt(&zero.sub(&ct_a).unwrap())
                        .unwrap()
                        .try_decode(encoding)
                        .unwrap(),
                    a_neg
                );
                let ct_b = sk.encrypt(&pt_b).unwrap();
                let ct_c = ct_a.sub(&ct_b).unwrap();
                ct_a.sub_assign(&ct_b).unwrap();

                let pt_c = sk.decrypt(&ct_c).unwrap();
                assert_eq!(pt_c.try_decode(encoding).unwrap(), c);
                let pt_c = sk.decrypt(&ct_a).unwrap();
                assert_eq!(pt_c.try_decode(encoding).unwrap(), c);
            }
        }
    }
}

#[test]
fn sub_scalar() {
    for params in [
        Rc::new(BfvParameters::default(1).unwrap()),
        Rc::new(BfvParameters::default(2).unwrap()),
    ] {
        for _ in 0..50 {
            let a = random_vec(params.plaintext(), params.degree());
            let mut a_neg = a.clone();
            params.plaintext().neg_vec(&mut a_neg);
            let b = random_vec(params.plaintext(), params.degree());
            let mut c = a.clone();
            params.plaintext().sub_vec(&mut c, &b);

            let sk = SecretKey::random(&params);

            for encoding in [Encoding::Poly, Encoding::Simd] {
                let zero = Plaintext::zero(encoding, &params).unwrap();
                let pt_a = Plaintext::try_encode(&a, encoding, &params).unwrap();
                let pt_b = Plaintext::try_encode(&b, encoding, &params).unwrap();

                let mut ct_a = sk.encrypt(&pt_a).unwrap();
                assert_eq!(
                    sk.decrypt(&ct_a.sub_plaintext(&zero).unwrap())
                        .unwrap()
                        .try_decode(encoding)
                        .unwrap(),
                    a
                );
                assert_eq!(
                    sk.decrypt(&zero.sub(&ct_a).unwrap())
                        .unwrap()
                        .try_decode(encoding)
                        .unwrap(),
                    a_neg
                );
                let ct_c = ct_a.sub_plaintext(&pt_b).unwrap();
                ct_a.sub_assign_plaintext(&pt_b).unwrap();

                let pt_c = sk.decrypt(&ct_c).unwrap();
                assert_eq!(pt_c.try_decode(encoding).unwrap(), c);
                let pt_c = sk.decrypt(&ct_a).unwrap();
                assert_eq!(pt_c.try_decode(encoding).unwrap(), c);
            }
        }
    }
}

#[test]
fn neg() {
    for params in [
        Rc::new(BfvParameters::default(1).unwrap()),
        Rc::new(BfvParameters::default(2).unwrap()),
    ] {
        for _ in 0..50 {
            let a = random_vec(params.plaintext(), params.degree());
            let mut c = a.clone();
            params.plaintext().neg_vec(&mut c);

            let sk = SecretKey::random(&params);
            for encoding in [Encoding::Poly, Encoding::Simd] {
                let pt_a = Plaintext::try_encode(&a, encoding, &params).unwrap();

                let ct_a = sk.encrypt(&pt_a).unwrap();

                let ct_c = ct_a.neg().unwrap();
                let pt_c = sk.decrypt(&ct_c).unwrap();
                assert_eq!(pt_c.try_decode(encoding).unwrap(), c);

                let ct_c = ct_a.neg().unwrap();
                let pt_c = sk.decrypt(&ct_c).unwrap();
                assert_eq!(pt_c.try_decode(encoding).unwrap(), c);
            }
        }
    }
}

#[test]
fn mul_scalar() {
    for params in [
        Rc::new(BfvParameters::default(1).unwrap()),
        Rc::new(BfvParameters::default(2).unwrap()),
    ] {
        for _ in 0..50 {
            let a = random_vec(params.plaintext(), params.degree());
            let b = random_vec(params.plaintext(), params.degree());

            let sk = SecretKey::random(&params);
            for encoding in [Encoding::Poly, Encoding::Simd] {
                let c = match encoding {
                    Encoding::Poly => negacyclic_product(&params, &a, &b),
                    Encoding::Simd => {
                        let mut c = a.clone();
                        params.plaintext().mul_vec(&mut c, &b);
                        c
                    }
                };

                let pt_a = Plaintext::try_encode(&a, encoding, &params).unwrap();
                let pt_b = Plaintext::try_encode(&b, encoding, &params).unwrap();

                let mut ct_a = sk.encrypt(&pt_a).unwrap();
                let ct_c = ct_a.mul(&pt_b).unwrap();
                ct_a.mul_assign(&pt_b).unwrap();

                let pt_c = sk.decrypt(&ct_c).unwrap();
                assert_eq!(pt_c.try_decode(encoding).unwrap(), c);
                let pt_c = sk.decrypt(&ct_a).unwrap();
                assert_eq!(pt_c.try_decode(encoding).unwrap(), c);
            }
        }
    }
}

#[test]
fn mul() {
    let par = Rc::new(BfvParameters::default(2).unwrap());
    for _ in 0..50 {
        // We will encode `values` in an Simd format, and check that the product is
        // computed correctly.
        let values = random_vec(par.plaintext(), par.degree());
        let mut expected = values.clone();
        par.plaintext().mul_vec(&mut expected, &values);

        let sk = SecretKey::random(&par);
        let pt = Plaintext::try_encode(&values, Encoding::Simd, &par).unwrap();

        let ct1 = sk.encrypt(&pt).unwrap();
        let ct2 = sk.encrypt(&pt).unwrap();
        let ct3 = ct1.mul_ciphertext(&ct2).unwrap();
        let ct4 = ct3.mul_ciphertext(&ct3).unwrap();

        println!("Noise: {}", sk.measure_noise(&ct3).unwrap());
        let pt = sk.decrypt(&ct3).unwrap();
        assert_eq!(pt.try_decode(Encoding::Simd).unwrap(), expected);

        let e = expected.clone();
        par.plaintext().mul_vec(&mut expected, &e);
        println!("Noise: {}", sk.measure_noise(&ct4).unwrap());
        let pt = sk.decrypt(&ct4).unwrap();
        assert_eq!(pt.try_decode(Encoding::Simd).unwrap(), expected);
    }
}

