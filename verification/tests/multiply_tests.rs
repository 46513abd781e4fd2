use bfv::ciphertext::Ciphertext;
use bfv::errors::{Error, ErrorKind};
use bfv::key_switching::EvaluationKeyBuilder;
use bfv::multiply;
use bfv::parameters::BfvParameters;
use bfv::plaintext::{Encoding, Plaintext};
use bfv::rq::{Poly, Representation};
use bfv::sampling::random_vec;
use bfv::secret_key::SecretKey;
use std::rc::Rc;

#[test]
fn test_mul() {
    let par = Rc::new(BfvParameters::default(2).unwrap());
    for _ in 0..50 {
        // We will encode `values` in an Simd format, and check that the product is computed correctly.
        let values = random_vec(par.plaintext(), par.degree());
        let mut expected = values.clone();
        par.plaintext().mul_vec(&mut expected, &values);

        let sk = SecretKey::random(&par);
        let ek = EvaluationKeyBuilder::new(&sk)
            .enable_relinearization()
            .build()
            .unwrap();
        let pt = Plaintext::try_encode(&values, Encoding::Simd, &par).unwrap();

        let ct1 = sk.encrypt(&pt).unwrap();
        let ct2 = sk.encrypt(&pt).unwrap();
        let ct3 = multiply::mul(&ct1, &ct2, &ek).unwrap();

        println!("Noise: {}", sk.measure_noise(&ct3).unwrap());
        let pt = sk.decrypt(&ct3).unwrap();
        assert_eq!(pt.try_decode(Encoding::Simd).unwrap(), expected);
    }
}

#[test]
fn test_mul2() {
    let ntests = 100;
    let par = Rc::new(BfvParameters::default(2).unwrap());
    for _ in 0..ntests {
        // We will encode `values` in an Simd format, and check that the product is computed correctly.
        let values = random_vec(par.plaintext(), par.degree());
        let mut expected = values.clone();
        par.plaintext().mul_vec(&mut expected, &values);

        let sk = SecretKey::random(&par);
        let ek = EvaluationKeyBuilder::new(&sk)
            .enable_relinearization()
            .build()
            .unwrap();
        let pt = Plaintext::try_encode(&values, Encoding::Simd, &par).unwrap();

        let ct1 = sk.encrypt(&pt).unwrap();
        let ct2 = sk.encrypt(&pt).unwrap();
        let ct3 = multiply::mul2(&ct1, &ct2, &ek).unwrap();

        println!("Noise: {}", sk.measure_noise(&ct3).unwrap());
        let pt = sk.decrypt(&ct3).unwrap();
        assert_eq!(pt.try_decode(Encoding::Simd).unwrap(), expected);
    }
}

#[test]
fn test_key_switching() {
    for params in [
        Rc::new(BfvParameters::default(1).unwrap()),
        Rc::new(BfvParameters::default(2).unwrap()),
    ] {
        let sk = SecretKey::random(&params);

        let p = Poly::random(params.ctx(), Representation::PowerBasis);
        let ksk = sk.key_switching_new(&p);
        assert!(ksk.is_ok())
    }
}

#[test]
fn relinearized_product_has_two_limbs() {
    let par = Rc::new(BfvParameters::default(2).unwrap());
    let sk = SecretKey::random(&par);
    let ek = EvaluationKeyBuilder::new(&sk)
        .enable_relinearization()
        .build()
        .unwrap();
    let pt = Plaintext::try_encode(&vec![3, 5], Encoding::Poly, &par).unwrap();
    let ct1 = sk.encrypt(&pt).unwrap();
    let ct2 = sk.encrypt(&pt).unwrap();
    assert_eq!(multiply::mul(&ct1, &ct2, &ek).unwrap().len(), 2);
    assert_eq!(multiply::mul2(&ct1, &ct2, &ek).unwrap().len(), 2);
    assert_eq!(ct1.mul_ciphertext(&ct2).unwrap().len(), 3);
    // 3 * 5 x = 9 + 30 x + 25 x^2 under the coefficient encoding
    let product = sk.decrypt(&multiply::mul(&ct1, &ct2, &ek).unwrap()).unwrap();
    assert_eq!(
        product.try_decode(Encoding::Poly).unwrap(),
        vec![9, 30, 25, 0, 0, 0, 0, 0]
    );
}

#[test]
fn product_fails_without_relinearization_or_with_one_modulus() {
    let par = Rc::new(BfvParameters::default(2).unwrap());
    let sk = SecretKey::random(&par);
    let pt = Plaintext::try_encode(&vec![1, 2], Encoding::Poly, &par).unwrap();
    let ct = sk.encrypt(&pt).unwrap();
    let plain_key = EvaluationKeyBuilder::new(&sk).build().unwrap();
    assert!(!plain_key.supports_relinearization());
    assert_eq!(multiply::mul(&ct, &ct, &plain_key).err(), Some(Error::NoRelinearization));
    assert_eq!(multiply::mul2(&ct, &ct, &plain_key).err(), Some(Error::NoRelinearization));
    assert_eq!(Error::NoRelinearization.kind(), ErrorKind::UnsupportedOperation);

    let single = Rc::new(BfvParameters::default(1).unwrap());
    let sk1 = SecretKey::random(&single);
    let ek1 = EvaluationKeyBuilder::new(&sk1)
        .enable_relinearization()
        .build()
        .unwrap();
    let pt1 = Plaintext::try_encode(&vec![1, 2], Encoding::Poly, &single).unwrap();
    let ct1 = sk1.encrypt(&pt1).unwrap();
    assert_eq!(multiply::mul(&ct1, &ct1, &ek1).err(), Some(Error::SingleModulus));
    assert_eq!(Error::SingleModulus.kind(), ErrorKind::UnsupportedOperation);

    // operands of different parameters
    let ek = EvaluationKeyBuilder::new(&sk)
        .enable_relinearization()
        .build()
        .unwrap();
    assert_eq!(multiply::mul(&ct, &ct1, &ek).err(), Some(Error::ParameterMismatch));
    // an operand that is itself a product of three limbs
    let three = ct.mul_ciphertext(&ct).unwrap();
    assert_eq!(multiply::mul(&three, &ct, &ek).err(), Some(Error::LimbCount));
    // a single modulus is reported before the parameters of the key are
    // looked at, and so is the number of ring elements
    assert_eq!(multiply::mul(&ct1, &ct1, &ek).err(), Some(Error::SingleModulus));
    assert_eq!(multiply::mul2(&ct1, &ct1, &ek).err(), Some(Error::SingleModulus));
    let other = Rc::new(BfvParameters::default(3).unwrap());
    let sk3 = SecretKey::random(&other);
    let ek3 = EvaluationKeyBuilder::new(&sk3)
        .enable_relinearization()
        .build()
        .unwrap();
    assert_eq!(multiply::mul(&three, &ct, &ek3).err(), Some(Error::LimbCount));
    assert_eq!(multiply::mul(&ct, &ct, &ek3).err(), Some(Error::ParameterMismatch));
}

#[test]
fn product_of_a_ciphertext_without_ring_elements_is_a_copy() {
    let par = Rc::new(BfvParameters::default(2).unwrap());
    let sk = SecretKey::random(&par);
    let pt = Plaintext::try_encode(&vec![1, 2], Encoding::Poly, &par).unwrap();
    let ct = sk.encrypt(&pt).unwrap();
    let zero = Ciphertext::zero(&par);
    assert_eq!(zero.mul_ciphertext(&ct).unwrap(), zero);
    // a right operand without ring elements leaves one zero ring element
    let left = ct.mul_ciphertext(&zero).unwrap();
    assert_eq!(left.len(), 1);
    assert!(left.get(0).to_rows().iter().all(|row| row.iter().all(|x| *x == 0)));
}
