use bfv::ciphertext::Ciphertext;
use bfv::errors::{Error, ErrorKind};
use bfv::key_switching::EvaluationKeyBuilder;
use bfv::multiply;
use bfv::parameters::{BfvParameters, BfvParametersBuilder};
use bfv::plaintext::{Encoding, Plaintext};
use bfv::rq::{Poly, Representation};
use bfv::sampling::random_vec;
use bfv::secret_key::{decode_coefficient, SecretKey};
use bfv::wire::CiphertextProto;
use std::rc::Rc;

fn two_moduli() -> Rc<BfvParameters> {
    Rc::new(BfvParameters::default(2).unwrap())
}

#[test]
fn decoding_undoes_encoding() {
    for params in [Rc::new(BfvParameters::default(1).unwrap()), two_moduli()] {
        for encoding in [Encoding::Poly, Encoding::Simd] {
            let full = vec![1, 2, 3, 4, 5, 6, 7, 1152];
            let pt = Plaintext::try_encode(&full, encoding, &params).unwrap();
            assert_eq!(pt.try_decode(encoding).unwrap(), full);
            assert_eq!(pt.encoding(), Some(encoding));
            assert_eq!(pt.level(), 0);

            // fewer values are followed by zeros, and values are reduced
            let pt = Plaintext::try_encode(&vec![1153, 1154, 9], encoding, &params).unwrap();
            assert_eq!(pt.try_decode(encoding).unwrap(), vec![0, 1, 9, 0, 0, 0, 0, 0]);

            let zero = Plaintext::zero(encoding, &params).unwrap();
            assert_eq!(zero.value(), &vec![0; 8]);
            assert_eq!(zero.try_decode(encoding).unwrap(), vec![0; 8]);
        }
    }
}

#[test]
fn the_coefficient_encoding_holds_the_values_themselves() {
    let params = two_moduli();
    let pt = Plaintext::try_encode(&vec![5, 6, 7], Encoding::Poly, &params).unwrap();
    assert_eq!(pt.value(), &vec![5, 6, 7, 0, 0, 0, 0, 0]);
    // a batched plaintext holds other coefficients than its values
    let pt = Plaintext::try_encode(&vec![5, 6, 7], Encoding::Simd, &params).unwrap();
    assert_ne!(pt.value(), &vec![5, 6, 7, 0, 0, 0, 0, 0]);
    // a constant in every slot is the constant polynomial
    let pt = Plaintext::try_encode(&vec![9; 8], Encoding::Simd, &params).unwrap();
    assert_eq!(pt.value(), &vec![9, 0, 0, 0, 0, 0, 0, 0]);
}

#[test]
fn encodings_fail_as_stated() {
    let params = two_moduli();
    assert_eq!(
        Plaintext::try_encode(&vec![0; 9], Encoding::Poly, &params).err(),
        Some(Error::InvalidValues)
    );
    assert_eq!(
        Plaintext::try_encode(&vec![0; 9], Encoding::Simd, &params).err(),
        Some(Error::InvalidValues)
    );
    let pt = Plaintext::try_encode(&vec![1], Encoding::Poly, &params).unwrap();
    assert_eq!(pt.try_decode(Encoding::Simd).err(), Some(Error::EncodingMismatch));
    assert_eq!(Error::EncodingMismatch.kind(), ErrorKind::UnsupportedOperation);

    // the plaintext modulus 2 has no transform of length 8
    let odd = Rc::new(
        BfvParametersBuilder::default()
            .polynomial_degree(8)
            .plaintext_modulus(2)
            .ciphertext_moduli_sizes(vec![62])
            .build()
            .unwrap(),
    );
    assert!(odd.op().is_none());
    assert_eq!(
        Plaintext::try_encode(&vec![1], Encoding::Simd, &odd).err(),
        Some(Error::EncodingUnsupported)
    );
    assert_eq!(Plaintext::zero(Encoding::Simd, &odd).err(), Some(Error::EncodingUnsupported));
    let sk = SecretKey::random(&odd);
    let pt = Plaintext::try_encode(&vec![1, 0, 1], Encoding::Poly, &odd).unwrap();
    let back = sk.decrypt(&sk.encrypt(&pt).unwrap()).unwrap();
    assert_eq!(back.try_decode(Encoding::Poly).unwrap(), vec![1, 0, 1, 0, 0, 0, 0, 0]);
    assert_eq!(back.try_decode(Encoding::Simd).err(), Some(Error::EncodingUnsupported));
}

#[test]
fn decryption_undoes_encryption_of_one_to_eight_with_one_modulus() {
    let params = Rc::new(
        BfvParametersBuilder::default()
            .polynomial_degree(8)
            .plaintext_modulus(1153)
            .ciphertext_moduli_sizes(vec![62])
            .build()
            .unwrap(),
    );
    let sk = SecretKey::random(&params);
    let values = vec![1, 2, 3, 4, 5, 6, 7, 8];
    let pt = Plaintext::try_encode(&values, Encoding::Poly, &params).unwrap();
    let ct = sk.encrypt(&pt).unwrap();
    assert_eq!(ct.len(), 2);
    assert!(ct.seed().is_some());
    let back = sk.decrypt(&ct).unwrap();
    assert_eq!(back.try_decode(Encoding::Poly).unwrap(), values);
    assert_eq!(back.encoding(), None);
}

#[test]
fn the_relinearized_product_of_batched_vectors_is_slot_by_slot() {
    let params = Rc::new(
        BfvParametersBuilder::default()
            .polynomial_degree(8)
            .plaintext_modulus(1153)
            .ciphertext_moduli_sizes(vec![62, 62])
            .build()
            .unwrap(),
    );
    let sk = SecretKey::random(&params);
    let ek = EvaluationKeyBuilder::new(&sk).enable_relinearization().build().unwrap();
    let a = random_vec(params.plaintext(), 8);
    let b = random_vec(params.plaintext(), 8);
    let mut expected = a.clone();
    params.plaintext().mul_vec(&mut expected, &b);
    let ct_a = sk.encrypt(&Plaintext::try_encode(&a, Encoding::Simd, &params).unwrap()).unwrap();
    let ct_b = sk.encrypt(&Plaintext::try_encode(&b, Encoding::Simd, &params).unwrap()).unwrap();
    for product in [
        multiply::mul(&ct_a, &ct_b, &ek).unwrap(),
        multiply::mul2(&ct_a, &ct_b, &ek).unwrap(),
    ] {
        assert_eq!(product.len(), 2);
        assert!(product.seed().is_none());
        assert_eq!(
            sk.decrypt(&product).unwrap().try_decode(Encoding::Simd).unwrap(),
            expected
        );
    }
}

#[test]
fn the_noise_after_a_product_leaves_a_margin() {
    let par = two_moduli();
    // the ciphertext modulus has 124 binary digits
    let modulus_bits = 124u64;
    let margin = 40u64;
    let trials = 100u64;
    let mut total = 0u64;
    for _ in 0..trials {
        let values = random_vec(par.plaintext(), par.degree());
        let sk = SecretKey::random(&par);
        let ek = EvaluationKeyBuilder::new(&sk).enable_relinearization().build().unwrap();
        let pt = Plaintext::try_encode(&values, Encoding::Simd, &par).unwrap();
        let ct1 = sk.encrypt(&pt).unwrap();
        let ct2 = sk.encrypt(&pt).unwrap();
        assert!(sk.measure_noise(&ct1).unwrap() <= 3);
        let ct3 = multiply::mul(&ct1, &ct2, &ek).unwrap();
        total += sk.measure_noise(&ct3).unwrap();
    }
    assert!(total / trials < modulus_bits - margin);
    assert!(total / trials > 3);
}

#[test]
fn encryption_with_given_randomness_is_exact() {
    let par = two_moduli();
    let sk = SecretKey::from_words(&vec![0b0111, 0b1100, 0, 1, 2, 3, 4, 5], &par);
    let pt = Plaintext::try_encode(&vec![1, 2, 3], Encoding::Poly, &par).unwrap();
    let seed = [3u8; 32];
    let words = vec![1, 4, 0, 0b0011, 0, 0, 0b1100, 0];
    let ct = sk.encrypt_with(&pt, &seed, &words).unwrap();
    assert_eq!(ct, sk.encrypt_with(&pt, &seed, &words).unwrap());
    assert_eq!(ct.seed(), Some(seed));
    assert_eq!(ct.level(), 0);
    // the second ring element is the one that the seed gives
    assert_eq!(
        ct.get(1).to_rows(),
        Poly::random_from_seed(par.ctx(), Representation::Ntt, &seed).to_rows()
    );
    assert!(ct.get(0).variable_time() && ct.get(1).variable_time());
    // another seed, or other noise, gives another ciphertext of the same plaintext
    let other_seed = sk.encrypt_with(&pt, &[4u8; 32], &words).unwrap();
    assert_ne!(ct.get(1).to_rows(), other_seed.get(1).to_rows());
    let other_noise = sk.encrypt_with(&pt, &seed, &vec![0; 8]).unwrap();
    assert_ne!(ct.get(0).to_rows(), other_noise.get(0).to_rows());
    for c in [&ct, &other_seed, &other_noise] {
        assert_eq!(
            sk.decrypt(c).unwrap().try_decode(Encoding::Poly).unwrap(),
            vec![1, 2, 3, 0, 0, 0, 0, 0]
        );
    }
    // the noise is exactly that of the words: 1, -1, 0, 2, 0, 0, -2, 0
    assert_eq!(sk.measure_noise(&ct).unwrap(), 2);
    assert_eq!(sk.measure_noise(&other_noise).unwrap(), 0);

    // fresh encryptions do not share their seed
    assert_ne!(sk.encrypt(&pt).unwrap().seed(), sk.encrypt(&pt).unwrap().seed());
}

#[test]
fn a_key_made_of_given_words_has_their_samples_as_coefficients() {
    let par = two_moduli();
    let sk = SecretKey::from_words(&vec![0b0111, 0b1100, 0, 0b0011, 0b1111, 1, 4, 0b1000], &par);
    let mut s = sk.s().duplicate();
    assert_eq!(s.representation(), Representation::NttShoup);
    s.change_representation(Representation::PowerBasis, par.ctx());
    let q0 = par.moduli()[0];
    let q1 = par.moduli()[1];
    assert_eq!(s.row(0), &vec![1, q0 - 2, 0, 2, 0, 1, q0 - 1, q0 - 1]);
    assert_eq!(s.row(1), &vec![1, q1 - 2, 0, 2, 0, 1, q1 - 1, q1 - 1]);
}

#[test]
fn a_zeroized_key_holds_zeros() {
    let par = two_moduli();
    let mut sk = SecretKey::random(&par);
    sk.zeroize();
    assert_eq!(sk.s().row(0), &vec![0; 8]);
    assert_eq!(sk.s().row(1), &vec![0; 8]);
    assert_eq!(sk.s().representation(), Representation::NttShoup);
}

#[test]
fn plaintext_coefficients_are_read_from_centered_residues() {
    // residues near the modulus stand for negative numbers
    assert_eq!(decode_coefficient(0, 2017, 1153), 0);
    assert_eq!(decode_coefficient(5, 2017, 1153), 5);
    assert_eq!(decode_coefficient(2016, 2017, 1153), 1152);
    assert_eq!(decode_coefficient(2012, 2017, 1153), 1148);
    assert_eq!(decode_coefficient(1008, 2017, 1153), 1008);
    assert_eq!(decode_coefficient(1009, 2017, 1153), (1153 - (2017 - 1009) % 1153) % 1153);
    assert_eq!(decode_coefficient(1153, 2017, 1153), 1153 - 864);
}

#[test]
fn operands_of_other_parameters_or_levels_are_rejected() {
    let one = Rc::new(BfvParameters::default(1).unwrap());
    let two = two_moduli();
    let sk1 = SecretKey::random(&one);
    let sk2 = SecretKey::random(&two);
    let pt1 = Plaintext::try_encode(&vec![1], Encoding::Poly, &one).unwrap();
    let pt2 = Plaintext::try_encode(&vec![1], Encoding::Poly, &two).unwrap();
    let ct1 = sk1.encrypt(&pt1).unwrap();
    let mut ct2 = sk2.encrypt(&pt2).unwrap();

    assert_eq!(sk1.encrypt(&pt2).err(), Some(Error::ParameterMismatch));
    assert_eq!(sk1.decrypt(&ct2).err(), Some(Error::ParameterMismatch));
    assert_eq!(sk1.measure_noise(&ct2).err(), Some(Error::ParameterMismatch));
    assert_eq!(ct1.add(&ct2).err(), Some(Error::ParameterMismatch));
    assert_eq!(ct1.sub(&ct2).err(), Some(Error::ParameterMismatch));
    assert_eq!(ct1.add_plaintext(&pt2).err(), Some(Error::ParameterMismatch));
    assert_eq!(ct1.sub_plaintext(&pt2).err(), Some(Error::ParameterMismatch));
    assert_eq!(ct1.mul(&pt2).err(), Some(Error::ParameterMismatch));
    assert_eq!(ct1.mul_ciphertext(&ct2).err(), Some(Error::ParameterMismatch));
    assert_eq!(Ciphertext::zero(&one).add(&ct2).err(), Some(Error::ParameterMismatch));
    assert_eq!(Error::ParameterMismatch.kind(), ErrorKind::ParameterMismatch);
    let before = ct2.duplicate();
    assert_eq!(ct2.add_assign(&ct1).err(), Some(Error::ParameterMismatch));
    assert_eq!(ct2, before);

    // parameters built twice from the same inputs are the same parameters
    let again = two_moduli();
    let sk_again = SecretKey::random(&again);
    let ct_again = sk_again.encrypt(&Plaintext::try_encode(&vec![1], Encoding::Poly, &again).unwrap()).unwrap();
    assert!(ct2.add(&ct_again).is_ok());
    assert!(two.same_as(&again));
    assert!(!two.same_as(&one));

    // a ciphertext read at another level
    let mut proto = CiphertextProto::from(&ct2);
    proto.level = 1;
    let lifted = Ciphertext::try_convert_from(&proto, &two).unwrap();
    assert_eq!(lifted.level(), 1);
    assert_eq!(ct2.add(&lifted).err(), Some(Error::LevelMismatch));
    assert_eq!(ct2.sub(&lifted).err(), Some(Error::LevelMismatch));
    assert_eq!(lifted.add_plaintext(&pt2).err(), Some(Error::LevelMismatch));
    assert_eq!(lifted.sub_plaintext(&pt2).err(), Some(Error::LevelMismatch));
    assert_eq!(lifted.mul(&pt2).err(), Some(Error::LevelMismatch));
    assert_eq!(ct2.mul_ciphertext(&lifted).err(), Some(Error::LevelMismatch));
    let ek = EvaluationKeyBuilder::new(&sk2).enable_relinearization().build().unwrap();
    assert_eq!(multiply::mul(&ct2, &lifted, &ek).err(), Some(Error::LevelMismatch));
    assert_eq!(Error::LevelMismatch.kind(), ErrorKind::ParameterMismatch);
    // a ciphertext without ring elements is neutral at every level
    assert_eq!(lifted.add(&Ciphertext::zero(&two)).unwrap(), lifted);

    // ciphertexts of different numbers of ring elements
    let three = ct2.mul_ciphertext(&ct2).unwrap();
    assert_eq!(ct2.add(&three).err(), Some(Error::LimbCount));
    assert_eq!(three.sub(&ct2).err(), Some(Error::LimbCount));
    assert_eq!(Error::LimbCount.kind(), ErrorKind::MalformedCiphertext);
}

#[test]
fn a_ciphertext_without_ring_elements() {
    let par = two_moduli();
    let sk = SecretKey::random(&par);
    let zero = Ciphertext::zero(&par);
    assert_eq!(zero.len(), 0);
    assert!(zero.seed().is_none());
    assert_eq!(sk.decrypt(&zero).err(), Some(Error::EmptyCiphertext));
    assert_eq!(sk.measure_noise(&zero).err(), Some(Error::EmptyCiphertext));
    assert_eq!(Error::EmptyCiphertext.kind(), ErrorKind::MalformedCiphertext);
    let pt = Plaintext::try_encode(&vec![1, 2], Encoding::Poly, &par).unwrap();
    assert_eq!(zero.add_plaintext(&pt).err(), Some(Error::EmptyCiphertext));
    assert_eq!(zero.sub_plaintext(&pt).err(), Some(Error::EmptyCiphertext));
    assert_eq!(zero.mul_ciphertext(&zero).map(|c| c.len()), Ok(0));
    // the product of nothing by a plaintext is nothing
    assert_eq!(zero.mul(&pt).unwrap().len(), 0);
    assert_eq!(zero.neg().unwrap().len(), 0);
    assert_eq!(zero.add(&zero).unwrap().len(), 0);
    assert_eq!(zero.sub(&zero).unwrap().len(), 0);

    // added to a ciphertext it leaves it as it is, seed and all
    let ct = sk.encrypt(&pt).unwrap();
    assert_eq!(ct.add(&zero).unwrap(), ct);
    assert_eq!(zero.add(&ct).unwrap(), ct);
    assert_eq!(ct.sub(&zero).unwrap(), ct);
    let opposite = zero.sub(&ct).unwrap();
    assert!(opposite.seed().is_none());
    assert_eq!(opposite, ct.neg().unwrap());
}

#[test]
fn a_plaintext_of_zeros_leaves_the_ring_elements_as_they_are() {
    let par = two_moduli();
    let sk = SecretKey::random(&par);
    let a = vec![1, 2, 3, 4, 5, 6, 7, 8];
    for encoding in [Encoding::Poly, Encoding::Simd] {
        let zero = Plaintext::zero(encoding, &par).unwrap();
        assert_eq!(zero.to_poly().row(0), &vec![0; 8]);
        assert_eq!(zero.to_poly().row(1), &vec![0; 8]);
        let ct = sk.encrypt(&Plaintext::try_encode(&a, encoding, &par).unwrap()).unwrap();
        let sum = ct.add_plaintext(&zero).unwrap();
        let difference = ct.sub_plaintext(&zero).unwrap();
        for r in [&sum, &difference] {
            assert!(r.seed().is_none());
            assert_eq!(r.get(0).to_rows(), ct.get(0).to_rows());
            assert_eq!(r.get(1).to_rows(), ct.get(1).to_rows());
            assert_eq!(sk.decrypt(r).unwrap().try_decode(encoding).unwrap(), a);
        }
    }
}

#[test]
fn sums_of_given_values_under_both_encodings() {
    let par = two_moduli();
    let sk = SecretKey::random(&par);
    let a = vec![1, 1152, 600, 0, 7, 8, 9, 10];
    let b = vec![1152, 1152, 600, 0, 1, 2, 3, 4];
    for encoding in [Encoding::Poly, Encoding::Simd] {
        let ct_a = sk.encrypt(&Plaintext::try_encode(&a, encoding, &par).unwrap()).unwrap();
        let ct_b = sk.encrypt(&Plaintext::try_encode(&b, encoding, &par).unwrap()).unwrap();
        let decode = |c: &Ciphertext| sk.decrypt(c).unwrap().try_decode(encoding).unwrap();
        assert_eq!(decode(&ct_a.add(&ct_b).unwrap()), vec![0, 1151, 47, 0, 8, 10, 12, 14]);
        assert_eq!(decode(&ct_a.sub(&ct_b).unwrap()), vec![2, 0, 0, 0, 6, 6, 6, 6]);
        assert_eq!(decode(&ct_a.neg().unwrap()), vec![1152, 1, 553, 0, 1146, 1145, 1144, 1143]);
        assert!(ct_a.add(&ct_b).unwrap().seed().is_none());
        assert!(ct_a.neg().unwrap().seed().is_none());
    }
    // the product by a plaintext: slot by slot, or the negacyclic product
    let pt_b = Plaintext::try_encode(&vec![2, 0, 0, 0, 0, 0, 0, 1], Encoding::Poly, &par).unwrap();
    let ct_a = sk.encrypt(&Plaintext::try_encode(&vec![1, 2, 3, 4, 5, 6, 7, 8], Encoding::Poly, &par).unwrap()).unwrap();
    // (1 + 2x + ... + 8x^7)(2 + x^7) with x^8 = -1
    assert_eq!(
        sk.decrypt(&ct_a.mul(&pt_b).unwrap()).unwrap().try_decode(Encoding::Poly).unwrap(),
        vec![0, 1, 2, 3, 4, 5, 6, 17]
    );
    let pt_b = Plaintext::try_encode(&vec![2, 0, 3], Encoding::Simd, &par).unwrap();
    let ct_a = sk.encrypt(&Plaintext::try_encode(&vec![5, 6, 1152], Encoding::Simd, &par).unwrap()).unwrap();
    assert_eq!(
        sk.decrypt(&ct_a.mul(&pt_b).unwrap()).unwrap().try_decode(Encoding::Simd).unwrap(),
        vec![10, 0, 1150, 0, 0, 0, 0, 0]
    );
}

#[test]
fn key_switching_keys_need_a_ring_element_in_coefficient_form() {
    let par = two_moduli();
    let sk = SecretKey::random(&par);
    let p = Poly::random(par.ctx(), Representation::Ntt);
    assert_eq!(sk.key_switching_new(&p).err(), Some(Error::Representation));
    assert_eq!(Error::Representation.kind(), ErrorKind::UnsupportedOperation);
    let p = Poly::random(par.ctx(), Representation::PowerBasis);
    let words = random_vec(par.plaintext(), 16);
    let ksk = sk.key_switching_with(&p, &[1u8; 32], &words).unwrap();
    assert_eq!(ksk, sk.key_switching_with(&p, &[1u8; 32], &words).unwrap());
    assert_ne!(ksk, sk.key_switching_with(&p, &[2u8; 32], &words).unwrap());
    assert_eq!(ksk.seed(), Some([1u8; 32]));
    assert_eq!(ksk.par(), &par);
}

#[test]
fn a_key_switching_key_carries_a_ring_element_to_the_secret() {
    // the key that carries `from` adds to the accumulators an encryption
    // of `p * from` under the secret, up to the noise of the key
    let par = two_moduli();
    let ctx = par.ctx();
    let sk = SecretKey::random(&par);
    let from = Poly::from_values(&vec![3, 1, 4, 1, 5, 9, 2, 6], ctx, Representation::PowerBasis).unwrap();
    let ksk = sk.key_switching_new(&from).unwrap();
    let p = Poly::from_values(&vec![0, 1], ctx, Representation::PowerBasis).unwrap();
    let mut acc_0 = Poly::zero(ctx, Representation::Ntt);
    let mut acc_1 = Poly::zero(ctx, Representation::Ntt);
    ksk.key_switch(&p, &mut acc_0, &mut acc_1);
    // the phase acc_0 + acc_1 s is x * from plus a small noise
    acc_1.mul_assign(sk.s(), ctx);
    acc_0.add_assign(&acc_1, ctx);
    acc_0.change_representation(Representation::PowerBasis, ctx);
    let mut expected = from.duplicate();
    expected.change_representation(Representation::Ntt, ctx);
    let mut x = p.duplicate();
    x.change_representation(Representation::Ntt, ctx);
    expected.mul_assign(&x, ctx);
    expected.change_representation(Representation::PowerBasis, ctx);
    acc_0.sub_assign(&expected, ctx);
    for i in 0..2 {
        let q = par.moduli()[i];
        // each of the two components adds a noise of at most 2, times the row of `p`
        assert!(acc_0.row(i).iter().all(|e| *e <= 8 || *e >= q - 8));
    }
}

#[test]
fn a_plaintext_less_an_encryption_decrypts_to_the_difference() {
    let params = Rc::new(BfvParameters::default(2).unwrap());
    let sk = SecretKey::random(&params);
    let a = vec![5, 0, 1152, 7, 1, 2, 3, 4];
    let b = vec![6, 1, 0, 1000, 1, 1152, 3, 0];
    for encoding in [Encoding::Poly, Encoding::Simd] {
        let pt_a = Plaintext::try_encode(&a, encoding, &params).unwrap();
        let pt_b = Plaintext::try_encode(&b, encoding, &params).unwrap();
        let ct_a = sk.encrypt(&pt_a).unwrap();
        // b - a, b + a and a - b modulo 1153
        let less = pt_b.sub(&ct_a).unwrap();
        assert_eq!(
            sk.decrypt(&less).unwrap().try_decode(encoding).unwrap(),
            vec![1, 1, 1, 993, 0, 1150, 0, 1149]
        );
        let sum = pt_b.add(&ct_a).unwrap();
        assert_eq!(
            sk.decrypt(&sum).unwrap().try_decode(encoding).unwrap(),
            vec![11, 1, 1152, 1007, 2, 1, 6, 4]
        );
        let difference = ct_a.sub_plaintext(&pt_b).unwrap();
        assert_eq!(
            sk.decrypt(&difference).unwrap().try_decode(encoding).unwrap(),
            vec![1152, 1152, 1152, 160, 0, 3, 0, 4]
        );
    }
}

#[test]
fn the_product_of_three_ring_elements_decrypts_to_the_product() {
    let params = Rc::new(BfvParameters::default(2).unwrap());
    let sk = SecretKey::random(&params);
    let a = vec![1, 2, 3, 4, 5, 6, 7, 8];
    let b = vec![2, 0, 1152, 10, 100, 1000, 1, 3];
    let pt_a = Plaintext::try_encode(&a, Encoding::Simd, &params).unwrap();
    let pt_b = Plaintext::try_encode(&b, Encoding::Simd, &params).unwrap();
    let ct_a = sk.encrypt(&pt_a).unwrap();
    let ct_b = sk.encrypt(&pt_b).unwrap();
    let product = ct_a.mul_ciphertext(&ct_b).unwrap();
    assert_eq!(product.len(), 3);
    assert_eq!(
        sk.decrypt(&product).unwrap().try_decode(Encoding::Simd).unwrap(),
        vec![2, 0, 1150, 40, 500, 235, 7, 24]
    );
}

#[test]
fn fresh_and_decoded_ciphertexts_are_open_to_variable_time() {
    let params = Rc::new(BfvParameters::default(2).unwrap());
    let sk = SecretKey::random(&params);
    let pt = Plaintext::try_encode(&vec![1, 2, 3], Encoding::Poly, &params).unwrap();
    let ct = sk.encrypt(&pt).unwrap();
    assert!(ct.get(0).variable_time());
    assert!(ct.get(1).variable_time());
    let back = Ciphertext::try_convert_from(&CiphertextProto::from(&ct), &params).unwrap();
    assert!(back.get(0).variable_time());
    assert!(back.get(1).variable_time());
    assert_eq!(back.get(0).to_rows(), ct.get(0).to_rows());
    assert_eq!(back.get(1).to_rows(), ct.get(1).to_rows());
}
