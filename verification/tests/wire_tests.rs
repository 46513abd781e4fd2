use bfv::ciphertext::Ciphertext;
use bfv::errors::{Error, ErrorKind};
use bfv::parameters::BfvParameters;
use bfv::plaintext::{Encoding, Plaintext};
use bfv::rq::Representation;
use bfv::sampling::random_vec;
use bfv::secret_key::SecretKey;
use bfv::wire::{CiphertextProto, Rq};
use std::rc::Rc;

#[test]
fn test_proto_conversion() {
    for params in [
        Rc::new(BfvParameters::default(1).unwrap()),
        Rc::new(BfvParameters::default(2).unwrap()),
    ] {
        let sk = SecretKey::random(&params);
        let v = random_vec(params.plaintext(), 8);
        let pt = Plaintext::try_encode(&v, Encoding::Simd, &params).unwrap();
        let ct = sk.encrypt(&pt).unwrap();
        let ct_proto = CiphertextProto::from(&ct);
        assert_eq!(ct, Ciphertext::try_convert_from(&ct_proto, &params).unwrap())
    }
}

#[test]
fn seeded_ciphertext_is_written_without_its_last_element() {
    let params = Rc::new(BfvParameters::default(2).unwrap());
    let sk = SecretKey::random(&params);
    let pt = Plaintext::try_encode(&vec![1, 2, 3], Encoding::Poly, &params).unwrap();
    let ct = sk.encrypt(&pt).unwrap();
    let proto = CiphertextProto::from(&ct);
    assert_eq!(proto.c.len(), 1);
    assert_eq!(proto.seed.len(), 32);
    assert_eq!(proto.seed, ct.seed().unwrap().to_vec());

    // once added to itself the ciphertext has no seed, and is written whole
    let sum = ct.add(&ct).unwrap();
    assert!(sum.seed().is_none());
    let proto = CiphertextProto::from(&sum);
    assert_eq!(proto.c.len(), 2);
    assert!(proto.seed.is_empty());
    let back = Ciphertext::try_convert_from(&proto, &params).unwrap();
    assert_eq!(
        sk.decrypt(&back).unwrap().try_decode(Encoding::Poly).unwrap(),
        vec![2, 4, 6, 0, 0, 0, 0, 0]
    );
}

#[test]
fn malformed_wire_forms_are_rejected() {
    let params = Rc::new(BfvParameters::default(2).unwrap());
    let sk = SecretKey::random(&params);
    let pt = Plaintext::try_encode(&vec![1, 2, 3], Encoding::Poly, &params).unwrap();
    let ct = sk.encrypt(&pt).unwrap();
    let good = CiphertextProto::from(&ct);

    let empty = CiphertextProto { c: vec![], seed: good.seed.clone(), level: 0 };
    assert_eq!(
        Ciphertext::try_convert_from(&empty, &params).err(),
        Some(Error::NotEnoughPolynomials)
    );
    let lone = CiphertextProto { c: good.c.clone(), seed: vec![], level: 0 };
    assert_eq!(
        Ciphertext::try_convert_from(&lone, &params).err(),
        Some(Error::NotEnoughPolynomials)
    );
    assert_eq!(Error::NotEnoughPolynomials.kind(), ErrorKind::MalformedCiphertext);

    let short_seed = CiphertextProto { c: good.c.clone(), seed: vec![7u8; 31], level: 0 };
    assert_eq!(
        Ciphertext::try_convert_from(&short_seed, &params).err(),
        Some(Error::InvalidSeed)
    );

    let mut rows = good.c[0].coefficients.clone();
    rows[1][3] = params.moduli()[1];
    let unreduced = CiphertextProto {
        c: vec![Rq { representation: Representation::Ntt, coefficients: rows }],
        seed: good.seed.clone(),
        level: 0,
    };
    assert_eq!(
        Ciphertext::try_convert_from(&unreduced, &params).err(),
        Some(Error::InvalidPolynomial)
    );
    let coefficient_form = CiphertextProto {
        c: vec![Rq {
            representation: Representation::PowerBasis,
            coefficients: good.c[0].coefficients.clone(),
        }],
        seed: good.seed.clone(),
        level: 0,
    };
    assert_eq!(
        Ciphertext::try_convert_from(&coefficient_form, &params).err(),
        Some(Error::InvalidPolynomial)
    );
    assert_eq!(Error::InvalidPolynomial.kind(), ErrorKind::SerializationError);
}

fn written_in(ct: &Ciphertext, form: Representation, params: &Rc<BfvParameters>) -> CiphertextProto {
    let mut c = Vec::new();
    for i in 0..ct.len() {
        let mut p = ct.get(i).duplicate();
        if form == Representation::PowerBasis {
            p.change_representation(Representation::PowerBasis, params.ctx());
        }
        c.push(Rq { representation: form, coefficients: p.to_rows() });
    }
    CiphertextProto { c, seed: vec![], level: 0 }
}

#[test]
fn ring_elements_are_read_in_the_form_in_which_they_were_written() {
    let params = Rc::new(BfvParameters::default(2).unwrap());
    let sk = SecretKey::random(&params);
    let pt_a = Plaintext::try_encode(&vec![1, 2, 3], Encoding::Poly, &params).unwrap();
    let pt_b = Plaintext::try_encode(&vec![10, 20, 30], Encoding::Poly, &params).unwrap();
    let ct_a = sk.encrypt(&pt_a).unwrap();
    let ct_b = sk.encrypt(&pt_b).unwrap();

    // two ring elements in coefficient form and no seed
    let proto_a = written_in(&ct_a, Representation::PowerBasis, &params);
    let proto_b = written_in(&ct_b, Representation::PowerBasis, &params);
    let a = Ciphertext::try_convert_from(&proto_a, &params).unwrap();
    let b = Ciphertext::try_convert_from(&proto_b, &params).unwrap();
    assert_eq!(a.representation(), Representation::PowerBasis);
    assert_eq!(a.len(), 2);
    assert!(a.seed().is_none());
    assert_eq!(a.get(0).representation(), Representation::PowerBasis);
    assert_eq!(a.get(1).representation(), Representation::PowerBasis);
    assert_eq!(CiphertextProto::from(&a), proto_a);

    // sums, differences and opposites are taken in the form that is shared
    let sum = a.add(&b).unwrap();
    assert_eq!(sum.representation(), Representation::PowerBasis);
    assert_eq!(
        CiphertextProto::from(&sum),
        written_in(&ct_a.add(&ct_b).unwrap(), Representation::PowerBasis, &params)
    );
    assert_eq!(
        CiphertextProto::from(&a.sub(&b).unwrap()),
        written_in(&ct_a.sub(&ct_b).unwrap(), Representation::PowerBasis, &params)
    );
    assert_eq!(
        CiphertextProto::from(&a.neg().unwrap()),
        written_in(&ct_a.neg().unwrap(), Representation::PowerBasis, &params)
    );
    assert_eq!(a.add(&ct_b).err(), Some(Error::Representation));
    assert_eq!(ct_a.sub(&b).err(), Some(Error::Representation));

    // what needs transformed ring elements says so
    assert_eq!(sk.decrypt(&a).err(), Some(Error::Representation));
    assert_eq!(sk.measure_noise(&a).err(), Some(Error::Representation));
    assert_eq!(a.mul(&pt_b).err(), Some(Error::Representation));
    assert_eq!(a.add_plaintext(&pt_b).err(), Some(Error::Representation));
    assert_eq!(a.sub_plaintext(&pt_b).err(), Some(Error::Representation));
    assert_eq!(a.mul_ciphertext(&b).err(), Some(Error::Representation));
    assert_eq!(Error::Representation.kind(), ErrorKind::UnsupportedOperation);

    // ring elements with their Shoup companions are read, and admit no sum
    let shoup = Ciphertext::try_convert_from(
        &written_in(&ct_a, Representation::NttShoup, &params),
        &params,
    )
    .unwrap();
    assert_eq!(shoup.representation(), Representation::NttShoup);
    assert_eq!(shoup.neg().err(), Some(Error::Representation));
    assert_eq!(shoup.add(&shoup).err(), Some(Error::Representation));
    assert_eq!(Ciphertext::zero(&params).sub(&shoup).err(), Some(Error::Representation));
    assert_eq!(Ciphertext::zero(&params).add(&shoup).unwrap(), shoup);

    // ring elements that do not share one form are no ciphertext
    let mut mixed = written_in(&ct_a, Representation::Ntt, &params);
    mixed.c[1].representation = Representation::PowerBasis;
    assert_eq!(
        Ciphertext::try_convert_from(&mixed, &params).err(),
        Some(Error::InvalidPolynomial)
    );
    // a short seed is reported before the forms are compared
    let mut short = written_in(&ct_a, Representation::PowerBasis, &params);
    short.seed = vec![1u8; 5];
    assert_eq!(Ciphertext::try_convert_from(&short, &params).err(), Some(Error::InvalidSeed));
}
