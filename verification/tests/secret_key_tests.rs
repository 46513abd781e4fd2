use bfv::parameters::BfvParameters;
use bfv::plaintext::{Encoding, Plaintext};
use bfv::rq::Representation;
use bfv::secret_key::SecretKey;
use std::rc::Rc;

#[test]
fn test_keygen() {
    let params = Rc::new(BfvParameters::default(1).unwrap());
    let sk = SecretKey::random(&params);
    assert_eq!(sk.par(), &params);

    let mut s = sk.s().duplicate();
    s.change_representation(Representation::PowerBasis, params.ctx());
    let coefficients = s.row(0).clone();
    coefficients.iter().for_each(|ci| {
        // Check that this is a small polynomial
        assert!(
            *ci <= 2 * sk.par().variance() as u64
                || *ci >= (sk.par().moduli()[0] - 2 * sk.par().variance() as u64)
        )
    })
}

#[test]
fn test_encrypt_decrypt() {
    for params in [
        Rc::new(BfvParameters::default(1).unwrap()),
        Rc::new(BfvParameters::default(2).unwrap()),
    ] {
        let sk = SecretKey::random(&params);

        let pt =
            Plaintext::try_encode(&vec![1, 2, 3, 4, 5, 6, 7, 8], Encoding::Poly, &params).unwrap();
        let ct = sk.encrypt(&pt).unwrap();
        let pt2 = sk.decrypt(&ct);

        println!("Noise: {}", sk.measure_noise(&ct).unwrap());
        assert!(pt2.is_ok_and(|pt2| pt2.par() == pt.par() && pt2.value() == pt.value()));
    }
}
