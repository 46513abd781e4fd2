use bfv::errors::{Error, ErrorKind};
use bfv::parameters::{BfvParameters, BfvParametersBuilder};

#[test]
fn test_builder() {
    let params = BfvParametersBuilder::default().build();
    assert!(params.is_err_and(|e| e.message() == "`polynomial_degree` must be initialized"));

    let params = BfvParametersBuilder::default().polynomial_degree(7).build();
    assert!(params.is_err_and(|e| e.message()
        == "`polynomial_degree` must be a power of two larger or equal to 8"));

    let params = BfvParametersBuilder::default()
        .polynomial_degree(1023)
        .build();
    assert!(params.is_err_and(|e| e.message()
        == "`polynomial_degree` must be a power of two larger or equal to 8"));

    let params = BfvParametersBuilder::default()
        .polynomial_degree(1024)
        .build();
    assert!(params.is_err_and(|e| e.message() == "`plaintext_modulus` must be initialized"));

    let params = BfvParametersBuilder::default()
        .polynomial_degree(1024)
        .plaintext_modulus(0)
        .build();
    assert!(params.is_err_and(|e| e.message() == "modulus should be between 2 and 2^62-1"));

    let params = BfvParametersBuilder::default()
        .polynomial_degree(1024)
        .plaintext_modulus(2)
        .build();
    assert!(params.is_err_and(|e| e.message()
        == "One and only one of `ciphertext_moduli` or `ciphertext_moduli_sizes` must be specified"));

    let params = BfvParametersBuilder::default()
        .polynomial_degree(1024)
        .plaintext_modulus(2)
        .ciphertext_moduli(vec![])
        .build();
    assert!(params.is_err_and(|e| e.message()
        == "One and only one of `ciphertext_moduli` or `ciphertext_moduli_sizes` must be specified"));

    let params = BfvParametersBuilder::default()
        .polynomial_degree(1024)
        .plaintext_modulus(2)
        .ciphertext_moduli(vec![1153])
        .ciphertext_moduli_sizes(vec![62])
        .build();
    assert!(params.is_err_and(|e| e.message()
        == "One and only one of `ciphertext_moduli` or `ciphertext_moduli_sizes` must be specified"));

    let params = BfvParametersBuilder::default()
        .polynomial_degree(8)
        .plaintext_modulus(2)
        .ciphertext_moduli(vec![1])
        .build();
    assert!(params.is_err_and(|e| e.message() == "modulus should be between 2 and 2^62-1"));

    let params = BfvParametersBuilder::default()
        .polynomial_degree(8)
        .plaintext_modulus(2)
        .ciphertext_moduli(vec![2])
        .build();
    assert!(params.is_err_and(|e| e.message() == "Impossible to construct a Ntt operator"));

    let params = BfvParametersBuilder::default()
        .polynomial_degree(8)
        .plaintext_modulus(2)
        .ciphertext_moduli(vec![1153])
        .build();
    assert!(params.is_ok());

    let params = params.unwrap();
    assert_eq!(params.moduli(), &vec![1153]);
    assert_eq!(params.plaintext_modulus(), 2);
    assert_eq!(params.degree(), 8);
    assert_eq!(params.variance(), 1);
    assert!(params.op().is_none());
}

#[test]
fn test_default() {
    let params = BfvParameters::default(1).unwrap();
    assert_eq!(params.moduli().len(), 1);

    let params = BfvParameters::default(2).unwrap();
    assert_eq!(params.moduli().len(), 2);
}

#[test]
fn test_ciphertext_moduli() {
    let params = BfvParametersBuilder::default()
        .polynomial_degree(8)
        .plaintext_modulus(2)
        .ciphertext_moduli_sizes(vec![62, 62, 62, 61, 60, 11])
        .build();
    assert!(params.is_ok_and(|p| p.moduli()
        == &vec![
            4611686018427387761,
            4611686018427387617,
            4611686018427387409,
            2305843009213693921,
            1152921504606846577,
            2017
        ]));

    let params = BfvParametersBuilder::default()
        .polynomial_degree(8)
        .plaintext_modulus(2)
        .ciphertext_moduli(vec![
            4611686018427387761,
            4611686018427387617,
            4611686018427387409,
            2305843009213693921,
            1152921504606846577,
            2017,
        ])
        .build();
    assert!(params.is_ok_and(|p| p.moduli_sizes() == &vec![62, 62, 62, 61, 60, 11]));
}

#[test]
fn builder_rejects_bad_sizes_and_variance() {
    let params = BfvParametersBuilder::default()
        .polynomial_degree(8)
        .plaintext_modulus(1153)
        .ciphertext_moduli_sizes(vec![62, 9])
        .build();
    assert_eq!(params.err(), Some(Error::ModulusSize));
    let params = BfvParametersBuilder::default()
        .polynomial_degree(8)
        .plaintext_modulus(1153)
        .ciphertext_moduli_sizes(vec![63])
        .build();
    assert_eq!(params.err(), Some(Error::ModulusSize));
    for v in [0usize, 17] {
        let params = BfvParametersBuilder::default()
            .polynomial_degree(8)
            .plaintext_modulus(1153)
            .ciphertext_moduli_sizes(vec![62])
            .variance(v)
            .build();
        assert_eq!(params.err(), Some(Error::Variance));
    }
    assert_eq!(Error::Variance.kind(), ErrorKind::InvalidParameter);
    assert_eq!(Error::PrimeGeneration.kind(), ErrorKind::PrimeGenerationFailure);
}

#[test]
fn builder_rejects_plaintext_modulus_dividing_the_ciphertext_modulus() {
    let params = BfvParametersBuilder::default()
        .polynomial_degree(8)
        .plaintext_modulus(1153)
        .ciphertext_moduli(vec![1153])
        .build();
    assert_eq!(params.err(), Some(Error::PlaintextModulusNotInvertible));
}
