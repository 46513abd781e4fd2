use bfv::errors::Error;
use bfv::primes::{bit_length, check_power_of_two, generate_prime, pick_prime, pow2_word};
use bfv::sampling::{
    cbd_row, cbd_sample, count_low_ones, random_vec, signed_residue, uniform_residue,
    uniform_row,
};
use bfv::zq::Modulus;

const P: u64 = 4611686018326724609;

#[test]
fn modulus_rejects_out_of_range() {
    assert_eq!(Modulus::new(0).err(), Some(Error::ModulusOutOfRange));
    assert_eq!(Modulus::new(1).err(), Some(Error::ModulusOutOfRange));
    assert!(Modulus::new(2).is_ok());
    assert!(Modulus::new((1u64 << 62) - 1).is_ok());
    assert_eq!(Modulus::new(1u64 << 62).err(), Some(Error::ModulusOutOfRange));
    assert_eq!(Modulus::new(1153).unwrap().modulus(), 1153);
}

#[test]
fn scalar_arithmetic_modulo_seven() {
    let q = Modulus::new(7).unwrap();
    assert_eq!(q.add(5, 4), 2);
    assert_eq!(q.add(0, 0), 0);
    assert_eq!(q.add(6, 6), 5);
    assert_eq!(q.sub(2, 5), 4);
    assert_eq!(q.sub(5, 5), 0);
    assert_eq!(q.neg(0), 0);
    assert_eq!(q.neg(3), 4);
    assert_eq!(q.mul(3, 5), 1);
    assert_eq!(q.mul(6, 6), 1);
    assert_eq!(q.pow(3, 0), 1);
    assert_eq!(q.pow(3, 4), 4);
    assert_eq!(q.pow(0, 5), 0);
    assert_eq!(q.inv(3), Some(5));
    assert_eq!(q.inv(1), Some(1));
    assert_eq!(q.inv(0), None);
    assert_eq!(q.reduce(23), 2);
    assert_eq!(q.reduce_u128((1u128 << 100) + 3), (((1u128 << 100) + 3) % 7) as u64);
}

#[test]
fn the_inverse_fails_modulo_a_composite() {
    // 2^(p-2) is no inverse of 2 modulo 9: Fermat's little theorem needs a prime
    let q = Modulus::new(9).unwrap();
    assert_eq!(q.inv(2), None);
    assert_eq!(q.inv(3), None);
}

#[test]
fn branching_forms_agree_with_branch_free_forms() {
    let q = Modulus::new(P).unwrap();
    for (a, b) in [(0, 0), (1, P - 1), (P - 1, P - 1), (123456789, 987654321012345), (P / 2, P / 2 + 1)] {
        assert_eq!(q.add(a, b), ((a as u128 + b as u128) % P as u128) as u64);
        assert_eq!(q.add_vt(a, b), q.add(a, b));
        assert_eq!(q.sub(a, b), ((a as u128 + P as u128 - b as u128) % P as u128) as u64);
        assert_eq!(q.sub_vt(a, b), q.sub(a, b));
        assert_eq!(q.neg(a), (P - a) % P);
        assert_eq!(q.neg_vt(a), q.neg(a));
        assert_eq!(q.mul(a, b), ((a as u128 * b as u128) % P as u128) as u64);
    }
}

#[test]
fn shoup_multiplication_agrees_with_multiplication() {
    let q = Modulus::new(P).unwrap();
    assert_eq!(q.shoup(0), 0);
    assert_eq!(q.shoup(1), ((1u128 << 64) / P as u128) as u64);
    let a = random_vec(&q, 64);
    let b = random_vec(&q, 64);
    for i in 0..64 {
        let companion = q.shoup(b[i]);
        assert_eq!(companion as u128, ((b[i] as u128) << 64) / P as u128);
        assert_eq!(q.mul_shoup(a[i], b[i], companion), q.mul(a[i], b[i]));
    }
    assert_eq!(q.mul_shoup(P - 1, P - 1, q.shoup(P - 1)), 1);
}

#[test]
fn vector_operations_act_entry_by_entry() {
    let q = Modulus::new(1153).unwrap();
    let a = vec![0, 1, 1152, 600, 7];
    let b = vec![0, 1152, 1152, 600, 1000];

    let mut c = a.clone();
    q.add_vec(&mut c, &b);
    assert_eq!(c, vec![0, 0, 1151, 47, 1007]);
    let mut c_vt = a.clone();
    q.add_vec_vt(&mut c_vt, &b);
    assert_eq!(c_vt, c);

    let mut c = a.clone();
    q.sub_vec(&mut c, &b);
    assert_eq!(c, vec![0, 2, 0, 0, 160]);
    let mut c_vt = a.clone();
    q.sub_vec_vt(&mut c_vt, &b);
    assert_eq!(c_vt, c);

    let mut c = a.clone();
    q.neg_vec(&mut c);
    assert_eq!(c, vec![0, 1152, 1, 553, 1146]);
    let mut c_vt = a.clone();
    q.neg_vec_vt(&mut c_vt);
    assert_eq!(c_vt, c);

    let mut c = a.clone();
    q.mul_vec(&mut c, &b);
    assert_eq!(c, vec![0, 1152, 1, (600 * 600) % 1153, 7000 % 1153]);
    let mut c_shoup = a.clone();
    q.mul_shoup_vec(&mut c_shoup, &b, &q.shoup_vec(&b));
    assert_eq!(c_shoup, c);

    let mut c = a.clone();
    q.scalar_mul_vec(&mut c, 2);
    assert_eq!(c, vec![0, 2, 1151, 47, 14]);

    let mut c = vec![1153, 1154, 5, u64::MAX];
    q.reduce_vec(&mut c);
    assert_eq!(c, vec![0, 1, 5, u64::MAX % 1153]);

    let mut empty: Vec<u64> = vec![];
    q.add_vec(&mut empty, &vec![]);
    assert!(empty.is_empty());
}

#[test]
fn random_vectors_are_reduced() {
    let q = Modulus::new(1153).unwrap();
    let v = random_vec(&q, 1000);
    assert_eq!(v.len(), 1000);
    assert!(v.iter().all(|x| *x < 1153));
    // the generator of the thread does not give the same words twice
    assert_ne!(v, random_vec(&q, 1000));
    assert!(random_vec(&q, 0).is_empty());
}

#[test]
fn powers_of_two_and_bit_lengths() {
    assert_eq!(pow2_word(0), 1);
    assert_eq!(pow2_word(10), 1024);
    assert_eq!(pow2_word(63), 1u64 << 63);
    assert_eq!(bit_length(1), 1);
    assert_eq!(bit_length(2), 2);
    assert_eq!(bit_length(1153), 11);
    assert_eq!(bit_length(u64::MAX), 64);
    assert_eq!(bit_length((1u64 << 62) - 1), 62);
    assert!(check_power_of_two(1));
    assert!(check_power_of_two(8));
    assert!(check_power_of_two(1 << 40));
    assert!(!check_power_of_two(0));
    assert!(!check_power_of_two(12));
    assert!(!check_power_of_two(1023));
}

#[test]
fn the_largest_prime_below_a_bound_is_found() {
    // the primes of 11 binary digits that are 1 modulo 16, from the largest: 2017, 1889, 1873
    assert_eq!(generate_prime(11, 16, 1 << 11), Some(2017));
    assert_eq!(generate_prime(11, 16, 2017), Some(1889));
    assert_eq!(generate_prime(11, 16, 1889), Some(1873));
    assert_eq!(generate_prime(11, 16, 2018), Some(2017));
    assert_eq!(generate_prime(62, 16, 1 << 62), Some(4611686018427387761));
    assert_eq!(generate_prime(62, 16, 4611686018427387761), Some(4611686018427387617));
    // no prime of 11 binary digits lies below 2^10
    assert_eq!(generate_prime(11, 16, 1 << 10), None);
    assert_eq!(generate_prime(11, 16, 0), None);
    // sizes outside [10, 62]
    assert_eq!(generate_prime(9, 16, 1 << 9), None);
    assert_eq!(generate_prime(63, 16, 1 << 63), None);
    // nothing is 1 modulo 1
    assert_eq!(generate_prime(11, 1, 1 << 11), None);
    // the primes already taken are passed over
    assert_eq!(pick_prime(11, 16, &vec![]), Some(2017));
    assert_eq!(pick_prime(11, 16, &vec![2017]), Some(1889));
    assert_eq!(pick_prime(11, 16, &vec![1873, 2017]), Some(1889));
    assert_eq!(pick_prime(11, 16, &vec![1889, 2017]), Some(1873));
}

#[test]
fn centered_binomial_samples() {
    assert_eq!(count_low_ones(0b1011, 3), 2);
    assert_eq!(count_low_ones(0b1011, 4), 3);
    assert_eq!(count_low_ones(u64::MAX, 64), 64);
    assert_eq!(count_low_ones(u64::MAX, 0), 0);
    // variance 1: two digits count for, the next two against
    assert_eq!(cbd_sample(0b0111, 1), 1);
    assert_eq!(cbd_sample(0b1100, 1), -2);
    assert_eq!(cbd_sample(0b0011, 1), 2);
    assert_eq!(cbd_sample(0b1111, 1), 0);
    assert_eq!(cbd_sample(0, 16), 0);
    assert_eq!(cbd_sample(u64::MAX, 16), 0);
    assert_eq!(cbd_sample(0xffff_ffff, 16), 32);
    assert_eq!(cbd_sample(0xffff_ffff_0000_0000, 16), -32);
    // digits beyond the first 4 * variance are not read
    assert_eq!(cbd_sample(0xffff_fff0, 1), 0);

    let q = Modulus::new(1153).unwrap();
    assert_eq!(signed_residue(0, &q), 0);
    assert_eq!(signed_residue(5, &q), 5);
    assert_eq!(signed_residue(-1, &q), 1152);
    assert_eq!(signed_residue(-1153, &q), 0);
    assert_eq!(signed_residue(i64::MIN, &q), (1153 - ((1u128 << 63) % 1153)) as u64);
    assert_eq!(cbd_row(&vec![0b0111, 0b1100, 0], 1, &q), vec![1, 1151, 0]);
}

#[test]
fn uniform_residues_reduce_a_double_word() {
    let q = Modulus::new(1153).unwrap();
    assert_eq!(uniform_residue(0, 7, &q), 7);
    assert_eq!(uniform_residue(0, 1153, &q), 0);
    assert_eq!(uniform_residue(1, 0, &q), ((1u128 << 64) % 1153) as u64);
    assert_eq!(
        uniform_residue(u64::MAX, u64::MAX, &q),
        (u128::MAX % 1153) as u64
    );
    let words = vec![9, 9, 0, 7, 1, 0, 9, 9];
    assert_eq!(
        uniform_row(&words, 2, 2, &q),
        vec![7, ((1u128 << 64) % 1153) as u64]
    );
}
