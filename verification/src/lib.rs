//! The BFV homomorphic encryption scheme over RNS polynomial rings.

pub mod batching;
pub mod bigint;
pub mod ciphertext;
pub mod congruence;
pub mod convolution;
pub mod correctness;
pub mod crt;
pub mod errors;
pub mod extension;
pub mod identity;
pub mod integer_ring;
pub mod key_switching;
pub mod moduli;
pub mod multiply;
pub mod ntt;
pub mod ntt_linear;
pub mod parameters;
pub mod plain_operand;
pub mod plaintext;
pub mod primes;
pub mod product;
pub mod quadratic;
pub mod relinearization;
pub mod relinearized;
pub mod relinearized_scaled;
pub mod rns;
pub mod rows_algebra;
pub mod rq;
pub mod sampling;
pub mod scaled_product;
pub mod scaler;
pub mod secret_key;
pub mod slot_order;
pub mod slots;
pub mod tensor;
pub mod views;
pub mod wire;
pub mod zq;
