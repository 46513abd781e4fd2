//! Failures reported by the scheme.

use vstd::prelude::*;

verus! {

/// The broad class a failure belongs to.
#[derive(Debug, Clone, Copy, PartialEq, Eq, Structural)]
pub enum ErrorKind {
    /// A parameter is out of its admissible range, missing, or given twice.
    InvalidParameter,
    /// Not enough primes of the requested size support the transform.
    PrimeGenerationFailure,
    /// Operands belong to different parameter sets or levels.
    ParameterMismatch,
    /// The operation is not available with the given key or parameters.
    UnsupportedOperation,
    /// A ciphertext does not have the shape the operation needs.
    MalformedCiphertext,
    /// A wire form could not be turned into a value.
    SerializationError,
}

/// A failure of one of the operations of the scheme.
#[derive(Debug, Clone, Copy, PartialEq, Eq, Structural)]
pub enum Error {
    /// The ring degree was never given to the builder.
    UninitializedDegree,
    /// The plaintext modulus was never given to the builder.
    UninitializedPlaintextModulus,
    /// The ring degree is not a power of two of at least 8 and below `2^62`.
    InvalidDegree,
    /// A modulus lies outside `[2, 2^62)`.
    ModulusOutOfRange,
    /// Neither, or both, of the moduli and their sizes were given.
    ModuliSpecification,
    /// A requested modulus size lies outside `[10, 62]` bits.
    ModulusSize,
    /// The noise variance lies outside `[1, 16]`.
    Variance,
    /// A modulus does not support the transform of the ring degree.
    NttUnsupported,
    /// The moduli admit no Chinese-remainder reconstruction.
    ModuliNotCoprime,
    /// The plaintext modulus has no inverse modulo a ciphertext modulus.
    PlaintextModulusNotInvertible,
    /// A basis of moduli is empty.
    EmptyBasis,
    /// No further prime of a requested size exists.
    PrimeGeneration,
    /// Two operands do not share the same parameters.
    ParameterMismatch,
    /// Two operands do not live at the same level.
    LevelMismatch,
    /// The evaluation key cannot relinearize.
    NoRelinearization,
    /// The parameters hold a single ciphertext modulus.
    SingleModulus,
    /// A ciphertext does not hold the number of limbs the operation needs.
    LimbCount,
    /// A ring element is not in the representation the operation needs.
    Representation,
    /// A wire form holds too few ring elements.
    NotEnoughPolynomials,
    /// A wire form holds a seed of the wrong length.
    InvalidSeed,
    /// A wire form holds a ring element of the wrong shape.
    InvalidPolynomial,
    /// More values were given than the ring has coefficients, or a value is not reduced.
    InvalidValues,
    /// The plaintext modulus does not support the batched encoding.
    EncodingUnsupported,
    /// Two rings do not have the same degree.
    IncompatibleContexts,
    /// The plaintext was encoded in another way than the one asked for.
    EncodingMismatch,
    /// A ciphertext without limbs holds nothing to decrypt.
    EmptyCiphertext,
}

impl Error {
    /// The class of each failure.
    pub open spec fn spec_kind(self) -> ErrorKind {
        match self {
            Error::UninitializedDegree => ErrorKind::InvalidParameter,
            Error::UninitializedPlaintextModulus => ErrorKind::InvalidParameter,
            Error::InvalidDegree => ErrorKind::InvalidParameter,
            Error::ModulusOutOfRange => ErrorKind::InvalidParameter,
            Error::ModuliSpecification => ErrorKind::InvalidParameter,
            Error::ModulusSize => ErrorKind::InvalidParameter,
            Error::Variance => ErrorKind::InvalidParameter,
            Error::NttUnsupported => ErrorKind::InvalidParameter,
            Error::ModuliNotCoprime => ErrorKind::InvalidParameter,
            Error::PlaintextModulusNotInvertible => ErrorKind::InvalidParameter,
            Error::EmptyBasis => ErrorKind::InvalidParameter,
            Error::InvalidValues => ErrorKind::InvalidParameter,
            Error::IncompatibleContexts => ErrorKind::InvalidParameter,
            Error::PrimeGeneration => ErrorKind::PrimeGenerationFailure,
            Error::ParameterMismatch => ErrorKind::ParameterMismatch,
            Error::LevelMismatch => ErrorKind::ParameterMismatch,
            Error::NoRelinearization => ErrorKind::UnsupportedOperation,
            Error::SingleModulus => ErrorKind::UnsupportedOperation,
            Error::EncodingUnsupported => ErrorKind::UnsupportedOperation,
            Error::EncodingMismatch => ErrorKind::UnsupportedOperation,
            Error::EmptyCiphertext => ErrorKind::MalformedCiphertext,
            Error::Representation => ErrorKind::UnsupportedOperation,
            Error::LimbCount => ErrorKind::MalformedCiphertext,
            Error::NotEnoughPolynomials => ErrorKind::MalformedCiphertext,
            Error::InvalidSeed => ErrorKind::MalformedCiphertext,
            Error::InvalidPolynomial => ErrorKind::SerializationError,
        }
    }

    /// The text of each failure.
    pub open spec fn spec_message(self) -> &'static str {
        match self {
            Error::UninitializedDegree => "`polynomial_degree` must be initialized",
            Error::UninitializedPlaintextModulus => "`plaintext_modulus` must be initialized",
            Error::InvalidDegree => "`polynomial_degree` must be a power of two larger or equal to 8",
            Error::ModulusOutOfRange => "modulus should be between 2 and 2^62-1",
            Error::ModuliSpecification => "One and only one of `ciphertext_moduli` or `ciphertext_moduli_sizes` must be specified",
            Error::ModulusSize => "The moduli sizes must be between 10 and 62 bits.",
            Error::Variance => "The variance should be an integer between 1 and 16",
            Error::NttUnsupported => "Impossible to construct a Ntt operator",
            Error::ModuliNotCoprime => "The moduli are not coprime",
            Error::PlaintextModulusNotInvertible => "The plaintext modulus is not invertible modulo a ciphertext modulus",
            Error::EmptyBasis => "The list of moduli is empty",
            Error::InvalidValues => "The values do not fit the plaintext space",
            Error::IncompatibleContexts => "The contexts do not have the same degree",
            Error::PrimeGeneration => "Could not generate enough ciphertext moduli to match the sizes provided",
            Error::ParameterMismatch => "Incompatible BFV parameters",
            Error::LevelMismatch => "Incompatible levels",
            Error::NoRelinearization => "The evaluation key does not support relinearization",
            Error::SingleModulus => "Parameters do not allow for multiplication",
            Error::EncodingUnsupported => "The plaintext does not allow for using the Simd encoding",
            Error::EncodingMismatch => "The plaintext was encoded with a different encoding",
            Error::EmptyCiphertext => "The ciphertext holds no polynomial",
            Error::Representation => "Incorrect representation",
            Error::LimbCount => "Multiplication can only be performed on ciphertexts of size 2",
            Error::NotEnoughPolynomials => "Not enough polynomials",
            Error::InvalidSeed => "Invalid seed",
            Error::InvalidPolynomial => "Invalid polynomial",
        }
    }

    /// The class of this failure.
    pub fn kind(&self) -> (r: ErrorKind)
        ensures
            r == self.spec_kind(),
    {
        match self {
            Error::UninitializedDegree => ErrorKind::InvalidParameter,
            Error::UninitializedPlaintextModulus => ErrorKind::InvalidParameter,
            Error::InvalidDegree => ErrorKind::InvalidParameter,
            Error::ModulusOutOfRange => ErrorKind::InvalidParameter,
            Error::ModuliSpecification => ErrorKind::InvalidParameter,
            Error::ModulusSize => ErrorKind::InvalidParameter,
            Error::Variance => ErrorKind::InvalidParameter,
            Error::NttUnsupported => ErrorKind::InvalidParameter,
            Error::ModuliNotCoprime => ErrorKind::InvalidParameter,
            Error::PlaintextModulusNotInvertible => ErrorKind::InvalidParameter,
            Error::EmptyBasis => ErrorKind::InvalidParameter,
            Error::InvalidValues => ErrorKind::InvalidParameter,
            Error::IncompatibleContexts => ErrorKind::InvalidParameter,
            Error::PrimeGeneration => ErrorKind::PrimeGenerationFailure,
            Error::ParameterMismatch => ErrorKind::ParameterMismatch,
            Error::LevelMismatch => ErrorKind::ParameterMismatch,
            Error::NoRelinearization => ErrorKind::UnsupportedOperation,
            Error::SingleModulus => ErrorKind::UnsupportedOperation,
            Error::EncodingUnsupported => ErrorKind::UnsupportedOperation,
            Error::EncodingMismatch => ErrorKind::UnsupportedOperation,
            Error::EmptyCiphertext => ErrorKind::MalformedCiphertext,
            Error::Representation => ErrorKind::UnsupportedOperation,
            Error::LimbCount => ErrorKind::MalformedCiphertext,
            Error::NotEnoughPolynomials => ErrorKind::MalformedCiphertext,
            Error::InvalidSeed => ErrorKind::MalformedCiphertext,
            Error::InvalidPolynomial => ErrorKind::SerializationError,
        }
    }

    /// The text of this failure.
    pub fn message(&self) -> (r: String)
        ensures
            r@ == self.spec_message()@,
    {
        let text: &'static str = match self {
            Error::UninitializedDegree => "`polynomial_degree` must be initialized",
            Error::UninitializedPlaintextModulus => "`plaintext_modulus` must be initialized",
            Error::InvalidDegree => "`polynomial_degree` must be a power of two larger or equal to 8",
            Error::ModulusOutOfRange => "modulus should be between 2 and 2^62-1",
            Error::ModuliSpecification => "One and only one of `ciphertext_moduli` or `ciphertext_moduli_sizes` must be specified",
            Error::ModulusSize => "The moduli sizes must be between 10 and 62 bits.",
            Error::Variance => "The variance should be an integer between 1 and 16",
            Error::NttUnsupported => "Impossible to construct a Ntt operator",
            Error::ModuliNotCoprime => "The moduli are not coprime",
            Error::PlaintextModulusNotInvertible => "The plaintext modulus is not invertible modulo a ciphertext modulus",
            Error::EmptyBasis => "The list of moduli is empty",
            Error::InvalidValues => "The values do not fit the plaintext space",
            Error::IncompatibleContexts => "The contexts do not have the same degree",
            Error::PrimeGeneration => "Could not generate enough ciphertext moduli to match the sizes provided",
            Error::ParameterMismatch => "Incompatible BFV parameters",
            Error::LevelMismatch => "Incompatible levels",
            Error::NoRelinearization => "The evaluation key does not support relinearization",
            Error::SingleModulus => "Parameters do not allow for multiplication",
            Error::EncodingUnsupported => "The plaintext does not allow for using the Simd encoding",
            Error::EncodingMismatch => "The plaintext was encoded with a different encoding",
            Error::EmptyCiphertext => "The ciphertext holds no polynomial",
            Error::Representation => "Incorrect representation",
            Error::LimbCount => "Multiplication can only be performed on ciphertexts of size 2",
            Error::NotEnoughPolynomials => "Not enough polynomials",
            Error::InvalidSeed => "Invalid seed",
            Error::InvalidPolynomial => "Invalid polynomial",
        };
        text.to_owned()
    }
}

} // verus!
