//! The error taxonomy. Validation failures are detected before any mutation;
//! store-consistency failures report what the external hash store answered.

use vstd::prelude::*;

verus! {

/// Why a field was rejected before anything was stored.
#[derive(Clone, Copy, PartialEq, Eq, Structural, Debug)]
pub enum ValidationError {
    /// The name is the empty string.
    EmptyName,
    /// The email does not match the email shape.
    InvalidEmail,
    /// The phone string does not contain `49` followed by nine or ten digits.
    InvalidPhoneFormat,
    /// The phone string matched the shape, but the whole string is not a
    /// plain decimal numeral within 64 bits.
    PhoneOverflow,
}

/// What the external hash store answered that it never should have.
#[derive(Clone, Copy, PartialEq, Eq, Structural, Debug)]
pub enum StoreError {
    /// A field-set or delete command reported touching a different number of
    /// entries than the operation wrote.
    FieldCountMismatch { expected: usize, actual: usize },
    /// A field listing came back with a length that cannot be split into
    /// field-name/value pairs.
    MalformedFieldList,
    /// A stored phone field does not read back as a 64-bit decimal numeral.
    BadStoredPhone,
}

} // verus!
