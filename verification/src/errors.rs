//! The errors with which a configuration or a message is rejected.

use vstd::prelude::*;

verus! {

/// Why a configuration or a message was rejected. Every rejection
/// happens before any stepping or encoding side effect.
#[derive(Clone, Copy, Debug, PartialEq, Eq, Structural)]
pub enum CipherError {
    /// A rotor position or increment is out of range, or the rotor
    /// list is empty.
    ConfigurationError,
    /// The message holds a character outside the alphabet and space.
    InputError,
    /// A wiring or reflector table is not a permutation of the
    /// alphabet.
    InvariantViolation,
}

} // verus!
