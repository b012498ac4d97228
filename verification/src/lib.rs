//! A rotor-based polyalphabetic substitution cipher.
//!
//! A stack of rotors, each a rotating permutation of the 26-letter
//! alphabet, is stepped once per input character; the signal then runs
//! forward through the stack, through a fixed reflector, and back,
//! yielding one ciphertext letter per plaintext letter.

pub mod alphabet;
pub mod errors;
pub mod permutation;
pub mod rotor;
pub mod rotor_set;
pub mod laws;
