use enigma::errors::CipherError;
use enigma::rotor::Rotor;
use enigma::rotor_set::RotorSet;

fn wiring_i() -> Vec<char> {
    "EKMFLGDQVZNTOWYHXUSPAIBRCJ".chars().collect()
}

fn wiring_ii() -> Vec<char> {
    "AJDKSIRUXBLHWTMCQGZNPYFVOE".chars().collect()
}

fn wiring_iii() -> Vec<char> {
    "BDFHJLCPRTXVZNYEIWGAKMUSQO".chars().collect()
}

fn reflector_b() -> Vec<char> {
    "YRUHQSLDPXNGOKMIEBFZCWVJAT".chars().collect()
}

fn standard_set(positions: [usize; 3], increments: [usize; 3], repeat: usize) -> RotorSet {
    let r1 = Rotor::new(wiring_i(), 'Q', positions[0], increments[0]).unwrap();
    let r2 = Rotor::new(wiring_ii(), 'E', positions[1], increments[1]).unwrap();
    let r3 = Rotor::new(wiring_iii(), 'V', positions[2], increments[2]).unwrap();
    RotorSet::new(vec![r1, r2, r3], reflector_b(), repeat).unwrap()
}

#[test]
fn golden_vector_single_letter() {
    // All positions 0, increment 1, repeat 1: the stepping event
    // advances the rightmost rotor to 1 before 'A' is encoded.
    let rs = standard_set([0, 0, 0], [1, 1, 1], 1);
    assert_eq!(rs.encode("A").unwrap(), "B");
}

#[test]
fn golden_vector_two_letters() {
    let rs = standard_set([0, 0, 0], [1, 1, 1], 1);
    assert_eq!(rs.encode("AA").unwrap(), "BD");
}

#[test]
fn round_trip_restores_message() {
    let rs = standard_set([3, 7, 11], [1, 2, 5], 1);
    let message = "HELLO WORLD";
    let cipher = rs.encode(message).unwrap();
    assert_ne!(cipher, message);
    // encode does not mutate the rotor set, so the second call starts
    // from the same initial positions
    assert_eq!(rs.encode(&cipher).unwrap(), message);
}

#[test]
fn round_trip_with_repeat_two() {
    let rs = standard_set([0, 5, 20], [2, 1, 3], 2);
    let message = "ATTACK AT DAWN";
    let cipher = rs.encode(message).unwrap();
    assert_eq!(rs.encode(&cipher).unwrap(), message);
}

#[test]
fn round_trip_with_repeat_zero() {
    let rs = standard_set([1, 2, 3], [1, 1, 1], 0);
    let message = "ZEBRA";
    let cipher = rs.encode(message).unwrap();
    assert_eq!(rs.encode(&cipher).unwrap(), message);
}

#[test]
fn length_is_preserved() {
    let rs = standard_set([0, 0, 0], [1, 1, 1], 1);
    for message in ["", "Q", "AB CD", "THE QUICK BROWN FOX JUMPS OVER THE LAZY DOG"] {
        assert_eq!(rs.encode(message).unwrap().len(), message.len());
    }
}

#[test]
fn spaces_pass_through_in_place() {
    let rs = standard_set([0, 0, 0], [1, 1, 1], 1);
    let message = "AB C D";
    let cipher = rs.encode(message).unwrap();
    for (m, c) in message.chars().zip(cipher.chars()) {
        assert_eq!(m == ' ', c == ' ');
    }
}

#[test]
fn space_consumes_a_stepping_event() {
    // A space still steps the rotors: the 'A' after a space is
    // encoded with the rightmost rotor at 2, not 1, and so gives 'D'
    // (the second letter of "AA" -> "BD"), not 'B'.
    let rs = standard_set([0, 0, 0], [1, 1, 1], 1);
    assert_eq!(rs.encode(" A").unwrap(), " D");
}

#[test]
fn identical_configurations_encode_identically() {
    let a = standard_set([4, 9, 21], [3, 1, 7], 2);
    let b = standard_set([4, 9, 21], [3, 1, 7], 2);
    let message = "DETERMINISM HOLDS";
    assert_eq!(a.encode(message).unwrap(), b.encode(message).unwrap());
}

#[test]
fn digit_is_rejected() {
    let rs = standard_set([0, 0, 0], [1, 1, 1], 1);
    assert_eq!(rs.encode("AB3").unwrap_err(), CipherError::InputError);
}

#[test]
fn lowercase_is_rejected() {
    let rs = standard_set([0, 0, 0], [1, 1, 1], 1);
    assert_eq!(rs.encode("abc").unwrap_err(), CipherError::InputError);
}

#[test]
fn punctuation_is_rejected() {
    let rs = standard_set([0, 0, 0], [1, 1, 1], 1);
    assert_eq!(rs.encode("A!B").unwrap_err(), CipherError::InputError);
}

#[test]
fn empty_message_encodes_to_empty() {
    let rs = standard_set([0, 0, 0], [1, 1, 1], 1);
    assert_eq!(rs.encode("").unwrap(), "");
}

#[test]
fn traversal_and_reflection_values() {
    // Positions all 0: forward is B->1, J->9, Z->25; backward walks
    // the same path in reverse; the reflector swaps A and Y.
    let rs = standard_set([0, 0, 0], [1, 1, 1], 1);
    assert_eq!(rs.traverse_forward(0), 25);
    assert_eq!(rs.traverse_backward(25), 0);
    assert_eq!(rs.reflect(0), 24);
    assert_eq!(rs.reflect(24), 0);
}

#[test]
fn non_involutive_reflector_breaks_the_round_trip() {
    // A reflector that shifts every letter by one is a permutation,
    // so it is accepted — but it is not an involution, and the
    // cipher is then not self-inverse.
    let shifted: Vec<char> = "BCDEFGHIJKLMNOPQRSTUVWXYZA".chars().collect();
    let r1 = Rotor::new(wiring_i(), 'Q', 0, 1).unwrap();
    let r2 = Rotor::new(wiring_ii(), 'E', 0, 1).unwrap();
    let r3 = Rotor::new(wiring_iii(), 'V', 0, 1).unwrap();
    let rs = RotorSet::new(vec![r1, r2, r3], shifted, 1).unwrap();
    let message = "ROUND TRIP";
    let cipher = rs.encode(message).unwrap();
    assert_ne!(rs.encode(&cipher).unwrap(), message);
}

#[test]
fn encode_char_matches_the_message_pipeline() {
    // encode steps once and then encodes: encoding 'A' by hand on
    // the stepped set gives the same letter as the golden vector.
    let rs = standard_set([0, 0, 0], [1, 1, 1], 1);
    let stepped = rs.rotate();
    assert_eq!(stepped.encode_char('A'), 'B');
    assert_eq!(stepped.encode_char(' '), ' ');
}

#[test]
fn traversals_invert_each_other() {
    let rs = standard_set([5, 17, 2], [1, 1, 1], 1);
    for p in 0..26 {
        assert_eq!(rs.traverse_backward(rs.traverse_forward(p)), p);
        assert_eq!(rs.traverse_forward(rs.traverse_backward(p)), p);
    }
}
