use enigma::errors::CipherError;
use enigma::rotor::Rotor;
use enigma::rotor_set::RotorSet;

fn wiring_i() -> Vec<char> {
    "EKMFLGDQVZNTOWYHXUSPAIBRCJ".chars().collect()
}

fn reflector_b() -> Vec<char> {
    "YRUHQSLDPXNGOKMIEBFZCWVJAT".chars().collect()
}

#[test]
fn position_out_of_range_is_a_configuration_error() {
    let e = Rotor::new(wiring_i(), 'Q', 26, 1).unwrap_err();
    assert_eq!(e, CipherError::ConfigurationError);
}

#[test]
fn increment_out_of_range_is_a_configuration_error() {
    let e = Rotor::new(wiring_i(), 'Q', 0, 26).unwrap_err();
    assert_eq!(e, CipherError::ConfigurationError);
}

#[test]
fn boundary_position_and_increment_are_accepted() {
    assert!(Rotor::new(wiring_i(), 'Q', 25, 25).is_ok());
    assert!(Rotor::new(wiring_i(), 'Q', 0, 0).is_ok());
}

#[test]
fn duplicate_letter_in_wiring_is_an_invariant_violation() {
    let mut wiring = wiring_i();
    // 'E' now appears twice and 'K' never
    wiring[1] = 'E';
    let e = Rotor::new(wiring, 'Q', 0, 1).unwrap_err();
    assert_eq!(e, CipherError::InvariantViolation);
}

#[test]
fn short_wiring_is_an_invariant_violation() {
    let wiring: Vec<char> = "EKMFL".chars().collect();
    let e = Rotor::new(wiring, 'Q', 0, 1).unwrap_err();
    assert_eq!(e, CipherError::InvariantViolation);
}

#[test]
fn wiring_with_a_digit_is_an_invariant_violation() {
    let mut wiring = wiring_i();
    wiring[0] = '7';
    let e = Rotor::new(wiring, 'Q', 0, 1).unwrap_err();
    assert_eq!(e, CipherError::InvariantViolation);
}

#[test]
fn notch_outside_the_alphabet_is_an_invariant_violation() {
    let e = Rotor::new(wiring_i(), '?', 0, 1).unwrap_err();
    assert_eq!(e, CipherError::InvariantViolation);
}

#[test]
fn empty_rotor_list_is_a_configuration_error() {
    let e = RotorSet::new(Vec::new(), reflector_b(), 1).unwrap_err();
    assert_eq!(e, CipherError::ConfigurationError);
}

#[test]
fn bad_reflector_is_an_invariant_violation() {
    let rotor = Rotor::new(wiring_i(), 'Q', 0, 1).unwrap();
    let mut reflector = reflector_b();
    reflector[0] = 'R';
    let e = RotorSet::new(vec![rotor], reflector, 1).unwrap_err();
    assert_eq!(e, CipherError::InvariantViolation);
}

#[test]
fn single_rotor_set_is_accepted_and_round_trips() {
    let rotor = Rotor::new(wiring_i(), 'Q', 10, 1).unwrap();
    let rs = RotorSet::new(vec![rotor], reflector_b(), 1).unwrap();
    let cipher = rs.encode("SINGLE ROTOR").unwrap();
    assert_eq!(rs.encode(&cipher).unwrap(), "SINGLE ROTOR");
}
