use enigma::rotor::Rotor;
use enigma::rotor_set::RotorSet;

fn wiring_i() -> Vec<char> {
    "EKMFLGDQVZNTOWYHXUSPAIBRCJ".chars().collect()
}

fn wiring_ii() -> Vec<char> {
    "AJDKSIRUXBLHWTMCQGZNPYFVOE".chars().collect()
}

fn wiring_iii() -> Vec<char> {
    "BDFHJLCPRTXVZNYEIWGAKMUSQO".chars().collect()
}

fn reflector_b() -> Vec<char> {
    "YRUHQSLDPXNGOKMIEBFZCWVJAT".chars().collect()
}

#[test]
fn step_moves_the_position() {
    let rotor = Rotor::new(wiring_i(), 'Q', 5, 3).unwrap();
    let stepped = rotor.increment_rotor();
    assert_eq!(stepped.position(), 8);
    assert_ne!(stepped.position(), rotor.position());
}

#[test]
fn step_wraps_around() {
    let rotor = Rotor::new(wiring_i(), 'Q', 25, 1).unwrap();
    assert_eq!(rotor.increment_rotor().position(), 0);
}

#[test]
fn step_with_zero_increment_stays() {
    let rotor = Rotor::new(wiring_i(), 'Q', 12, 0).unwrap();
    assert_eq!(rotor.increment_rotor().position(), 12);
}

#[test]
fn notch_is_read_at_the_current_position() {
    // Wiring I carries 'Q' at index 7.
    let away = Rotor::new(wiring_i(), 'Q', 0, 1).unwrap();
    assert!(!away.reached_notch());
    let at = Rotor::new(wiring_i(), 'Q', 7, 1).unwrap();
    assert!(at.reached_notch());
}

#[test]
fn rotor_lookups_are_inverse() {
    let rotor = Rotor::new(wiring_i(), 'Q', 0, 1).unwrap();
    // Wiring I sends contact 0 to 'E'.
    assert_eq!(rotor.forward(0), 4);
    assert_eq!(rotor.backward(4), 0);
    for p in 0..26 {
        assert_eq!(rotor.backward(rotor.forward(p)), p);
        assert_eq!(rotor.forward(rotor.backward(p)), p);
    }
}

#[test]
fn rightmost_rotor_always_steps() {
    let r1 = Rotor::new(wiring_i(), 'Q', 0, 1).unwrap();
    let r2 = Rotor::new(wiring_ii(), 'E', 0, 1).unwrap();
    let r3 = Rotor::new(wiring_iii(), 'V', 0, 1).unwrap();
    let rs = RotorSet::new(vec![r1, r2, r3], reflector_b(), 1).unwrap();
    let stepped = rs.rotate();
    assert_eq!(stepped.rotor_position(0), 0);
    assert_eq!(stepped.rotor_position(1), 0);
    assert_eq!(stepped.rotor_position(2), 1);
}

#[test]
fn double_step_advances_rotor_and_left_neighbour() {
    // Four rotors; the one at index 2 stands at its notch: wiring III
    // carries 'B' at index 0. After one stepping event it and its
    // left neighbour have both advanced, the rotor at index 0 has
    // not, and the rightmost has stepped as always.
    let r0 = Rotor::new(wiring_i(), 'Q', 0, 1).unwrap();
    let r1 = Rotor::new(wiring_i(), 'Q', 0, 1).unwrap();
    let r2 = Rotor::new(wiring_iii(), 'B', 0, 1).unwrap();
    let r3 = Rotor::new(wiring_ii(), 'E', 0, 1).unwrap();
    let rs = RotorSet::new(vec![r0, r1, r2, r3], reflector_b(), 1).unwrap();
    let stepped = rs.rotate();
    assert_eq!(stepped.rotor_position(0), 0);
    assert_eq!(stepped.rotor_position(1), 1);
    assert_eq!(stepped.rotor_position(2), 1);
    assert_eq!(stepped.rotor_position(3), 1);
}

#[test]
fn stepping_uses_the_pre_step_notch_state() {
    // The rotor at index 2 stands at its notch and so advances its
    // left neighbour, the rotor at index 1. That rotor sits one step
    // short of its own notch — wiring III carries 'B' at index 0 and
    // it stands at 25 with increment 1 — so its step lands it on the
    // notch. Becoming at-notch as a side effect of the same event
    // must not advance the rotor at index 0: notch state is read
    // before any increment is applied.
    let r0 = Rotor::new(wiring_i(), 'Q', 0, 1).unwrap();
    let r1 = Rotor::new(wiring_iii(), 'B', 25, 1).unwrap();
    let r2 = Rotor::new(wiring_iii(), 'B', 0, 1).unwrap();
    let r3 = Rotor::new(wiring_ii(), 'E', 0, 1).unwrap();
    let rs = RotorSet::new(vec![r0, r1, r2, r3], reflector_b(), 1).unwrap();
    let stepped = rs.rotate();
    assert_eq!(stepped.rotor_position(0), 0);
    assert_eq!(stepped.rotor_position(1), 0);
    assert_eq!(stepped.rotor_position(2), 1);
    assert_eq!(stepped.rotor_position(3), 1);
}

#[test]
fn rotate_returns_a_new_set_and_keeps_the_old() {
    let r1 = Rotor::new(wiring_i(), 'Q', 0, 1).unwrap();
    let r2 = Rotor::new(wiring_ii(), 'E', 0, 1).unwrap();
    let r3 = Rotor::new(wiring_iii(), 'V', 0, 1).unwrap();
    let rs = RotorSet::new(vec![r1, r2, r3], reflector_b(), 1).unwrap();
    let _ = rs.rotate();
    assert_eq!(rs.rotor_position(2), 0);
    assert_eq!(rs.rotor_count(), 3);
}
