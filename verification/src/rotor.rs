//! A single scrambler stage.
//!
//! A rotor is a permutation of the alphabet (its wiring), a notch
//! letter that triggers the advancement of the neighbouring rotor, a
//! rotational position, and the step increment by which the position
//! advances. The position is the only field that ever changes.

use vstd::prelude::*;
use vstd::arithmetic::div_mod::lemma_mod_bound;
use vstd::arithmetic::div_mod::lemma_small_mod;
use vstd::arithmetic::div_mod::lemma_add_mod_noop;
use crate::alphabet::is_letter;
use crate::alphabet::lemma_char_pos;
use crate::alphabet::letter_index;
use crate::alphabet::is_letter_char;
use crate::errors::CipherError;
use crate::permutation::wf_table;
use crate::permutation::inv_of;
use crate::permutation::lemma_inv_of;
use crate::permutation::lemma_inv_of_entry;
use crate::permutation::find_pos;
use crate::permutation::check_table;
use crate::permutation::copy_table;
use crate::alphabet::char_to_pos;

verus! {

/// The mathematical content of a rotor: what the contracts speak of.
#[verifier::ext_equal]
pub ghost struct RotorV {
    pub wiring: Seq<char>,
    pub notch: char,
    pub position: int,
    pub increment: int,
}

impl RotorV {
    /// A usable rotor: the wiring is a permutation of the alphabet,
    /// the notch is a letter, position and increment lie in `[0, 26)`.
    pub open spec fn wf(self) -> bool {
        &&& wf_table(self.wiring)
        &&& is_letter(self.notch)
        &&& 0 <= self.position < 26
        &&& 0 <= self.increment < 26
    }

    /// A signal entering contact `p` from the fast side leaves at the
    /// alphabet index of the letter wired there.
    pub open spec fn fwd(self, p: int) -> int {
        char_to_pos(self.wiring[p])
    }

    /// The exact inverse direction: the contact whose wired letter has
    /// alphabet index `p`.
    pub open spec fn bwd(self, p: int) -> int {
        inv_of(self.wiring, p)
    }

    /// The trigger condition for advancing the neighbouring rotor,
    /// read on the current (pre-step) position.
    pub open spec fn at_notch(self) -> bool {
        self.wiring[self.position] == self.notch
    }

    /// The same rotor advanced by `times` steps; only the position
    /// moves, and it wraps modulo 26.
    pub open spec fn stepped(self, times: int) -> RotorV {
        RotorV { position: (self.position + times * self.increment) % 26, ..self }
    }
}

/// Going backward after forward lands on the entry contact: the two
/// lookups are exact inverses of one another.
pub proof fn lemma_bwd_fwd(r: RotorV, p: int)
    requires
        r.wf(),
        0 <= p < 26,
    ensures
        0 <= r.fwd(p) < 26,
        r.bwd(r.fwd(p)) == p,
{
    lemma_inv_of_entry(r.wiring, p);
}

/// Going forward after backward gives the alphabet index back.
pub proof fn lemma_fwd_bwd(r: RotorV, p: int)
    requires
        r.wf(),
        0 <= p < 26,
    ensures
        0 <= r.bwd(p) < 26,
        r.fwd(r.bwd(p)) == p,
{
    lemma_inv_of(r.wiring, p);
}

/// A single step never leaves the position where it was, as long as
/// the increment is positive: the position moves by less than a full
/// turn.
pub proof fn lemma_step_changes_position(r: RotorV)
    requires
        r.wf(),
        r.increment > 0,
    ensures
        r.stepped(1).position != r.position,
{
    let s = r.position + r.increment;
    if s < 26 {
        lemma_small_mod(s as nat, 26);
    } else {
        assert(s % 26 == s - 26) by {
            lemma_small_mod((s - 26) as nat, 26);
            lemma_add_mod_noop(s - 26, 26, 26);
        }
    }
}

/// Stepping keeps a rotor well formed.
pub proof fn lemma_stepped_wf(r: RotorV, times: int)
    requires
        r.wf(),
    ensures
        r.stepped(times).wf(),
{
    lemma_mod_bound(r.position + times * r.increment, 26);
}

/// A single scrambler stage of the cipher.
#[derive(Debug)]
pub struct Rotor {
    wiring: Vec<char>,
    notch: char,
    position: usize,
    increment: usize,
}

impl View for Rotor {
    type V = RotorV;

    closed spec fn view(&self) -> RotorV {
        RotorV {
            wiring: self.wiring@,
            notch: self.notch,
            position: self.position as int,
            increment: self.increment as int,
        }
    }
}

impl Rotor {
    /// Build a rotor from its configuration. The wiring must be a
    /// permutation of the alphabet and the notch one of its letters;
    /// position and increment must lie in `[0, 25]`.
    pub fn new(wiring: Vec<char>, notch: char, position: usize, increment: usize) -> (r: Result<
        Rotor,
        CipherError,
    >)
        ensures
            match r {
                Ok(rotor) => {
                    &&& wf_table(wiring@)
                    &&& is_letter(notch)
                    &&& position <= 25
                    &&& increment <= 25
                    &&& rotor@ == (RotorV {
                        wiring: wiring@,
                        notch,
                        position: position as int,
                        increment: increment as int,
                    })
                    &&& rotor@.wf()
                },
                Err(e) => {
                    &&& !(wf_table(wiring@) && is_letter(notch) && position <= 25 && increment
                        <= 25)
                    &&& if wf_table(wiring@) && is_letter(notch) {
                        e == CipherError::ConfigurationError
                    } else {
                        e == CipherError::InvariantViolation
                    }
                },
            },
    {
        if !check_table(&wiring) {
            return Err(CipherError::InvariantViolation);
        }
        if !is_letter_char(notch) {
            return Err(CipherError::InvariantViolation);
        }
        if position > 25 || increment > 25 {
            return Err(CipherError::ConfigurationError);
        }
        Ok(Rotor { wiring, notch, position, increment })
    }

    /// Look the signal up through the wiring, fast side in.
    pub fn forward(&self, pos: usize) -> (r: usize)
        requires
            self@.wf(),
            pos < 26,
        ensures
            r < 26,
            r as int == self@.fwd(pos as int),
    {
        proof {
            lemma_char_pos(self.wiring@[pos as int]);
        }
        letter_index(self.wiring[pos])
    }

    /// Look the signal up through the wiring in the inverse direction.
    pub fn backward(&self, pos: usize) -> (r: usize)
        requires
            self@.wf(),
            pos < 26,
        ensures
            r < 26,
            r as int == self@.bwd(pos as int),
    {
        find_pos(&self.wiring, pos)
    }

    /// A rotor advanced by one step: the position moves by the
    /// increment, modulo 26; every other field is kept. With a
    /// positive increment the new position always differs from the
    /// old one.
    pub fn increment_rotor(&self) -> (r: Rotor)
        requires
            self@.wf(),
        ensures
            r@ == self@.stepped(1),
            r@.wf(),
            self@.increment > 0 ==> r@.position != self@.position,
    {
        let new_position = (self.position + self.increment) % 26;
        let r = Rotor {
            wiring: copy_table(&self.wiring),
            notch: self.notch,
            position: new_position,
            increment: self.increment,
        };
        proof {
            assert(r@ =~= self@.stepped(1));
            lemma_stepped_wf(self@, 1);
            if self@.increment > 0 {
                lemma_step_changes_position(self@);
            }
        }
        r
    }

    /// A rotor advanced by up to two steps in one stepping event.
    pub(crate) fn stepped_times(&self, times: usize) -> (r: Rotor)
        requires
            self@.wf(),
            times <= 2,
        ensures
            r@ == self@.stepped(times as int),
            r@.wf(),
    {
        if times == 0 {
            let r = self.duplicate();
            proof {
                lemma_small_mod(self.position as nat, 26);
                assert(r@ =~= self@.stepped(0));
            }
            r
        } else if times == 1 {
            self.increment_rotor()
        } else {
            let r = self.increment_rotor().increment_rotor();
            proof {
                let p = self@.position;
                let i = self@.increment;
                lemma_mod_bound(p + i, 26);
                lemma_add_mod_noop((p + i) % 26, i, 26);
                vstd::arithmetic::div_mod::lemma_mod_twice(p + i, 26);
                lemma_add_mod_noop(p + i, i, 26);
                lemma_small_mod(i as nat, 26);
                assert(((p + i) % 26 + i) % 26 == (p + 2 * i) % 26);
                assert(r@ =~= self@.stepped(2));
            }
            r
        }
    }

    /// An unchanged copy of the rotor.
    pub(crate) fn duplicate(&self) -> (r: Rotor)
        ensures
            r@ == self@,
    {
        let r = Rotor {
            wiring: copy_table(&self.wiring),
            notch: self.notch,
            position: self.position,
            increment: self.increment,
        };
        proof {
            assert(r@ =~= self@);
        }
        r
    }

    /// Whether the letter wired at the current position is the notch.
    pub fn reached_notch(&self) -> (b: bool)
        requires
            self@.wf(),
        ensures
            b == self@.at_notch(),
    {
        self.wiring[self.position] == self.notch
    }

    /// The current rotational position.
    pub fn position(&self) -> (p: usize)
        ensures
            p as int == self@.position,
    {
        self.position
    }
}

} // verus!
