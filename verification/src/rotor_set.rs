//! The ordered rotor stack: stepping policy, signal traversal, and
//! the per-character encode pipeline.
//!
//! The rightmost rotor is the last element and steps fastest. One
//! stepping event precedes every character of a message — spaces
//! included — and is decided entirely on the pre-step notch state, so
//! a rotor that becomes newly at-notch by its own step cannot trigger
//! further advancement within the same event.

use vstd::prelude::*;
use vstd::arithmetic::div_mod::lemma_mod_add_multiples_vanish;
use crate::alphabet::char_to_pos;
use crate::alphabet::pos_to_char;
use crate::alphabet::is_message_char;
use crate::alphabet::lemma_pos_char;
use crate::alphabet::letter_index;
use crate::alphabet::letter_at;
use crate::alphabet::is_letter_char;
use crate::errors::CipherError;
use crate::permutation::wf_table;
use crate::permutation::inv_of;
use crate::permutation::find_pos;
use crate::permutation::check_table;
use crate::permutation::copy_table;
use crate::rotor::Rotor;
use crate::rotor::RotorV;
use crate::rotor::lemma_stepped_wf;
use vstd::string::StrSliceExecFns;

verus! {

/// The mathematical content of a rotor set: what the contracts speak
/// of.
#[verifier::ext_equal]
pub ghost struct RotorSetV {
    pub rotors: Seq<RotorV>,
    pub reflector: Seq<char>,
    pub repeat: int,
}

/// Every character of a message is a letter or a space.
pub open spec fn valid_msg(m: Seq<char>) -> bool {
    forall|i: int| 0 <= i < m.len() ==> is_message_char(#[trigger] m[i])
}

impl RotorSetV {
    /// The number of rotors in the stack.
    pub open spec fn n(self) -> int {
        self.rotors.len() as int
    }

    /// A usable rotor set: at least one rotor, every rotor well
    /// formed, the reflector a permutation of the alphabet.
    pub open spec fn wf(self) -> bool {
        &&& self.n() >= 1
        &&& forall|i: int| 0 <= i < self.n() ==> (#[trigger] self.rotors[i]).wf()
        &&& wf_table(self.reflector)
        &&& self.repeat >= 0
    }

    /// How many steps rotor `i` makes in one stepping event, read off
    /// the pre-step notch state: the rightmost rotor always makes
    /// exactly one; any other rotor makes one for its own notch, plus
    /// one more when the rotor to its right — itself not the
    /// rightmost — stands at its notch. A rotor at its notch thus
    /// advances both itself and its left neighbour: the double-step
    /// anomaly.
    pub open spec fn step_count(self, i: int) -> int {
        if i == self.n() - 1 {
            1
        } else {
            (if self.rotors[i].at_notch() {
                1int
            } else {
                0int
            }) + (if i + 1 < self.n() - 1 && self.rotors[i + 1].at_notch() {
                1int
            } else {
                0int
            })
        }
    }

    /// The rotor set after one stepping event.
    pub open spec fn rotated(self) -> RotorSetV {
        RotorSetV {
            rotors: Seq::new(
                self.rotors.len(),
                |i: int| self.rotors[i].stepped(self.step_count(i)),
            ),
            ..self
        }
    }

    /// One forward stage at rotor `i`: the wiring lookup, then — at
    /// every rotor but the leftmost — the correction for the rotation
    /// of this rotor against its left neighbour.
    pub open spec fn fwd_stage(self, i: int, x: int) -> int {
        let f = self.rotors[i].fwd(x);
        if i != 0 {
            (f - self.rotors[i].position + self.rotors[i - 1].position) % 26
        } else {
            f
        }
    }

    /// The signal after the forward stages of rotors `n-1` down to
    /// `i`.
    pub open spec fn fwd_through(self, i: int, x: int) -> int
        decreases self.n() - i,
    {
        if i >= self.n() {
            x
        } else {
            self.fwd_stage(i, self.fwd_through(i + 1, x))
        }
    }

    /// The full forward traversal, rightmost to leftmost.
    pub open spec fn traverse_forward_v(self, x: int) -> int {
        self.fwd_through(0, x)
    }

    /// One backward stage at rotor `i`: the inverse wiring lookup,
    /// then — at every rotor but the rightmost — the symmetric
    /// correction against the right neighbour.
    pub open spec fn bwd_stage(self, i: int, x: int) -> int {
        let b = self.rotors[i].bwd(x);
        if i < self.n() - 1 {
            (b - self.rotors[i].position + self.rotors[i + 1].position) % 26
        } else {
            b
        }
    }

    /// The signal after the backward stages of rotors `0` through
    /// `i-1`.
    pub open spec fn bwd_through(self, i: int, x: int) -> int
        decreases i,
    {
        if i <= 0 {
            x
        } else {
            self.bwd_stage(i - 1, self.bwd_through(i - 1, x))
        }
    }

    /// The full backward traversal, leftmost to rightmost.
    pub open spec fn traverse_backward_v(self, x: int) -> int {
        self.bwd_through(self.n(), x)
    }

    /// The reflector stage: the entry of the reflector table carrying
    /// the letter at index `x`.
    pub open spec fn reflect_v(self, x: int) -> int {
        inv_of(self.reflector, x)
    }

    /// `k` forward traversals in sequence.
    pub open spec fn iter_forward(self, k: nat, x: int) -> int
        decreases k,
    {
        if k == 0 {
            x
        } else {
            self.traverse_forward_v(self.iter_forward((k - 1) as nat, x))
        }
    }

    /// `k` backward traversals in sequence.
    pub open spec fn iter_backward(self, k: nat, x: int) -> int
        decreases k,
    {
        if k == 0 {
            x
        } else {
            self.traverse_backward_v(self.iter_backward((k - 1) as nat, x))
        }
    }

    /// The whole per-character pipeline on alphabet indices: entry
    /// offset by the rightmost rotor's position, `repeat` forward
    /// traversals, the reflector, `repeat` backward traversals, and
    /// the entry offset undone.
    pub open spec fn encode_pos(self, p: int) -> int {
        let q = self.rotors[self.n() - 1].position;
        let w = (p + q) % 26;
        let f = self.iter_forward(self.repeat as nat, w);
        let r = self.reflect_v(f);
        let b = self.iter_backward(self.repeat as nat, r);
        (b + 26 - q) % 26
    }

    /// One character: a space passes through unchanged, a letter runs
    /// through the pipeline.
    pub open spec fn encode_char_v(self, c: char) -> char {
        if c == ' ' {
            ' '
        } else {
            pos_to_char(self.encode_pos(char_to_pos(c)))
        }
    }

    /// A whole message: one stepping event strictly before each
    /// character's encoding, for spaces as for letters.
    pub open spec fn encode_msg(self, m: Seq<char>) -> Seq<char>
        decreases m.len(),
    {
        if m.len() == 0 {
            Seq::empty()
        } else {
            let st = self.rotated();
            seq![st.encode_char_v(m[0])] + st.encode_msg(m.drop_first())
        }
    }
}

/// One stepping event keeps the rotor set well formed, and touches
/// neither the reflector nor the repeat count.
pub proof fn lemma_rotated_wf(rs: RotorSetV)
    requires
        rs.wf(),
    ensures
        rs.rotated().wf(),
        rs.rotated().n() == rs.n(),
        rs.rotated().reflector == rs.reflector,
        rs.rotated().repeat == rs.repeat,
{
    assert forall|i: int| 0 <= i < rs.rotated().n() implies (#[trigger] rs.rotated().rotors[i]).wf() by {
        lemma_stepped_wf(rs.rotors[i], rs.step_count(i));
    }
}

/// An ordered stack of rotors with a reflector and a repeat count.
#[derive(Debug)]
pub struct RotorSet {
    rotors: Vec<Rotor>,
    reflector: Vec<char>,
    repeat: usize,
}

impl View for RotorSet {
    type V = RotorSetV;

    closed spec fn view(&self) -> RotorSetV {
        RotorSetV {
            rotors: self.rotors@.map(|i: int, r: Rotor| r@),
            reflector: self.reflector@,
            repeat: self.repeat as int,
        }
    }
}

impl RotorSet {
    /// Build a rotor set from validated rotors, a reflector table and
    /// a repeat count. The stack may not be empty and the reflector
    /// must be a permutation of the alphabet.
    pub fn new(rotors: Vec<Rotor>, reflector: Vec<char>, repeat: usize) -> (r: Result<
        RotorSet,
        CipherError,
    >)
        requires
            forall|i: int| 0 <= i < rotors@.len() ==> (#[trigger] rotors@[i])@.wf(),
        ensures
            match r {
                Ok(rs) => {
                    &&& rotors@.len() >= 1
                    &&& wf_table(reflector@)
                    &&& rs@ == (RotorSetV {
                        rotors: rotors@.map(|i: int, rot: Rotor| rot@),
                        reflector: reflector@,
                        repeat: repeat as int,
                    })
                    &&& rs@.wf()
                },
                Err(e) => {
                    &&& !(rotors@.len() >= 1 && wf_table(reflector@))
                    &&& if rotors@.len() == 0 {
                        e == CipherError::ConfigurationError
                    } else {
                        e == CipherError::InvariantViolation
                    }
                },
            },
    {
        if rotors.len() == 0 {
            return Err(CipherError::ConfigurationError);
        }
        if !check_table(&reflector) {
            return Err(CipherError::InvariantViolation);
        }
        let rs = RotorSet { rotors, reflector, repeat };
        proof {
            assert forall|i: int| 0 <= i < rs@.n() implies (#[trigger] rs@.rotors[i]).wf() by {
                assert(rs@.rotors[i] == rs.rotors@[i]@);
            }
        }
        Ok(rs)
    }

    /// One stepping event: every rotor advances by its step count of
    /// the pre-step notch state.
    pub fn rotate(&self) -> (r: RotorSet)
        requires
            self@.wf(),
        ensures
            r@ == self@.rotated(),
            r@.wf(),
    {
        let n = self.rotors.len();
        let mut notch: Vec<bool> = Vec::new();
        let mut i: usize = 0;
        while i < n
            invariant
                self@.wf(),
                n == self.rotors@.len(),
                i <= n,
                notch@.len() == i,
                forall|k: int| 0 <= k < i ==> notch@[k] == self@.rotors[k].at_notch(),
            decreases n - i,
        {
            proof {
                assert(self@.rotors[i as int] == self.rotors@[i as int]@);
            }
            notch.push(self.rotors[i].reached_notch());
            i += 1;
        }
        let mut out: Vec<Rotor> = Vec::new();
        let mut j: usize = 0;
        while j < n
            invariant
                self@.wf(),
                n == self.rotors@.len(),
                notch@.len() == n,
                forall|k: int| 0 <= k < n ==> notch@[k] == self@.rotors[k].at_notch(),
                j <= n,
                out@.len() == j,
                forall|k: int| 0 <= k < j ==> (#[trigger] out@[k])@ == self@.rotors[k].stepped(
                    self@.step_count(k),
                ),
            decreases n - j,
        {
            let steps: usize = if j == n - 1 {
                1
            } else {
                let own: usize = if notch[j] {
                    1
                } else {
                    0
                };
                let neigh: usize = if j + 1 < n - 1 && notch[j + 1] {
                    1
                } else {
                    0
                };
                own + neigh
            };
            proof {
                assert(self@.rotors[j as int] == self.rotors@[j as int]@);
                assert(steps as int == self@.step_count(j as int));
            }
            out.push(self.rotors[j].stepped_times(steps));
            j += 1;
        }
        let r = RotorSet {
            rotors: out,
            reflector: copy_table(&self.reflector),
            repeat: self.repeat,
        };
        proof {
            assert forall|k: int| 0 <= k < n implies r@.rotors[k] == self@.rotated().rotors[k] by {
                assert(r@.rotors[k] == r.rotors@[k]@);
            }
            assert(r@.rotors =~= self@.rotated().rotors);
            assert(r@ =~= self@.rotated());
            lemma_rotated_wf(self@);
        }
        r
    }

    /// The forward traversal: fold the signal through the rotors from
    /// rightmost to leftmost, correcting for the offset between each
    /// rotor and its left neighbour.
    pub fn traverse_forward(&self, pos: usize) -> (r: usize)
        requires
            self@.wf(),
            pos < 26,
        ensures
            r < 26,
            r as int == self@.traverse_forward_v(pos as int),
    {
        let n = self.rotors.len();
        let mut acc = pos;
        let mut i = n;
        while i > 0
            invariant
                self@.wf(),
                n == self.rotors@.len(),
                i <= n,
                acc < 26,
                acc as int == self@.fwd_through(i as int, pos as int),
            decreases i,
        {
            i -= 1;
            proof {
                assert(self@.rotors[i as int] == self.rotors@[i as int]@);
            }
            let f = self.rotors[i].forward(acc);
            if i != 0 {
                proof {
                    assert(self@.rotors[i - 1] == self.rotors@[i - 1]@);
                }
                let p = self.rotors[i].position();
                let left = self.rotors[i - 1].position();
                let corrected = (f + 26 - p + left) % 26;
                proof {
                    lemma_mod_add_multiples_vanish(f - p + left, 26);
                }
                acc = corrected;
            } else {
                acc = f;
            }
        }
        acc
    }

    /// The backward traversal: fold the signal through the rotors from
    /// leftmost to rightmost, with the symmetric correction against
    /// the right neighbour.
    pub fn traverse_backward(&self, pos: usize) -> (r: usize)
        requires
            self@.wf(),
            pos < 26,
        ensures
            r < 26,
            r as int == self@.traverse_backward_v(pos as int),
    {
        let n = self.rotors.len();
        let mut acc = pos;
        let mut i: usize = 0;
        while i < n
            invariant
                self@.wf(),
                n == self.rotors@.len(),
                i <= n,
                acc < 26,
                acc as int == self@.bwd_through(i as int, pos as int),
            decreases n - i,
        {
            proof {
                assert(self@.rotors[i as int] == self.rotors@[i as int]@);
            }
            let b = self.rotors[i].backward(acc);
            if i < n - 1 {
                proof {
                    assert(self@.rotors[i + 1] == self.rotors@[i + 1]@);
                }
                let p = self.rotors[i].position();
                let right = self.rotors[i + 1].position();
                let corrected = (b + 26 - p + right) % 26;
                proof {
                    lemma_mod_add_multiples_vanish(b - p + right, 26);
                }
                acc = corrected;
            } else {
                acc = b;
            }
            i += 1;
        }
        acc
    }

    /// The reflector stage.
    pub fn reflect(&self, pos: usize) -> (r: usize)
        requires
            self@.wf(),
            pos < 26,
        ensures
            r < 26,
            r as int == self@.reflect_v(pos as int),
    {
        find_pos(&self.reflector, pos)
    }

    /// Encode one character against the current rotor positions. A
    /// space passes through unchanged; a letter runs through the
    /// pipeline of entry offset, `repeat` forward traversals, the
    /// reflector, `repeat` backward traversals, and the offset undone.
    pub fn encode_char(&self, ch: char) -> (r: char)
        requires
            self@.wf(),
            is_message_char(ch),
        ensures
            r == self@.encode_char_v(ch),
            is_message_char(r),
            (r == ' ' <==> ch == ' '),
    {
        if ch == ' ' {
            return ' ';
        }
        let p = letter_index(ch);
        proof {
            assert(self@.rotors[self@.n() - 1] == self.rotors@[self.rotors@.len() - 1]@);
        }
        let q = self.rotors[self.rotors.len() - 1].position();
        let w = (p + q) % 26;
        let mut f = w;
        let mut k: usize = 0;
        while k < self.repeat
            invariant
                self@.wf(),
                f < 26,
                k <= self.repeat,
                f as int == self@.iter_forward(k as nat, w as int),
            decreases self.repeat - k,
        {
            f = self.traverse_forward(f);
            k += 1;
        }
        let rf = self.reflect(f);
        let mut b = rf;
        let mut k2: usize = 0;
        while k2 < self.repeat
            invariant
                self@.wf(),
                b < 26,
                k2 <= self.repeat,
                b as int == self@.iter_backward(k2 as nat, rf as int),
            decreases self.repeat - k2,
        {
            b = self.traverse_backward(b);
            k2 += 1;
        }
        let out = (b + 26 - q) % 26;
        proof {
            assert(out as int == self@.encode_pos(p as int));
            lemma_pos_char(out as int);
        }
        letter_at(out)
    }

    /// Encode a whole message: reject it unless every character is a
    /// letter or a space, then encode left to right, one stepping
    /// event strictly before each character. The rotor set itself is
    /// not changed; the stepping state lives in a working copy.
    pub fn encode(&self, message: &str) -> (r: Result<String, CipherError>)
        requires
            self@.wf(),
        ensures
            match r {
                Ok(s) => valid_msg(message@) && s@ == self@.encode_msg(message@),
                Err(e) => e == CipherError::InputError && !valid_msg(message@),
            },
    {
        let len = message.unicode_len();
        let mut i: usize = 0;
        while i < len
            invariant
                len == message@.len(),
                i <= len,
                forall|k: int| 0 <= k < i ==> is_message_char(#[trigger] message@[k]),
            decreases len - i,
        {
            let c = message.get_char(i);
            if !(is_letter_char(c) || c == ' ') {
                return Err(CipherError::InputError);
            }
            i += 1;
        }
        let mut out = String::new();
        let mut st = self.duplicate();
        let mut j: usize = 0;
        proof {
            assert(message@.skip(0) =~= message@);
        }
        while j < len
            invariant
                len == message@.len(),
                j <= len,
                valid_msg(message@),
                st@.wf(),
                self@.encode_msg(message@) == out@ + st@.encode_msg(message@.skip(j as int)),
            decreases len - j,
        {
            let ghost st_pre = st@;
            let ghost rest = message@.skip(j as int);
            let stepped = st.rotate();
            st = stepped;
            let c = message.get_char(j);
            let e = st.encode_char(c);
            push_char(&mut out, e);
            proof {
                assert(rest[0] == message@[j as int]);
                assert(rest.drop_first() =~= message@.skip(j as int + 1));
                assert(st_pre.encode_msg(rest) == seq![st@.encode_char_v(c)]
                    + st@.encode_msg(message@.skip(j as int + 1)));
                assert(out@ + st@.encode_msg(message@.skip(j as int + 1))
                    =~= self@.encode_msg(message@));
            }
            j += 1;
        }
        proof {
            assert(message@.skip(len as int) =~= Seq::<char>::empty());
            assert(out@ =~= self@.encode_msg(message@));
        }
        Ok(out)
    }

    /// How many rotors the stack holds.
    pub fn rotor_count(&self) -> (n: usize)
        ensures
            n as int == self@.n(),
    {
        self.rotors.len()
    }

    /// The current position of rotor `i`; rotor `0` is the leftmost,
    /// the last rotor the rightmost and fastest.
    pub fn rotor_position(&self, i: usize) -> (p: usize)
        requires
            i < self@.n(),
        ensures
            p as int == self@.rotors[i as int].position,
    {
        proof {
            assert(self@.rotors[i as int] == self.rotors@[i as int]@);
        }
        self.rotors[i].position()
    }

    /// An unchanged working copy of the rotor set.
    fn duplicate(&self) -> (r: RotorSet)
        ensures
            r@ == self@,
    {
        let mut rotors: Vec<Rotor> = Vec::new();
        let mut i: usize = 0;
        let n = self.rotors.len();
        while i < n
            invariant
                n == self.rotors@.len(),
                i <= n,
                rotors@.len() == i,
                forall|k: int| 0 <= k < i ==> (#[trigger] rotors@[k])@ == self.rotors@[k]@,
            decreases n - i,
        {
            rotors.push(self.rotors[i].duplicate());
            i += 1;
        }
        let r = RotorSet {
            rotors,
            reflector: copy_table(&self.reflector),
            repeat: self.repeat,
        };
        proof {
            assert forall|k: int| 0 <= k < n implies r@.rotors[k] == self@.rotors[k] by {
                assert(r@.rotors[k] == r.rotors@[k]@);
                assert(self@.rotors[k] == self.rotors@[k]@);
            }
            assert(r@.rotors =~= self@.rotors);
            assert(r@ =~= self@);
        }
        r
    }
}

/// Relies on `String::push`: appends exactly the one given character
/// at the end of the string.
#[verifier::external_body]
fn push_char(s: &mut String, c: char)
    ensures
        final(s)@ == old(s)@.push(c),
{
    s.push(c);
}

} // verus!
