//! The laws of the cipher, stated and proved over the mathematical
//! model: the backward traversal inverts the forward traversal, the
//! whole encoding is self-inverse under an involutive reflector, it
//! preserves length and space positions, it is deterministic, and one
//! stepping event shows the double-step anomaly.

use vstd::prelude::*;
use vstd::arithmetic::div_mod::lemma_mod_bound;
use vstd::arithmetic::div_mod::lemma_small_mod;
use vstd::arithmetic::div_mod::lemma_add_mod_noop_right;
use vstd::arithmetic::div_mod::lemma_mod_add_multiples_vanish;
use crate::alphabet::char_to_pos;
use crate::alphabet::is_message_char;
use crate::alphabet::lemma_pos_char;
use crate::alphabet::lemma_char_pos;
use crate::permutation::inv_of;
use crate::permutation::lemma_inv_of;
use crate::rotor::lemma_bwd_fwd;
use crate::rotor::lemma_fwd_bwd;
use crate::rotor::lemma_step_changes_position;
use crate::rotor_set::RotorSetV;
use crate::rotor_set::valid_msg;
use crate::rotor_set::lemma_rotated_wf;

verus! {

/// The reflector stage undoes itself: looking the result of a
/// reflection up again gives the original index back. Conventional
/// reflector tables have this; the stepping and traversal machinery
/// does not require it, but the self-inverse law does.
pub open spec fn reflector_involutive(t: Seq<char>) -> bool {
    forall|p: int| 0 <= p < 26 ==> inv_of(t, #[trigger] inv_of(t, p)) == p
}

proof fn lemma_fwd_stage_range(rs: RotorSetV, i: int, x: int)
    requires
        rs.wf(),
        0 <= i < rs.n(),
        0 <= x < 26,
    ensures
        0 <= rs.fwd_stage(i, x) < 26,
{
    lemma_bwd_fwd(rs.rotors[i], x);
    if i != 0 {
        lemma_mod_bound(
            rs.rotors[i].fwd(x) - rs.rotors[i].position + rs.rotors[i - 1].position,
            26,
        );
    }
}

proof fn lemma_fwd_through_range(rs: RotorSetV, i: int, x: int)
    requires
        rs.wf(),
        0 <= x < 26,
    ensures
        0 <= rs.fwd_through(i, x) < 26,
    decreases rs.n() - i,
{
    if i < rs.n() {
        lemma_fwd_through_range(rs, i + 1, x);
        if i >= 0 {
            lemma_fwd_stage_range(rs, i, rs.fwd_through(i + 1, x));
        }
    }
}

proof fn lemma_bwd_stage_range(rs: RotorSetV, i: int, x: int)
    requires
        rs.wf(),
        0 <= i < rs.n(),
        0 <= x < 26,
    ensures
        0 <= rs.bwd_stage(i, x) < 26,
{
    lemma_fwd_bwd(rs.rotors[i], x);
    if i < rs.n() - 1 {
        lemma_mod_bound(
            rs.rotors[i].bwd(x) - rs.rotors[i].position + rs.rotors[i + 1].position,
            26,
        );
    }
}

proof fn lemma_bwd_through_range(rs: RotorSetV, i: int, x: int)
    requires
        rs.wf(),
        0 <= x < 26,
        i <= rs.n(),
    ensures
        0 <= rs.bwd_through(i, x) < 26,
    decreases i,
{
    if i > 0 {
        lemma_bwd_through_range(rs, i - 1, x);
        lemma_bwd_stage_range(rs, i - 1, rs.bwd_through(i - 1, x));
    }
}

/// After the full forward traversal, the first `i` backward stages
/// land exactly on the raw wiring lookup of rotor `i` — the offset
/// corrections cancel stage by stage.
proof fn lemma_bwd_of_fwd_mid(rs: RotorSetV, x: int, i: int)
    requires
        rs.wf(),
        0 <= x < 26,
        1 <= i <= rs.n() - 1,
    ensures
        rs.bwd_through(i, rs.fwd_through(0, x)) == rs.rotors[i].fwd(rs.fwd_through(i + 1, x)),
        0 <= rs.rotors[i].fwd(rs.fwd_through(i + 1, x)) < 26,
    decreases i,
{
    let n = rs.n();
    let full = rs.fwd_through(0, x);
    let g_next = rs.fwd_through(i + 1, x);
    lemma_fwd_through_range(rs, i + 1, x);
    lemma_bwd_fwd(rs.rotors[i], g_next);
    let v = rs.rotors[i].fwd(g_next) - rs.rotors[i].position + rs.rotors[i - 1].position;
    // the forward stage at rotor i carried the correction toward
    // rotor i-1 ...
    assert(rs.fwd_through(i, x) == v % 26);
    lemma_mod_bound(v, 26);
    if i == 1 {
        // ... and the first backward stage carries it back
        lemma_fwd_through_range(rs, 1, x);
        lemma_bwd_fwd(rs.rotors[0], rs.fwd_through(1, x));
        assert(full == rs.rotors[0].fwd(rs.fwd_through(1, x)));
        assert(rs.bwd_through(0, full) == full);
        assert(rs.bwd_through(1, full) == rs.bwd_stage(0, full));
        assert(rs.rotors[0].bwd(full) == rs.fwd_through(1, x));
        assert(rs.bwd_stage(0, full) == (rs.fwd_through(1, x) - rs.rotors[0].position
            + rs.rotors[1].position) % 26);
        assert((v % 26 + (- rs.rotors[0].position + rs.rotors[1].position)) % 26 == (v + (
        - rs.rotors[0].position + rs.rotors[1].position)) % 26) by {
            lemma_add_mod_noop_right(
                -rs.rotors[0].position + rs.rotors[1].position,
                v,
                26,
            );
        }
        lemma_small_mod(rs.rotors[1].fwd(rs.fwd_through(2, x)) as nat, 26);
    } else {
        lemma_bwd_of_fwd_mid(rs, x, i - 1);
        let h_prev = rs.rotors[i - 1].fwd(rs.fwd_through(i, x));
        assert(rs.bwd_through(i - 1, full) == h_prev);
        lemma_fwd_through_range(rs, i, x);
        lemma_bwd_fwd(rs.rotors[i - 1], rs.fwd_through(i, x));
        assert(rs.bwd_through(i, full) == rs.bwd_stage(i - 1, h_prev));
        assert(rs.rotors[i - 1].bwd(h_prev) == rs.fwd_through(i, x));
        assert(rs.bwd_stage(i - 1, h_prev) == (rs.fwd_through(i, x) - rs.rotors[i - 1].position
            + rs.rotors[i].position) % 26);
        assert((v % 26 + (- rs.rotors[i - 1].position + rs.rotors[i].position)) % 26 == (v + (
        - rs.rotors[i - 1].position + rs.rotors[i].position)) % 26) by {
            lemma_add_mod_noop_right(
                -rs.rotors[i - 1].position + rs.rotors[i].position,
                v,
                26,
            );
        }
        lemma_small_mod(rs.rotors[i].fwd(g_next) as nat, 26);
    }
}

/// The backward traversal undoes the forward traversal.
proof fn lemma_backward_inverts_forward(rs: RotorSetV, x: int)
    requires
        rs.wf(),
        0 <= x < 26,
    ensures
        rs.traverse_backward_v(rs.traverse_forward_v(x)) == x,
{
    let n = rs.n();
    let full = rs.fwd_through(0, x);
    if n == 1 {
        lemma_bwd_fwd(rs.rotors[0], x);
        assert(rs.fwd_through(1, x) == x);
        assert(full == rs.fwd_stage(0, x));
        assert(full == rs.rotors[0].fwd(x));
        assert(rs.bwd_through(0, full) == full);
        assert(rs.bwd_through(1, full) == rs.bwd_stage(0, full));
    } else {
        lemma_bwd_of_fwd_mid(rs, x, n - 1);
        assert(rs.fwd_through(n, x) == x);
        assert(rs.bwd_through(n - 1, full) == rs.rotors[n - 1].fwd(x));
        lemma_bwd_fwd(rs.rotors[n - 1], x);
        assert(rs.bwd_through(n, full) == rs.bwd_stage(n - 1, rs.rotors[n - 1].fwd(x)));
    }
}

/// After the full backward traversal, the forward stages down to
/// rotor `i+1` land exactly on the raw inverse lookup of rotor `i`.
proof fn lemma_fwd_of_bwd_mid(rs: RotorSetV, x: int, i: int)
    requires
        rs.wf(),
        0 <= x < 26,
        0 <= i <= rs.n() - 2,
    ensures
        rs.fwd_through(i + 1, rs.bwd_through(rs.n(), x)) == rs.rotors[i].bwd(
            rs.bwd_through(i, x),
        ),
        0 <= rs.rotors[i].bwd(rs.bwd_through(i, x)) < 26,
    decreases rs.n() - i,
{
    let n = rs.n();
    let full = rs.bwd_through(n, x);
    let k_i = rs.bwd_through(i, x);
    lemma_bwd_through_range(rs, i, x);
    lemma_fwd_bwd(rs.rotors[i], k_i);
    let v = rs.rotors[i].bwd(k_i) - rs.rotors[i].position + rs.rotors[i + 1].position;
    // the backward stage at rotor i carried the correction toward
    // rotor i+1 ...
    assert(rs.bwd_through(i + 1, x) == rs.bwd_stage(i, k_i));
    assert(rs.bwd_through(i + 1, x) == v % 26);
    lemma_mod_bound(v, 26);
    if i == n - 2 {
        // ... and the first forward stage carries it back
        let k_last = rs.bwd_through(n - 1, x);
        lemma_bwd_through_range(rs, n - 1, x);
        lemma_fwd_bwd(rs.rotors[n - 1], k_last);
        assert(full == rs.bwd_stage(n - 1, k_last));
        assert(full == rs.rotors[n - 1].bwd(k_last));
        assert(rs.fwd_through(n, full) == full);
        assert(rs.fwd_through(n - 1, full) == rs.fwd_stage(n - 1, full));
        assert(rs.rotors[n - 1].fwd(full) == k_last);
        assert(rs.fwd_stage(n - 1, full) == (k_last - rs.rotors[n - 1].position + rs.rotors[n
            - 2].position) % 26);
        assert((v % 26 + (- rs.rotors[n - 1].position + rs.rotors[n - 2].position)) % 26 == (v
            + (- rs.rotors[n - 1].position + rs.rotors[n - 2].position)) % 26) by {
            lemma_add_mod_noop_right(
                -rs.rotors[n - 1].position + rs.rotors[n - 2].position,
                v,
                26,
            );
        }
        lemma_small_mod(rs.rotors[n - 2].bwd(rs.bwd_through(n - 2, x)) as nat, 26);
    } else {
        lemma_fwd_of_bwd_mid(rs, x, i + 1);
        let k_next = rs.bwd_through(i + 1, x);
        let h_next = rs.rotors[i + 1].bwd(k_next);
        assert(rs.fwd_through(i + 2, full) == h_next);
        lemma_bwd_through_range(rs, i + 1, x);
        lemma_fwd_bwd(rs.rotors[i + 1], k_next);
        assert(rs.fwd_through(i + 1, full) == rs.fwd_stage(i + 1, h_next));
        assert(rs.rotors[i + 1].fwd(h_next) == k_next);
        assert(rs.fwd_stage(i + 1, h_next) == (k_next - rs.rotors[i + 1].position
            + rs.rotors[i].position) % 26);
        assert((v % 26 + (- rs.rotors[i + 1].position + rs.rotors[i].position)) % 26 == (v + (
        - rs.rotors[i + 1].position + rs.rotors[i].position)) % 26) by {
            lemma_add_mod_noop_right(
                -rs.rotors[i + 1].position + rs.rotors[i].position,
                v,
                26,
            );
        }
        lemma_small_mod(rs.rotors[i].bwd(k_i) as nat, 26);
    }
}

/// The forward traversal undoes the backward traversal.
proof fn lemma_forward_inverts_backward(rs: RotorSetV, x: int)
    requires
        rs.wf(),
        0 <= x < 26,
    ensures
        rs.traverse_forward_v(rs.traverse_backward_v(x)) == x,
{
    let n = rs.n();
    let full = rs.bwd_through(n, x);
    if n == 1 {
        lemma_fwd_bwd(rs.rotors[0], x);
        assert(rs.bwd_through(0, x) == x);
        assert(rs.bwd_through(1, x) == rs.bwd_stage(0, x));
        assert(full == rs.rotors[0].bwd(x));
        assert(rs.fwd_through(1, full) == full);
        assert(rs.fwd_through(0, full) == rs.fwd_stage(0, full));
    } else {
        lemma_fwd_of_bwd_mid(rs, x, 0);
        assert(rs.fwd_through(1, full) == rs.rotors[0].bwd(x));
        lemma_fwd_bwd(rs.rotors[0], x);
        assert(rs.fwd_through(0, full) == rs.fwd_stage(0, rs.rotors[0].bwd(x)));
    }
}

proof fn lemma_iter_forward_range(rs: RotorSetV, k: nat, x: int)
    requires
        rs.wf(),
        0 <= x < 26,
    ensures
        0 <= rs.iter_forward(k, x) < 26,
    decreases k,
{
    if k > 0 {
        lemma_iter_forward_range(rs, (k - 1) as nat, x);
        lemma_fwd_through_range(rs, 0, rs.iter_forward((k - 1) as nat, x));
    }
}

proof fn lemma_iter_backward_range(rs: RotorSetV, k: nat, x: int)
    requires
        rs.wf(),
        0 <= x < 26,
    ensures
        0 <= rs.iter_backward(k, x) < 26,
    decreases k,
{
    if k > 0 {
        lemma_iter_backward_range(rs, (k - 1) as nat, x);
        lemma_bwd_through_range(rs, rs.n(), rs.iter_backward((k - 1) as nat, x));
    }
}

/// Repeating a traversal commutes with one more of the same
/// traversal, taken on either side.
proof fn lemma_iter_forward_shift(rs: RotorSetV, k: nat, x: int)
    ensures
        rs.iter_forward(k, rs.traverse_forward_v(x)) == rs.traverse_forward_v(
            rs.iter_forward(k, x),
        ),
    decreases k,
{
    if k > 0 {
        lemma_iter_forward_shift(rs, (k - 1) as nat, x);
    }
}

proof fn lemma_iter_backward_shift(rs: RotorSetV, k: nat, x: int)
    ensures
        rs.iter_backward(k, rs.traverse_backward_v(x)) == rs.traverse_backward_v(
            rs.iter_backward(k, x),
        ),
    decreases k,
{
    if k > 0 {
        lemma_iter_backward_shift(rs, (k - 1) as nat, x);
    }
}

/// `k` backward traversals undo `k` forward traversals.
proof fn lemma_iter_backward_of_forward(rs: RotorSetV, k: nat, x: int)
    requires
        rs.wf(),
        0 <= x < 26,
    ensures
        rs.iter_backward(k, rs.iter_forward(k, x)) == x,
    decreases k,
{
    if k > 0 {
        let fx = rs.traverse_forward_v(x);
        lemma_fwd_through_range(rs, 0, x);
        lemma_iter_forward_shift(rs, (k - 1) as nat, x);
        assert(rs.iter_forward(k, x) == rs.iter_forward((k - 1) as nat, fx));
        lemma_iter_backward_of_forward(rs, (k - 1) as nat, fx);
        lemma_backward_inverts_forward(rs, x);
    }
}

/// `k` forward traversals undo `k` backward traversals.
proof fn lemma_iter_forward_of_backward(rs: RotorSetV, k: nat, x: int)
    requires
        rs.wf(),
        0 <= x < 26,
    ensures
        rs.iter_forward(k, rs.iter_backward(k, x)) == x,
    decreases k,
{
    if k > 0 {
        let bx = rs.traverse_backward_v(x);
        lemma_bwd_through_range(rs, rs.n(), x);
        lemma_iter_backward_shift(rs, (k - 1) as nat, x);
        assert(rs.iter_backward(k, x) == rs.iter_backward((k - 1) as nat, bx));
        lemma_iter_forward_of_backward(rs, (k - 1) as nat, bx);
        lemma_forward_inverts_backward(rs, x);
    }
}

/// The per-index pipeline stays in range; it needs no hypothesis on
/// the reflector beyond well-formedness.
proof fn lemma_encode_pos_range(rs: RotorSetV, p: int)
    requires
        rs.wf(),
    ensures
        0 <= rs.encode_pos(p) < 26,
{
    let q = rs.rotors[rs.n() - 1].position;
    let b = rs.iter_backward(rs.repeat as nat, rs.reflect_v(rs.iter_forward(rs.repeat as nat, (p
        + q) % 26)));
    lemma_mod_bound(b + 26 - q, 26);
}

/// The per-index pipeline undoes itself when the reflector is an
/// involution.
proof fn lemma_encode_pos_involution(rs: RotorSetV, p: int)
    requires
        rs.wf(),
        reflector_involutive(rs.reflector),
        0 <= p < 26,
    ensures
        0 <= rs.encode_pos(p) < 26,
        rs.encode_pos(rs.encode_pos(p)) == p,
{
    let rep = rs.repeat as nat;
    let q = rs.rotors[rs.n() - 1].position;
    let w1 = (p + q) % 26;
    lemma_mod_bound(p + q, 26);
    let f1 = rs.iter_forward(rep, w1);
    lemma_iter_forward_range(rs, rep, w1);
    let r1 = rs.reflect_v(f1);
    lemma_inv_of(rs.reflector, f1);
    let b1 = rs.iter_backward(rep, r1);
    lemma_iter_backward_range(rs, rep, r1);
    let e1 = (b1 + 26 - q) % 26;
    lemma_mod_bound(b1 + 26 - q, 26);
    assert(rs.encode_pos(p) == e1);
    // re-applying the entry offset lands exactly on the backward
    // result of the first pass
    let w2 = (e1 + q) % 26;
    assert(w2 == b1) by {
        lemma_add_mod_noop_right(q, b1 + 26 - q, 26);
        lemma_mod_add_multiples_vanish(b1, 26);
        lemma_small_mod(b1 as nat, 26);
    }
    // the forward traversals then rewind the backward traversals,
    // the reflector undoes itself, and the backward traversals
    // rewind the forward ones
    let f2 = rs.iter_forward(rep, w2);
    lemma_iter_forward_of_backward(rs, rep, r1);
    assert(f2 == r1);
    let r2 = rs.reflect_v(f2);
    assert(r2 == f1);
    let b2 = rs.iter_backward(rep, r2);
    lemma_iter_backward_of_forward(rs, rep, w1);
    assert(b2 == w1);
    assert(rs.encode_pos(e1) == (w1 + 26 - q) % 26);
    assert((w1 + 26 - q) % 26 == p) by {
        lemma_add_mod_noop_right(26 - q, p + q, 26);
        lemma_mod_add_multiples_vanish(p, 26);
        lemma_small_mod(p as nat, 26);
    }
}

/// Encoding a character gives a character of the same kind — a space
/// for a space, a letter for a letter — and doing it twice against
/// the same rotor state gives the character back when the reflector
/// is an involution.
pub proof fn lemma_encode_char_involution(rs: RotorSetV, c: char)
    requires
        rs.wf(),
        reflector_involutive(rs.reflector),
        is_message_char(c),
    ensures
        is_message_char(rs.encode_char_v(c)),
        (rs.encode_char_v(c) == ' ' <==> c == ' '),
        rs.encode_char_v(rs.encode_char_v(c)) == c,
{
    if c != ' ' {
        lemma_char_pos(c);
        let p = char_to_pos(c);
        lemma_encode_pos_involution(rs, p);
        lemma_pos_char(rs.encode_pos(p));
    }
}

/// Self-inverse: when the reflector is an involution, encoding an
/// encoded message against the same initial rotor configuration
/// gives the message back. Both runs start from the same state, so
/// their stepping sequences coincide and every character is undone
/// in place.
pub proof fn lemma_encode_self_inverse(rs: RotorSetV, m: Seq<char>)
    requires
        rs.wf(),
        reflector_involutive(rs.reflector),
        valid_msg(m),
    ensures
        rs.encode_msg(rs.encode_msg(m)) == m,
    decreases m.len(),
{
    let enc = rs.encode_msg(m);
    if m.len() == 0 {
        assert(enc.len() == 0);
        assert(rs.encode_msg(enc) =~= m);
    } else {
        let st = rs.rotated();
        lemma_rotated_wf(rs);
        let rest = m.drop_first();
        let c0 = st.encode_char_v(m[0]);
        assert(enc == seq![c0] + st.encode_msg(rest));
        assert(enc[0] == c0);
        assert(enc.len() > 0);
        assert(enc.drop_first() =~= st.encode_msg(rest));
        assert(is_message_char(m[0]));
        lemma_encode_char_involution(st, m[0]);
        assert(valid_msg(rest)) by {
            assert(forall|i: int| 0 <= i < rest.len() ==> rest[i] == m[i + 1]);
        }
        lemma_encode_self_inverse(st, rest);
        assert(rs.encode_msg(enc) == seq![st.encode_char_v(enc[0])] + st.encode_msg(
            enc.drop_first(),
        ));
        assert(rs.encode_msg(enc) =~= m);
    }
}

/// Length preservation: the ciphertext has exactly one character per
/// message character.
pub proof fn lemma_encode_len(rs: RotorSetV, m: Seq<char>)
    ensures
        rs.encode_msg(m).len() == m.len(),
    decreases m.len(),
{
    if m.len() > 0 {
        lemma_encode_len(rs.rotated(), m.drop_first());
    }
}

/// Whitespace passthrough: the ciphertext carries a space exactly
/// where the message does, and a letter everywhere else; the
/// stepping event of a space still occurs, which the definition of
/// the encoding applies before looking at the character.
pub proof fn lemma_encode_spaces(rs: RotorSetV, m: Seq<char>)
    requires
        rs.wf(),
        valid_msg(m),
    ensures
        rs.encode_msg(m).len() == m.len(),
        valid_msg(rs.encode_msg(m)),
        forall|i: int| 0 <= i < m.len() ==> ((rs.encode_msg(m)[i] == ' ') <==> (m[i] == ' ')),
    decreases m.len(),
{
    let enc = rs.encode_msg(m);
    lemma_encode_len(rs, m);
    if m.len() > 0 {
        let st = rs.rotated();
        lemma_rotated_wf(rs);
        let rest = m.drop_first();
        let c0 = st.encode_char_v(m[0]);
        assert(is_message_char(m[0]));
        if m[0] != ' ' {
            lemma_char_pos(m[0]);
            lemma_encode_pos_range(st, char_to_pos(m[0]));
            lemma_pos_char(st.encode_pos(char_to_pos(m[0])));
        }
        assert(valid_msg(rest)) by {
            assert(forall|i: int| 0 <= i < rest.len() ==> rest[i] == m[i + 1]);
        }
        lemma_encode_spaces(st, rest);
        assert(enc == seq![c0] + st.encode_msg(rest));
        assert(forall|i: int| 1 <= i < m.len() ==> enc[i] == st.encode_msg(rest)[i - 1]);
        assert(forall|i: int| 1 <= i < m.len() ==> m[i] == rest[i - 1]);
        assert(forall|i: int| 0 <= i < enc.len() ==> is_message_char(#[trigger] enc[i]));
    }
}

/// Determinism: the ciphertext depends on nothing but the rotor
/// configuration and the message. Two rotor sets with the same
/// rotors, reflector and repeat count encode every message alike.
pub proof fn lemma_encode_deterministic(a: RotorSetV, b: RotorSetV, m: Seq<char>)
    requires
        a.rotors == b.rotors,
        a.reflector == b.reflector,
        a.repeat == b.repeat,
    ensures
        a.encode_msg(m) == b.encode_msg(m),
{
    assert(a =~= b);
}

/// The double-step anomaly: a rotor standing at its notch advances
/// both itself and its left neighbour in one stepping event, while a
/// rotor further left — itself away from any notch trigger — keeps
/// its position.
pub proof fn lemma_double_step(rs: RotorSetV, i: int)
    requires
        rs.wf(),
        1 <= i < rs.n() - 1,
        rs.rotors[i].at_notch(),
        !rs.rotors[i - 1].at_notch(),
        !(i + 1 < rs.n() - 1 && rs.rotors[i + 1].at_notch()),
        rs.rotors[i].increment > 0,
        rs.rotors[i - 1].increment > 0,
    ensures
        rs.step_count(i) == 1,
        rs.step_count(i - 1) == 1,
        rs.rotated().rotors[i].position != rs.rotors[i].position,
        rs.rotated().rotors[i - 1].position != rs.rotors[i - 1].position,
        forall|j: int|
            0 <= j < i - 1 && !(#[trigger] rs.rotors[j]).at_notch() && !(j + 1 < rs.n() - 1
                && rs.rotors[j + 1].at_notch()) ==> rs.rotated().rotors[j].position
                == rs.rotors[j].position,
{
    lemma_step_changes_position(rs.rotors[i]);
    lemma_step_changes_position(rs.rotors[i - 1]);
    assert forall|j: int|
        0 <= j < i - 1 && !(#[trigger] rs.rotors[j]).at_notch() && !(j + 1 < rs.n() - 1
            && rs.rotors[j + 1].at_notch()) implies rs.rotated().rotors[j].position
        == rs.rotors[j].position by {
        assert(rs.step_count(j) == 0);
        lemma_small_mod(rs.rotors[j].position as nat, 26);
    }
}

} // verus!
