//! Permutation tables over the alphabet.
//!
//! Rotor wirings and the reflector are tables of 26 letters in which
//! every letter appears exactly once. This module states what such a
//! table is, finds inverse entries, and validates candidate tables.

use vstd::prelude::*;
use crate::alphabet::char_to_pos;
use crate::alphabet::pos_to_char;
use crate::alphabet::is_letter;
use crate::alphabet::lemma_pos_char;
use crate::alphabet::lemma_char_pos;
use crate::alphabet::lemma_char_to_pos_injective;
use crate::alphabet::letter_at;
use crate::alphabet::letter_index;
use crate::alphabet::is_letter_char;

verus! {

/// Some entry of the table carries the letter with alphabet index `p`.
pub open spec fn covers(t: Seq<char>, p: int) -> bool {
    exists|i: int| 0 <= i < 26 && char_to_pos(#[trigger] t[i]) == p
}

/// A well-formed table: 26 letters, each letter of the alphabet
/// appearing exactly once.
pub open spec fn wf_table(t: Seq<char>) -> bool {
    &&& t.len() == 26
    &&& forall|i: int| 0 <= i < 26 ==> is_letter(#[trigger] t[i])
    &&& forall|i: int, j: int| 0 <= i < j < 26 ==> t[i] != t[j]
    &&& forall|p: int| 0 <= p < 26 ==> #[trigger] covers(t, p)
}

/// The index of the entry carrying the letter with alphabet index `p`:
/// the inverse of the permutation, seen on indices.
pub open spec fn inv_of(t: Seq<char>, p: int) -> int {
    choose|i: int| 0 <= i < 26 && char_to_pos(#[trigger] t[i]) == p
}

pub proof fn lemma_inv_of(t: Seq<char>, p: int)
    requires
        wf_table(t),
        0 <= p < 26,
    ensures
        0 <= inv_of(t, p) < 26,
        char_to_pos(t[inv_of(t, p)]) == p,
        forall|i: int| 0 <= i < 26 && char_to_pos(#[trigger] t[i]) == p ==> i == inv_of(t, p),
{
    assert(covers(t, p));
    assert(0 <= inv_of(t, p) < 26 && char_to_pos(t[inv_of(t, p)]) == p);
    let w = inv_of(t, p);
    assert forall|i: int| 0 <= i < 26 && char_to_pos(#[trigger] t[i]) == p implies i == w by {
        if i != w {
            assert(t[i] != t[w]);
            lemma_char_to_pos_injective(t[i], t[w]);
        }
    }
}

/// Looking a letter up by its own index gives its entry back: the
/// inverse lookup undoes the table.
pub proof fn lemma_inv_of_entry(t: Seq<char>, i: int)
    requires
        wf_table(t),
        0 <= i < 26,
    ensures
        0 <= char_to_pos(t[i]) < 26,
        inv_of(t, char_to_pos(t[i])) == i,
{
    lemma_char_pos(t[i]);
    lemma_inv_of(t, char_to_pos(t[i]));
}

/// Find the entry carrying the letter with alphabet index `p`.
pub fn find_pos(t: &Vec<char>, p: usize) -> (i: usize)
    requires
        wf_table(t@),
        p < 26,
    ensures
        i < 26,
        i as int == inv_of(t@, p as int),
{
    let target = letter_at(p);
    proof {
        lemma_pos_char(p as int);
        lemma_inv_of(t@, p as int);
    }
    let mut j: usize = 0;
    while j < 26
        invariant
            j <= 26,
            wf_table(t@),
            p < 26,
            target == pos_to_char(p as int),
            forall|k: int| 0 <= k < j ==> t@[k] != target,
        decreases 26 - j,
    {
        if t[j] == target {
            proof {
                lemma_pos_char(p as int);
                lemma_inv_of(t@, p as int);
                assert(char_to_pos(t@[j as int]) == p);
            }
            return j;
        }
        j += 1;
    }
    proof {
        let w = inv_of(t@, p as int);
        lemma_char_pos(t@[w]);
        assert(t@[w] == target);
        assert(false);
    }
    vstd::pervasive::unreached()
}

/// An unchanged copy of a table.
pub(crate) fn copy_table(t: &Vec<char>) -> (r: Vec<char>)
    ensures
        r@ == t@,
{
    let mut r: Vec<char> = Vec::new();
    let mut i: usize = 0;
    let n = t.len();
    while i < n
        invariant
            i <= n,
            n == t@.len(),
            r@ == t@.subrange(0, i as int),
        decreases n - i,
    {
        r.push(t[i]);
        proof {
            assert(r@ =~= t@.subrange(0, i + 1));
        }
        i += 1;
    }
    proof {
        assert(t@.subrange(0, n as int) =~= t@);
    }
    r
}

/// Check that a candidate table is a permutation of the alphabet.
pub fn check_table(t: &Vec<char>) -> (ok: bool)
    ensures
        ok == wf_table(t@),
{
    if t.len() != 26 {
        return false;
    }
    let mut seen: Vec<bool> = Vec::new();
    let mut q: usize = 0;
    while q < 26
        invariant
            seen@.len() == q,
            q <= 26,
            forall|k: int| 0 <= k < q ==> !(#[trigger] seen@[k]),
        decreases 26 - q,
    {
        seen.push(false);
        q += 1;
    }
    let mut i: usize = 0;
    while i < 26
        invariant
            t@.len() == 26,
            seen@.len() == 26,
            i <= 26,
            forall|k: int| 0 <= k < i ==> is_letter(#[trigger] t@[k]),
            forall|k: int, l: int| 0 <= k < l < i ==> t@[k] != t@[l],
            forall|p: int| 0 <= p < 26 ==> (#[trigger] seen@[p] <==> exists|k: int|
                0 <= k < i && char_to_pos(#[trigger] t@[k]) == p),
        decreases 26 - i,
    {
        let c = t[i];
        if !is_letter_char(c) {
            return false;
        }
        let p = letter_index(c);
        if seen[p] {
            proof {
                let k = choose|k: int| 0 <= k < i && char_to_pos(#[trigger] t@[k]) == p as int;
                lemma_char_to_pos_injective(t@[k], c);
                assert(t@[k] == t@[i as int]);
            }
            return false;
        }
        seen.set(p, true);
        i += 1;
    }
    let mut r: usize = 0;
    while r < 26
        invariant
            t@.len() == 26,
            seen@.len() == 26,
            r <= 26,
            forall|k: int| 0 <= k < 26 ==> is_letter(#[trigger] t@[k]),
            forall|k: int, l: int| 0 <= k < l < 26 ==> t@[k] != t@[l],
            forall|p: int| 0 <= p < 26 ==> (#[trigger] seen@[p] <==> exists|k: int|
                0 <= k < 26 && char_to_pos(#[trigger] t@[k]) == p),
            forall|p: int| 0 <= p < r ==> #[trigger] seen@[p],
        decreases 26 - r,
    {
        if !seen[r] {
            proof {
                assert(!covers(t@, r as int));
            }
            return false;
        }
        r += 1;
    }
    proof {
        assert forall|p: int| 0 <= p < 26 implies #[trigger] covers(t@, p) by {
            assert(seen@[p]);
        }
    }
    true
}

} // verus!
