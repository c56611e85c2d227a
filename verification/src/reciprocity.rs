//! What holds of the cipher: with the rotors held still it is a one-to-one
//! map of the alphabet, and where no ring offset is set it undoes itself, so
//! that a machine set up like the sender's turns the sender's text back.

use vstd::prelude::*;
use crate::alphabet::{alpha, letter, upper};
use crate::cipher::{
    advance, byte_for, inward, outward, pass, state_after_text, substitute, text_for, State,
};
use crate::settings::{
    lemma_plug_letters_range, lemma_plugboard, lemma_tables, plug_letters, Settings,
};
use crate::wiring::{
    inverse, is_permutation, lemma_inverse, lemma_permutation_onto, lemma_reflector_involution,
    lemma_wiring_permutation, reaches, reflector, wiring,
};

verus! {

/// A rotor whose table is a permutation sends different letters to
/// different letters, wherever it stands.
pub proof fn lemma_pass_one_to_one(t: Seq<int>, pos: int, a: int, b: int)
    requires
        is_permutation(t),
        0 <= pos < 26,
        0 <= a < 26,
        0 <= b < 26,
        a != b,
    ensures
        0 <= pass(t, pos, a) < 26,
        0 <= pass(t, pos, b) < 26,
        pass(t, pos, a) != pass(t, pos, b),
{
    let i = (a + pos) % 26;
    let j = (b + pos) % 26;
    assert(i != j);
    assert(0 <= t[i] < 26 && 0 <= t[j] < 26);
    assert(t[i] != t[j]);
}

/// A rotor at a position, entered through a table and then through a table
/// that undoes the first, gives back the letter that went in.
pub proof fn lemma_pass_undone(t: Seq<int>, u: Seq<int>, pos: int, c: int)
    requires
        is_permutation(t),
        forall|x: int| 0 <= x < 26 ==> u[#[trigger] t[x]] == x,
        0 <= pos < 26,
        0 <= c < 26,
    ensures
        0 <= pass(t, pos, c) < 26,
        pass(u, pos, pass(t, pos, c)) == c,
{
    let i = (c + pos) % 26;
    assert(0 <= t[i] < 26);
    assert(u[t[i]] == i);
    assert((pass(t, pos, c) + pos) % 26 == t[i]);
}

/// The table of what every letter is replaced by while the rotors stand as
/// `s` says.
pub open spec fn substitution(k: Settings, s: State) -> Seq<int> {
    Seq::new(26, |x: int| substitute(k, s, x))
}

/// With the rotors held still, the cipher is a one-to-one map of the alphabet
/// onto itself: every letter is replaced by a letter, different letters by
/// different letters, and every letter is what some letter is replaced by.
pub proof fn lemma_substitute_bijective(k: Settings, s: State)
    requires
        k.valid(),
        s.valid(),
    ensures
        is_permutation(substitution(k, s)),
        forall|y: int| 0 <= y < 26 ==> #[trigger] reaches(substitution(k, s), y),
{
    lemma_tables(k);
    lemma_reflector_involution();
    let plug = k.plug_table();
    let refl = reflector();
    assert forall|x: int, y: int| 0 <= x < 26 && 0 <= y < 26 && x != y implies 0
        <= #[trigger] substitute(k, s, x) < 26 && substitute(k, s, x) != #[trigger] substitute(
        k,
        s,
        y,
    ) by {
        let (p, q) = (plug[x], plug[y]);
        assert(p != q);
        lemma_pass_one_to_one(k.forward(0), s.right, p, q);
        let (p, q) = (pass(k.forward(0), s.right, p), pass(k.forward(0), s.right, q));
        lemma_pass_one_to_one(k.forward(1), s.middle, p, q);
        let (p, q) = (pass(k.forward(1), s.middle, p), pass(k.forward(1), s.middle, q));
        lemma_pass_one_to_one(k.forward(2), s.left, p, q);
        let (p, q) = (pass(k.forward(2), s.left, p), pass(k.forward(2), s.left, q));
        assert(refl[p] != refl[q]);
        let (p, q) = (refl[p], refl[q]);
        lemma_pass_one_to_one(k.backward(2), s.left, p, q);
        let (p, q) = (pass(k.backward(2), s.left, p), pass(k.backward(2), s.left, q));
        lemma_pass_one_to_one(k.backward(1), s.middle, p, q);
        let (p, q) = (pass(k.backward(1), s.middle, p), pass(k.backward(1), s.middle, q));
        lemma_pass_one_to_one(k.backward(0), s.right, p, q);
        let (p, q) = (pass(k.backward(0), s.right, p), pass(k.backward(0), s.right, q));
        assert(plug[p] != plug[q]);
        assert(0 <= plug[p] < 26);
    }
    let table = substitution(k, s);
    assert forall|x: int| 0 <= x < 26 implies 0 <= #[trigger] table[x] < 26 by {
        let y = if x == 0 { 1int } else { 0int };
        assert(substitute(k, s, x) != substitute(k, s, y));
    }
    assert(is_permutation(table));
    lemma_permutation_onto(table);
}

/// No ring offset is set in any slot.
pub open spec fn rings_at_zero(k: Settings) -> bool {
    forall|i: int| 0 <= i < 3 ==> #[trigger] k.ring[i] == 0
}

/// Where no ring offset is set, the two tables of a slot undo each other,
/// wherever the rotor stands.
pub proof fn lemma_slot_undone(k: Settings, slot: int, pos: int, c: int)
    requires
        k.valid(),
        rings_at_zero(k),
        0 <= slot < 3,
        0 <= pos < 26,
        0 <= c < 26,
    ensures
        0 <= pass(k.forward(slot), pos, c) < 26,
        0 <= pass(k.backward(slot), pos, c) < 26,
        pass(k.backward(slot), pos, pass(k.forward(slot), pos, c)) == c,
        pass(k.forward(slot), pos, pass(k.backward(slot), pos, c)) == c,
{
    let w = wiring(k.order[slot]);
    lemma_wiring_permutation(k.order[slot]);
    lemma_inverse(w);
    assert(k.ring[slot] == 0);
    assert(k.forward(slot) =~= w);
    assert(k.backward(slot) =~= inverse(w));
    lemma_pass_undone(w, inverse(w), pos, c);
    lemma_pass_undone(inverse(w), w, pos, c);
}

/// Where no ring offset is set, the way back undoes the way in, and the way
/// in undoes the way back.
pub proof fn lemma_way_undone(k: Settings, s: State, c: int)
    requires
        k.valid(),
        s.valid(),
        rings_at_zero(k),
        0 <= c < 26,
    ensures
        0 <= inward(k, s, c) < 26,
        0 <= outward(k, s, c) < 26,
        outward(k, s, inward(k, s, c)) == c,
        inward(k, s, outward(k, s, c)) == c,
{
    let c0 = pass(k.forward(0), s.right, c);
    lemma_slot_undone(k, 0, s.right, c);
    let c1 = pass(k.forward(1), s.middle, c0);
    lemma_slot_undone(k, 1, s.middle, c0);
    lemma_slot_undone(k, 2, s.left, c1);

    let d2 = pass(k.backward(2), s.left, c);
    lemma_slot_undone(k, 2, s.left, c);
    let d1 = pass(k.backward(1), s.middle, d2);
    lemma_slot_undone(k, 1, s.middle, d2);
    lemma_slot_undone(k, 0, s.right, d1);
}

/// Where no ring offset is set, the cipher undoes itself as long as the
/// rotors stand still: the letter that `x` is replaced by is replaced by `x`.
pub proof fn lemma_substitute_involution(k: Settings, s: State, x: int)
    requires
        k.valid(),
        s.valid(),
        rings_at_zero(k),
        0 <= x < 26,
    ensures
        0 <= substitute(k, s, x) < 26,
        substitute(k, s, substitute(k, s, x)) == x,
{
    lemma_reflector_involution();
    lemma_plug_letters_range(k.plugs);
    lemma_plugboard(plug_letters(k.plugs), k.n_plugs);
    let plug = k.plug_table();
    let refl = reflector();
    let p = plug[x];
    let c = inward(k, s, p);
    lemma_way_undone(k, s, p);
    let r = refl[c];
    let d = outward(k, s, r);
    lemma_way_undone(k, s, r);
    let y = plug[d];
    assert(y == substitute(k, s, x));
    assert(plug[y] == d);
    assert(inward(k, s, d) == r);
    assert(refl[r] == c);
    assert(outward(k, s, c) == p);
    assert(plug[p] == x);
}

/// A step leaves every rotor at a letter.
pub proof fn lemma_advance_valid(k: Settings, s: State)
    requires
        s.valid(),
    ensures
        advance(k, s).valid(),
{
}

/// Whatever text a machine is given, its rotors stand at letters afterwards.
pub proof fn lemma_state_after_text_valid(k: Settings, s: State, text: Seq<u8>)
    requires
        s.valid(),
    ensures
        state_after_text(k, s, text).valid(),
    decreases text.len(),
{
    if text.len() > 0 {
        lemma_state_after_text_valid(k, s, text.drop_last());
        lemma_advance_valid(k, state_after_text(k, s, text.drop_last()));
    }
}

/// What a machine gives for the beginning of a text is the beginning of what
/// it gives for the whole text.
pub proof fn lemma_text_for_prefix(k: Settings, s: State, text: Seq<u8>, n: int)
    requires
        0 <= n <= text.len(),
    ensures
        text_for(k, s, text.take(n)) == text_for(k, s, text).take(n),
{
    assert forall|i: int| 0 <= i < n implies text_for(k, s, text.take(n))[i] == text_for(
        k,
        s,
        text,
    )[i] by {
        assert(text.take(n).take(i) == text.take(i));
    }
    assert(text_for(k, s, text.take(n)) =~= text_for(k, s, text).take(n));
}

/// The rotors of a machine that is given the enciphered text move as those
/// of the machine that was given the plain text: a letter is enciphered as a
/// letter, and any other byte as itself.
pub proof fn lemma_same_steps(k: Settings, s: State, text: Seq<u8>)
    requires
        k.valid(),
        s.valid(),
    ensures
        state_after_text(k, s, text_for(k, s, text)) == state_after_text(k, s, text),
    decreases text.len(),
{
    if text.len() > 0 {
        let head = text.drop_last();
        let here = state_after_text(k, s, head);
        lemma_same_steps(k, s, head);
        lemma_text_for_prefix(k, s, text, text.len() - 1);
        lemma_state_after_text_valid(k, s, head);
        assert(text.take(text.len() - 1) == head);
        assert(text_for(k, s, text).drop_last() == text_for(k, s, head));
        let b = text_for(k, s, text).last();
        assert(b == byte_for(k, here, text.last()));
        if alpha(text.last()) {
            lemma_advance_valid(k, here);
            lemma_substitute_bijective(k, advance(k, here));
            assert(0 <= letter(text.last()) < 26);
            assert(0 <= substitution(k, advance(k, here))[letter(text.last())] < 26);
            assert(alpha(b));
        }
    }
}

/// Reciprocity. Where no ring offset is set, a machine that starts as the
/// sender's did turns the enciphered text back into the plain text, letters
/// in upper case: lower-case letters are enciphered as their upper-case
/// forms, so a text without lower-case letters comes back exactly.
pub proof fn lemma_round_trip(k: Settings, s: State, text: Seq<u8>)
    requires
        k.valid(),
        s.valid(),
        rings_at_zero(k),
    ensures
        text_for(k, s, text_for(k, s, text)) == text.map_values(|c: u8| upper(c)),
        (forall|i: int| 0 <= i < text.len() ==> upper(#[trigger] text[i]) == text[i])
            ==> text_for(k, s, text_for(k, s, text)) == text,
{
    let cipher = text_for(k, s, text);
    let plain = text_for(k, s, cipher);
    assert forall|i: int| 0 <= i < text.len() implies plain[i] == upper(text[i]) by {
        let here = state_after_text(k, s, text.take(i));
        lemma_text_for_prefix(k, s, text, i);
        lemma_same_steps(k, s, text.take(i));
        lemma_state_after_text_valid(k, s, text.take(i));
        assert(state_after_text(k, s, cipher.take(i)) == here);
        assert(cipher[i] == byte_for(k, here, text[i]));
        assert(plain[i] == byte_for(k, here, cipher[i]));
        if alpha(text[i]) {
            let there = advance(k, here);
            lemma_advance_valid(k, here);
            lemma_substitute_involution(k, there, letter(text[i]));
            let y = substitute(k, there, letter(text[i]));
            assert(cipher[i] == 0x41 + y);
            assert(alpha(cipher[i]));
            assert(letter(cipher[i]) == y);
        }
    }
    assert(plain =~= text.map_values(|c: u8| upper(c)));
    if forall|i: int| 0 <= i < text.len() ==> upper(#[trigger] text[i]) == text[i] {
        assert(plain =~= text);
    }
}

} // verus!
