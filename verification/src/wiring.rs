//! The fixed wiring of the rotors and of the reflector, and what makes a
//! 26-entry table a permutation of the alphabet.

use vstd::prelude::*;
use vstd::set_lib::*;

verus! {

/// Wiring of the five rotors. Entry `j` of a row is the letter that letter `j`
/// is wired to, both counted from 0 (`A`) to 25 (`Z`).
pub const ROTOR: [[u8; 26]; 5] = [
    // EKMFLGDQVZNTOWYHXUSPAIBRCJ
    [4, 10, 12, 5, 11, 6, 3, 16, 21, 25, 13, 19, 14, 22, 24, 7, 23, 20, 18, 15, 0, 8, 1, 17, 2, 9],
    // AJDKSIRUXBLHWTMCQGZNPYFVOE
    [0, 9, 3, 10, 18, 8, 17, 20, 23, 1, 11, 7, 22, 19, 12, 2, 16, 6, 25, 13, 15, 24, 5, 21, 14, 4],
    // BDFHJLCPRTXVZNYEIWGAKMUSQO
    [1, 3, 5, 7, 9, 11, 2, 15, 17, 19, 23, 21, 25, 13, 24, 4, 8, 22, 6, 0, 10, 12, 20, 18, 16, 14],
    // ESOVPZJAYQUIRHXLNFTGKDCMWB
    [4, 18, 14, 21, 15, 25, 9, 0, 24, 16, 20, 8, 17, 7, 23, 11, 13, 5, 19, 6, 10, 3, 2, 12, 22, 1],
    // VZBRGITYUPSDNHLXAWMJQOFECK
    [21, 25, 1, 17, 6, 8, 19, 24, 20, 15, 18, 3, 13, 7, 11, 23, 0, 22, 12, 9, 16, 14, 5, 4, 2, 10],
];

/// Wiring of the reflector: YRUHQSLDPXNGOKMIEBFZCWVJAT.
pub const REFLECTOR: [u8; 26] = [
    24, 17, 20, 7, 16, 18, 11, 3, 15, 23, 13, 6, 14, 10, 12, 8, 4, 1, 5, 25, 2, 22, 21, 9, 0, 19,
];

/// Notch position of each rotor of the pool: Q, E, V, J, Z.
pub const NOTCH: [u8; 5] = [16, 4, 21, 9, 25];

/// A table has 26 entries, each of them a letter.
pub open spec fn is_table(t: Seq<int>) -> bool {
    &&& t.len() == 26
    &&& forall|i: int| 0 <= i < 26 ==> 0 <= #[trigger] t[i] < 26
}

/// A permutation is a table that sends different letters to different letters.
pub open spec fn is_permutation(t: Seq<int>) -> bool {
    &&& is_table(t)
    &&& forall|i: int, j: int|
        0 <= i < 26 && 0 <= j < 26 && i != j ==> #[trigger] t[i] != #[trigger] t[j]
}

/// Some letter is sent to `y` by `t`.
pub open spec fn reaches(t: Seq<int>, y: int) -> bool {
    exists|x: int| 0 <= x < 26 && #[trigger] t[x] == y
}

/// The table that sends each letter back to where `t` took it from.
pub open spec fn inverse(t: Seq<int>) -> Seq<int> {
    Seq::new(26, |y: int| choose|x: int| 0 <= x < 26 && #[trigger] t[x] == y)
}

/// The letters of an array of 26 bytes, as mathematical integers.
pub open spec fn table_of(a: [u8; 26]) -> Seq<int> {
    Seq::new(26, |j: int| a[j] as int)
}

/// The wiring of rotor `r` of the pool.
pub open spec fn wiring(r: int) -> Seq<int> {
    table_of(ROTOR[r])
}

/// The wiring of the reflector.
pub open spec fn reflector() -> Seq<int> {
    table_of(REFLECTOR)
}

/// The notch position of rotor `r` of the pool.
pub open spec fn notch(r: int) -> int {
    NOTCH[r] as int
}

/// A permutation reaches every letter.
pub proof fn lemma_permutation_onto(t: Seq<int>)
    requires
        is_permutation(t),
    ensures
        forall|y: int| 0 <= y < 26 ==> #[trigger] reaches(t, y),
{
    let letters = set_int_range(0, 26);
    let f = |i: int| t[i];
    let image = letters.map(f);
    lemma_int_range(0, 26);
    assert(vstd::relations::injective_on(f, letters));
    lemma_map_size(letters, image, f);
    assert(image.subset_of(letters));
    lemma_subset_equality(image, letters);
    assert forall|y: int| 0 <= y < 26 implies #[trigger] reaches(t, y) by {
        assert(letters.contains(y));
        assert(image.contains(y));
        let x = choose|x: int| letters.contains(x) && y == f(x);
        assert(t[x] == y);
    }
}

/// The inverse of a permutation is a permutation, and undoes it on both
/// sides.
pub proof fn lemma_inverse(t: Seq<int>)
    requires
        is_permutation(t),
    ensures
        is_permutation(inverse(t)),
        forall|x: int| 0 <= x < 26 ==> inverse(t)[#[trigger] t[x]] == x,
        forall|y: int| 0 <= y < 26 ==> t[#[trigger] inverse(t)[y]] == y,
{
    lemma_permutation_onto(t);
    let u = inverse(t);
    assert forall|y: int| 0 <= y < 26 implies 0 <= #[trigger] u[y] < 26 && t[u[y]] == y by {
        assert(reaches(t, y));
    }
    assert forall|x: int| 0 <= x < 26 implies u[#[trigger] t[x]] == x by {
        assert(t[u[t[x]]] == t[x]);
    }
}

/// Every rotor of the pool is wired as a permutation.
pub proof fn lemma_wiring_permutation(r: int)
    requires
        0 <= r < 5,
    ensures
        is_permutation(wiring(r)),
{
}

/// The reflector is a permutation that undoes itself.
pub proof fn lemma_reflector_involution()
    ensures
        is_permutation(reflector()),
        forall|x: int| 0 <= x < 26 ==> reflector()[#[trigger] reflector()[x]] == x,
{
}

} // verus!
