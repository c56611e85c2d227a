//! What a machine is set up with, as mathematical values: the rotors chosen,
//! their ring offsets, the plugboard and the starting positions.

use vstd::prelude::*;
use crate::alphabet::{alpha, letter};
use crate::wiring::{inverse, is_permutation, lemma_inverse, lemma_wiring_permutation, wiring};

verus! {

/// The letters of a plug string in the order in which they stand, each as its
/// place in the alphabet. Bytes that are no letters are passed over.
pub open spec fn plug_letters(s: Seq<u8>) -> Seq<int>
    decreases s.len(),
{
    if s.len() == 0 {
        Seq::empty()
    } else if alpha(s.last()) {
        plug_letters(s.drop_last()).push(letter(s.last()))
    } else {
        plug_letters(s.drop_last())
    }
}

/// The first `n` entries of `letters` are there and no two of them are the
/// same.
pub open spec fn distinct_letters(letters: Seq<int>, n: nat) -> bool {
    &&& n <= letters.len()
    &&& forall|i: int, j: int| 0 <= i < j < n ==> letters[i] != letters[j]
}

/// The table that sends every letter to itself.
pub open spec fn identity() -> Seq<int> {
    Seq::new(26, |j: int| j)
}

/// The plugboard made of the first `n` pairs of `letters`: the identity,
/// overridden pair by pair so that the two letters of a pair are sent to
/// each other.
pub open spec fn plugboard(letters: Seq<int>, n: nat) -> Seq<int>
    decreases n,
{
    if n == 0 {
        identity()
    } else {
        let u = letters[2 * n - 2];
        let v = letters[2 * n - 1];
        plugboard(letters, (n - 1) as nat).update(u, v).update(v, u)
    }
}

/// A rotor's wiring turned by its ring offset: entry `j` is what the wiring
/// holds `ring` places before `j`.
pub open spec fn ringed(t: Seq<int>, ring: int) -> Seq<int> {
    Seq::new(26, |j: int| t[(j - ring + 26) % 26])
}

/// A table written as displacements: entry `j` is how far, counted upwards
/// round the alphabet, `t` moves letter `j`.
pub open spec fn displacement(t: Seq<int>) -> Seq<int> {
    Seq::new(26, |j: int| (26 + t[j] - j) % 26)
}

/// The setup of a machine.
pub struct Settings {
    /// Which rotor of the pool stands in the right, middle and left slot.
    pub order: Seq<int>,
    /// The ring offset of each slot.
    pub ring: Seq<int>,
    /// How many pairs of letters are plugged.
    pub n_plugs: nat,
    /// The plug string: its letters, taken two by two, are the pairs.
    pub plugs: Seq<u8>,
    /// The position in which each slot's rotor starts.
    pub start: Seq<int>,
}

impl Settings {
    /// The setup can be compiled: rotors come from the pool, offsets and
    /// positions are letters, and the plugged pairs share no letter.
    pub open spec fn valid(self) -> bool {
        &&& self.order.len() == 3
        &&& self.ring.len() == 3
        &&& self.start.len() == 3
        &&& forall|i: int| 0 <= i < 3 ==> 0 <= #[trigger] self.order[i] < 5
        &&& forall|i: int| 0 <= i < 3 ==> 0 <= #[trigger] self.ring[i] < 26
        &&& forall|i: int| 0 <= i < 3 ==> 0 <= #[trigger] self.start[i] < 26
        &&& self.n_plugs <= 13
        &&& distinct_letters(plug_letters(self.plugs), 2 * self.n_plugs)
    }

    /// The plugboard of this setup.
    pub open spec fn plug_table(self) -> Seq<int> {
        plugboard(plug_letters(self.plugs), self.n_plugs)
    }

    /// The table through which a signal passes the rotor in `slot` on its
    /// way to the reflector.
    pub open spec fn forward(self, slot: int) -> Seq<int> {
        ringed(wiring(self.order[slot]), self.ring[slot])
    }

    /// The table through which a signal passes the rotor in `slot` on its
    /// way back from the reflector.
    pub open spec fn backward(self, slot: int) -> Seq<int> {
        ringed(inverse(wiring(self.order[slot])), self.ring[slot])
    }
}

/// Every entry of the letters of a plug string is a letter.
pub proof fn lemma_plug_letters_range(s: Seq<u8>)
    ensures
        forall|i: int|
            0 <= i < plug_letters(s).len() ==> 0 <= #[trigger] plug_letters(s)[i] < 26,
    decreases s.len(),
{
    if s.len() > 0 {
        let before = plug_letters(s.drop_last());
        lemma_plug_letters_range(s.drop_last());
        assert forall|i: int| 0 <= i < plug_letters(s).len() implies 0 <= #[trigger] plug_letters(
            s,
        )[i] < 26 by {
            if i < before.len() {
                assert(plug_letters(s)[i] == before[i]);
            }
        }
    }
}

/// A plugboard whose pairs share no letter swaps the two letters of each
/// pair, leaves every other letter alone, and so undoes itself.
pub proof fn lemma_plugboard(letters: Seq<int>, n: nat)
    requires
        distinct_letters(letters, 2 * n),
        forall|i: int| 0 <= i < 2 * n ==> 0 <= #[trigger] letters[i] < 26,
    ensures
        is_permutation(plugboard(letters, n)),
        forall|x: int|
            0 <= x < 26 ==> plugboard(letters, n)[#[trigger] plugboard(letters, n)[x]] == x,
        forall|k: int|
            0 <= k < n ==> plugboard(letters, n)[#[trigger] letters[2 * k]] == letters[2 * k + 1],
        forall|k: int|
            0 <= k < n ==> plugboard(letters, n)[#[trigger] letters[2 * k + 1]] == letters[2 * k],
        forall|x: int|
            0 <= x < 26 && (forall|i: int| 0 <= i < 2 * n ==> letters[i] != x)
                ==> #[trigger] plugboard(letters, n)[x] == x,
    decreases n,
{
    let t = plugboard(letters, n);
    if n > 0 {
        let m = (n - 1) as nat;
        let before = plugboard(letters, m);
        let u = letters[2 * n - 2];
        let v = letters[2 * n - 1];
        lemma_plugboard(letters, m);
        assert(t == before.update(u, v).update(v, u));
        assert(before[u] == u);
        assert(before[v] == v);
        assert(u != v);
        assert forall|x: int| 0 <= x < 26 implies 0 <= #[trigger] t[x] < 26 && t[t[x]] == x by {
            if x != u && x != v {
                let y = before[x];
                assert(before[y] == x);
            }
        }
        assert forall|k: int| 0 <= k < n implies t[#[trigger] letters[2 * k]] == letters[2 * k
            + 1] by {
            if k < m {
                assert(before[letters[2 * k]] == letters[2 * k + 1]);
            }
        }
        assert forall|k: int| 0 <= k < n implies t[#[trigger] letters[2 * k + 1]] == letters[2
            * k] by {
            if k < m {
                assert(before[letters[2 * k + 1]] == letters[2 * k]);
            }
        }
    }
    assert forall|i: int, j: int| 0 <= i < 26 && 0 <= j < 26 && i != j implies #[trigger] t[i]
        != #[trigger] t[j] by {
        assert(t[t[i]] == i);
        assert(t[t[j]] == j);
    }
}

/// Turning a permutation by a ring offset gives a permutation.
pub proof fn lemma_ringed_permutation(t: Seq<int>, ring: int)
    requires
        is_permutation(t),
        0 <= ring < 26,
    ensures
        is_permutation(ringed(t, ring)),
{
    let u = ringed(t, ring);
    assert forall|i: int, j: int| 0 <= i < 26 && 0 <= j < 26 && i != j implies #[trigger] u[i]
        != #[trigger] u[j] by {
        let a = (i - ring + 26) % 26;
        let b = (j - ring + 26) % 26;
        assert(a != b);
        assert(t[a] != t[b]);
    }
    assert forall|i: int| 0 <= i < 26 implies 0 <= #[trigger] u[i] < 26 by {
        let a = (i - ring + 26) % 26;
        assert(0 <= t[a] < 26);
    }
}

/// Every table of a valid setup is a permutation.
pub proof fn lemma_tables(k: Settings)
    requires
        k.valid(),
    ensures
        is_permutation(k.plug_table()),
        forall|slot: int| 0 <= slot < 3 ==> is_permutation(#[trigger] k.forward(slot)),
        forall|slot: int| 0 <= slot < 3 ==> is_permutation(#[trigger] k.backward(slot)),
{
    lemma_plug_letters_range(k.plugs);
    lemma_plugboard(plug_letters(k.plugs), k.n_plugs);
    assert forall|slot: int| 0 <= slot < 3 implies is_permutation(#[trigger] k.forward(slot)) by {
        lemma_wiring_permutation(k.order[slot]);
        lemma_ringed_permutation(wiring(k.order[slot]), k.ring[slot]);
    }
    assert forall|slot: int| 0 <= slot < 3 implies is_permutation(
        #[trigger] k.backward(slot),
    ) by {
        lemma_wiring_permutation(k.order[slot]);
        lemma_inverse(wiring(k.order[slot]));
        lemma_ringed_permutation(inverse(wiring(k.order[slot])), k.ring[slot]);
    }
}

} // verus!
