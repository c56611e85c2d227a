//! The setup of a machine as a caller writes it down.

use vstd::prelude::*;
use crate::alphabet::{is_alpha, toupper};
use crate::settings::{plug_letters, Settings};

verus! {

/// Bytes as mathematical integers.
pub open spec fn ints(s: Seq<u8>) -> Seq<int> {
    Seq::new(s.len(), |i: int| s[i] as int)
}

/// The setup of a machine: rotor order, ring offsets, plugs and starting
/// positions. Slot 0 is the right rotor, slot 1 the middle one, slot 2 the
/// left one.
#[derive(Debug, Clone, PartialEq, Eq)]
pub struct Configuration {
    /// The rotor of the pool that stands in each slot, counted from 0.
    pub order: [usize; 3],
    /// The ring offset of each slot, from 0 to 25.
    pub ring: [u8; 3],
    /// The number of plugged pairs.
    pub n_plugs: usize,
    /// The plug string. Its letters, in either case and taken two by two,
    /// are the plugged pairs; bytes that are no letters are passed over.
    pub plugs: Vec<u8>,
    /// The starting position of each slot's rotor, from 0 to 25.
    pub start: [u8; 3],
}

impl View for Configuration {
    type V = Settings;

    open spec fn view(&self) -> Settings {
        Settings {
            order: Seq::new(3, |i: int| self.order[i] as int),
            ring: Seq::new(3, |i: int| self.ring[i] as int),
            n_plugs: self.n_plugs as nat,
            plugs: self.plugs@,
            start: Seq::new(3, |i: int| self.start[i] as int),
        }
    }
}

/// Collects the letters of a plug string, each as its place in the alphabet.
pub fn letters_of(plugs: &[u8]) -> (letters: Vec<u8>)
    ensures
        ints(letters@) == plug_letters(plugs@),
        forall|i: int| 0 <= i < letters@.len() ==> letters@[i] < 26,
{
    let mut letters: Vec<u8> = Vec::new();
    let mut j: usize = 0;
    while j < plugs.len()
        invariant
            j <= plugs.len(),
            ints(letters@) == plug_letters(plugs@.take(j as int)),
            forall|i: int| 0 <= i < letters@.len() ==> letters@[i] < 26,
        decreases plugs.len() - j,
    {
        proof {
            assert(plugs@.take(j + 1).drop_last() == plugs@.take(j as int));
        }
        if is_alpha(plugs[j]) {
            letters.push(toupper(plugs[j]) - 0x41);
        }
        j += 1;
    }
    proof {
        assert(plugs@.take(j as int) == plugs@);
    }
    letters
}

impl Configuration {
    /// Tells whether the setup can be compiled into a machine.
    pub fn is_valid(&self) -> (ok: bool)
        ensures
            ok == self@.valid(),
    {
        let mut i: usize = 0;
        while i < 3
            invariant
                i <= 3,
                forall|s: int| 0 <= s < i ==> 0 <= #[trigger] self@.order[s] < 5,
                forall|s: int| 0 <= s < i ==> 0 <= #[trigger] self@.ring[s] < 26,
                forall|s: int| 0 <= s < i ==> 0 <= #[trigger] self@.start[s] < 26,
            decreases 3 - i,
        {
            if self.order[i] >= 5 || self.ring[i] >= 26 || self.start[i] >= 26 {
                proof {
                    let s = i as int;
                    assert(!(self@.order[s] < 5 && self@.ring[s] < 26 && self@.start[s] < 26));
                }
                return false;
            }
            i += 1;
        }
        if self.n_plugs > 13 {
            return false;
        }
        let letters = letters_of(self.plugs.as_slice());
        let wanted: usize = 2 * self.n_plugs;
        if letters.len() < wanted {
            return false;
        }
        let ghost all = plug_letters(self.plugs@);
        let mut seen: [bool; 26] = [false; 26];
        let mut k: usize = 0;
        while k < wanted
            invariant
                k <= wanted <= letters@.len(),
                wanted == 2 * self.n_plugs,
                all == plug_letters(self.plugs@),
                ints(letters@) == all,
                forall|i: int| 0 <= i < letters@.len() ==> letters@[i] < 26,
                forall|x: int|
                    0 <= x < 26 ==> (#[trigger] seen[x] <==> exists|i: int|
                        0 <= i < k && all[i] == x),
                forall|i: int, j: int| 0 <= i < j < k ==> all[i] != all[j],
            decreases wanted - k,
        {
            let l: usize = letters[k] as usize;
            proof {
                assert(all[k as int] == letters@[k as int] as int);
            }
            if seen[l] {
                proof {
                    let i = choose|i: int| 0 <= i < k && all[i] == l;
                    assert(all[i] == all[k as int]);
                }
                return false;
            }
            seen[l] = true;
            k += 1;
        }
        true
    }
}

impl Default for Configuration {
    /// Rotors 0, 1, 2 from right to left, no ring offset, no plugs, every
    /// rotor starting at `A`.
    fn default() -> (c: Configuration)
        ensures
            c.order == [0usize, 1, 2],
            c.ring == [0u8, 0, 0],
            c.n_plugs == 0,
            c.plugs@.len() == 0,
            c.start == [0u8, 0, 0],
            c@.valid(),
    {
        Configuration {
            order: [0, 1, 2],
            ring: [0, 0, 0],
            n_plugs: 0,
            plugs: Vec::new(),
            start: [0, 0, 0],
        }
    }
}

} // verus!
