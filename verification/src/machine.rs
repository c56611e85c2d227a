//! The machine: compiled tables, rotor positions, and the operation that
//! enciphers the next byte.

use vstd::prelude::*;
use crate::alphabet::{is_alpha, toupper};
use crate::cipher::{
    advance, byte_for, initial, lemma_pass_displacement, pass, state_after, state_after_text, step,
    substitute, text_for, State,
};
use crate::config::{ints, letters_of, Configuration};
use crate::settings::{
    displacement, identity, lemma_ringed_permutation, lemma_tables, plugboard, ringed, Settings,
};
use crate::wiring::{
    inverse, is_permutation, is_table, lemma_inverse, lemma_reflector_involution,
    lemma_wiring_permutation, notch, reflector, table_of, wiring, NOTCH, REFLECTOR, ROTOR,
};

verus! {

/// Builds the table that undoes the permutation `t`.
fn inverse_table(t: &[u8; 26]) -> (u: [u8; 26])
    requires
        is_permutation(table_of(*t)),
    ensures
        table_of(u) == inverse(table_of(*t)),
{
    let mut u: [u8; 26] = [0; 26];
    let mut j: usize = 0;
    while j < 26
        invariant
            j <= 26,
            is_permutation(table_of(*t)),
            forall|x: int| 0 <= x < j ==> u[table_of(*t)[x]] == x,
        decreases 26 - j,
    {
        proof {
            assert(0 <= table_of(*t)[j as int] < 26);
        }
        u[t[j] as usize] = j as u8;
        j += 1;
    }
    proof {
        lemma_inverse(table_of(*t));
        assert forall|y: int| 0 <= y < 26 implies table_of(u)[y] == inverse(table_of(*t))[y] by {
            let x = inverse(table_of(*t))[y];
            assert(table_of(*t)[x] == y);
        }
        assert(table_of(u) =~= inverse(table_of(*t)));
    }
    u
}

/// Turns the table `t` by the ring offset `ring`.
fn ring_table(t: &[u8; 26], ring: u8) -> (u: [u8; 26])
    requires
        ring < 26,
    ensures
        table_of(u) == ringed(table_of(*t), ring as int),
{
    let mut u: [u8; 26] = [0; 26];
    let mut j: usize = 0;
    while j < 26
        invariant
            j <= 26,
            ring < 26,
            forall|x: int| 0 <= x < j ==> u[x] == t[(x - ring + 26) % 26],
        decreases 26 - j,
    {
        u[j] = t[(j + 26 - ring as usize) % 26];
        j += 1;
    }
    proof {
        assert(table_of(u) =~= ringed(table_of(*t), ring as int));
    }
    u
}

/// Rewrites the table `t` as displacements.
fn displacement_table(t: &[u8; 26]) -> (u: [u8; 26])
    requires
        is_table(table_of(*t)),
    ensures
        table_of(u) == displacement(table_of(*t)),
{
    let mut u: [u8; 26] = [0; 26];
    let mut j: usize = 0;
    while j < 26
        invariant
            j <= 26,
            is_table(table_of(*t)),
            forall|x: int| 0 <= x < j ==> u[x] == (26 + t[x] - x) % 26,
        decreases 26 - j,
    {
        proof {
            assert(0 <= table_of(*t)[j as int] < 26);
        }
        u[j] = (26 + t[j] - j as u8) % 26;
        j += 1;
    }
    proof {
        assert(table_of(u) =~= displacement(table_of(*t)));
    }
    u
}

/// Builds the plugboard of the first `n` pairs of `letters`.
fn plug_table(letters: &Vec<u8>, n: usize) -> (u: [u8; 26])
    requires
        2 * n <= letters@.len(),
        forall|i: int| 0 <= i < letters@.len() ==> letters@[i] < 26,
    ensures
        table_of(u) == plugboard(ints(letters@), n as nat),
{
    let mut u: [u8; 26] = [0; 26];
    let mut j: usize = 0;
    while j < 26
        invariant
            j <= 26,
            forall|x: int| 0 <= x < j ==> u[x] == x,
        decreases 26 - j,
    {
        u[j] = j as u8;
        j += 1;
    }
    proof {
        assert(table_of(u) =~= identity());
    }
    let mut k: usize = 0;
    while k < n
        invariant
            k <= n,
            2 * n <= letters.len(),
            forall|i: int| 0 <= i < letters@.len() ==> letters@[i] < 26,
            table_of(u) == plugboard(ints(letters@), k as nat),
        decreases n - k,
    {
        let a: u8 = letters[2 * k];
        let b: u8 = letters[2 * k + 1];
        let ghost before = table_of(u);
        u[a as usize] = b;
        u[b as usize] = a;
        k += 1;
        proof {
            assert(table_of(u) =~= before.update(a as int, b as int).update(b as int, a as int));
        }
    }
    u
}

/// Takes letter `c` through a rotor that stands at `pos`, by its
/// displacement table.
fn rotor_pass(table: &[u8; 26], pos: u8, c: u8, Ghost(t): Ghost<Seq<int>>) -> (out: u8)
    requires
        is_table(t),
        table_of(*table) == displacement(t),
        pos < 26,
        c < 26,
    ensures
        out == pass(t, pos as int, c as int),
        out < 26,
{
    let idx: u8 = (c + pos) % 26;
    proof {
        lemma_pass_displacement(t, pos as int, c as int);
        assert(table[idx as int] == displacement(t)[idx as int]);
    }
    (c + table[idx as usize]) % 26
}

/// Rotor positions and the pending double step, as a state of the cipher.
spec fn state_of(pos: [u8; 3], pending: bool) -> State {
    State { right: pos[0] as int, middle: pos[1] as int, left: pos[2] as int, pending }
}

/// Where the rotors stand after one step, and whether a double step is
/// pending then.
fn stepped(pos: [u8; 3], pending: bool, notches: [u8; 2]) -> (next: ([u8; 3], bool))
    requires
        pos[0] < 26,
        pos[1] < 26,
        pos[2] < 26,
    ensures
        state_of(next.0, next.1) == step(
            notches[0] as int,
            notches[1] as int,
            state_of(pos, pending),
        ),
{
    let right: u8 = (pos[0] + 1) % 26;
    let mut middle: u8 = pos[1];
    let mut left: u8 = pos[2];

    if right == notches[0] {
        middle = (middle + 1) % 26;
    }
    middle = (middle + 1) % 26;

    if pending {
        middle = (middle + 1) % 26;
        left = (left + 1) % 26;
    }
    ([right, middle, left], middle == notches[1])
}

/// A machine: its setup, the tables compiled from it, and the rotor
/// positions.
#[derive(Debug, Clone)]
pub struct Enigma {
    /// The setup that the tables are compiled from.
    config: Configuration,
    /// Rotor positions: right, middle, left.
    pos: [u8; 3],
    /// A double step is pending.
    dstep: bool,
    /// Notch positions of the right and of the middle rotor.
    step: [u8; 2],
    /// The plugboard, as a substitution table.
    plug: [u8; 26],
    /// Displacement tables of the three slots on the way in.
    fwd: [[u8; 26]; 3],
    /// The reflector, as a substitution table.
    refl: [u8; 26],
    /// Displacement tables of the three slots on the way back.
    bwd: [[u8; 26]; 3],
}

impl Enigma {
    /// The setup of the machine.
    pub closed spec fn settings(&self) -> Settings {
        self.config@
    }

    /// Where the rotors stand, and whether a double step is pending.
    pub closed spec fn state(&self) -> State {
        state_of(self.pos, self.dstep)
    }

    /// The plugboard table that the machine holds.
    pub closed spec fn plug_view(&self) -> Seq<int> {
        table_of(self.plug)
    }

    /// The reflector table that the machine holds.
    pub closed spec fn reflector_view(&self) -> Seq<int> {
        table_of(self.refl)
    }

    /// The table that the machine holds for `slot` on the way in.
    pub closed spec fn forward_view(&self, slot: int) -> Seq<int> {
        table_of(self.fwd[slot])
    }

    /// The table that the machine holds for `slot` on the way back.
    pub closed spec fn backward_view(&self, slot: int) -> Seq<int> {
        table_of(self.bwd[slot])
    }

    /// The notch positions that the machine holds for the right and for the
    /// middle rotor.
    pub closed spec fn notch_view(&self) -> (int, int) {
        (self.step[0] as int, self.step[1] as int)
    }

    /// The tables of the machine are those of its setup: the plugboard, where
    /// any plug is set, and the reflector as substitution tables, the rotors
    /// as displacement tables, and the notches of the right and of the middle
    /// rotor.
    pub open spec fn compiled(&self) -> bool {
        let k = self.settings();
        &&& k.n_plugs != 0 ==> self.plug_view() == k.plug_table()
        &&& self.reflector_view() == reflector()
        &&& forall|slot: int|
            0 <= slot < 3 ==> #[trigger] self.forward_view(slot) == displacement(k.forward(slot))
        &&& forall|slot: int|
            0 <= slot < 3 ==> #[trigger] self.backward_view(slot) == displacement(
                k.backward(slot),
            )
        &&& self.notch_view() == (notch(k.order[0]), notch(k.order[1]))
    }

    /// The machine is ready to encipher.
    pub open spec fn wf(&self) -> bool {
        &&& self.settings().valid()
        &&& self.state().valid()
        &&& self.compiled()
    }

    /// Builds the machine for a setup, with its rotors at their starting
    /// positions.
    pub fn new(config: Configuration) -> (m: Enigma)
        requires
            config@.valid(),
        ensures
            m.wf(),
            m.settings() == config@,
            m.state() == initial(config@),
    {
        let pos: [u8; 3] = [config.start[0], config.start[1], config.start[2]];
        proof {
            assert(config@.start[0] == pos[0] && config@.start[1] == pos[1] && config@.start[2]
                == pos[2]);
        }
        let mut m = Enigma {
            config,
            pos,
            dstep: false,
            step: [0; 2],
            plug: [0; 26],
            fwd: [[0; 26]; 3],
            refl: [0; 26],
            bwd: [[0; 26]; 3],
        };
        m.init();
        m
    }

    /// Compiles the tables of the machine from its setup. The setup and the
    /// rotor positions stay as they are.
    pub fn init(&mut self)
        requires
            old(self).settings().valid(),
            old(self).state().valid(),
        ensures
            final(self).wf(),
            final(self).settings() == old(self).settings(),
            final(self).state() == old(self).state(),
    {
        let ghost k = self.config@;
        proof {
            lemma_reflector_involution();
            assert(k.order[0] == self.config.order[0] && k.order[1] == self.config.order[1]);
        }
        // the reflector stands still: its table is used as it is
        self.refl = REFLECTOR;
        self.step[0] = NOTCH[self.config.order[0]];
        self.step[1] = NOTCH[self.config.order[1]];

        // the rotors: wiring and its inverse, turned by the ring offset,
        // then written as displacements
        let mut slot: usize = 0;
        while slot < 3
            invariant
                slot <= 3,
                k.valid(),
                self.config == old(self).config,
                k == self.config@,
                self.pos == old(self).pos,
                self.dstep == old(self).dstep,
                self.refl == REFLECTOR,
                self.step[0] == notch(k.order[0]),
                self.step[1] == notch(k.order[1]),
                forall|s: int|
                    0 <= s < slot ==> table_of(#[trigger] self.fwd[s]) == displacement(
                        k.forward(s),
                    ),
                forall|s: int|
                    0 <= s < slot ==> table_of(#[trigger] self.bwd[s]) == displacement(
                        k.backward(s),
                    ),
            decreases 3 - slot,
        {
            let r: usize = self.config.order[slot];
            let ring: u8 = self.config.ring[slot];
            proof {
                assert(r == k.order[slot as int]);
                assert(ring == k.ring[slot as int]);
                lemma_wiring_permutation(r as int);
                lemma_inverse(wiring(r as int));
                lemma_ringed_permutation(wiring(r as int), ring as int);
                lemma_ringed_permutation(inverse(wiring(r as int)), ring as int);
            }
            let w: [u8; 26] = ROTOR[r];
            let inv: [u8; 26] = inverse_table(&w);
            let w_ring: [u8; 26] = if ring != 0 { ring_table(&w, ring) } else { w };
            let inv_ring: [u8; 26] = if ring != 0 { ring_table(&inv, ring) } else { inv };
            proof {
                assert(table_of(w_ring) =~= ringed(table_of(w), ring as int));
                assert(table_of(inv_ring) =~= ringed(table_of(inv), ring as int));
            }
            self.fwd[slot] = displacement_table(&w_ring);
            self.bwd[slot] = displacement_table(&inv_ring);
            slot += 1;
        }

        // the plugboard, if any plug is set
        if self.config.n_plugs != 0 {
            let letters = letters_of(self.config.plugs.as_slice());
            self.plug = plug_table(&letters, self.config.n_plugs);
        }
    }

    /// Moves the rotors on by one step.
    pub fn advance_rotors(&mut self)
        requires
            old(self).wf(),
        ensures
            final(self).wf(),
            final(self).settings() == old(self).settings(),
            final(self).state() == advance(old(self).settings(), old(self).state()),
    {
        let (pos, dstep) = stepped(self.pos, self.dstep, self.step);
        self.pos = pos;
        self.dstep = dstep;
        proof {
            assert forall|slot: int| 0 <= slot < 3 implies #[trigger] self.forward_view(slot)
                == old(self).forward_view(slot) by {}
            assert forall|slot: int| 0 <= slot < 3 implies #[trigger] self.backward_view(slot)
                == old(self).backward_view(slot) by {}
        }
    }

    /// What the plugboard sends letter `x` to. Where no plug is set, every
    /// letter is sent to itself and no table is looked at.
    pub fn plug(&self, x: u8) -> (y: u8)
        requires
            self.wf(),
            x < 26,
        ensures
            y == self.settings().plug_table()[x as int],
            y < 26,
    {
        proof {
            lemma_tables(self.config@);
            assert(0 <= self.config@.plug_table()[x as int] < 26);
        }
        if self.config.n_plugs != 0 {
            self.plug[x as usize]
        } else {
            x
        }
    }

    /// Replaces one letter while the rotors stand where they are: plugboard,
    /// rotors from right to left, reflector, rotors from left to right,
    /// plugboard. Letters are given and returned as their place in the
    /// alphabet.
    pub fn substitute(&self, x: u8) -> (y: u8)
        requires
            self.wf(),
            x < 26,
        ensures
            y == substitute(self.settings(), self.state(), x as int),
            y < 26,
    {
        let ghost k = self.config@;
        let ghost s = self.state();
        proof {
            lemma_tables(k);
            lemma_reflector_involution();
        }
        let mut c: u8 = self.plug(x);
        let ghost p = c as int;

        // the rotors from right to left
        let mut j: usize = 0;
        let ghost mut seen: Seq<int> = seq![p];
        while j < 3
            invariant
                j <= 3,
                s.valid(),
                s == self.state(),
                forall|i: int| 0 <= i < 3 ==> is_table(#[trigger] k.forward(i)),
                forall|i: int|
                    0 <= i < 3 ==> #[trigger] self.forward_view(i) == displacement(k.forward(i)),
                c < 26,
                seen.len() == j + 1,
                seen[0] == p,
                seen[j as int] == c,
                forall|i: int|
                    0 <= i < j ==> seen[i + 1] == pass(
                        k.forward(i),
                        s.position(i),
                        #[trigger] seen[i],
                    ),
            decreases 3 - j,
        {
            assert(self.forward_view(j as int) == displacement(k.forward(j as int)));
            c = rotor_pass(&self.fwd[j], self.pos[j], c, Ghost(k.forward(j as int)));
            proof {
                seen = seen.push(c as int);
            }
            j += 1;
        }

        // the reflector
        c = self.refl[c as usize] % 26;
        let ghost r = c as int;

        // the rotors from left to right
        let mut j: usize = 3;
        let ghost mut back: Seq<int> = seq![r];
        while j > 0
            invariant
                j <= 3,
                s.valid(),
                s == self.state(),
                forall|i: int| 0 <= i < 3 ==> is_table(#[trigger] k.backward(i)),
                forall|i: int|
                    0 <= i < 3 ==> #[trigger] self.backward_view(i) == displacement(
                        k.backward(i),
                    ),
                c < 26,
                back.len() == 4 - j,
                back[0] == r,
                back[3 - j] == c,
                forall|i: int|
                    0 <= i < 3 - j ==> back[i + 1] == pass(
                        k.backward(2 - i),
                        s.position(2 - i),
                        #[trigger] back[i],
                    ),
            decreases j,
        {
            j -= 1;
            assert(self.backward_view(j as int) == displacement(k.backward(j as int)));
            c = rotor_pass(&self.bwd[j], self.pos[j], c, Ghost(k.backward(j as int)));
            proof {
                back = back.push(c as int);
            }
        }
        proof {
            assert(seen[1] == pass(k.forward(0), s.right, seen[0]));
            assert(seen[2] == pass(k.forward(1), s.middle, seen[1]));
            assert(seen[3] == pass(k.forward(2), s.left, seen[2]));
            assert(r == reflector()[seen[3]]);
            assert(back[1] == pass(k.backward(2), s.left, back[0]));
            assert(back[2] == pass(k.backward(1), s.middle, back[1]));
            assert(back[3] == pass(k.backward(0), s.right, back[2]));
        }
        self.plug(c)
    }

    /// Enciphers the next byte. A letter makes the rotors step and is then
    /// replaced; it comes out in upper case. Any other byte comes out as it
    /// went in and leaves the rotors where they are.
    pub fn encipher(&mut self, c: u8) -> (out: u8)
        requires
            old(self).wf(),
        ensures
            final(self).wf(),
            final(self).settings() == old(self).settings(),
            final(self).state() == state_after(old(self).settings(), old(self).state(), c),
            out == byte_for(old(self).settings(), old(self).state(), c),
    {
        if is_alpha(c) {
            self.advance_rotors();
            let x: u8 = toupper(c) - 0x41;
            let y: u8 = self.substitute(x);
            y + 0x41
        } else {
            c
        }
    }

    /// Enciphers a whole text, byte by byte.
    pub fn encipher_text(&mut self, text: &[u8]) -> (out: Vec<u8>)
        requires
            old(self).wf(),
        ensures
            final(self).wf(),
            final(self).settings() == old(self).settings(),
            final(self).state() == state_after_text(
                old(self).settings(),
                old(self).state(),
                text@,
            ),
            out@ == text_for(old(self).settings(), old(self).state(), text@),
    {
        let ghost k = self.settings();
        let ghost s = self.state();
        let mut out: Vec<u8> = Vec::new();
        let mut i: usize = 0;
        while i < text.len()
            invariant
                i <= text.len(),
                self.wf(),
                self.settings() == k,
                self.state() == state_after_text(k, s, text@.take(i as int)),
                out@.len() == i,
                forall|j: int|
                    0 <= j < i ==> out@[j] == byte_for(
                        k,
                        state_after_text(k, s, #[trigger] text@.take(j)),
                        text@[j],
                    ),
            decreases text.len() - i,
        {
            proof {
                assert(text@.take(i + 1).drop_last() == text@.take(i as int));
            }
            let b: u8 = self.encipher(text[i]);
            out.push(b);
            i += 1;
        }
        proof {
            assert(text@.take(i as int) == text@);
            assert(out@ =~= text_for(k, s, text@));
        }
        out
    }

    /// Where the rotors stand: right, middle, left.
    pub fn positions(&self) -> (p: [u8; 3])
        ensures
            p[0] == self.state().right,
            p[1] == self.state().middle,
            p[2] == self.state().left,
    {
        self.pos
    }

    /// Whether the next step is a double step.
    pub fn double_step_pending(&self) -> (b: bool)
        ensures
            b == self.state().pending,
    {
        self.dstep
    }
}

} // verus!
