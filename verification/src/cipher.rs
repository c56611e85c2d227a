//! The cipher as mathematics: how the rotors step, and what a letter
//! becomes on its way through plugboard, rotors and reflector.

use vstd::prelude::*;
use crate::alphabet::{alpha, letter};
use crate::settings::Settings;
use crate::wiring::{is_table, notch, reflector};
use crate::settings::displacement;

verus! {

/// The part of a machine that changes while it runs.
pub struct State {
    /// Position of the right rotor.
    pub right: int,
    /// Position of the middle rotor.
    pub middle: int,
    /// Position of the left rotor.
    pub left: int,
    /// The middle rotor stood at its notch after the last step.
    pub pending: bool,
}

impl State {
    /// Every position is a letter.
    pub open spec fn valid(self) -> bool {
        &&& 0 <= self.right < 26
        &&& 0 <= self.middle < 26
        &&& 0 <= self.left < 26
    }

    /// The position of the rotor in `slot`: 0 is the right one, 1 the
    /// middle one, 2 the left one.
    pub open spec fn position(self, slot: int) -> int {
        if slot == 0 {
            self.right
        } else if slot == 1 {
            self.middle
        } else {
            self.left
        }
    }
}

/// The state in which a machine with setup `k` starts.
pub open spec fn initial(k: Settings) -> State {
    State { right: k.start[0], middle: k.start[1], left: k.start[2], pending: false }
}

/// One step of the rotors, for given notch positions of the right and of
/// the middle rotor. The right rotor always moves on. The middle rotor moves
/// on once in any case, once more when the right rotor has reached its
/// notch, and once more when a double step is pending; in that last case the
/// left rotor moves on too. A double step is pending afterwards exactly when
/// the middle rotor has come to stand at its notch.
pub open spec fn step(right_notch: int, middle_notch: int, s: State) -> State {
    let right = (s.right + 1) % 26;
    let carry: int = if right == right_notch { 1 } else { 0 };
    let double: int = if s.pending { 1 } else { 0 };
    let middle = (s.middle + carry + 1 + double) % 26;
    let left = (s.left + double) % 26;
    State { right, middle, left, pending: middle == middle_notch }
}

/// One step of the rotors of a machine with setup `k`.
pub open spec fn advance(k: Settings, s: State) -> State {
    step(notch(k.order[0]), notch(k.order[1]), s)
}

/// What letter `c` becomes in a rotor with table `t` that stands at
/// position `pos`: the rotor is entered `pos` places further on, and left
/// `pos` places further back.
pub open spec fn pass(t: Seq<int>, pos: int, c: int) -> int {
    (t[(c + pos) % 26] - pos) % 26
}

/// The way in: through the right, the middle and the left rotor.
pub open spec fn inward(k: Settings, s: State, c: int) -> int {
    let c0 = pass(k.forward(0), s.right, c);
    let c1 = pass(k.forward(1), s.middle, c0);
    pass(k.forward(2), s.left, c1)
}

/// The way back: through the left, the middle and the right rotor.
pub open spec fn outward(k: Settings, s: State, c: int) -> int {
    let c2 = pass(k.backward(2), s.left, c);
    let c1 = pass(k.backward(1), s.middle, c2);
    pass(k.backward(0), s.right, c1)
}

/// What letter `x` is replaced by while the rotors stand as `s` says:
/// plugboard, the way in, reflector, the way back, plugboard.
pub open spec fn substitute(k: Settings, s: State, x: int) -> int {
    let p = k.plug_table()[x];
    let r = reflector()[inward(k, s, p)];
    k.plug_table()[outward(k, s, r)]
}

/// The state after byte `c` has been given to the machine: a letter makes
/// the rotors step, any other byte leaves them alone.
pub open spec fn state_after(k: Settings, s: State, c: u8) -> State {
    if alpha(c) {
        advance(k, s)
    } else {
        s
    }
}

/// The byte that the machine gives for byte `c`: a letter is replaced, after
/// the rotors have stepped, and comes out in upper case; any other byte
/// comes out as it went in.
pub open spec fn byte_for(k: Settings, s: State, c: u8) -> u8 {
    if alpha(c) {
        (0x41 + substitute(k, advance(k, s), letter(c))) as u8
    } else {
        c
    }
}

/// The state after a whole text has been given to the machine.
pub open spec fn state_after_text(k: Settings, s: State, text: Seq<u8>) -> State
    decreases text.len(),
{
    if text.len() == 0 {
        s
    } else {
        state_after(k, state_after_text(k, s, text.drop_last()), text.last())
    }
}

/// The text that the machine gives for a whole text: byte `i` is what the
/// machine gives for byte `i` of the input in the state that the bytes
/// before it have left.
pub open spec fn text_for(k: Settings, s: State, text: Seq<u8>) -> Seq<u8> {
    Seq::new(text.len(), |i: int| byte_for(k, state_after_text(k, s, text.take(i)), text[i]))
}

/// Adding the displacement found at the entered place takes a letter
/// through a rotor: a displacement table, read at `(c + pos) % 26` and added
/// to `c`, gives what the rotor's own table gives once its position is taken
/// into account.
pub proof fn lemma_pass_displacement(t: Seq<int>, pos: int, c: int)
    requires
        is_table(t),
        0 <= pos < 26,
        0 <= c < 26,
    ensures
        (c + displacement(t)[(c + pos) % 26]) % 26 == pass(t, pos, c),
        0 <= pass(t, pos, c) < 26,
{
    let idx = (c + pos) % 26;
    assert(0 <= t[idx] < 26);
}

} // verus!
