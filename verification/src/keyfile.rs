//! The key file: a setup written as lines of text.
//!
//! ```text
//! line 1   three rotors of the pool, each a number from 1 to 5: right, middle, left
//! line 2   three ring settings, each a letter or a number from 1 to 26
//! line 3   the number of plugged pairs, from 0 to 13
//! line 4   the plug string; this line is there only if pairs are plugged
//! line 5   three starting positions, each a letter: right, middle, left
//! ```
//!
//! A line ends at a line feed. The fields of a line are separated by blanks,
//! and what follows the fields that a line is read for is not looked at.
//! A ring setting may be written either way: the letter `A` and the number 1
//! both stand for no offset, `Z` and 26 for an offset of 25. In the plug
//! string only letters count; they are taken two by two.

use vstd::prelude::*;
use crate::alphabet::{alpha, is_alpha, letter, toupper};
use crate::config::Configuration;
use crate::settings::Settings;

verus! {

/// Why a key file is turned down.
#[derive(Debug, Clone, Copy, PartialEq, Eq, Structural)]
pub enum KeyfileError {
    /// A line holds fewer fields than it is read for.
    TooFewTokens,
    /// A field is not written as it has to be, or the plugged pairs share a
    /// letter or are fewer than announced.
    Malformed,
}

/// The kinds of field in a key file.
#[derive(Debug, Clone, Copy, PartialEq, Eq, Structural)]
pub enum Field {
    /// A rotor of the pool.
    Order,
    /// A ring setting.
    Ring,
    /// The number of plugged pairs.
    Count,
    /// A starting position.
    Start,
}

/// A blank: space, tab, line feed, vertical tab, form feed or carriage
/// return.
pub open spec fn blank(c: u8) -> bool {
    c == 0x20 || (0x09 <= c && c <= 0x0d)
}

/// Where the line that begins at `from` ends: at the next line feed, or at
/// the end of the text.
pub open spec fn line_end(text: Seq<u8>, from: int) -> int
    decreases text.len() - from,
{
    if from >= text.len() || text[from] == 0x0a {
        from
    } else {
        line_end(text, from + 1)
    }
}

/// Where the line after the one that begins at `from` begins.
pub open spec fn next_line(text: Seq<u8>, from: int) -> int {
    let end = line_end(text, from);
    if end < text.len() {
        end + 1
    } else {
        end
    }
}

/// The first place from `from` on, and before `to`, that holds no blank; `to`
/// if there is none.
pub open spec fn skip_blanks(text: Seq<u8>, from: int, to: int) -> int
    decreases to - from,
{
    if from >= to || !blank(text[from]) {
        from
    } else {
        skip_blanks(text, from + 1, to)
    }
}

/// The first place from `from` on, and before `to`, that holds a blank; `to`
/// if there is none.
pub open spec fn skip_token(text: Seq<u8>, from: int, to: int) -> int
    decreases to - from,
{
    if from >= to || blank(text[from]) {
        from
    } else {
        skip_token(text, from + 1, to)
    }
}

/// Where the next field after `from` ends, in a line that ends at `to`.
pub open spec fn after_token(text: Seq<u8>, from: int, to: int) -> int {
    skip_token(text, skip_blanks(text, from, to), to)
}

/// The next field after `from`, in a line that ends at `to`. It is empty if
/// only blanks are left.
pub open spec fn token_at(text: Seq<u8>, from: int, to: int) -> Seq<u8> {
    text.subrange(skip_blanks(text, from, to), after_token(text, from, to))
}

/// The field is a number: one decimal digit or more.
pub open spec fn is_number(t: Seq<u8>) -> bool {
    &&& t.len() > 0
    &&& forall|i: int| 0 <= i < t.len() ==> 0x30 <= #[trigger] t[i] <= 0x39
}

/// The value of a number.
pub open spec fn decimal(t: Seq<u8>) -> nat
    decreases t.len(),
{
    if t.len() == 0 {
        0
    } else {
        (10 * decimal(t.drop_last()) + (t.last() - 0x30)) as nat
    }
}

/// The field is a single letter.
pub open spec fn is_letter(t: Seq<u8>) -> bool {
    t.len() == 1 && alpha(t[0])
}

/// What a field of a given kind stands for, if it is written as that kind
/// has to be. A rotor is a number from 1 to 5 and stands for the rotor
/// counted from 0. A ring setting is a letter, which stands for its place in
/// the alphabet, or a number from 1 to 26, which stands for one less. The
/// number of pairs is a number up to 13. A starting position is a letter.
pub open spec fn field_value(kind: Field, t: Seq<u8>) -> Option<int> {
    match kind {
        Field::Order => if is_number(t) && 1 <= decimal(t) <= 5 {
            Some(decimal(t) - 1)
        } else {
            None
        },
        Field::Ring => if is_letter(t) {
            Some(letter(t[0]))
        } else if is_number(t) && 1 <= decimal(t) <= 26 {
            Some(decimal(t) - 1)
        } else {
            None
        },
        Field::Count => if is_number(t) && decimal(t) <= 13 {
            Some(decimal(t) as int)
        } else {
            None
        },
        Field::Start => if is_letter(t) {
            Some(letter(t[0]))
        } else {
            None
        },
    }
}

/// The first three fields of the line from `from` to `to`, read as fields of
/// one kind. Too few fields are reported before a field that is badly
/// written.
pub open spec fn triple(text: Seq<u8>, from: int, to: int, kind: Field) -> Result<
    Seq<int>,
    KeyfileError,
> {
    let second = after_token(text, from, to);
    let third = after_token(text, second, to);
    let a = field_value(kind, token_at(text, from, to));
    let b = field_value(kind, token_at(text, second, to));
    let c = field_value(kind, token_at(text, third, to));
    if token_at(text, third, to).len() == 0 {
        Err(KeyfileError::TooFewTokens)
    } else if a is None || b is None || c is None {
        Err(KeyfileError::Malformed)
    } else {
        Ok(seq![a->0, b->0, c->0])
    }
}

/// The first field of the line from `from` to `to`, read as the number of
/// plugged pairs.
pub open spec fn count(text: Seq<u8>, from: int, to: int) -> Result<int, KeyfileError> {
    let n = field_value(Field::Count, token_at(text, from, to));
    if token_at(text, from, to).len() == 0 {
        Err(KeyfileError::TooFewTokens)
    } else if n is None {
        Err(KeyfileError::Malformed)
    } else {
        Ok(n->0)
    }
}

/// What a key file says: the setup that it holds, or why it is turned down.
/// The lines are read in their order and the first fault found is the one
/// reported; whether the plugged pairs are as many as announced and share no
/// letter is looked at last.
pub open spec fn keyfile(text: Seq<u8>) -> Result<Settings, KeyfileError> {
    let line1 = 0int;
    let line2 = next_line(text, line1);
    let line3 = next_line(text, line2);
    let line4 = next_line(text, line3);
    match triple(text, line1, line_end(text, line1), Field::Order) {
        Err(e) => Err(e),
        Ok(order) => match triple(text, line2, line_end(text, line2), Field::Ring) {
            Err(e) => Err(e),
            Ok(ring) => match count(text, line3, line_end(text, line3)) {
                Err(e) => Err(e),
                Ok(n) => {
                    let plugs = if n > 0 {
                        text.subrange(line4, line_end(text, line4))
                    } else {
                        Seq::empty()
                    };
                    let line5 = if n > 0 {
                        next_line(text, line4)
                    } else {
                        line4
                    };
                    match triple(text, line5, line_end(text, line5), Field::Start) {
                        Err(e) => Err(e),
                        Ok(start) => {
                            let k = Settings { order, ring, n_plugs: n as nat, plugs, start };
                            if k.valid() {
                                Ok(k)
                            } else {
                                Err(KeyfileError::Malformed)
                            }
                        },
                    }
                },
            },
        },
    }
}

/// The value of a number is at least the value of each of its beginnings.
proof fn lemma_decimal_grows(t: Seq<u8>, n: int)
    requires
        is_number(t),
        0 <= n <= t.len(),
    ensures
        decimal(t.take(n)) <= decimal(t),
    decreases t.len(),
{
    if n == t.len() {
        assert(t.take(n) == t);
    } else if t.len() == 1 {
        assert(t.take(n).len() == 0);
    } else {
        assert(t.drop_last().take(n) == t.take(n));
        lemma_decimal_grows(t.drop_last(), n);
    }
}

/// Tells whether a byte is a blank.
fn is_blank(c: u8) -> (b: bool)
    ensures
        b == blank(c),
{
    c == 0x20 || (0x09 <= c && c <= 0x0d)
}

/// Finds the end of the line that begins at `from`.
fn find_line_end(text: &[u8], from: usize) -> (end: usize)
    requires
        from <= text@.len(),
    ensures
        end == line_end(text@, from as int),
        from <= end <= text@.len(),
{
    let mut i: usize = from;
    while i < text.len() && text[i] != 0x0a
        invariant
            from <= i <= text@.len(),
            line_end(text@, from as int) == line_end(text@, i as int),
        decreases text@.len() - i,
    {
        i += 1;
    }
    i
}

/// Finds the beginning of the line after the one that begins at `from`.
fn find_next_line(text: &[u8], from: usize) -> (next: usize)
    requires
        from <= text@.len(),
    ensures
        next == next_line(text@, from as int),
        from <= next <= text@.len(),
{
    let end: usize = find_line_end(text, from);
    if end < text.len() {
        end + 1
    } else {
        end
    }
}

/// Finds the first place from `from` on that holds no blank.
fn find_token(text: &[u8], from: usize, to: usize) -> (at: usize)
    requires
        from <= to <= text@.len(),
    ensures
        at == skip_blanks(text@, from as int, to as int),
        from <= at <= to,
{
    let mut i: usize = from;
    while i < to && is_blank(text[i])
        invariant
            from <= i <= to <= text@.len(),
            skip_blanks(text@, from as int, to as int) == skip_blanks(text@, i as int, to as int),
        decreases to - i,
    {
        i += 1;
    }
    i
}

/// Finds the first place from `from` on that holds a blank.
fn find_blank(text: &[u8], from: usize, to: usize) -> (at: usize)
    requires
        from <= to <= text@.len(),
    ensures
        at == skip_token(text@, from as int, to as int),
        from <= at <= to,
{
    let mut i: usize = from;
    while i < to && !is_blank(text[i])
        invariant
            from <= i <= to <= text@.len(),
            skip_token(text@, from as int, to as int) == skip_token(text@, i as int, to as int),
        decreases to - i,
    {
        i += 1;
    }
    i
}

/// Reads the bytes from `from` to `to` as a number that is at most `max`.
fn read_number(text: &[u8], from: usize, to: usize, max: u32) -> (r: Option<u32>)
    requires
        from <= to <= text@.len(),
        max <= 1000,
    ensures
        r == (if is_number(text@.subrange(from as int, to as int)) && decimal(
            text@.subrange(from as int, to as int),
        ) <= max {
            Some(decimal(text@.subrange(from as int, to as int)) as u32)
        } else {
            None
        }),
{
    let ghost t = text@.subrange(from as int, to as int);
    if from == to {
        return None;
    }
    let mut value: u32 = 0;
    let mut i: usize = from;
    while i < to
        invariant
            from <= i <= to <= text@.len(),
            t == text@.subrange(from as int, to as int),
            max <= 1000,
            forall|j: int| 0 <= j < i - from ==> 0x30 <= #[trigger] t[j] <= 0x39,
            value == decimal(t.take(i - from)),
            value <= max,
        decreases to - i,
    {
        let d: u8 = text[i];
        if d < 0x30 || d > 0x39 {
            proof {
                assert(t[i - from] == d);
            }
            return None;
        }
        proof {
            assert(t.take(i - from + 1).drop_last() == t.take(i - from));
            assert(t.take(i - from + 1).last() == d);
        }
        value = 10 * value + (d - 0x30) as u32;
        i += 1;
        if value > max {
            proof {
                if is_number(t) {
                    lemma_decimal_grows(t, i - from);
                }
            }
            return None;
        }
    }
    proof {
        assert(t.take(i - from) == t);
    }
    Some(value)
}

/// Reads the bytes from `from` to `to` as a field of the given kind.
fn read_field(kind: Field, text: &[u8], from: usize, to: usize) -> (r: Option<u8>)
    requires
        from <= to <= text@.len(),
    ensures
        match r {
            Some(v) => field_value(kind, text@.subrange(from as int, to as int)) == Some(v as int),
            None => field_value(kind, text@.subrange(from as int, to as int)) is None,
        },
        kind != Field::Count && r is Some ==> r->0 < 26,
        kind == Field::Order && r is Some ==> r->0 < 5,
        kind == Field::Count && r is Some ==> r->0 <= 13,
{
    let ghost t = text@.subrange(from as int, to as int);
    let single: bool = to - from == 1 && is_alpha(text[from]);
    proof {
        if to - from == 1 {
            assert(t[0] == text@[from as int]);
        }
        assert(single == is_letter(t));
    }
    match kind {
        Field::Order => match read_number(text, from, to, 5) {
            Some(v) => if v >= 1 {
                Some((v - 1) as u8)
            } else {
                None
            },
            None => None,
        },
        Field::Ring => if single {
            Some(toupper(text[from]) - 0x41)
        } else {
            match read_number(text, from, to, 26) {
                Some(v) => if v >= 1 {
                    Some((v - 1) as u8)
                } else {
                    None
                },
                None => None,
            }
        },
        Field::Count => match read_number(text, from, to, 13) {
            Some(v) => Some(v as u8),
            None => None,
        },
        Field::Start => if single {
            Some(toupper(text[from]) - 0x41)
        } else {
            None
        },
    }
}

/// Reads the first three fields of the line from `from` to `to`.
fn read_triple(text: &[u8], from: usize, to: usize, kind: Field) -> (r: Result<
    [u8; 3],
    KeyfileError,
>)
    requires
        from <= to <= text@.len(),
        kind != Field::Count,
    ensures
        match r {
            Ok(v) => triple(text@, from as int, to as int, kind) == Ok::<Seq<int>, KeyfileError>(
                seq![v[0] as int, v[1] as int, v[2] as int],
            ) && v[0] < 26 && v[1] < 26 && v[2] < 26 && (kind == Field::Order ==> v[0] < 5 && v[1]
                < 5 && v[2] < 5),
            Err(e) => triple(text@, from as int, to as int, kind) == Err::<Seq<int>, KeyfileError>(
                e,
            ),
        },
{
    let a0: usize = find_token(text, from, to);
    let b0: usize = find_blank(text, a0, to);
    let a1: usize = find_token(text, b0, to);
    let b1: usize = find_blank(text, a1, to);
    let a2: usize = find_token(text, b1, to);
    let b2: usize = find_blank(text, a2, to);
    if a2 == b2 {
        return Err(KeyfileError::TooFewTokens);
    }
    let first: Option<u8> = read_field(kind, text, a0, b0);
    let second: Option<u8> = read_field(kind, text, a1, b1);
    let third: Option<u8> = read_field(kind, text, a2, b2);
    match (first, second, third) {
        (Some(x), Some(y), Some(z)) => Ok([x, y, z]),
        _ => Err(KeyfileError::Malformed),
    }
}

/// Reads the number of plugged pairs from the line from `from` to `to`.
fn read_count(text: &[u8], from: usize, to: usize) -> (r: Result<u8, KeyfileError>)
    requires
        from <= to <= text@.len(),
    ensures
        match r {
            Ok(n) => count(text@, from as int, to as int) == Ok::<int, KeyfileError>(n as int)
                && n <= 13,
            Err(e) => count(text@, from as int, to as int) == Err::<int, KeyfileError>(e),
        },
{
    let a: usize = find_token(text, from, to);
    let b: usize = find_blank(text, a, to);
    if a == b {
        return Err(KeyfileError::TooFewTokens);
    }
    match read_field(Field::Count, text, a, b) {
        Some(n) => Ok(n),
        None => Err(KeyfileError::Malformed),
    }
}

/// Copies the bytes from `from` to `to`.
fn copy_bytes(text: &[u8], from: usize, to: usize) -> (v: Vec<u8>)
    requires
        from <= to <= text@.len(),
    ensures
        v@ == text@.subrange(from as int, to as int),
{
    let mut v: Vec<u8> = Vec::new();
    let mut i: usize = from;
    while i < to
        invariant
            from <= i <= to <= text@.len(),
            v@ == text@.subrange(from as int, i as int),
        decreases to - i,
    {
        v.push(text[i]);
        i += 1;
        proof {
            assert(v@ =~= text@.subrange(from as int, i as int));
        }
    }
    v
}

/// Reads a key file. The setup comes back if the file holds one that can be
/// compiled; otherwise the first fault found is reported.
pub fn read_keyfile(text: &[u8]) -> (r: Result<Configuration, KeyfileError>)
    ensures
        match r {
            Ok(c) => keyfile(text@) == Ok::<Settings, KeyfileError>(c@) && c@.valid(),
            Err(e) => keyfile(text@) == Err::<Settings, KeyfileError>(e),
        },
{
    let line1: usize = 0;
    let line2: usize = find_next_line(text, line1);
    let line3: usize = find_next_line(text, line2);
    let line4: usize = find_next_line(text, line3);

    let order: [u8; 3] = match read_triple(text, line1, find_line_end(text, line1), Field::Order) {
        Ok(v) => v,
        Err(e) => {
            return Err(e);
        },
    };
    let ring: [u8; 3] = match read_triple(text, line2, find_line_end(text, line2), Field::Ring) {
        Ok(v) => v,
        Err(e) => {
            return Err(e);
        },
    };
    let n: u8 = match read_count(text, line3, find_line_end(text, line3)) {
        Ok(n) => n,
        Err(e) => {
            return Err(e);
        },
    };
    let plugs: Vec<u8> = if n > 0 {
        copy_bytes(text, line4, find_line_end(text, line4))
    } else {
        Vec::new()
    };
    let line5: usize = if n > 0 {
        find_next_line(text, line4)
    } else {
        line4
    };
    let start: [u8; 3] = match read_triple(text, line5, find_line_end(text, line5), Field::Start) {
        Ok(v) => v,
        Err(e) => {
            return Err(e);
        },
    };
    let config = Configuration {
        order: [order[0] as usize, order[1] as usize, order[2] as usize],
        ring,
        n_plugs: n as usize,
        plugs,
        start,
    };
    proof {
        assert(config@.order =~= seq![order[0] as int, order[1] as int, order[2] as int]);
        assert(config@.ring =~= seq![ring[0] as int, ring[1] as int, ring[2] as int]);
        assert(config@.start =~= seq![start[0] as int, start[1] as int, start[2] as int]);
        assert(n == 0 ==> config@.plugs =~= Seq::<u8>::empty());
    }
    if config.is_valid() {
        Ok(config)
    } else {
        Err(KeyfileError::Malformed)
    }
}

} // verus!
