//! Note names of the event language.

use vstd::prelude::*;
use crate::event::letter_semitone;
use crate::text::chars_of;

verus! {

/// A note and its octave, or a rest.
#[derive(Debug, Clone, Copy, PartialEq, Eq)]
pub enum Note {
    R,
    C(u32),
    Cs(u32),
    D(u32),
    Ds(u32),
    E(u32),
    F(u32),
    Fs(u32),
    G(u32),
    Gs(u32),
    A(u32),
    As(u32),
    B(u32),
}

/// The octave of a note name: the char at index `byte_len - 1` (the last
/// char of an ASCII name) where that is a digit, else 4.
pub open spec fn event_octave(s: Seq<char>, byte_len: int) -> u32 {
    if 1 <= byte_len <= s.len() && '0' <= s[byte_len - 1] && s[byte_len - 1] <= '9' {
        (s[byte_len - 1] as u32 - '0' as u32) as u32
    } else {
        4
    }
}

/// The note that a name names: its letter, raised by a `+` or lowered by a
/// `-` as second char (`c-` is `b` of the octave below, `b+` is `c` of the
/// octave above); `r` and any other first char give a rest.
pub open spec fn event_note(s: Seq<char>, byte_len: int) -> Note {
    let o = event_octave(s, byte_len);
    let m = if s.len() > 1 {
        s[1]
    } else {
        ' '
    };
    let c = s[0];
    if c == 'c' {
        if m == '+' {
            Note::Cs(o)
        } else if m == '-' {
            Note::B((o - 1) as u32)
        } else {
            Note::C(o)
        }
    } else if c == 'd' {
        if m == '+' {
            Note::Ds(o)
        } else if m == '-' {
            Note::Cs(o)
        } else {
            Note::D(o)
        }
    } else if c == 'e' {
        if m == '+' {
            Note::F(o)
        } else if m == '-' {
            Note::Ds(o)
        } else {
            Note::E(o)
        }
    } else if c == 'f' {
        if m == '+' {
            Note::Fs(o)
        } else if m == '-' {
            Note::E(o)
        } else {
            Note::F(o)
        }
    } else if c == 'g' {
        if m == '+' {
            Note::Gs(o)
        } else if m == '-' {
            Note::Fs(o)
        } else {
            Note::G(o)
        }
    } else if c == 'a' {
        if m == '+' {
            Note::As(o)
        } else if m == '-' {
            Note::Gs(o)
        } else {
            Note::A(o)
        }
    } else if c == 'b' {
        if m == '+' {
            Note::C((o + 1) as u32)
        } else if m == '-' {
            Note::As(o)
        } else {
            Note::B(o)
        }
    } else {
        Note::R
    }
}

/// Reads a note name such as `c4`, `e-` or `r` (see `event_note`). The name
/// is not empty, and `c-` has an octave above 0.
pub fn to_note(name: &str) -> (n: Note)
    requires
        name@.len() > 0,
        name@[0] == 'c' && name@.len() > 1 && name@[1] == '-' ==> event_octave(
            name@,
            name.len() as int,
        ) > 0,
    ensures
        n == event_note(name@, name.len() as int),
{
    let chars = chars_of(name);
    let len = name.len();
    let octave: u32 = if len >= 1 && len - 1 < chars.len() && '0' <= chars[len - 1] && chars[len
        - 1] <= '9' {
        chars[len - 1] as u32 - '0' as u32
    } else {
        4
    };
    let m = if chars.len() > 1 {
        chars[1]
    } else {
        ' '
    };
    match chars[0] {
        'c' => if m == '+' {
            Note::Cs(octave)
        } else if m == '-' {
            Note::B(octave - 1)
        } else {
            Note::C(octave)
        },
        'd' => if m == '+' {
            Note::Ds(octave)
        } else if m == '-' {
            Note::Cs(octave)
        } else {
            Note::D(octave)
        },
        'e' => if m == '+' {
            Note::F(octave)
        } else if m == '-' {
            Note::Ds(octave)
        } else {
            Note::E(octave)
        },
        'f' => if m == '+' {
            Note::Fs(octave)
        } else if m == '-' {
            Note::E(octave)
        } else {
            Note::F(octave)
        },
        'g' => if m == '+' {
            Note::Gs(octave)
        } else if m == '-' {
            Note::Fs(octave)
        } else {
            Note::G(octave)
        },
        'a' => if m == '+' {
            Note::As(octave)
        } else if m == '-' {
            Note::Gs(octave)
        } else {
            Note::A(octave)
        },
        'b' => if m == '+' {
            Note::C(octave + 1)
        } else if m == '-' {
            Note::As(octave)
        } else {
            Note::B(octave)
        },
        _ => Note::R,
    }
}

/// The height of a note in semitones from `c` of octave 0; -1 for a rest.
pub open spec fn semitone(n: Note) -> int {
    match n {
        Note::R => -1,
        Note::C(o) => 12 * o,
        Note::Cs(o) => 12 * o + 1,
        Note::D(o) => 12 * o + 2,
        Note::Ds(o) => 12 * o + 3,
        Note::E(o) => 12 * o + 4,
        Note::F(o) => 12 * o + 5,
        Note::Fs(o) => 12 * o + 6,
        Note::G(o) => 12 * o + 7,
        Note::Gs(o) => 12 * o + 8,
        Note::A(o) => 12 * o + 9,
        Note::As(o) => 12 * o + 10,
        Note::B(o) => 12 * o + 11,
    }
}

/// A note name is read as its letter in its octave: a `+` after the letter
/// raises it by exactly one semitone and a `-` lowers it by exactly one
/// (crossing into the next or the previous octave from `b` and `c`), so
/// that for instance `g+` and `a-` are the same note; a name that does not
/// start with a note letter is a rest.
pub proof fn lemma_note_semitones(s: Seq<char>, byte_len: int)
    requires
        s.len() > 0,
    ensures
        letter_semitone(s[0]) < 0 ==> event_note(s, byte_len) == Note::R,
        letter_semitone(s[0]) >= 0 && !(s.len() > 1 && (s[1] == '+' || s[1] == '-')) ==> semitone(
            event_note(s, byte_len),
        ) == 12 * event_octave(s, byte_len) + letter_semitone(s[0]),
        letter_semitone(s[0]) >= 0 && s.len() > 1 && s[1] == '+' ==> semitone(event_note(s, byte_len))
            == 12 * event_octave(s, byte_len) + letter_semitone(s[0]) + 1,
        letter_semitone(s[0]) >= 0 && s.len() > 1 && s[1] == '-' && !(s[0] == 'c' && event_octave(
            s,
            byte_len,
        ) == 0) ==> semitone(event_note(s, byte_len)) == 12 * event_octave(s, byte_len)
            + letter_semitone(s[0]) - 1,
{
    assert(event_octave(s, byte_len) <= 9);
}

} // verus!
