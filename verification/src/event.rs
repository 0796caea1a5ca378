//! Note names: the pitches that a sequencer pattern plays.

use vstd::prelude::*;
use crate::text::{chars_of, digit_char, digit_of, push_char};

verus! {

pub type NoteNum = u32;

pub type Octave = u32;

/// A pitch: a note number counted in semitones from `a` (0) up to `g+` (11),
/// and an octave that starts at `c`; or a rest.
#[derive(Debug, Clone, Copy, PartialEq, Eq)]
pub enum Pitch {
    Pitch(NoteNum, Octave),
    Rest,
}

/// The value of a decimal digit char.
pub open spec fn digit_value(c: char) -> u32 {
    (c as u32 - '0' as u32) as u32
}

/// The octave that a note name gives: the char at index `byte_len - 1`,
/// where `byte_len` is the length of the name in bytes, when there is such a
/// char and it is a digit; else 4. For a name of ASCII chars that is its last
/// char; a name with other chars has no char at that index.
pub open spec fn name_octave(s: Seq<char>, byte_len: int) -> u32 {
    if 1 <= byte_len <= s.len() && '0' <= s[byte_len - 1] && s[byte_len - 1] <= '9' {
        digit_value(s[byte_len - 1])
    } else {
        4
    }
}

/// A note name that `to_note` accepts: it starts with `a` to `g` or `r`,
/// and does not lower `a` below note 0.
pub open spec fn is_note_name(s: Seq<char>) -> bool {
    &&& s.len() > 0
    &&& (s[0] == 'a' || s[0] == 'b' || s[0] == 'c' || s[0] == 'd' || s[0] == 'e' || s[0] == 'f'
        || s[0] == 'g' || s[0] == 'r')
    &&& !(s[0] == 'a' && s.len() > 1 && s[1] == '-')
}

/// The pitch that a note name names: the letter gives the note number
/// (`a` 0, `b` 2, `c` 3, `d` 5, `e` 7, `f` 8, `g` 10; `a` and `b` belong to
/// the octave above), a `+` or `-` as second char raises or lowers it by one,
/// and `r` is a rest.
pub open spec fn note_of(s: Seq<char>, byte_len: int) -> Pitch {
    let o = name_octave(s, byte_len);
    let base: Pitch = if s[0] == 'a' {
        Pitch::Pitch(0, (o + 1) as u32)
    } else if s[0] == 'b' {
        Pitch::Pitch(2, (o + 1) as u32)
    } else if s[0] == 'c' {
        Pitch::Pitch(3, o)
    } else if s[0] == 'd' {
        Pitch::Pitch(5, o)
    } else if s[0] == 'e' {
        Pitch::Pitch(7, o)
    } else if s[0] == 'f' {
        Pitch::Pitch(8, o)
    } else if s[0] == 'g' {
        Pitch::Pitch(10, o)
    } else {
        Pitch::Rest
    };
    match base {
        Pitch::Rest => Pitch::Rest,
        Pitch::Pitch(n, oct) => if s.len() > 1 && s[1] == '+' {
            Pitch::Pitch((n + 1) as u32, oct)
        } else if s.len() > 1 && s[1] == '-' {
            Pitch::Pitch((n - 1) as u32, oct)
        } else {
            base
        },
    }
}

/// Reads a note name such as `c4`, `a+3` or `r` (see `note_of`).
pub fn to_note(name: &str) -> (p: Pitch)
    requires
        is_note_name(name@),
    ensures
        p == note_of(name@, name.len() as int),
{
    let chars = chars_of(name);
    let len = name.len();
    let octave: u32 = if len >= 1 && len - 1 < chars.len() && '0' <= chars[len - 1] && chars[len
        - 1] <= '9' {
        chars[len - 1] as u32 - '0' as u32
    } else {
        4
    };
    let c0 = chars[0];
    let pitch = if c0 == 'a' {
        Pitch::Pitch(0, octave + 1)
    } else if c0 == 'b' {
        Pitch::Pitch(2, octave + 1)
    } else if c0 == 'c' {
        Pitch::Pitch(3, octave)
    } else if c0 == 'd' {
        Pitch::Pitch(5, octave)
    } else if c0 == 'e' {
        Pitch::Pitch(7, octave)
    } else if c0 == 'f' {
        Pitch::Pitch(8, octave)
    } else if c0 == 'g' {
        Pitch::Pitch(10, octave)
    } else {
        Pitch::Rest
    };
    if let Pitch::Rest = pitch {
        pitch
    } else {
        if chars.len() > 1 && chars[1] == '+' {
            if let Pitch::Pitch(n, o) = pitch {
                Pitch::Pitch(n + 1, o)
            } else {
                pitch
            }
        } else if chars.len() > 1 && chars[1] == '-' {
            if let Pitch::Pitch(n, o) = pitch {
                Pitch::Pitch(n - 1, o)
            } else {
                pitch
            }
        } else {
            pitch
        }
    }
}


/// The height of a note letter above `c` in semitones, in the major scale
/// of C; -1 for a char that is no note letter.
pub open spec fn letter_semitone(c: char) -> int {
    if c == 'c' {
        0
    } else if c == 'd' {
        2
    } else if c == 'e' {
        4
    } else if c == 'f' {
        5
    } else if c == 'g' {
        7
    } else if c == 'a' {
        9
    } else if c == 'b' {
        11
    } else {
        -1
    }
}

/// The height of a pitch in semitones: twelve to the octave, counted from
/// note 0 of octave 0.
pub open spec fn pitch_height(p: Pitch) -> int {
    match p {
        Pitch::Pitch(n, o) => 12 * o + n,
        Pitch::Rest => -1,
    }
}

/// A note name is read as its letter in its octave (`a` and `b` above `c`
/// to `g`): the height of the pitch is 12 times the octave, plus the
/// letter's height above `c`, plus 3 (note 0 is `a` below `c`); a `+` after
/// the letter raises it by exactly one semitone and a `-` lowers it by
/// exactly one; `r` is a rest.
pub proof fn lemma_note_heights(s: Seq<char>, byte_len: int)
    requires
        is_note_name(s),
    ensures
        s[0] == 'r' ==> note_of(s, byte_len) == Pitch::Rest,
        s[0] != 'r' && !(s.len() > 1 && (s[1] == '+' || s[1] == '-')) ==> pitch_height(
            note_of(s, byte_len),
        ) == 12 * name_octave(s, byte_len) + letter_semitone(s[0]) + 3,
        s[0] != 'r' && s.len() > 1 && s[1] == '+' ==> pitch_height(note_of(s, byte_len)) == 12
            * name_octave(s, byte_len) + letter_semitone(s[0]) + 4,
        s[0] != 'r' && s.len() > 1 && s[1] == '-' ==> pitch_height(note_of(s, byte_len)) == 12
            * name_octave(s, byte_len) + letter_semitone(s[0]) + 2,
{
    assert(name_octave(s, byte_len) <= 9);
}

/// A pitch that `to_str` can name: a note number below 12, and an octave
/// that names with one digit (`a` to `b` belong to the octave above the one
/// written, so their octave is 1 to 8; the others 0 to 7).
pub open spec fn is_nameable(p: Pitch) -> bool {
    match p {
        Pitch::Rest => true,
        Pitch::Pitch(n, o) => n < 12 && if n <= 2 {
            1 <= o <= 8
        } else {
            o < 8
        },
    }
}

/// The letters of note number `n`.
pub open spec fn note_letters(n: u32) -> Seq<char> {
    if n == 0 {
        seq!['a']
    } else if n == 1 {
        seq!['a', '+']
    } else if n == 2 {
        seq!['b']
    } else if n == 3 {
        seq!['c']
    } else if n == 4 {
        seq!['c', '+']
    } else if n == 5 {
        seq!['d']
    } else if n == 6 {
        seq!['d', '+']
    } else if n == 7 {
        seq!['e']
    } else if n == 8 {
        seq!['f']
    } else if n == 9 {
        seq!['f', '+']
    } else if n == 10 {
        seq!['g']
    } else {
        seq!['g', '+']
    }
}

/// The name of a pitch: its letters, then the octave digit (one less for
/// `a` to `b`); `r` for a rest.
pub open spec fn pitch_text(p: Pitch) -> Seq<char> {
    match p {
        Pitch::Rest => seq!['r'],
        Pitch::Pitch(n, o) => note_letters(n) + seq![
            digit_char(
                if n <= 2 {
                    (o - 1) as u32
                } else {
                    o
                },
            ),
        ],
    }
}

/// Names a pitch, as `c4`, `a+3` or `r` (see `pitch_text`).
pub fn to_str(pitch: &Pitch) -> (s: String)
    requires
        is_nameable(*pitch),
    ensures
        s@ == pitch_text(*pitch),
{
    let mut s = String::new();
    match pitch {
        Pitch::Rest => push_char(&mut s, 'r'),
        Pitch::Pitch(n, o) => {
            let n = *n;
            let o = *o;
            if n == 0 || n == 1 || n == 2 {
                push_char(&mut s, if n == 2 { 'b' } else { 'a' });
            } else if n == 3 || n == 4 {
                push_char(&mut s, 'c');
            } else if n == 5 || n == 6 {
                push_char(&mut s, 'd');
            } else if n == 7 {
                push_char(&mut s, 'e');
            } else if n == 8 || n == 9 {
                push_char(&mut s, 'f');
            } else {
                push_char(&mut s, 'g');
            }
            if n == 1 || n == 4 || n == 6 || n == 9 || n == 11 {
                push_char(&mut s, '+');
            }
            let octave = if n <= 2 {
                o - 1
            } else {
                o
            };
            push_char(&mut s, digit_of(octave));
        },
    }
    assert(s@ =~= pitch_text(*pitch));
    s
}

/// Reading the name of a pitch gives the pitch back.
pub proof fn lemma_note_name_roundtrip(p: Pitch)
    requires
        is_nameable(p),
    ensures
        is_note_name(pitch_text(p)),
        note_of(pitch_text(p), vstd::utf8::encode_utf8(pitch_text(p)).len() as int) == p,
{
    let t = pitch_text(p);
    assert(vstd::utf8::is_ascii_chars(t));
    vstd::utf8::is_ascii_chars_encode_utf8(t);
}

} // verus!
