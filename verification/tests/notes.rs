use koto::event::{to_note, to_str, Pitch};
use koto::events::elisp::{self, Note};

#[test]
fn note_names_to_pitches() {
    assert_eq!(to_note("a4"), Pitch::Pitch(0, 5));
    assert_eq!(to_note("c4"), Pitch::Pitch(3, 4));
    assert_eq!(to_note("c+4"), Pitch::Pitch(4, 4));
    assert_eq!(to_note("c-4"), Pitch::Pitch(2, 4));
    assert_eq!(to_note("g"), Pitch::Pitch(10, 4));
    assert_eq!(to_note("b"), Pitch::Pitch(2, 5));
    assert_eq!(to_note("r"), Pitch::Rest);
    assert_eq!(to_note("r8"), Pitch::Rest);
    assert_eq!(to_note("e+2"), Pitch::Pitch(8, 2));
}

#[test]
fn non_ascii_name_keeps_default_octave() {
    assert_eq!(to_note("cé"), Pitch::Pitch(3, 4));
}

#[test]
fn pitches_to_names() {
    assert_eq!(to_str(&Pitch::Pitch(0, 5)), "a4");
    assert_eq!(to_str(&Pitch::Pitch(1, 1)), "a+0");
    assert_eq!(to_str(&Pitch::Pitch(2, 4)), "b3");
    assert_eq!(to_str(&Pitch::Pitch(3, 4)), "c4");
    assert_eq!(to_str(&Pitch::Pitch(11, 7)), "g+7");
    assert_eq!(to_str(&Pitch::Rest), "r");
}

#[test]
fn name_of_pitch_reads_back() {
    for n in 0..12u32 {
        let octaves = if n <= 2 { 1..9u32 } else { 0..8u32 };
        for o in octaves {
            let p = Pitch::Pitch(n, o);
            assert_eq!(to_note(&to_str(&p)), p);
        }
    }
    assert_eq!(to_note(&to_str(&Pitch::Rest)), Pitch::Rest);
}

#[test]
fn event_note_names() {
    assert_eq!(elisp::to_note("c4"), Note::C(4));
    assert_eq!(elisp::to_note("c-4"), Note::B(3));
    assert_eq!(elisp::to_note("b+4"), Note::C(5));
    assert_eq!(elisp::to_note("e+"), Note::F(4));
    assert_eq!(elisp::to_note("a-2"), Note::Gs(2));
    assert_eq!(elisp::to_note("r"), Note::R);
    assert_eq!(elisp::to_note("x"), Note::R);
}
