//! Note values and the mapping between MIDI key numbers and notes.
//!
//! MIDI key 60 is middle C (C4): a key's octave is `key / 12 - 1` and its
//! pitch class names the letter, sharps used for the black keys.

use vstd::prelude::*;

use crate::errors::MtxtError;

verus! {

/// A note letter.
#[derive(Debug, Clone, Copy, PartialEq, Eq, Structural)]
pub enum NoteLetter {
    C,
    D,
    E,
    F,
    G,
    A,
    B,
}

/// An accidental on a note letter.
#[derive(Debug, Clone, Copy, PartialEq, Eq, Structural)]
pub enum Accidental {
    Natural,
    Sharp,
}

/// A pitched note: letter, accidental and octave (octave -1 holds key 0).
#[derive(Debug, Clone, Copy, PartialEq, Eq, Structural)]
pub struct Note {
    pub letter: NoteLetter,
    pub accidental: Accidental,
    pub octave: i8,
}

/// What a note record plays: one note, a rest, or a chord.
#[derive(Debug, Clone, PartialEq)]
pub enum NoteTarget {
    Note(Note),
    Rest,
    Chord(Vec<Note>),
}

/// The semitone offset of a letter within its octave.
pub open spec fn spec_letter_semitone(l: NoteLetter) -> int {
    match l {
        NoteLetter::C => 0,
        NoteLetter::D => 2,
        NoteLetter::E => 4,
        NoteLetter::F => 5,
        NoteLetter::G => 7,
        NoteLetter::A => 9,
        NoteLetter::B => 11,
    }
}

/// The semitone offset of an accidental.
pub open spec fn spec_accidental_offset(a: Accidental) -> int {
    match a {
        Accidental::Natural => 0,
        Accidental::Sharp => 1,
    }
}

/// The MIDI key number of a note, possibly out of the 0..=127 range.
pub open spec fn spec_note_number(n: Note) -> int {
    (n.octave as int + 1) * 12 + spec_letter_semitone(n.letter) + spec_accidental_offset(
        n.accidental,
    )
}

/// The note of a pitch class (`0..12`), sharps for the black keys.
pub open spec fn spec_pitch_class_note(pc: int, octave: i8) -> Note {
    let la: (NoteLetter, Accidental) = if pc == 0 {
        (NoteLetter::C, Accidental::Natural)
    } else if pc == 1 {
        (NoteLetter::C, Accidental::Sharp)
    } else if pc == 2 {
        (NoteLetter::D, Accidental::Natural)
    } else if pc == 3 {
        (NoteLetter::D, Accidental::Sharp)
    } else if pc == 4 {
        (NoteLetter::E, Accidental::Natural)
    } else if pc == 5 {
        (NoteLetter::F, Accidental::Natural)
    } else if pc == 6 {
        (NoteLetter::F, Accidental::Sharp)
    } else if pc == 7 {
        (NoteLetter::G, Accidental::Natural)
    } else if pc == 8 {
        (NoteLetter::G, Accidental::Sharp)
    } else if pc == 9 {
        (NoteLetter::A, Accidental::Natural)
    } else if pc == 10 {
        (NoteLetter::A, Accidental::Sharp)
    } else {
        (NoteLetter::B, Accidental::Natural)
    };
    Note { letter: la.0, accidental: la.1, octave }
}

/// The note named by a MIDI key.
pub open spec fn spec_note_of_key(key: u8) -> Note {
    spec_pitch_class_note(key as int % 12, (key as int / 12 - 1) as i8)
}

/// The note named by a MIDI key; keys past 127 are rejected.
pub fn midi_key_to_note(key: u8) -> (r: Result<Note, MtxtError>)
    ensures
        match r {
            Ok(n) => key <= 127 && n == spec_note_of_key(key),
            Err(e) => key > 127 && e == MtxtError::NoteOutOfRange,
        },
{
    if key > 127 {
        return Err(MtxtError::NoteOutOfRange);
    }
    let octave: i8 = (key / 12) as i8 - 1;
    let pc: u8 = key % 12;
    let note = if pc == 0 {
        Note { letter: NoteLetter::C, accidental: Accidental::Natural, octave }
    } else if pc == 1 {
        Note { letter: NoteLetter::C, accidental: Accidental::Sharp, octave }
    } else if pc == 2 {
        Note { letter: NoteLetter::D, accidental: Accidental::Natural, octave }
    } else if pc == 3 {
        Note { letter: NoteLetter::D, accidental: Accidental::Sharp, octave }
    } else if pc == 4 {
        Note { letter: NoteLetter::E, accidental: Accidental::Natural, octave }
    } else if pc == 5 {
        Note { letter: NoteLetter::F, accidental: Accidental::Natural, octave }
    } else if pc == 6 {
        Note { letter: NoteLetter::F, accidental: Accidental::Sharp, octave }
    } else if pc == 7 {
        Note { letter: NoteLetter::G, accidental: Accidental::Natural, octave }
    } else if pc == 8 {
        Note { letter: NoteLetter::G, accidental: Accidental::Sharp, octave }
    } else if pc == 9 {
        Note { letter: NoteLetter::A, accidental: Accidental::Natural, octave }
    } else if pc == 10 {
        Note { letter: NoteLetter::A, accidental: Accidental::Sharp, octave }
    } else {
        Note { letter: NoteLetter::B, accidental: Accidental::Natural, octave }
    };
    Ok(note)
}

/// The MIDI key number of a note; notes outside `0..=127` are rejected.
pub fn note_to_midi_number(n: &Note) -> (r: Result<u8, MtxtError>)
    ensures
        match r {
            Ok(k) => 0 <= spec_note_number(*n) <= 127 && k == spec_note_number(*n),
            Err(e) => !(0 <= spec_note_number(*n) <= 127) && e == MtxtError::NoteOutOfRange,
        },
{
    let semitone: i32 = match n.letter {
        NoteLetter::C => 0,
        NoteLetter::D => 2,
        NoteLetter::E => 4,
        NoteLetter::F => 5,
        NoteLetter::G => 7,
        NoteLetter::A => 9,
        NoteLetter::B => 11,
    };
    let acc: i32 = match n.accidental {
        Accidental::Natural => 0,
        Accidental::Sharp => 1,
    };
    let v: i32 = (n.octave as i32 + 1) * 12 + semitone + acc;
    if v < 0 || v > 127 {
        return Err(MtxtError::NoteOutOfRange);
    }
    Ok(v as u8)
}

/// Key-to-note and note-to-key are mutually inverse on the MIDI key range.
pub proof fn lemma_note_key_roundtrip(key: u8)
    requires
        key <= 127,
    ensures
        spec_note_number(spec_note_of_key(key)) == key,
{
    let pc = key as int % 12;
    let oct = key as int / 12 - 1;
    assert(key as int == (key as int / 12) * 12 + key as int % 12);
    assert(-1 <= oct <= 9);
    assert(spec_note_of_key(key).octave as int == oct);
}

} // verus!
