//! Pitches in semitones, their pitch classes and their fixed spelling.

use crate::diff::magnitude;
use crate::pitchparser::{chars_of, pitch_of_text, PitchParser};
use crate::text::{decimal, push_char, push_decimal};
use std::cmp::Ordering;
use vstd::prelude::*;
use vstd::string::{StrSliceExecFns, StringExecFns};

verus! {

/// The seven natural note letters.
#[derive(Clone, Copy, Debug, PartialEq, Eq, Structural)]
pub enum Stepname {
    C,
    D,
    E,
    F,
    G,
    A,
    B,
}

/// The text was not one of the seven note letters.
#[derive(Clone, Copy, Debug, PartialEq, Eq, Structural)]
pub struct ParseStepnameError;

impl Stepname {
    /// Semitones of the letter above C.
    pub open spec fn semitone(self) -> int {
        match self {
            Stepname::C => 0,
            Stepname::D => 2,
            Stepname::E => 4,
            Stepname::F => 5,
            Stepname::G => 7,
            Stepname::A => 9,
            Stepname::B => 11,
        }
    }

    /// The letter as it is written.
    pub open spec fn letter(self) -> char {
        match self {
            Stepname::C => 'C',
            Stepname::D => 'D',
            Stepname::E => 'E',
            Stepname::F => 'F',
            Stepname::G => 'G',
            Stepname::A => 'A',
            Stepname::B => 'B',
        }
    }

    /// The letter that a character stands for, if it is one of the seven.
    pub open spec fn of_letter(c: char) -> Option<Stepname> {
        if c == 'C' {
            Some(Stepname::C)
        } else if c == 'D' {
            Some(Stepname::D)
        } else if c == 'E' {
            Some(Stepname::E)
        } else if c == 'F' {
            Some(Stepname::F)
        } else if c == 'G' {
            Some(Stepname::G)
        } else if c == 'A' {
            Some(Stepname::A)
        } else if c == 'B' {
            Some(Stepname::B)
        } else {
            None
        }
    }

    /// The letter as a text.
    pub fn to_string(&self) -> (r: String)
        ensures
            r@ == seq![self.letter()],
    {
        let mut r = String::new();
        push_char(&mut r, self.to_char());
        assert(r@ =~= seq![self.letter()]);
        r
    }

    /// The letter as a character.
    pub fn to_char(&self) -> (c: char)
        ensures
            c == self.letter(),
    {
        match self {
            Stepname::C => 'C',
            Stepname::D => 'D',
            Stepname::E => 'E',
            Stepname::F => 'F',
            Stepname::G => 'G',
            Stepname::A => 'A',
            Stepname::B => 'B',
        }
    }

    /// The letter that a character stands for.
    pub fn from_char(c: char) -> (r: Option<Stepname>)
        ensures
            r == Stepname::of_letter(c),
    {
        if c == 'C' {
            Some(Stepname::C)
        } else if c == 'D' {
            Some(Stepname::D)
        } else if c == 'E' {
            Some(Stepname::E)
        } else if c == 'F' {
            Some(Stepname::F)
        } else if c == 'G' {
            Some(Stepname::G)
        } else if c == 'A' {
            Some(Stepname::A)
        } else if c == 'B' {
            Some(Stepname::B)
        } else {
            None
        }
    }

    /// Reads a letter from a text of exactly one character.
    pub fn from_str(s: &str) -> (r: Result<Stepname, ParseStepnameError>)
        ensures
            r == (if s@.len() == 1 && Stepname::of_letter(s@[0]) is Some {
                Ok::<Stepname, ParseStepnameError>(Stepname::of_letter(s@[0])->0)
            } else {
                Err(ParseStepnameError)
            }),
    {
        if s.unicode_len() != 1 {
            return Err(ParseStepnameError);
        }
        match Stepname::from_char(s.get_char(0)) {
            Some(step) => Ok(step),
            None => Err(ParseStepnameError),
        }
    }
}

impl std::str::FromStr for Stepname {
    type Err = ParseStepnameError;

    fn from_str(s: &str) -> (r: Result<Self, Self::Err>)
        ensures
            r == (if s@.len() == 1 && Stepname::of_letter(s@[0]) is Some {
                Ok::<Stepname, ParseStepnameError>(Stepname::of_letter(s@[0])->0)
            } else {
                Err(ParseStepnameError)
            }),
    {
        Stepname::from_str(s)
    }
}

/// How a letter is altered: not at all, a semitone down, or a semitone up.
#[derive(Clone, Copy, Debug, PartialEq, Eq, Structural)]
pub enum Accidental {
    Natural,
    Flat,
    Sharp,
}

/// The text was not an accidental mark.
#[derive(Clone, Copy, Debug, PartialEq, Eq, Structural)]
pub struct ParseAccidentalError;

impl Accidental {
    /// Semitones that the accidental adds to its letter.
    pub open spec fn offset(self) -> int {
        match self {
            Accidental::Natural => 0,
            Accidental::Sharp => 1,
            Accidental::Flat => -1,
        }
    }

    /// The mark as it is written: nothing, `#` or `-`.
    pub open spec fn symbol(self) -> Seq<char> {
        match self {
            Accidental::Natural => Seq::<char>::empty(),
            Accidental::Sharp => seq!['#'],
            Accidental::Flat => seq!['-'],
        }
    }

    /// The accidental that a mark stands for.
    pub open spec fn of_symbol(t: Seq<char>) -> Option<Accidental> {
        if t.len() == 0 {
            Some(Accidental::Natural)
        } else if t.len() == 1 && t[0] == '#' {
            Some(Accidental::Sharp)
        } else if t.len() == 1 && t[0] == '-' {
            Some(Accidental::Flat)
        } else {
            None
        }
    }

    /// The mark as a text.
    pub fn to_string(&self) -> (r: String)
        ensures
            r@ == self.symbol(),
    {
        let mut r = String::new();
        match self {
            Accidental::Natural => {},
            Accidental::Sharp => {
                push_char(&mut r, '#');
            },
            Accidental::Flat => {
                push_char(&mut r, '-');
            },
        }
        assert(r@ =~= self.symbol());
        r
    }

    /// Reads an accidental from its mark.
    pub fn from_str(s: &str) -> (r: Result<Accidental, ParseAccidentalError>)
        ensures
            r == (match Accidental::of_symbol(s@) {
                Some(a) => Ok::<Accidental, ParseAccidentalError>(a),
                None => Err(ParseAccidentalError),
            }),
    {
        let n: usize = s.unicode_len();
        if n == 0 {
            Ok(Accidental::Natural)
        } else if n == 1 {
            let c = s.get_char(0);
            if c == '#' {
                Ok(Accidental::Sharp)
            } else if c == '-' {
                Ok(Accidental::Flat)
            } else {
                Err(ParseAccidentalError)
            }
        } else {
            Err(ParseAccidentalError)
        }
    }
}

impl std::str::FromStr for Accidental {
    type Err = ParseAccidentalError;

    fn from_str(s: &str) -> (r: Result<Self, Self::Err>)
        ensures
            r == (match Accidental::of_symbol(s@) {
                Some(a) => Ok::<Accidental, ParseAccidentalError>(a),
                None => Err(ParseAccidentalError),
            }),
    {
        Accidental::from_str(s)
    }
}

/// What went wrong: the text is no note name, a pitch left the range of a
/// byte, or there was nothing to choose from.
#[derive(Clone, Copy, Debug, PartialEq, Eq, Structural)]
pub enum ErrorKind {
    Syntax,
    Range,
    Empty,
}

/// A pitch could not be read or computed.
#[derive(Clone, Copy, Debug, PartialEq, Eq, Structural)]
pub struct ParsePitchError {
    pub kind: ErrorKind,
}

/// The value is one that a pitch can hold.
pub open spec fn in_pitch_range(v: int) -> bool {
    0 <= v <= 255
}

/// The class is spelled with a letter alone.
pub open spec fn is_natural_class(c: int) -> bool {
    c == 0 || c == 2 || c == 4 || c == 5 || c == 7 || c == 9 || c == 11
}

/// The class is spelled with a sharp.
pub open spec fn is_sharpable_class(c: int) -> bool {
    c == 1 || c == 6 || c == 8
}

/// The class is spelled with a flat.
pub open spec fn is_flatable_class(c: int) -> bool {
    c == 3 || c == 10
}

/// The accidental with which a class is spelled.
pub open spec fn spelled_accidental(c: int) -> Accidental {
    if is_natural_class(c) {
        Accidental::Natural
    } else if is_sharpable_class(c) {
        Accidental::Sharp
    } else {
        Accidental::Flat
    }
}

/// The letter with which a class is spelled: its own if it is natural, the
/// one a semitone below if it takes a sharp, the one a semitone above if it
/// takes a flat.
pub open spec fn spelled_step(c: int) -> Stepname {
    let natural = c - spelled_accidental(c).offset();
    if natural == 0 {
        Stepname::C
    } else if natural == 2 {
        Stepname::D
    } else if natural == 4 {
        Stepname::E
    } else if natural == 5 {
        Stepname::F
    } else if natural == 7 {
        Stepname::G
    } else if natural == 9 {
        Stepname::A
    } else {
        Stepname::B
    }
}

/// A pitch without its octave: a value from 0 to 11.
#[derive(Clone, Copy, Debug, PartialEq, Eq, Structural)]
pub struct PitchClass(pub u8);

impl PitchClass {
    /// The value is one of the twelve classes.
    pub open spec fn wf(self) -> bool {
        self.0 < 12
    }

    /// The index at which this class stands first in the list, if it
    /// stands in it.
    pub fn position_in(&self, classes: &Vec<PitchClass>) -> (r: Option<usize>)
        ensures
            match r {
                Some(at) => is_first_position(classes@, self.0 as int, at as int),
                None => forall|j: int| 0 <= j < classes@.len() ==> (#[trigger] classes@[j]).0 != self.0,
            },
    {
        let mut i: usize = 0;
        while i < classes.len()
            invariant
                i <= classes.len(),
                forall|j: int| 0 <= j < i ==> (#[trigger] classes@[j]).0 != self.0,
            decreases classes.len() - i,
        {
            if classes[i].0 == self.0 {
                return Some(i);
            }
            i = i + 1;
        }
        None
    }

    /// The class is spelled with a letter alone.
    pub fn is_natural(&self) -> (r: bool)
        ensures
            r == is_natural_class(self.0 as int),
    {
        let c: u8 = self.0;
        c == 0 || c == 2 || c == 4 || c == 5 || c == 7 || c == 9 || c == 11
    }

    /// The class is spelled with a sharp.
    pub fn is_sharpable(&self) -> (r: bool)
        ensures
            r == is_sharpable_class(self.0 as int),
    {
        let c: u8 = self.0;
        c == 1 || c == 6 || c == 8
    }

    /// The class is spelled with a flat.
    pub fn is_flatable(&self) -> (r: bool)
        ensures
            r == is_flatable_class(self.0 as int),
    {
        let c: u8 = self.0;
        c == 3 || c == 10
    }

    /// The fixed spelling of the class: a letter and an accidental that
    /// together give the class back.
    pub fn to_step_name(&self) -> (r: (Stepname, Accidental))
        requires
            self.wf(),
        ensures
            r.0 == spelled_step(self.0 as int),
            r.1 == spelled_accidental(self.0 as int),
            r.0.semitone() + r.1.offset() == self.0,
    {
        let c: u8 = self.0;
        let step = if c <= 1 {
            Stepname::C
        } else if c == 2 {
            Stepname::D
        } else if c <= 4 {
            Stepname::E
        } else if c <= 6 {
            Stepname::F
        } else if c <= 8 {
            Stepname::G
        } else if c == 9 {
            Stepname::A
        } else {
            Stepname::B
        };
        let accidental = if self.is_natural() {
            Accidental::Natural
        } else if self.is_sharpable() {
            Accidental::Sharp
        } else {
            Accidental::Flat
        };
        (step, accidental)
    }
}

/// The octave number of a pitch value, C in octave -1 being 0; none below
/// octave 0.
pub open spec fn spelled_octave(v: int) -> Option<u8> {
    if v / 12 >= 1 {
        Some((v / 12 - 1) as u8)
    } else {
        None
    }
}

/// The value that a letter, an accidental and an octave denote.
pub open spec fn stepname_value(stepname: Stepname, accidental: Accidental, octave: Option<u8>) -> int {
    stepname.semitone() + accidental.offset() + match octave {
        Some(p) => (p + 1) * 12,
        None => 0,
    }
}

/// Letter, accidental and octave of a pitch value.
pub fn convert_ps_to_step(midi_note_number: u8) -> (r: (Stepname, Accidental, Option<u8>))
    ensures
        r.0 == spelled_step(midi_note_number as int % 12),
        r.1 == spelled_accidental(midi_note_number as int % 12),
        r.2 == spelled_octave(midi_note_number as int),
        stepname_value(r.0, r.1, r.2) == midi_note_number,
{
    let pitch_class = PitchClass(midi_note_number % 12);
    let (step_name, accidental) = pitch_class.to_step_name();
    let octave: u8 = midi_note_number / 12;
    let shown = if octave >= 1 {
        Some(octave - 1)
    } else {
        None
    };
    (step_name, accidental, shown)
}

/// The name of a pitch value: its letter, its accidental and, from octave
/// 0 on, its octave.
pub open spec fn pitch_name(v: int) -> Seq<char> {
    seq![spelled_step(v % 12).letter()] + spelled_accidental(v % 12).symbol() + match spelled_octave(
        v,
    ) {
        Some(octave) => decimal(octave as nat),
        None => Seq::<char>::empty(),
    }
}

/// One of the listed classes is the class of the value `v`.
pub open spec fn class_listed(classes: Seq<PitchClass>, v: int) -> bool {
    exists|i: int| 0 <= i < classes.len() && (#[trigger] classes[i]).0 == v % 12
}

/// The list holds one of the twelve classes.
pub open spec fn any_class_usable(classes: Seq<PitchClass>) -> bool {
    exists|i: int| 0 <= i < classes.len() && (#[trigger] classes[i]).wf()
}

/// `q` is a pitch of a listed class, no such pitch is closer to `from`,
/// and the only one that may be as close lies above `q`.
pub open spec fn is_nearest(from: int, classes: Seq<PitchClass>, q: int) -> bool {
    &&& in_pitch_range(q)
    &&& class_listed(classes, q)
    &&& forall|other: int|
        in_pitch_range(other) && #[trigger] class_listed(classes, other) ==> {
            ||| magnitude(q - from) < magnitude(other - from)
            ||| (magnitude(q - from) == magnitude(other - from) && q <= other)
        }
}

/// The pitch that `is_nearest` singles out.
pub open spec fn nearest_pitch(from: int, classes: Seq<PitchClass>) -> int {
    choose|q: int| is_nearest(from, classes, q)
}

/// The index at which `class` stands first in the list.
pub open spec fn is_first_position(classes: Seq<PitchClass>, class: int, at: int) -> bool {
    &&& 0 <= at < classes.len()
    &&& classes[at].0 == class
    &&& forall|j: int| 0 <= j < at ==> (#[trigger] classes[j]).0 != class
}

/// The index that `is_first_position` singles out.
pub open spec fn first_position(classes: Seq<PitchClass>, class: int) -> int {
    choose|at: int| is_first_position(classes, class, at)
}

/// Where no pitch of a listed class lies closer than `offset`, one of the
/// twelve classes being listed, there is a nearest pitch.
proof fn lemma_nearest_from(from: int, classes: Seq<PitchClass>, offset: nat) -> (q: int)
    requires
        in_pitch_range(from),
        any_class_usable(classes),
        forall|other: int|
            in_pitch_range(other) && magnitude(other - from) < offset ==> !#[trigger] class_listed(
                classes,
                other,
            ),
    ensures
        is_nearest(from, classes, q),
    decreases 12 - offset,
{
    if offset >= 12 {
        let i = choose|i: int| 0 <= i < classes.len() && (#[trigger] classes[i]).wf();
        let c = classes[i].0 as int;
        let d = (from - c) % 12;
        let w = if from - d >= 0 {
            from - d
        } else {
            from - d + 12
        };
        assert(w % 12 == c);
        assert(in_pitch_range(w));
        assert(magnitude(w - from) < 12);
        assert(class_listed(classes, w));
        w
    } else if in_pitch_range(from - offset) && class_listed(classes, from - offset) {
        assert forall|other: int|
            in_pitch_range(other) && #[trigger] class_listed(classes, other) implies {
            ||| magnitude(from - offset - from) < magnitude(other - from)
            ||| (magnitude(from - offset - from) == magnitude(other - from) && from - offset
                <= other)
        } by {
            assert(magnitude(other - from) >= offset);
        }
        from - offset
    } else if in_pitch_range(from + offset) && class_listed(classes, from + offset) {
        assert forall|other: int|
            in_pitch_range(other) && #[trigger] class_listed(classes, other) implies {
            ||| magnitude(from + offset - from) < magnitude(other - from)
            ||| (magnitude(from + offset - from) == magnitude(other - from) && from + offset
                <= other)
        } by {
            assert(magnitude(other - from) >= offset);
        }
        from + offset
    } else {
        lemma_nearest_from(from, classes, offset + 1)
    }
}

/// Where one of the twelve classes is listed, every pitch has a nearest
/// pitch of a listed class.
pub proof fn lemma_nearest_exists(from: int, classes: Seq<PitchClass>)
    requires
        in_pitch_range(from),
        any_class_usable(classes),
    ensures
        is_nearest(from, classes, nearest_pitch(from, classes)),
{
    let q = lemma_nearest_from(from, classes, 0);
}

/// At most one pitch is the nearest.
pub proof fn lemma_nearest_unique(from: int, classes: Seq<PitchClass>, first: int, second: int)
    requires
        is_nearest(from, classes, first),
        is_nearest(from, classes, second),
    ensures
        first == second,
{
}

/// A note's height in semitones; 60 is the C of octave 4.
#[derive(Clone, Copy, Debug, PartialEq, Eq, Ord, Structural)]
pub struct Pitch(pub u8);

impl PartialOrd for Pitch {
    /// Pitches are ordered by their values.
    fn partial_cmp(&self, other: &Pitch) -> (r: Option<Ordering>) {
        if self.0 < other.0 {
            Some(Ordering::Less)
        } else if self.0 > other.0 {
            Some(Ordering::Greater)
        } else {
            Some(Ordering::Equal)
        }
    }
}

impl vstd::std_specs::cmp::PartialOrdSpecImpl for Pitch {
    open spec fn obeys_partial_cmp_spec() -> bool {
        true
    }

    open spec fn partial_cmp_spec(&self, other: &Pitch) -> Option<Ordering> {
        if self.0 < other.0 {
            Some(Ordering::Less)
        } else if self.0 > other.0 {
            Some(Ordering::Greater)
        } else {
            Some(Ordering::Equal)
        }
    }
}

impl Pitch {
    /// Letter, accidental and octave of the pitch.
    pub fn convert_ps_to_step(&self) -> (r: (Stepname, Accidental, Option<u8>))
        ensures
            r.0 == spelled_step(self.0 as int % 12),
            r.1 == spelled_accidental(self.0 as int % 12),
            r.2 == spelled_octave(self.0 as int),
            stepname_value(r.0, r.1, r.2) == self.0,
    {
        convert_ps_to_step(self.0)
    }

    /// The name of the pitch.
    pub fn get_name(&self) -> (r: String)
        ensures
            r@ == pitch_name(self.0 as int),
    {
        let (stepname, accidental, octave) = self.convert_ps_to_step();
        let mut r = stepname.to_string();
        let mark = accidental.to_string();
        r.append(mark.as_str());
        match octave {
            Some(number) => {
                push_decimal(&mut r, number as u128);
            },
            None => {},
        }
        assert(r@ =~= pitch_name(self.0 as int));
        r
    }

    /// The pitch that a name denotes.
    pub fn from_str(s: &str) -> (r: Result<Pitch, ParsePitchError>)
        ensures
            r == pitch_of_text(s@),
    {
        let text = chars_of(s);
        assert(text@.subrange(0, text@.len() as int) =~= s@);
        PitchParser::parse_pitch(&text, 0, text.len())
    }

    /// The pitch without its octave.
    pub fn get_pitch_class(&self) -> (r: PitchClass)
        ensures
            r.0 == self.0 % 12,
            r.wf(),
    {
        PitchClass(self.0 % 12)
    }

    /// The pitch that lies `semitones` above (below, if negative), or a
    /// range error if that pitch is below 0 or above 255.
    pub fn transpose(self, semitones: i8) -> (r: Result<Pitch, ParsePitchError>)
        ensures
            in_pitch_range(self.0 + semitones) ==> (r matches Ok(p) && p.0 == self.0 + semitones),
            !in_pitch_range(self.0 + semitones) ==> (r matches Err(e) && e.kind
                == ErrorKind::Range),
    {
        match self.0.checked_add_signed(semitones) {
            Some(v) => Ok(Pitch(v)),
            None => Err(ParsePitchError { kind: ErrorKind::Range }),
        }
    }

    /// The pitch of one of the listed classes that is nearest to this one;
    /// of two that are equally near, the lower. There is none only if the
    /// list holds none of the twelve classes.
    pub fn get_nearest_pitch_by_pitch_class(&self, pitch_classes: &Vec<PitchClass>) -> (r: Result<
        Pitch,
        ParsePitchError,
    >)
        ensures
            any_class_usable(pitch_classes@) ==> (r matches Ok(q) && is_nearest(
                self.0 as int,
                pitch_classes@,
                q.0 as int,
            ) && q.0 == nearest_pitch(self.0 as int, pitch_classes@)),
            !any_class_usable(pitch_classes@) ==> (r matches Err(e) && e.kind == ErrorKind::Empty),
    {
        let from: u8 = self.0;
        let mut offset: u8 = 0;
        while offset < 12
            invariant
                offset <= 12,
                from == self.0,
                forall|other: int|
                    in_pitch_range(other) && magnitude(other - from) < offset ==> !#[trigger] class_listed(
                        pitch_classes@,
                        other,
                    ),
            decreases 12 - offset,
        {
            if from >= offset {
                let low = Pitch(from - offset);
                if low.get_pitch_class().position_in(pitch_classes).is_some() {
                    proof {
                        assert(class_listed(pitch_classes@, low.0 as int));
                        assert forall|other: int|
                            in_pitch_range(other) && #[trigger] class_listed(
                                pitch_classes@,
                                other,
                            ) implies {
                            ||| magnitude(low.0 - from) < magnitude(other - from)
                            ||| (magnitude(low.0 - from) == magnitude(other - from) && low.0
                                <= other)
                        } by {
                            assert(magnitude(other - from) >= offset);
                        }
                        assert(is_nearest(from as int, pitch_classes@, low.0 as int));
                        lemma_nearest_unique(
                            from as int,
                            pitch_classes@,
                            low.0 as int,
                            nearest_pitch(from as int, pitch_classes@),
                        );
                    }
                    return Ok(low);
                }
                assert(!class_listed(pitch_classes@, from - offset));
            }
            if from <= 255 - offset {
                let high = Pitch(from + offset);
                if high.get_pitch_class().position_in(pitch_classes).is_some() {
                    proof {
                        assert forall|other: int|
                            in_pitch_range(other) && #[trigger] class_listed(
                                pitch_classes@,
                                other,
                            ) implies {
                            ||| magnitude(high.0 - from) < magnitude(other - from)
                            ||| (magnitude(high.0 - from) == magnitude(other - from) && high.0
                                <= other)
                        } by {
                            assert(magnitude(other - from) >= offset);
                            if other == from - offset {
                                assert(!class_listed(pitch_classes@, from - offset));
                            }
                        }
                        assert(class_listed(pitch_classes@, high.0 as int));
                        assert(is_nearest(from as int, pitch_classes@, high.0 as int));
                        lemma_nearest_unique(
                            from as int,
                            pitch_classes@,
                            high.0 as int,
                            nearest_pitch(from as int, pitch_classes@),
                        );
                    }
                    return Ok(high);
                }
                assert(!class_listed(pitch_classes@, from + offset));
            }
            offset = offset + 1;
        }
        proof {
            assert forall|i: int| 0 <= i < pitch_classes@.len() implies !(#[trigger] pitch_classes@[i]).wf() by {
                if pitch_classes@[i].wf() {
                    let c = pitch_classes@[i].0 as int;
                    let d = (from - c) % 12;
                    let w = if from - d >= 0 {
                        from - d
                    } else {
                        from - d + 12
                    };
                    assert(w % 12 == c);
                    assert(in_pitch_range(w));
                    assert(magnitude(w - from) < 12);
                    assert(class_listed(pitch_classes@, w));
                }
            }
        }
        Err(ParsePitchError { kind: ErrorKind::Empty })
    }

    /// The pitch that a letter, an accidental and an octave denote.
    pub fn from_stepname(stepname: Stepname, accidental: Accidental, octive: Option<u8>) -> (r: Pitch)
        requires
            in_pitch_range(stepname_value(stepname, accidental, octive)),
        ensures
            r.0 == stepname_value(stepname, accidental, octive),
    {
        let base: i16 = match stepname {
            Stepname::A => 9,
            Stepname::B => 11,
            Stepname::C => 0,
            Stepname::D => 2,
            Stepname::E => 4,
            Stepname::F => 5,
            Stepname::G => 7,
        };
        let shift: i16 = match accidental {
            Accidental::Natural => 0,
            Accidental::Sharp => 1,
            Accidental::Flat => -1,
        };
        let height: i16 = match octive {
            Some(p) => (p as i16 + 1) * 12,
            None => 0,
        };
        Pitch((base + shift + height) as u8)
    }
}

impl std::str::FromStr for Pitch {
    type Err = ParsePitchError;

    fn from_str(s: &str) -> (r: Result<Self, Self::Err>)
        ensures
            r == pitch_of_text(s@),
    {
        Pitch::from_str(s)
    }
}

} // verus!
