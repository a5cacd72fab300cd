use chordnova::pitch::{
    convert_ps_to_step, Accidental, ErrorKind, ParseAccidentalError, ParsePitchError,
    ParseStepnameError, Pitch, PitchClass, Stepname,
};

fn range_error() -> ParsePitchError {
    ParsePitchError { kind: ErrorKind::Range }
}

fn syntax_error() -> ParsePitchError {
    ParsePitchError { kind: ErrorKind::Syntax }
}

#[test]
fn stepname_reads_each_letter() {
    assert_eq!(Stepname::from_str("A"), Ok(Stepname::A));
    assert_eq!(Stepname::from_str("B"), Ok(Stepname::B));
    assert_eq!(Stepname::from_str("C"), Ok(Stepname::C));
    assert_eq!(Stepname::from_str("D"), Ok(Stepname::D));
    assert_eq!(Stepname::from_str("E"), Ok(Stepname::E));
    assert_eq!(Stepname::from_str("F"), Ok(Stepname::F));
    assert_eq!(Stepname::from_str("G"), Ok(Stepname::G));
}

#[test]
fn stepname_refuses_other_text() {
    assert_eq!(Stepname::from_str("H"), Err(ParseStepnameError));
    assert_eq!(Stepname::from_str(""), Err(ParseStepnameError));
    assert_eq!(Stepname::from_str("AB"), Err(ParseStepnameError));
    assert_eq!(Stepname::from_str("a"), Err(ParseStepnameError));
}

#[test]
fn stepname_is_written_as_its_letter() {
    assert_eq!(Stepname::C.to_string(), "C");
    assert_eq!(Stepname::B.to_string(), "B");
    assert_eq!(Stepname::G.to_char(), 'G');
    assert_eq!(Stepname::from_char('E'), Some(Stepname::E));
    assert_eq!(Stepname::from_char('e'), None);
}

#[test]
fn stepname_parses_through_the_trait() {
    assert_eq!("D".parse::<Stepname>(), Ok(Stepname::D));
    assert_eq!("#".parse::<Accidental>(), Ok(Accidental::Sharp));
    assert_eq!("F#3".parse::<Pitch>(), Ok(Pitch(54)));
}

#[test]
fn accidental_reads_its_marks() {
    assert_eq!(Accidental::from_str(""), Ok(Accidental::Natural));
    assert_eq!(Accidental::from_str("#"), Ok(Accidental::Sharp));
    assert_eq!(Accidental::from_str("-"), Ok(Accidental::Flat));
    assert_eq!(Accidental::from_str("b"), Err(ParseAccidentalError));
    assert_eq!(Accidental::from_str("##"), Err(ParseAccidentalError));
}

#[test]
fn accidental_is_written_as_its_mark() {
    assert_eq!(Accidental::Natural.to_string(), "");
    assert_eq!(Accidental::Sharp.to_string(), "#");
    assert_eq!(Accidental::Flat.to_string(), "-");
}

#[test]
fn each_class_is_of_one_kind() {
    let naturals: Vec<u8> = vec![0, 2, 4, 5, 7, 9, 11];
    let sharpables: Vec<u8> = vec![1, 6, 8];
    let flatables: Vec<u8> = vec![3, 10];
    for c in 0u8..=255 {
        let class = PitchClass(c);
        assert_eq!(class.is_natural(), naturals.contains(&c));
        assert_eq!(class.is_sharpable(), sharpables.contains(&c));
        assert_eq!(class.is_flatable(), flatables.contains(&c));
    }
}

#[test]
fn each_class_has_its_spelling() {
    let expected = vec![
        (Stepname::C, Accidental::Natural),
        (Stepname::C, Accidental::Sharp),
        (Stepname::D, Accidental::Natural),
        (Stepname::E, Accidental::Flat),
        (Stepname::E, Accidental::Natural),
        (Stepname::F, Accidental::Natural),
        (Stepname::F, Accidental::Sharp),
        (Stepname::G, Accidental::Natural),
        (Stepname::G, Accidental::Sharp),
        (Stepname::A, Accidental::Natural),
        (Stepname::B, Accidental::Flat),
        (Stepname::B, Accidental::Natural),
    ];
    for c in 0u8..12 {
        assert_eq!(PitchClass(c).to_step_name(), expected[c as usize]);
    }
}

#[test]
fn pitch_values_are_spelled_with_their_octave() {
    assert_eq!(convert_ps_to_step(60), (Stepname::C, Accidental::Natural, Some(4)));
    assert_eq!(convert_ps_to_step(0), (Stepname::C, Accidental::Natural, None));
    assert_eq!(convert_ps_to_step(11), (Stepname::B, Accidental::Natural, None));
    assert_eq!(convert_ps_to_step(12), (Stepname::C, Accidental::Natural, Some(0)));
    assert_eq!(convert_ps_to_step(70), (Stepname::B, Accidental::Flat, Some(4)));
    assert_eq!(convert_ps_to_step(255), (Stepname::E, Accidental::Flat, Some(20)));
    assert_eq!(Pitch(54).convert_ps_to_step(), (Stepname::F, Accidental::Sharp, Some(3)));
}

#[test]
fn pitches_have_names() {
    assert_eq!(Pitch(60).get_name(), "C4");
    assert_eq!(Pitch(70).get_name(), "B-4");
    assert_eq!(Pitch(54).get_name(), "F#3");
    assert_eq!(Pitch(0).get_name(), "C");
    assert_eq!(Pitch(10).get_name(), "B-");
    assert_eq!(Pitch(12).get_name(), "C0");
    assert_eq!(Pitch(255).get_name(), "E-20");
    assert_eq!(Pitch(132).get_name(), "C10");
}

#[test]
fn pitch_class_is_the_value_modulo_twelve() {
    assert_eq!(Pitch(60).get_pitch_class(), PitchClass(0));
    assert_eq!(Pitch(70).get_pitch_class(), PitchClass(10));
    assert_eq!(Pitch(255).get_pitch_class(), PitchClass(3));
    assert_eq!(Pitch(11).get_pitch_class(), PitchClass(11));
}

#[test]
fn letters_accidentals_and_octaves_give_pitches() {
    assert_eq!(Pitch::from_stepname(Stepname::C, Accidental::Natural, Some(4)), Pitch(60));
    assert_eq!(Pitch::from_stepname(Stepname::B, Accidental::Flat, Some(4)), Pitch(70));
    assert_eq!(Pitch::from_stepname(Stepname::F, Accidental::Sharp, Some(3)), Pitch(54));
    assert_eq!(Pitch::from_stepname(Stepname::C, Accidental::Natural, None), Pitch(0));
    assert_eq!(Pitch::from_stepname(Stepname::A, Accidental::Natural, Some(0)), Pitch(21));
    assert_eq!(Pitch::from_stepname(Stepname::E, Accidental::Flat, Some(20)), Pitch(255));
}

#[test]
fn transposing_moves_by_semitones() {
    assert_eq!(Pitch(60).transpose(12), Ok(Pitch(72)));
    assert_eq!(Pitch(60).transpose(-12), Ok(Pitch(48)));
    assert_eq!(Pitch(60).transpose(0), Ok(Pitch(60)));
    assert_eq!(Pitch(200).transpose(55), Ok(Pitch(255)));
    assert_eq!(Pitch(128).transpose(-128), Ok(Pitch(0)));
    assert_eq!(Pitch(255).transpose(-1), Ok(Pitch(254)));
}

#[test]
fn transposing_out_of_range_is_an_error() {
    assert_eq!(Pitch(250).transpose(10), Err(range_error()));
    assert_eq!(Pitch(255).transpose(1), Err(range_error()));
    assert_eq!(Pitch(5).transpose(-6), Err(range_error()));
    assert_eq!(Pitch(0).transpose(-1), Err(range_error()));
    assert_eq!(Pitch(127).transpose(-128), Err(range_error()));
}

#[test]
fn names_are_read_as_pitches() {
    assert_eq!(Pitch::from_str("C4"), Ok(Pitch(60)));
    assert_eq!(Pitch::from_str("B-4"), Ok(Pitch(70)));
    assert_eq!(Pitch::from_str("F#3"), Ok(Pitch(54)));
    assert_eq!(Pitch::from_str("C"), Ok(Pitch(0)));
    assert_eq!(Pitch::from_str("C#"), Ok(Pitch(1)));
    assert_eq!(Pitch::from_str("C0"), Ok(Pitch(12)));
    assert_eq!(Pitch::from_str("C04"), Ok(Pitch(60)));
    assert_eq!(Pitch::from_str("D-4"), Ok(Pitch(61)));
    assert_eq!(Pitch::from_str("E-20"), Ok(Pitch(255)));
}

#[test]
fn text_that_is_no_name_is_a_syntax_error() {
    assert_eq!(Pitch::from_str(""), Err(syntax_error()));
    assert_eq!(Pitch::from_str("H4"), Err(syntax_error()));
    assert_eq!(Pitch::from_str("c4"), Err(syntax_error()));
    assert_eq!(Pitch::from_str("4"), Err(syntax_error()));
    assert_eq!(Pitch::from_str("C#x"), Err(syntax_error()));
    assert_eq!(Pitch::from_str("C4 "), Err(syntax_error()));
    assert_eq!(Pitch::from_str("C4#"), Err(syntax_error()));
    assert_eq!(Pitch::from_str("C##4"), Err(syntax_error()));
    assert_eq!(Pitch::from_str("C\u{e9}"), Err(syntax_error()));
}

#[test]
fn names_of_no_pitch_are_a_range_error() {
    assert_eq!(Pitch::from_str("C-"), Err(range_error()));
    assert_eq!(Pitch::from_str("E20"), Err(range_error()));
    assert_eq!(Pitch::from_str("C21"), Err(range_error()));
    assert_eq!(Pitch::from_str("C999"), Err(range_error()));
    assert_eq!(Pitch::from_str("C99999999999999999999999999"), Err(range_error()));
}

#[test]
fn every_name_reads_back_as_its_pitch() {
    for v in 0u8..=255 {
        let name = Pitch(v).get_name();
        assert_eq!(Pitch::from_str(&name), Ok(Pitch(v)));
    }
}

#[test]
fn nearest_pitch_of_a_listed_class() {
    let classes = vec![PitchClass(5), PitchClass(9)];
    assert_eq!(Pitch(64).get_nearest_pitch_by_pitch_class(&classes), Ok(Pitch(65)));
    assert_eq!(Pitch(65).get_nearest_pitch_by_pitch_class(&classes), Ok(Pitch(65)));
    assert_eq!(Pitch(68).get_nearest_pitch_by_pitch_class(&classes), Ok(Pitch(69)));
    assert_eq!(Pitch(67).get_nearest_pitch_by_pitch_class(&classes), Ok(Pitch(65)));
    assert_eq!(Pitch(60).get_nearest_pitch_by_pitch_class(&vec![PitchClass(0)]), Ok(Pitch(60)));
}

#[test]
fn of_two_equally_near_pitches_the_lower_is_taken() {
    let classes = vec![PitchClass(7), PitchClass(5)];
    assert_eq!(Pitch(66).get_nearest_pitch_by_pitch_class(&classes), Ok(Pitch(65)));
    let tritone = vec![PitchClass(6)];
    assert_eq!(Pitch(60).get_nearest_pitch_by_pitch_class(&tritone), Ok(Pitch(54)));
}

#[test]
fn nearest_pitch_stays_in_range() {
    assert_eq!(Pitch(0).get_nearest_pitch_by_pitch_class(&vec![PitchClass(11)]), Ok(Pitch(11)));
    assert_eq!(Pitch(255).get_nearest_pitch_by_pitch_class(&vec![PitchClass(4)]), Ok(Pitch(244)));
    assert_eq!(Pitch(3).get_nearest_pitch_by_pitch_class(&vec![PitchClass(9)]), Ok(Pitch(9)));
}

#[test]
fn nearest_pitch_needs_a_class() {
    let empty = ParsePitchError { kind: ErrorKind::Empty };
    assert_eq!(Pitch(60).get_nearest_pitch_by_pitch_class(&vec![]), Err(empty));
    assert_eq!(Pitch(60).get_nearest_pitch_by_pitch_class(&vec![PitchClass(12)]), Err(empty));
}

#[test]
fn position_of_a_class_is_its_first() {
    let classes = vec![PitchClass(4), PitchClass(0), PitchClass(4)];
    assert_eq!(PitchClass(4).position_in(&classes), Some(0));
    assert_eq!(PitchClass(0).position_in(&classes), Some(1));
    assert_eq!(PitchClass(7).position_in(&classes), None);
}

#[test]
fn pitches_are_ordered_by_value() {
    assert!(Pitch(59) < Pitch(60));
    assert!(Pitch(60) <= Pitch(60));
    assert!(Pitch(255) > Pitch(0));
    assert_eq!(Pitch(60), Pitch(60));
    assert_ne!(Pitch(60), Pitch(61));
    let mut notes = vec![Pitch(67), Pitch(60), Pitch(64)];
    notes.sort();
    assert_eq!(notes, vec![Pitch(60), Pitch(64), Pitch(67)]);
    assert_eq!(Pitch(1).max(Pitch(2)), Pitch(2));
}
