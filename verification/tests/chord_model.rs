use chordnova::chord::{CNChord, OutputMode, OverflowState, ParseCNChordError};
use chordnova::pitch::{ErrorKind, Pitch, PitchClass};

fn chord(values: &[u8]) -> CNChord {
    let notes: Vec<Pitch> = values.iter().map(|v| Pitch(*v)).collect();
    CNChord::from_notes(&notes, false)
}

fn values(chord: &CNChord) -> Vec<u8> {
    chord.pitches().iter().map(|p| p.0).collect()
}

fn kind_of(r: Result<CNChord, ParseCNChordError>) -> ErrorKind {
    r.unwrap_err().kind
}

#[test]
fn notes_are_sorted() {
    assert_eq!(values(&chord(&[67, 60, 64])), vec![60, 64, 67]);
    assert_eq!(values(&chord(&[60, 60, 64])), vec![60, 60, 64]);
    assert_eq!(values(&chord(&[255, 0, 128, 0])), vec![0, 0, 128, 255]);
    assert_eq!(values(&chord(&[])), Vec::<u8>::new());
}

#[test]
fn notes_are_deduplicated_on_request() {
    let notes = vec![Pitch(64), Pitch(60), Pitch(60), Pitch(64), Pitch(67)];
    assert_eq!(values(&CNChord::from_notes(&notes, true)), vec![60, 64, 67]);
    assert_eq!(values(&CNChord::from_notes(&notes, false)), vec![60, 60, 64, 64, 67]);
}

#[test]
fn size_is_the_number_of_pitches() {
    assert_eq!(chord(&[]).t_size(), 0);
    assert_eq!(chord(&[60]).t_size(), 1);
    assert_eq!(chord(&[60, 60, 64]).t_size(), 3);
}

#[test]
fn pitch_classes_collapse_equal_neighbours() {
    assert_eq!(
        chord(&[60, 64, 67]).get_pitch_classes(),
        vec![PitchClass(0), PitchClass(4), PitchClass(7)]
    );
    assert_eq!(chord(&[60, 72]).get_pitch_classes(), vec![PitchClass(0)]);
    assert_eq!(
        chord(&[60, 64, 72]).get_pitch_classes(),
        vec![PitchClass(0), PitchClass(4), PitchClass(0)]
    );
    assert_eq!(chord(&[]).get_pitch_classes(), Vec::<PitchClass>::new());
}

#[test]
fn inversion_at_zero_without_shift_is_the_chord() {
    for c in [chord(&[60, 64, 67]), chord(&[0, 255]), chord(&[]), chord(&[7, 7, 7])] {
        assert_eq!(values(&c.apply_inversion(0, 0).unwrap()), values(&c));
    }
}

#[test]
fn inversion_raises_the_pitches_it_moves() {
    let c_major = chord(&[60, 64, 67]);
    assert_eq!(values(&c_major.apply_inversion(0, 1).unwrap()), vec![64, 67, 72]);
    assert_eq!(values(&c_major.apply_inversion(0, 2).unwrap()), vec![67, 72, 76]);
    assert_eq!(values(&c_major.apply_inversion(0, 3).unwrap()), vec![60, 64, 67]);
    assert_eq!(values(&chord(&[60, 72]).apply_inversion(0, 1).unwrap()), vec![72, 72]);
    assert_eq!(values(&chord(&[60, 73]).apply_inversion(0, 1).unwrap()), vec![73, 84]);
}

#[test]
fn inversion_shifts_by_octaves() {
    let c_major = chord(&[60, 64, 67]);
    assert_eq!(values(&c_major.apply_inversion(-1, 1).unwrap()), vec![52, 55, 60]);
    assert_eq!(values(&c_major.apply_inversion(1, 0).unwrap()), vec![72, 76, 79]);
    assert_eq!(values(&c_major.apply_inversion(-5, 0).unwrap()), vec![0, 4, 7]);
    assert_eq!(values(&c_major.apply_inversion(15, 0).unwrap()), vec![240, 244, 247]);
}

#[test]
fn inversion_is_kept_ascending() {
    assert_eq!(values(&chord(&[0, 20, 30]).apply_inversion(0, 2).unwrap()), vec![12, 30, 32]);
}

#[test]
fn inversion_out_of_range_is_an_error() {
    assert_eq!(kind_of(chord(&[250, 252]).apply_inversion(0, 1)), ErrorKind::Range);
    assert_eq!(kind_of(chord(&[5]).apply_inversion(-1, 0)), ErrorKind::Range);
    assert_eq!(kind_of(chord(&[60, 64, 67]).apply_inversion(16, 0)), ErrorKind::Range);
    assert_eq!(kind_of(chord(&[60, 64, 67]).apply_inversion(-128, 0)), ErrorKind::Range);
    assert_eq!(kind_of(chord(&[60, 64, 67]).apply_inversion(127, 2)), ErrorKind::Range);
}

#[test]
fn expansion_repeats_pitches_up_to_each_seam() {
    let c_major = chord(&[60, 64, 67]);
    assert_eq!(values(&c_major.apply_expansion(&vec![1, 2], 4)), vec![60, 64, 67, 67]);
    assert_eq!(values(&c_major.apply_expansion(&vec![1, 3], 4)), vec![60, 64, 64, 67]);
    assert_eq!(values(&c_major.apply_expansion(&vec![2, 3], 4)), vec![60, 60, 64, 67]);
    assert_eq!(values(&c_major.apply_expansion(&vec![1, 2], 3)), vec![60, 64, 67]);
    assert_eq!(values(&c_major.apply_expansion(&vec![2, 5], 6)), vec![60, 60, 64, 64, 64, 67]);
}

#[test]
fn expansion_of_one_pitch_repeats_it() {
    assert_eq!(values(&chord(&[60]).apply_expansion(&vec![], 3)), vec![60, 60, 60]);
    assert_eq!(values(&chord(&[60]).apply_expansion(&vec![], 0)), Vec::<u8>::new());
    assert_eq!(values(&chord(&[]).apply_expansion(&vec![], 0)), Vec::<u8>::new());
}

#[test]
fn expansion_looks_only_at_the_next_seam() {
    assert_eq!(values(&chord(&[60, 64]).apply_expansion(&vec![3], 3)), vec![60, 60, 60]);
    assert_eq!(values(&chord(&[60, 64, 67]).apply_expansion(&vec![2, 1], 4)), vec![60, 60, 64, 64]);
    assert_eq!(values(&chord(&[60, 64]).apply_expansion(&vec![0], 2)), vec![60, 60]);
}

#[test]
fn expansion_to_the_same_size_with_every_seam_is_the_chord() {
    let c = chord(&[60, 64, 67, 70]);
    assert_eq!(values(&c.apply_expansion(&vec![1, 2, 3], 4)), values(&c));
}

#[test]
fn expansion_read_back_expands_to_the_same_chord() {
    let source = chord(&[60, 64, 67]);
    let stretched = source.apply_expansion(&vec![2, 5], 6);
    let pitches = values(&stretched);
    let mut seams: Vec<usize> = Vec::new();
    for position in 1..pitches.len() {
        if pitches[position] != pitches[position - 1] {
            seams.push(position);
        }
    }
    assert_eq!(seams, vec![2, 5]);
    assert_eq!(values(&source.apply_expansion(&seams, 6)), pitches);
}

#[test]
fn chords_are_read_with_either_separator() {
    assert_eq!(values(&CNChord::from_str("C4 E4 G4").unwrap()), vec![60, 64, 67]);
    assert_eq!(values(&CNChord::from_str("C4, E4, G4").unwrap()), vec![60, 64, 67]);
    assert_eq!(values(&CNChord::from_str("C4, E4 G4").unwrap()), vec![60, 64, 67]);
    assert_eq!(values(&CNChord::from_str("B-4").unwrap()), vec![70]);
    assert_eq!(values(&"C4 F4 A4".parse::<CNChord>().unwrap()), vec![60, 65, 69]);
}

#[test]
fn chords_read_from_text_are_sorted() {
    assert_eq!(CNChord::from_str("G4 C4 E4").unwrap().to_string(), "C4, E4, G4");
    assert_eq!(CNChord::from_str("C4 C4").unwrap().to_string(), "C4, C4");
}

#[test]
fn text_that_is_no_chord_is_a_syntax_error() {
    for text in ["", " ", "C4 ", " C4", "C4  E4", "C4,E4", "C4 ,E4", "C4, ", "C4 H4", "C4;E4", ","] {
        assert_eq!(kind_of(CNChord::from_str(text)), ErrorKind::Syntax);
    }
}

#[test]
fn chord_with_a_name_of_no_pitch_is_a_range_error() {
    assert_eq!(kind_of(CNChord::from_str("C4 C30")), ErrorKind::Range);
    assert_eq!(kind_of(CNChord::from_str("C- C4")), ErrorKind::Range);
}

#[test]
fn first_error_in_the_text_wins() {
    assert_eq!(kind_of(CNChord::from_str("C30 H4")), ErrorKind::Range);
    assert_eq!(kind_of(CNChord::from_str("H4 C30")), ErrorKind::Syntax);
}

#[test]
fn chords_are_written_with_comma_and_space() {
    assert_eq!(chord(&[]).to_string(), "");
    assert_eq!(chord(&[60]).to_string(), "C4");
    assert_eq!(chord(&[0, 61, 255]).to_string(), "C, C#4, E-20");
}

#[test]
fn chord_text_reads_back_as_the_chord() {
    let mut all: Vec<u8> = Vec::new();
    for v in 0u8..=255 {
        all.push(v);
    }
    for c in [chord(&[60, 64, 67, 70]), chord(&[0, 1, 2]), chord(&[5, 5]), chord(&all)] {
        let text = c.to_string();
        assert_eq!(values(&CNChord::from_str(&text).unwrap()), values(&c));
    }
}

#[test]
fn clone_keeps_the_pitches() {
    let c = chord(&[60, 64, 67]);
    assert_eq!(values(&c.clone()), vec![60, 64, 67]);
}

#[test]
fn modes_and_states_compare() {
    assert_eq!(OverflowState::NoOverflow, OverflowState::NoOverflow);
    assert_ne!(OverflowState::Single, OverflowState::Total);
    assert_eq!(OutputMode::Both, OutputMode::Both);
    assert_ne!(OutputMode::MidiOnly, OutputMode::TextOnly);
}
