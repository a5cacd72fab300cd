use chordnova::chord::{CNChord, ParseCNChordError};
use chordnova::diff::ChordDiff;
use chordnova::pitch::{ErrorKind, Pitch};

fn chord(values: &[u8]) -> CNChord {
    let notes: Vec<Pitch> = values.iter().map(|v| Pitch(*v)).collect();
    CNChord::from_notes(&notes, false)
}

fn values(chord: &CNChord) -> Vec<u8> {
    chord.pitches().iter().map(|p| p.0).collect()
}

fn pair(r: Result<(CNChord, CNChord), ParseCNChordError>) -> (Vec<u8>, Vec<u8>) {
    let (first, second) = r.unwrap();
    (values(&first), values(&second))
}

fn moves(r: Result<ChordDiff, ParseCNChordError>) -> Vec<i16> {
    r.unwrap().diff_vec().clone()
}

#[test]
fn diff_of_equal_sizes_is_new_minus_old() {
    let d = chord(&[60, 64, 67]).diff(&chord(&[60, 65, 69])).unwrap();
    assert_eq!(d.diff_vec(), &vec![0, 1, 2]);
    assert_eq!(d.sv(), 3);
    assert_eq!(d.norm_sq(), 5);
    assert_eq!(d.to_string(), "<ChordDiff: [0, 1, 2], sv: 3, norm: 2.24>");
}

#[test]
fn diff_of_the_extremes() {
    let d = chord(&[0, 255]).diff(&chord(&[255, 255])).unwrap();
    assert_eq!(d.diff_vec(), &vec![255, 0]);
    let back = chord(&[255, 255]).diff(&chord(&[0, 255])).unwrap();
    assert_eq!(back.diff_vec(), &vec![-255, 0]);
}

#[test]
fn diff_the_other_way_round_is_negated() {
    let samples = [
        (vec![60, 64, 67], vec![53, 57, 60]),
        (vec![60, 64, 67], vec![60, 64, 67, 70]),
        (vec![48, 55, 64, 72], vec![60]),
        (vec![0, 255], vec![255, 255]),
    ];
    for (a, b) in samples {
        let forth = moves(chord(&a).diff(&chord(&b)));
        let back = moves(chord(&b).diff(&chord(&a)));
        assert_eq!(forth.len(), back.len());
        for i in 0..forth.len() {
            assert_eq!(forth[i], -back[i]);
        }
    }
}

#[test]
fn diff_of_a_smaller_chord_stretches_it() {
    let d = chord(&[60, 64, 67]).diff(&chord(&[60, 64, 67, 70])).unwrap();
    assert_eq!(d.diff_vec(), &vec![0, 0, 0, -3]);
    assert_eq!(d.sv(), 3);
    assert_eq!(d.norm_sq(), 9);
    assert_eq!(d.norm_hundredths(), 300);
}

#[test]
fn diff_of_a_larger_chord_is_turned_round() {
    let d = chord(&[60, 64, 67, 70]).diff(&chord(&[60, 64, 67])).unwrap();
    assert_eq!(d.diff_vec(), &vec![0, 0, 0, 3]);
    assert_eq!(d.sv(), 3);
}

#[test]
fn diff_of_two_empty_chords_is_empty() {
    let d = chord(&[]).diff(&chord(&[])).unwrap();
    assert_eq!(d.diff_vec(), &Vec::<i16>::new());
    assert_eq!(d.to_string(), "<ChordDiff: [], sv: 0, norm: 0.00>");
}

#[test]
fn diff_with_one_empty_chord_is_refused() {
    assert_eq!(chord(&[]).diff(&chord(&[60])).unwrap_err().kind, ErrorKind::Empty);
    assert_eq!(chord(&[60, 64]).diff(&chord(&[])).unwrap_err().kind, ErrorKind::Empty);
}

#[test]
fn pairs_of_equal_size_are_unchanged() {
    let r = chord(&[60, 64, 67]).find_best_chord_pairs(&chord(&[53, 57, 60]));
    assert_eq!(pair(r), (vec![60, 64, 67], vec![53, 57, 60]));
    let none = chord(&[]).find_best_chord_pairs(&chord(&[]));
    assert_eq!(pair(none), (vec![], vec![]));
}

#[test]
fn pairs_stretch_the_smaller_chord() {
    let r = chord(&[60, 64, 67]).find_best_chord_pairs(&chord(&[60, 64, 67, 70]));
    assert_eq!(pair(r), (vec![60, 64, 67, 67], vec![60, 64, 67, 70]));
    let swapped = chord(&[60, 64, 67, 70]).find_best_chord_pairs(&chord(&[60, 64, 67]));
    assert_eq!(pair(swapped), (vec![60, 64, 67, 70], vec![60, 64, 67, 67]));
}

#[test]
fn pairs_have_the_size_of_the_larger_chord() {
    let samples = [
        (vec![60], vec![55, 60, 65]),
        (vec![60, 64, 67], vec![60, 64, 67, 70]),
        (vec![48, 52, 55, 59, 62], vec![50, 53]),
        (vec![60, 64], vec![62, 65]),
        (vec![], vec![]),
    ];
    for (a, b) in samples {
        let (first, second) = pair(chord(&a).find_best_chord_pairs(&chord(&b)));
        let larger = a.len().max(b.len());
        assert_eq!(first.len(), larger);
        assert_eq!(second.len(), larger);
    }
}

#[test]
fn pairs_with_one_pitch_repeat_it() {
    let r = chord(&[60]).find_best_chord_pairs(&chord(&[55, 60, 65]));
    assert_eq!(pair(r), (vec![60, 60, 60], vec![55, 60, 65]));
}

#[test]
fn of_two_equally_close_expansions_the_first_is_taken() {
    let r = chord(&[60, 62]).find_best_chord_pairs(&chord(&[61, 61, 61]));
    assert_eq!(pair(r), (vec![60, 62, 62], vec![61, 61, 61]));
    let d = chord(&[60, 62]).diff(&chord(&[61, 61, 61])).unwrap();
    assert_eq!(d.diff_vec(), &vec![-1, 1, 1]);
}

#[test]
fn closest_expansion_is_found_among_many() {
    let r = chord(&[40, 80]).find_best_chord_pairs(&chord(&[41, 42, 43, 79, 81]));
    assert_eq!(pair(r), (vec![40, 40, 40, 80, 80], vec![41, 42, 43, 79, 81]));
    let d = chord(&[40, 80]).diff(&chord(&[41, 42, 43, 79, 81])).unwrap();
    assert_eq!(d.diff_vec(), &vec![-1, -2, -3, 1, -1]);
    assert_eq!(d.sv(), 8);
}

#[test]
fn pairs_with_one_empty_chord_are_refused() {
    let r = chord(&[]).find_best_chord_pairs(&chord(&[60]));
    assert_eq!(r.unwrap_err().kind, ErrorKind::Empty);
    let s = chord(&[60]).find_best_chord_pairs(&chord(&[]));
    assert_eq!(s.unwrap_err().kind, ErrorKind::Empty);
}

#[test]
fn voice_leading_inverts_the_second_chord() {
    let r = chord(&[60, 64, 67]).find_vec_simple(&chord(&[53, 57, 60]));
    assert_eq!(pair(r), (vec![60, 64, 67], vec![60, 65, 69]));
}

#[test]
fn voice_leading_beats_the_plain_comparison() {
    let first = chord(&[60, 64, 67]);
    let second = chord(&[53, 57, 60]);
    let (a, b) = first.find_vec_simple(&second).unwrap();
    let found = a.diff(&b).unwrap().sv();
    let plain = first.diff(&second).unwrap().sv();
    assert_eq!(found, 3);
    assert_eq!(plain, 21);
}

#[test]
fn voice_leading_shifts_an_octave_down() {
    let r = chord(&[59, 62, 65]).find_vec_simple(&chord(&[67, 71, 74]));
    assert_eq!(pair(r), (vec![59, 62, 65], vec![59, 62, 67]));
}

#[test]
fn voice_leading_pairs_chords_of_different_size() {
    let r = chord(&[48, 52, 55]).find_vec_simple(&chord(&[48, 52, 55, 59]));
    assert_eq!(pair(r), (vec![48, 48, 52, 55], vec![47, 48, 52, 55]));
}

#[test]
fn of_two_equally_close_transforms_the_lower_shift_is_taken() {
    let r = chord(&[66]).find_vec_simple(&chord(&[72]));
    assert_eq!(pair(r), (vec![66], vec![60]));
}

#[test]
fn voice_leading_passes_over_transforms_out_of_range() {
    let r = chord(&[5]).find_vec_simple(&chord(&[5]));
    assert_eq!(pair(r), (vec![5], vec![5]));
    let high = chord(&[250, 252]).find_vec_simple(&chord(&[250, 252]));
    assert_eq!(pair(high), (vec![250, 252], vec![250, 252]));
}

#[test]
fn voice_leading_refuses_empty_chords() {
    let r = chord(&[]).find_vec_simple(&chord(&[60]));
    assert_eq!(r.unwrap_err().kind, ErrorKind::Empty);
    let s = chord(&[60]).find_vec_simple(&chord(&[]));
    assert_eq!(s.unwrap_err().kind, ErrorKind::Empty);
    let t = chord(&[]).find_vec_simple(&chord(&[]));
    assert_eq!(t.unwrap_err().kind, ErrorKind::Empty);
}

#[test]
fn find_vec_chooses_the_policy() {
    let first = chord(&[60, 64, 67]);
    let second = chord(&[53, 57, 60]);
    let plain = first.find_vec(&second, false, false);
    assert_eq!(pair(plain), (vec![60, 64, 67], vec![53, 57, 60]));
    let substituted = first.find_vec(&second, false, true);
    assert_eq!(pair(substituted), (vec![60, 64, 67], vec![60, 65, 69]));
    let analysed = first.find_vec(&second, true, false);
    assert_eq!(pair(analysed), (vec![60, 64, 67], vec![53, 57, 60]));
}

#[test]
fn matching_by_class_takes_the_nearest_unused_class() {
    let r = chord(&[60, 64, 67]).find_vec_by_pitch_class(&chord(&[53, 57, 60]));
    assert_eq!(pair(r), (vec![60, 64, 67], vec![60, 65, 69]));
}

#[test]
fn matching_by_class_keeps_the_size_of_the_first_chord() {
    let r = chord(&[48, 52, 55]).find_vec_by_pitch_class(&chord(&[48, 52, 55, 59]));
    assert_eq!(pair(r), (vec![48, 52, 55], vec![48, 52, 55]));
}

#[test]
fn matching_by_class_gives_an_ascending_chord() {
    let r = chord(&[60, 61]).find_vec_by_pitch_class(&chord(&[58, 61]));
    assert_eq!(pair(r), (vec![60, 61], vec![58, 61]));
}

#[test]
fn matching_by_class_runs_out_of_classes() {
    let r = chord(&[60, 64, 67]).find_vec_by_pitch_class(&chord(&[60]));
    assert_eq!(r.unwrap_err().kind, ErrorKind::Empty);
    let s = chord(&[60]).find_vec_by_pitch_class(&chord(&[]));
    assert_eq!(s.unwrap_err().kind, ErrorKind::Empty);
}

#[test]
fn matching_by_class_of_an_empty_chord_is_empty() {
    let r = chord(&[]).find_vec_by_pitch_class(&chord(&[60]));
    assert_eq!(pair(r), (vec![], vec![]));
}

fn all_seam_maps(total: usize, seams: usize) -> Vec<Vec<usize>> {
    fn extend(low: usize, total: usize, seams: usize, prefix: &mut Vec<usize>, out: &mut Vec<Vec<usize>>) {
        if seams == 0 {
            out.push(prefix.clone());
            return;
        }
        for first in low..total {
            prefix.push(first);
            extend(first + 1, total, seams - 1, prefix, out);
            prefix.pop();
        }
    }
    let mut out = Vec::new();
    extend(1, total, seams, &mut Vec::new(), &mut out);
    out
}

fn distance(a: &[u8], b: &[u8]) -> u128 {
    a.iter().zip(b.iter()).map(|(x, y)| (*x as i32 - *y as i32).unsigned_abs() as u128).sum()
}

#[test]
fn stretched_chord_is_the_first_closest_of_all_expansions() {
    let mut state: u32 = 12345;
    let mut next = |bound: u32| -> u32 {
        state = state.wrapping_mul(1664525).wrapping_add(1013904223);
        (state >> 16) % bound
    };
    for _ in 0..200 {
        let small = 1 + next(4) as usize;
        let large = small + 1 + next(4) as usize;
        let a: Vec<u8> = (0..small).map(|_| 40 + next(30) as u8).collect();
        let b: Vec<u8> = (0..large).map(|_| 40 + next(30) as u8).collect();
        let first = chord(&a);
        let second = chord(&b);
        let target = values(&second);
        let mut expected: Option<(u128, Vec<u8>)> = None;
        for map in all_seam_maps(large, small - 1) {
            let candidate = values(&first.apply_expansion(&map, large));
            let cost = distance(&candidate, &target);
            let better = match &expected {
                None => true,
                Some((held, _)) => cost < *held,
            };
            if better {
                expected = Some((cost, candidate));
            }
        }
        let (cost, stretched) = expected.unwrap();
        let (found, kept) = pair(first.find_best_chord_pairs(&second));
        assert_eq!(found, stretched);
        assert_eq!(kept, target);
        assert_eq!(first.diff(&second).unwrap().sv(), cost);
        assert_eq!(second.diff(&first).unwrap().sv(), cost);
    }
}

#[test]
fn voice_leading_is_the_first_closest_of_all_transforms() {
    let mut state: u32 = 777;
    let mut next = |bound: u32| -> u32 {
        state = state.wrapping_mul(1664525).wrapping_add(1013904223);
        (state >> 16) % bound
    };
    for _ in 0..100 {
        let size_a = 1 + next(4) as usize;
        let size_b = 1 + next(4) as usize;
        let a: Vec<u8> = (0..size_a).map(|_| next(256) as u8).collect();
        let b: Vec<u8> = (0..size_b).map(|_| next(256) as u8).collect();
        let first = chord(&a);
        let second = chord(&b);
        let mut expected: Option<(u128, Vec<u8>)> = None;
        for octave in [-1i8, 0i8] {
            for inversion in 0..size_b {
                if let Ok(turned) = second.apply_inversion(octave, inversion) {
                    let cost = first.diff(&turned).unwrap().sv();
                    let better = match &expected {
                        None => true,
                        Some((held, _)) => cost < *held,
                    };
                    if better {
                        expected = Some((cost, values(&turned)));
                    }
                }
            }
        }
        let (_, turned) = expected.unwrap();
        let wanted = pair(first.find_best_chord_pairs(&chord(&turned)));
        assert_eq!(pair(first.find_vec_simple(&second)), wanted);
    }
}
