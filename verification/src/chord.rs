//! Chords: ascending sequences of pitches, and the ways to derive one chord
//! from another.

use crate::order::{
    ascending, collapse_adjacent, dedup_bytes, is_ascending, lemma_ascending_unique,
    lemma_collapse_ascending, sorted_bytes,
};
use crate::pitch::{in_pitch_range, pitch_name, ErrorKind, Pitch, PitchClass};
use crate::pitchparser::{
    chars_of, is_separator, lemma_name_round_trip, lemma_token_len, pitches_of_text,
    separator_len, with_pitches, PitchParser,
};
use crate::seams::{expanded, lemma_cursor_bounds, seam_cursor};
use crate::text::{join_texts, joined, lemma_joined_front, list_separator, text_views};
use vstd::prelude::*;

verus! {

/// How far a generated chord left the allowed range.
#[derive(Clone, Copy, Debug, PartialEq, Eq, Structural)]
pub enum OverflowState {
    NoOverflow,
    Single,
    Total,
}

/// Where results are written to.
#[derive(Clone, Copy, Debug, PartialEq, Eq, Structural)]
pub enum OutputMode {
    Both,
    MidiOnly,
    TextOnly,
}

/// A chord could not be read or derived.
#[derive(Clone, Copy, Debug, PartialEq, Eq, Structural)]
pub struct ParseCNChordError {
    pub kind: ErrorKind,
}

/// The values of a sequence of pitches.
pub open spec fn pitch_values(s: Seq<Pitch>) -> Seq<u8> {
    s.map_values(|p: Pitch| p.0)
}

/// The pitch class of each value.
pub open spec fn classes_of(s: Seq<u8>) -> Seq<u8> {
    s.map_values(|v: u8| v % 12)
}

/// The pitch classes of a chord in the order of its pitches, each run of
/// equal classes reduced to one.
pub open spec fn pitch_classes(s: Seq<u8>) -> Seq<PitchClass> {
    collapse_adjacent(classes_of(s)).map_values(|v: u8| PitchClass(v))
}

/// A chord as text: the names of its pitches, with a comma and a space
/// between each two.
pub open spec fn chord_text(s: Seq<u8>) -> Seq<char> {
    joined(pitch_names(s), list_separator())
}

/// The chord that a text names: its pitches in ascending order.
pub open spec fn chord_of_text(t: Seq<char>) -> Result<Seq<u8>, ParseCNChordError> {
    match pitches_of_text(t) {
        Ok(pitches) => Ok(ascending(pitch_values(pitches))),
        Err(e) => Err(ParseCNChordError { kind: e.kind }),
    }
}

/// A chord, or the error in its place, by the view of the chord.
pub open spec fn chord_view(r: Result<CNChord, ParseCNChordError>) -> Result<
    Seq<u8>,
    ParseCNChordError,
> {
    match r {
        Ok(c) => Ok(c@),
        Err(e) => Err(e),
    }
}

/// The number of octaves by which the pitches that an inversion moves to
/// the end are raised: enough to lift the last of them to the chord's
/// highest pitch or above.
pub open spec fn inversion_lift(s: Seq<u8>, inversion: int) -> int {
    if inversion == 0 {
        0
    } else {
        (s.last() - s[inversion - 1] + 11) / 12
    }
}

/// The chord rotated by `inversion` places, the pitches moved to the end
/// raised by the lift, and all of it shifted by `octave` octaves; as
/// integers, which may lie outside the range of pitches.
pub open spec fn inverted_values(s: Seq<u8>, octave: int, inversion: int) -> Seq<int> {
    Seq::new(
        s.len(),
        |i: int|
            if i + inversion < s.len() {
                s[i + inversion] + 12 * octave
            } else {
                s[i + inversion - s.len()] + 12 * inversion_lift(s, inversion) + 12 * octave
            },
    )
}

/// Every pitch of the inversion is a pitch.
pub open spec fn inversion_in_range(s: Seq<u8>, octave: int, inversion: int) -> bool {
    forall|i: int|
        0 <= i < s.len() ==> in_pitch_range(#[trigger] inverted_values(s, octave, inversion)[i])
}

/// The inversion as a chord: its pitches in ascending order.
pub open spec fn inverted(s: Seq<u8>, octave: int, inversion: int) -> Seq<u8> {
    ascending(Seq::new(s.len(), |i: int| inverted_values(s, octave, inversion)[i] as u8))
}

/// What `apply_inversion` returns: the inversion, or a range error if one
/// of its pitches is no pitch.
pub open spec fn inversion_of(s: Seq<u8>, octave: int, inversion: int) -> Result<
    Seq<u8>,
    ParseCNChordError,
> {
    if inversion_in_range(s, octave, inversion) {
        Ok(inverted(s, octave, inversion))
    } else {
        Err(ParseCNChordError { kind: ErrorKind::Range })
    }
}

/// Inverting a chord at its first pitch without a shift leaves it as it
/// is.
pub proof fn lemma_inversion_identity(s: Seq<u8>)
    requires
        is_ascending(s),
    ensures
        inversion_in_range(s, 0, 0),
        inverted(s, 0, 0) == s,
        inversion_of(s, 0, 0) == Ok::<Seq<u8>, ParseCNChordError>(s),
{
    let raw = Seq::new(s.len(), |i: int| inverted_values(s, 0, 0)[i] as u8);
    assert(raw =~= s);
    lemma_ascending_unique(s, s);
}

/// The names of the pitches of a chord.
pub open spec fn pitch_names(s: Seq<u8>) -> Seq<Seq<char>> {
    Seq::new(s.len(), |i: int| pitch_name(s[i] as int))
}

/// The text of pitches, read back, names the pitches in their order.
pub proof fn lemma_pitches_round_trip(s: Seq<u8>)
    requires
        s.len() > 0,
    ensures
        pitches_of_text(chord_text(s)) matches Ok(pitches) && pitch_values(pitches) == s,
    decreases s.len(),
{
    let names = pitch_names(s);
    let sep = list_separator();
    let t = chord_text(s);
    let first = names[0];
    assert(t == joined(names, sep));
    lemma_name_round_trip(s[0]);
    if s.len() == 1 {
        assert(t == first);
        lemma_token_len(t, t.len());
        assert(t.take(t.len() as int) =~= t);
        assert(pitch_values(seq![Pitch(s[0])]) =~= s);
    } else {
        let rest = s.drop_first();
        lemma_joined_front(names, sep);
        assert(names.drop_first() =~= pitch_names(rest));
        let tail = chord_text(rest);
        assert(t == first + sep + tail);
        assert forall|k: int| 0 <= k < first.len() implies !is_separator(#[trigger] t[k]) by {
            assert(t[k] == first[k]);
        }
        assert(t[first.len() as int] == sep[0]);
        assert(t[first.len() as int + 1] == sep[1]);
        lemma_token_len(t, first.len());
        assert(t.take(first.len() as int) =~= first);
        assert(separator_len(t, first.len() as int) == 2);
        assert(t.skip(first.len() as int + 2) =~= tail);
        lemma_pitches_round_trip(rest);
        let found = pitches_of_text(tail)->Ok_0;
        assert(pitches_of_text(t) == with_pitches(seq![Pitch(s[0])], pitches_of_text(tail)));
        let all = seq![Pitch(s[0])] + found;
        assert(pitch_values(found).len() == rest.len());
        assert forall|i: int| 0 <= i < s.len() implies pitch_values(all)[i] == s[i] by {
            if i > 0 {
                assert(all[i] == found[i - 1]);
                assert(pitch_values(found)[i - 1] == rest[i - 1]);
            }
        }
        assert(pitch_values(all) =~= s);
    }
}

/// The text of a chord that is not empty, read back, gives the same chord.
pub proof fn lemma_chord_text_round_trip(s: Seq<u8>)
    requires
        is_ascending(s),
        s.len() > 0,
    ensures
        chord_of_text(chord_text(s)) == Ok::<Seq<u8>, ParseCNChordError>(s),
{
    lemma_pitches_round_trip(s);
    lemma_ascending_unique(s, s);
}

/// Stretching an ascending chord gives an ascending chord.
pub proof fn lemma_expanded_ascending(source: Seq<u8>, map: Seq<usize>, total: nat)
    requires
        is_ascending(source),
        total == 0 || seam_cursor(map, (total - 1) as nat) < source.len(),
    ensures
        is_ascending(expanded(source, map, total)),
{
    let e = expanded(source, map, total);
    assert forall|i: int, j: int| 0 <= i < j < e.len() implies e[i] <= e[j] by {
        lemma_cursor_bounds(map, j as nat);
        lemma_cursor_bounds(map, (total - 1) as nat);
        assert(seam_cursor(map, i as nat) <= seam_cursor(map, j as nat));
        assert(seam_cursor(map, j as nat) <= seam_cursor(map, (total - 1) as nat));
    }
}

/// Collapsing runs keeps every element below a bound that held before.
pub proof fn lemma_collapse_bound(s: Seq<u8>, bound: int)
    requires
        forall|i: int| 0 <= i < s.len() ==> s[i] < bound,
    ensures
        forall|i: int| 0 <= i < collapse_adjacent(s).len() ==> collapse_adjacent(s)[i] < bound,
    decreases s.len(),
{
    if s.len() > 1 {
        let head = collapse_adjacent(s.drop_last());
        lemma_collapse_bound(s.drop_last(), bound);
        assert forall|i: int| 0 <= i < collapse_adjacent(s).len() implies collapse_adjacent(s)[i]
            < bound by {
            if i < head.len() {
                assert(head[i] < bound);
            } else {
                assert(collapse_adjacent(s)[i] == s.last());
            }
        }
    }
}

/// An ascending sequence of pitches.
#[derive(Debug)]
pub struct CNChord {
    _pitches: Vec<Pitch>,
}

impl View for CNChord {
    type V = Seq<u8>;

    /// The pitch values, lowest first.
    closed spec fn view(&self) -> Seq<u8> {
        pitch_values(self._pitches@)
    }
}

/// The values of the pitches, in their order.
fn values_of(notes: &Vec<Pitch>) -> (r: Vec<u8>)
    ensures
        r@ == pitch_values(notes@),
{
    let mut values: Vec<u8> = Vec::new();
    let mut i: usize = 0;
    while i < notes.len()
        invariant
            i <= notes.len(),
            values@ == pitch_values(notes@).take(i as int),
        decreases notes.len() - i,
    {
        values.push(notes[i].0);
        i = i + 1;
        assert(values@ =~= pitch_values(notes@).take(i as int));
    }
    assert(values@ =~= pitch_values(notes@));
    values
}

impl CNChord {
    #[verifier::type_invariant]
    spec fn kept_ascending(self) -> bool {
        is_ascending(pitch_values(self._pitches@))
    }

    /// The chord of the given values, which are in ascending order.
    pub(crate) fn from_values(values: &Vec<u8>) -> (r: CNChord)
        requires
            is_ascending(values@),
        ensures
            r@ == values@,
    {
        let mut pitches: Vec<Pitch> = Vec::new();
        let mut i: usize = 0;
        while i < values.len()
            invariant
                i <= values.len(),
                pitches@.len() == i,
                forall|k: int| 0 <= k < i ==> (#[trigger] pitches@[k]).0 == values@[k],
            decreases values.len() - i,
        {
            pitches.push(Pitch(values[i]));
            i = i + 1;
        }
        assert(pitch_values(pitches@) =~= values@);
        CNChord { _pitches: pitches }
    }

    /// The chord of the given notes: sorted, and, if `dedup` is set, with
    /// each pitch only once.
    pub fn from_notes(notes: &Vec<Pitch>, dedup: bool) -> (r: CNChord)
        ensures
            r@ == (if dedup {
                collapse_adjacent(ascending(pitch_values(notes@)))
            } else {
                ascending(pitch_values(notes@))
            }),
    {
        let values = values_of(notes);
        let sorted = sorted_bytes(&values);
        proof {
            lemma_ascending_unique(values@, sorted@);
        }
        if dedup {
            let single = dedup_bytes(&sorted);
            proof {
                lemma_collapse_ascending(sorted@);
            }
            CNChord::from_values(&single)
        } else {
            CNChord::from_values(&sorted)
        }
    }

    /// The chord that a text names.
    pub fn from_str(s: &str) -> (r: Result<CNChord, ParseCNChordError>)
        ensures
            chord_view(r) == chord_of_text(s@),
    {
        let text = chars_of(s);
        match PitchParser::parse_pitches(&text) {
            Ok(pitches) => Ok(CNChord::from_notes(&pitches, false)),
            Err(e) => Err(ParseCNChordError { kind: e.kind }),
        }
    }

    /// The chord as text.
    pub fn to_string(&self) -> (r: String)
        ensures
            r@ == chord_text(self@),
    {
        let ghost names = pitch_names(self@);
        let mut parts: Vec<String> = Vec::new();
        let mut i: usize = 0;
        while i < self._pitches.len()
            invariant
                i <= self._pitches.len(),
                names == pitch_names(self@),
                parts@.len() == i,
                forall|k: int| 0 <= k < i ==> (#[trigger] parts@[k])@ == names[k],
            decreases self._pitches.len() - i,
        {
            let name = self._pitches[i].get_name();
            parts.push(name);
            i = i + 1;
        }
        assert(text_views(parts@) =~= names);
        proof {
            reveal_strlit(", ");
            assert(", "@ =~= list_separator());
        }
        join_texts(&parts, ", ")
    }

    /// The pitches, lowest first.
    pub fn pitches(&self) -> (r: &Vec<Pitch>)
        ensures
            pitch_values(r@) == self@,
            is_ascending(self@),
    {
        proof {
            use_type_invariant(self);
        }
        &self._pitches
    }

    /// The number of pitches.
    pub fn t_size(&self) -> (r: usize)
        ensures
            r == self@.len(),
    {
        self._pitches.len()
    }

    /// The pitch classes in the order of the pitches, each run of equal
    /// classes reduced to one.
    pub fn get_pitch_classes(&self) -> (r: Vec<PitchClass>)
        ensures
            r@ == pitch_classes(self@),
            forall|i: int| 0 <= i < r@.len() ==> (#[trigger] r@[i]).wf(),
    {
        let mut classes: Vec<u8> = Vec::new();
        let mut i: usize = 0;
        while i < self._pitches.len()
            invariant
                i <= self._pitches.len(),
                classes@ == classes_of(self@).take(i as int),
            decreases self._pitches.len() - i,
        {
            classes.push(self._pitches[i].0 % 12);
            i = i + 1;
            assert(classes@ =~= classes_of(self@).take(i as int));
        }
        assert(classes@ =~= classes_of(self@));
        let single = dedup_bytes(&classes);
        proof {
            lemma_collapse_bound(classes@, 12);
        }
        let mut r: Vec<PitchClass> = Vec::new();
        let mut j: usize = 0;
        while j < single.len()
            invariant
                j <= single.len(),
                r@.len() == j,
                forall|k: int| 0 <= k < single@.len() ==> single@[k] < 12,
                forall|k: int| 0 <= k < j ==> (#[trigger] r@[k]).0 == single@[k],
            decreases single.len() - j,
        {
            r.push(PitchClass(single[j]));
            j = j + 1;
        }
        assert(r@ =~= pitch_classes(self@));
        r
    }

    /// The chord with its first `inversion` pitches moved to the end and
    /// raised by whole octaves until the last of them is no lower than the
    /// pitch that was highest, and all pitches shifted by `octive` octaves;
    /// a range error if one of the pitches is no pitch any more.
    pub fn apply_inversion(&self, octive: i8, inversion: usize) -> (r: Result<
        CNChord,
        ParseCNChordError,
    >)
        requires
            inversion <= self@.len(),
        ensures
            chord_view(r) == inversion_of(self@, octive as int, inversion as int),
            octive == 0 && inversion == 0 ==> chord_view(r) == Ok::<Seq<u8>, ParseCNChordError>(
                self@,
            ),
    {
        proof {
            use_type_invariant(self);
            if octive == 0 && inversion == 0 {
                lemma_inversion_identity(self@);
            }
        }
        let n: usize = self._pitches.len();
        let lift: i32 = if inversion == 0 {
            0
        } else {
            (self._pitches[n - 1].0 as i32 - self._pitches[inversion - 1].0 as i32 + 11) / 12
        };
        let ghost target = inverted_values(self@, octive as int, inversion as int);
        let mut moved: Vec<u8> = Vec::new();
        let mut i: usize = 0;
        while i < n
            invariant
                i <= n,
                n == self._pitches.len(),
                n == self@.len(),
                inversion <= n,
                lift == inversion_lift(self@, inversion as int),
                0 <= lift <= 22,
                target == inverted_values(self@, octive as int, inversion as int),
                moved@.len() == i,
                forall|k: int| 0 <= k < i ==> in_pitch_range(#[trigger] target[k]) && moved@[k] == target[k],
            decreases n - i,
        {
            let value: i32 = if i < n - inversion {
                self._pitches[i + inversion].0 as i32 + 12 * (octive as i32)
            } else {
                self._pitches[i - (n - inversion)].0 as i32 + 12 * lift + 12 * (octive as i32)
            };
            assert(value == target[i as int]);
            if value < 0 || value > 255 {
                return Err(ParseCNChordError { kind: ErrorKind::Range });
            }
            moved.push(value as u8);
            i = i + 1;
        }
        let sorted = sorted_bytes(&moved);
        proof {
            let raw = Seq::new(self@.len(), |k: int| target[k] as u8);
            assert(moved@ =~= raw);
            lemma_ascending_unique(moved@, sorted@);
        }
        Ok(CNChord::from_values(&sorted))
    }

    /// The chord stretched to `total_size` voices: each voice takes the
    /// current pitch, and after each position that the map names next the
    /// following pitch becomes current. The voices keep this order.
    pub fn apply_expansion(&self, expansion_map: &Vec<usize>, total_size: usize) -> (r: CNChord)
        requires
            total_size == 0 || seam_cursor(expansion_map@, (total_size - 1) as nat) < self@.len(),
        ensures
            r@ == expanded(self@, expansion_map@, total_size as nat),
    {
        proof {
            use_type_invariant(self);
        }
        let ghost target = expanded(self@, expansion_map@, total_size as nat);
        let mut ret: Vec<u8> = Vec::new();
        let mut counter: usize = 0;
        let mut i: usize = 0;
        while i < total_size
            invariant
                i <= total_size,
                total_size == 0 || seam_cursor(expansion_map@, (total_size - 1) as nat)
                    < self@.len(),
                self@.len() == self._pitches.len(),
                counter == seam_cursor(expansion_map@, i as nat),
                target == expanded(self@, expansion_map@, total_size as nat),
                ret@ == target.take(i as int),
            decreases total_size - i,
        {
            proof {
                lemma_cursor_bounds(expansion_map@, (total_size - 1) as nat);
                lemma_cursor_bounds(expansion_map@, (i + 1) as nat);
            }
            ret.push(self._pitches[counter].0);
            if counter < expansion_map.len() && expansion_map[counter] == i + 1 {
                counter = counter + 1;
            }
            i = i + 1;
            assert(ret@ =~= target.take(i as int));
        }
        assert(ret@ =~= target);
        proof {
            lemma_expanded_ascending(self@, expansion_map@, total_size as nat);
        }
        CNChord::from_values(&ret)
    }
}

impl std::str::FromStr for CNChord {
    type Err = ParseCNChordError;

    fn from_str(s: &str) -> (r: Result<Self, Self::Err>)
        ensures
            chord_view(r) == chord_of_text(s@),
    {
        CNChord::from_str(s)
    }
}

impl Clone for CNChord {
    fn clone(&self) -> (r: Self)
        ensures
            r@ == self@,
    {
        proof {
            use_type_invariant(self);
        }
        let pitches = self._pitches.clone();
        assert(pitches@ =~= self._pitches@);
        CNChord { _pitches: pitches }
    }
}

} // verus!
