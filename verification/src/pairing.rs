//! Distance and pairing: how far two chords are apart, and which voices of
//! one answer which voices of the other.
//!
//! Chords of equal size are compared voice by voice. Of two chords of
//! different size the smaller is first stretched to the size of the larger,
//! along the seam map that brings it closest; of several such maps the one
//! that comes first in the order of a dictionary is taken.

use crate::chord::{
    inversion_in_range, inverted, inverted_values, pitch_classes, pitch_values, CNChord,
    ParseCNChordError,
};
use crate::diff::{abs_sum, negatable, negated, ChordDiff};
use crate::order::{ascending, lemma_ascending};
use crate::pitch::{
    any_class_usable, first_position, in_pitch_range, is_first_position, nearest_pitch,
    ErrorKind, Pitch, PitchClass,
};
use crate::seams::{
    enumerates_selections, expanded, first_selection, is_seam_map, is_selection,
    lemma_cursor_bounds, lemma_first_selection, lemma_lex_asymmetric, lex_less, map_views,
    seam_selections,
};
use crate::selections::{
    is_selection_from, lemma_first_minimum, lemma_selections_from, selections_from,
};
use vstd::pervasive::unreached;
use vstd::prelude::*;

verus! {

/// The movement of each voice from one chord to another of the same size:
/// the new pitch less the old.
pub open spec fn movement(from: Seq<u8>, to: Seq<u8>) -> Seq<i16> {
    Seq::new(from.len(), |i: int| (to[i] - from[i]) as i16)
}

/// How far the stretched source is from the target.
pub open spec fn expansion_cost(source: Seq<u8>, map: Seq<usize>, target: Seq<u8>) -> nat {
    abs_sum(movement(target, expanded(source, map, target.len())))
}

/// `map` stretches the source to the size of the target, no seam map
/// brings it closer, and of those that bring it as close none comes before
/// `map` in the order of a dictionary.
pub open spec fn is_best_seam_map(map: Seq<usize>, source: Seq<u8>, target: Seq<u8>) -> bool {
    &&& is_seam_map(map, source.len(), target.len())
    &&& forall|other: Seq<usize>| #[trigger]
        is_seam_map(other, source.len(), target.len()) ==> {
            ||| expansion_cost(source, map, target) < expansion_cost(source, other, target)
            ||| (expansion_cost(source, map, target) == expansion_cost(source, other, target) && (
            map == other || lex_less(map, other)))
        }
}

/// The seam map that `is_best_seam_map` singles out.
pub open spec fn best_seam_map(source: Seq<u8>, target: Seq<u8>) -> Seq<usize> {
    choose|map: Seq<usize>| is_best_seam_map(map, source, target)
}

/// The source stretched along its best seam map.
pub open spec fn best_expansion(source: Seq<u8>, target: Seq<u8>) -> Seq<u8> {
    expanded(source, best_seam_map(source, target), target.len())
}

/// Two chords can be paired unless they differ in size and one is empty.
pub open spec fn pairing_defined(a: Seq<u8>, b: Seq<u8>) -> bool {
    a.len() == b.len() || (a.len() > 0 && b.len() > 0)
}

/// The two chords brought to the size of the larger.
pub open spec fn paired(a: Seq<u8>, b: Seq<u8>) -> (Seq<u8>, Seq<u8>) {
    if a.len() == b.len() {
        (a, b)
    } else if a.len() < b.len() {
        (best_expansion(a, b), b)
    } else {
        (a, best_expansion(b, a))
    }
}

/// The movements between two chords. For equal sizes, from `a` to `b`. If
/// `a` is smaller, from `b` to the stretched `a`. If `a` is larger, the
/// movements of `b` against `a`, turned round.
pub open spec fn diff_vector(a: Seq<u8>, b: Seq<u8>) -> Seq<i16> {
    if a.len() == b.len() {
        movement(a, b)
    } else if a.len() < b.len() {
        movement(b, best_expansion(a, b))
    } else {
        negated(movement(a, best_expansion(b, a)))
    }
}

/// What `find_best_chord_pairs` returns.
pub open spec fn best_pairs(a: Seq<u8>, b: Seq<u8>) -> Result<(Seq<u8>, Seq<u8>), ParseCNChordError> {
    if pairing_defined(a, b) {
        Ok(paired(a, b))
    } else {
        Err(ParseCNChordError { kind: ErrorKind::Empty })
    }
}

/// What `diff` returns.
pub open spec fn chord_diff(a: Seq<u8>, b: Seq<u8>) -> Result<Seq<i16>, ParseCNChordError> {
    if pairing_defined(a, b) {
        Ok(diff_vector(a, b))
    } else {
        Err(ParseCNChordError { kind: ErrorKind::Empty })
    }
}

/// A pair of chords, or the error in its place, by the views of the chords.
pub open spec fn pair_view(r: Result<(CNChord, CNChord), ParseCNChordError>) -> Result<
    (Seq<u8>, Seq<u8>),
    ParseCNChordError,
> {
    match r {
        Ok(pair) => Ok((pair.0@, pair.1@)),
        Err(e) => Err(e),
    }
}

/// A difference, or the error in its place, by the view of the difference.
pub open spec fn diff_view(r: Result<ChordDiff, ParseCNChordError>) -> Result<
    Seq<i16>,
    ParseCNChordError,
> {
    match r {
        Ok(d) => Ok(d@),
        Err(e) => Err(e),
    }
}

/// Comparing two chords the other way round turns every movement round,
/// whatever the sizes of the chords.
pub proof fn lemma_diff_antisymmetric(a: Seq<u8>, b: Seq<u8>)
    ensures
        diff_vector(a, b).len() == diff_vector(b, a).len(),
        forall|i: int|
            0 <= i < diff_vector(a, b).len() ==> #[trigger] diff_vector(a, b)[i] == -diff_vector(
                b,
                a,
            )[i],
        chord_diff(a, b) is Ok <==> chord_diff(b, a) is Ok,
{
}

/// Paired chords have the same size: that of the larger of the two.
pub proof fn lemma_paired_sizes(a: Seq<u8>, b: Seq<u8>)
    ensures
        paired(a, b).0.len() == paired(a, b).1.len(),
        paired(a, b).0.len() == (if a.len() >= b.len() {
            a.len()
        } else {
            b.len()
        }),
        best_pairs(a, b) matches Ok(pair) ==> pair == paired(a, b),
{
}

/// At most one seam map is the best.
pub proof fn lemma_best_seam_map_unique(
    first: Seq<usize>,
    second: Seq<usize>,
    source: Seq<u8>,
    target: Seq<u8>,
)
    requires
        is_best_seam_map(first, source, target),
        is_best_seam_map(second, source, target),
    ensures
        first == second,
{
    if first != second {
        assert(lex_less(first, second));
        assert(lex_less(second, first));
        lemma_lex_asymmetric(first, second);
    }
}

/// A seam map that is the best is the one that `best_seam_map` names.
pub proof fn lemma_best_seam_map_is(map: Seq<usize>, source: Seq<u8>, target: Seq<u8>)
    requires
        is_best_seam_map(map, source, target),
    ensures
        best_seam_map(source, target) == map,
{
    lemma_best_seam_map_unique(best_seam_map(source, target), map, source, target);
}

/// A chord that is not empty has a best seam map to every larger chord.
pub proof fn lemma_best_seam_map_exists(source: Seq<u8>, target: Seq<u8>)
    requires
        0 < source.len() < target.len() <= usize::MAX,
    ensures
        is_best_seam_map(best_seam_map(source, target), source, target),
{
    let total = target.len();
    let seams = (source.len() - 1) as nat;
    let maps = selections_from(1, total, seams);
    lemma_selections_from(1, total, seams);
    lemma_first_selection(total, seams);
    assert(is_selection_from(first_selection(seams), 1, total, seams));
    assert(maps.contains(first_selection(seams)));
    let costs = Seq::new(maps.len(), |k: int| expansion_cost(source, maps[k], target));
    let at = lemma_first_minimum(costs, maps.len());
    let winner = maps[at];
    assert(is_selection_from(winner, 1, total, seams));
    assert forall|other: Seq<usize>| #[trigger]
        is_seam_map(other, source.len(), target.len()) implies {
        ||| expansion_cost(source, winner, target) < expansion_cost(source, other, target)
        ||| (expansion_cost(source, winner, target) == expansion_cost(source, other, target) && (
        winner == other || lex_less(winner, other)))
    } by {
        assert(is_selection_from(other, 1, total, seams));
        assert(maps.contains(other));
        let k = choose|k: int| 0 <= k < maps.len() && maps[k] == other;
        assert(costs[at] == expansion_cost(source, winner, target));
        assert(costs[k] == expansion_cost(source, other, target));
        if k < at {
            assert(costs[at] < costs[k]);
        } else if k > at {
            assert(costs[at] <= costs[k]);
            assert(lex_less(maps[at], maps[k]));
        }
    }
    assert(is_best_seam_map(winner, source, target));
}

/// The second chord may be inverted at `inversion` and shifted by `octave`
/// octaves: the shift is one octave down or none, the inversion starts at
/// one of the chord's pitches, and all pitches stay in range.
pub open spec fn transform_defined(b: Seq<u8>, octave: int, inversion: int) -> bool {
    &&& -1 <= octave <= 0
    &&& 0 <= inversion < b.len()
    &&& inversion_in_range(b, octave, inversion)
}

/// How far the transformed second chord is from the first.
pub open spec fn transform_cost(a: Seq<u8>, b: Seq<u8>, octave: int, inversion: int) -> nat {
    abs_sum(diff_vector(a, inverted(b, octave, inversion)))
}

/// The order in which the transforms are tried: the lower shift first, and
/// for one shift the lower inversion first.
pub open spec fn transform_before(o1: int, k1: int, o2: int, k2: int) -> bool {
    o1 < o2 || (o1 == o2 && k1 < k2)
}

/// No transform brings the second chord closer to the first, and of those
/// that bring it as close none is tried before this one.
pub open spec fn is_best_transform(a: Seq<u8>, b: Seq<u8>, octave: int, inversion: int) -> bool {
    &&& transform_defined(b, octave, inversion)
    &&& forall|o: int, k: int| #[trigger]
        transform_defined(b, o, k) ==> {
            ||| transform_cost(a, b, octave, inversion) < transform_cost(a, b, o, k)
            ||| (transform_cost(a, b, octave, inversion) == transform_cost(a, b, o, k) && ((o
                == octave && k == inversion) || transform_before(octave, inversion, o, k)))
        }
}

/// The shift and the inversion that `is_best_transform` singles out.
pub open spec fn best_transform(a: Seq<u8>, b: Seq<u8>) -> (int, int) {
    choose|t: (int, int)| is_best_transform(a, b, t.0, t.1)
}

/// What `find_vec_simple` returns: the first chord paired with the best
/// transform of the second.
pub open spec fn voice_leading(a: Seq<u8>, b: Seq<u8>) -> Result<
    (Seq<u8>, Seq<u8>),
    ParseCNChordError,
> {
    if a.len() == 0 || b.len() == 0 {
        Err(ParseCNChordError { kind: ErrorKind::Empty })
    } else {
        let t = best_transform(a, b);
        Ok(paired(a, inverted(b, t.0, t.1)))
    }
}

/// `front` before what follows, if anything follows.
pub open spec fn with_front(front: Seq<u8>, rest: Option<Seq<u8>>) -> Option<Seq<u8>> {
    match rest {
        Some(r) => Some(front + r),
        None => None,
    }
}

/// For each source pitch in turn the nearest pitch of a class that is
/// still unused, the class leaving the list where it stands first; nothing
/// if the list runs out of classes.
pub open spec fn nearest_by_class(source: Seq<u8>, unused: Seq<PitchClass>) -> Option<Seq<u8>>
    decreases source.len(),
{
    if source.len() == 0 {
        Some(Seq::<u8>::empty())
    } else if !any_class_usable(unused) {
        None
    } else {
        let q = nearest_pitch(source[0] as int, unused);
        let at = first_position(unused, q % 12);
        with_front(seq![q as u8], nearest_by_class(source.drop_first(), unused.remove(at)))
    }
}

/// What `find_vec_by_pitch_class` returns: the first chord as it is, and
/// the chord of the pitches found for it among the classes of the second.
pub open spec fn class_matching(a: Seq<u8>, b: Seq<u8>) -> Result<
    (Seq<u8>, Seq<u8>),
    ParseCNChordError,
> {
    match nearest_by_class(a, pitch_classes(b)) {
        Some(found) => Ok((a, ascending(found))),
        None => Err(ParseCNChordError { kind: ErrorKind::Empty }),
    }
}

/// A chord that is not empty has a transform: the one that leaves it as it
/// is.
pub proof fn lemma_plain_transform(b: Seq<u8>)
    requires
        b.len() > 0,
    ensures
        transform_defined(b, 0, 0),
{
    assert forall|i: int| 0 <= i < b.len() implies in_pitch_range(
        #[trigger] inverted_values(b, 0, 0)[i],
    ) by {}
}

/// The best of the transforms that are tried before the given one, if any
/// of them stays in range.
proof fn lemma_best_transform_before(a: Seq<u8>, b: Seq<u8>, octave: int, inversion: int) -> (t:
    Option<(int, int)>)
    requires
        -1 <= octave <= 1,
        0 <= inversion <= b.len(),
        octave == 1 ==> inversion == 0,
    ensures
        t is None ==> forall|o: int, k: int| #[trigger]
            transform_defined(b, o, k) ==> !transform_before(o, k, octave, inversion),
        t matches Some(found) ==> {
            &&& transform_defined(b, found.0, found.1)
            &&& transform_before(found.0, found.1, octave, inversion)
            &&& forall|o: int, k: int| #[trigger]
                transform_defined(b, o, k) && transform_before(o, k, octave, inversion) ==> {
                    ||| transform_cost(a, b, found.0, found.1) < transform_cost(a, b, o, k)
                    ||| (transform_cost(a, b, found.0, found.1) == transform_cost(a, b, o, k) && ((o
                        == found.0 && k == found.1) || transform_before(found.0, found.1, o, k)))
                }
        },
    decreases octave + 1, inversion,
{
    if octave == -1 && inversion == 0 {
        None
    } else if inversion == 0 {
        lemma_best_transform_before(a, b, octave - 1, b.len() as int)
    } else {
        let held = lemma_best_transform_before(a, b, octave, inversion - 1);
        if !transform_defined(b, octave, inversion - 1) {
            held
        } else {
            match held {
                None => Some((octave, inversion - 1)),
                Some(found) => if transform_cost(a, b, octave, inversion - 1) < transform_cost(
                    a,
                    b,
                    found.0,
                    found.1,
                ) {
                    Some((octave, inversion - 1))
                } else {
                    held
                },
            }
        }
    }
}

/// A chord that is not empty has a best transform.
pub proof fn lemma_best_transform_exists(a: Seq<u8>, b: Seq<u8>)
    requires
        b.len() > 0,
    ensures
        is_best_transform(a, b, best_transform(a, b).0, best_transform(a, b).1),
{
    lemma_plain_transform(b);
    let t = lemma_best_transform_before(a, b, 1, 0);
    assert(transform_before(0, 0, 1, 0));
    let found = t->0;
    assert(is_best_transform(a, b, found.0, found.1));
    assert(is_best_transform(a, b, (found.0, found.1).0, (found.0, found.1).1));
}

/// At most one transform is the best.
pub proof fn lemma_best_transform_is(a: Seq<u8>, b: Seq<u8>, octave: int, inversion: int)
    requires
        is_best_transform(a, b, octave, inversion),
    ensures
        best_transform(a, b) == (octave, inversion),
{
    let t = best_transform(a, b);
    assert(is_best_transform(a, b, (octave, inversion).0, (octave, inversion).1));
    assert(is_best_transform(a, b, t.0, t.1));
    assert(transform_defined(b, t.0, t.1));
    assert(transform_defined(b, octave, inversion));
}

/// The movements between chord pitches have negatives.
pub proof fn lemma_movement_negatable(from: Seq<u8>, to: Seq<u8>)
    ensures
        negatable(movement(from, to)),
{
}

impl CNChord {
    /// The movement of each voice to the voice of the same index in
    /// `chord`.
    fn movement_to(&self, chord: &CNChord) -> (r: ChordDiff)
        requires
            self@.len() == chord@.len(),
        ensures
            r@ == movement(self@, chord@),
    {
        let from = self.pitches();
        let to = chord.pitches();
        let mut moves: Vec<i16> = Vec::new();
        let mut i: usize = 0;
        while i < from.len()
            invariant
                i <= from.len(),
                from@.len() == to@.len(),
                pitch_values(from@) == self@,
                pitch_values(to@) == chord@,
                moves@ == movement(self@, chord@).take(i as int),
            decreases from.len() - i,
        {
            moves.push(to[i].0 as i16 - from[i].0 as i16);
            i = i + 1;
            assert(moves@ =~= movement(self@, chord@).take(i as int));
        }
        assert(moves@ =~= movement(self@, chord@));
        ChordDiff::new(moves)
    }

    /// This chord stretched to the size of the larger `target`, along the
    /// best seam map.
    fn closest_expansion(&self, target: &CNChord) -> (r: CNChord)
        requires
            0 < self@.len() < target@.len(),
        ensures
            r@ == best_expansion(self@, target@),
            is_best_seam_map(best_seam_map(self@, target@), self@, target@),
    {
        let total: usize = target.t_size();
        let seams: usize = self.t_size() - 1;
        let maps = seam_selections(total, seams);
        let ghost views = map_views(maps@);
        proof {
            lemma_first_selection(total as nat, seams as nat);
            assert(views.contains(first_selection(seams as nat)));
        }
        proof {
            assert(views[0] == maps@[0]@);
            lemma_cursor_bounds(views[0], (total - 1) as nat);
        }
        let mut best: usize = 0;
        let mut best_chord = self.apply_expansion(&maps[0], total);
        let mut best_cost: u128 = target.movement_to(&best_chord).sv();
        let mut j: usize = 1;
        while j < maps.len()
            invariant
                1 <= j <= maps.len(),
                best < j,
                views == map_views(maps@),
                enumerates_selections(views, total as nat, seams as nat),
                total == target@.len(),
                seams + 1 == self@.len(),
                0 < self@.len() < target@.len(),
                best_chord@ == expanded(self@, views[best as int], total as nat),
                best_cost == expansion_cost(self@, views[best as int], target@),
                forall|k: int| 0 <= k < j ==> best_cost <= expansion_cost(self@, #[trigger] views[k], target@),
                forall|k: int| 0 <= k < best ==> best_cost < expansion_cost(self@, #[trigger] views[k], target@),
            decreases maps.len() - j,
        {
            proof {
                assert(views[j as int] == maps@[j as int]@);
                assert(is_selection(views[j as int], total as nat, seams as nat));
                lemma_cursor_bounds(views[j as int], (total - 1) as nat);
            }
            let candidate = self.apply_expansion(&maps[j], total);
            let cost: u128 = target.movement_to(&candidate).sv();
            if cost < best_cost {
                best = j;
                best_chord = candidate;
                best_cost = cost;
            }
            j = j + 1;
        }
        proof {
            let winner = views[best as int];
            assert(is_selection(winner, total as nat, seams as nat));
            assert forall|other: Seq<usize>| #[trigger]
                is_seam_map(other, self@.len(), target@.len()) implies {
                ||| expansion_cost(self@, winner, target@) < expansion_cost(self@, other, target@)
                ||| (expansion_cost(self@, winner, target@) == expansion_cost(
                    self@,
                    other,
                    target@,
                ) && (winner == other || lex_less(winner, other)))
            } by {
                assert(is_selection(other, total as nat, seams as nat));
                assert(views.contains(other));
                let k = choose|k: int| 0 <= k < views.len() && views[k] == other;
                if k < best {
                    assert(best_cost < expansion_cost(self@, views[k], target@));
                } else if k > best {
                    assert(best_cost <= expansion_cost(self@, views[k], target@));
                    assert(lex_less(views[best as int], views[k]));
                }
            }
            assert(is_best_seam_map(winner, self@, target@));
            lemma_best_seam_map_is(winner, self@, target@);
        }
        best_chord
    }

    /// The two chords brought to the same size, voice answering voice: as
    /// they are if their sizes agree, else the smaller stretched along its
    /// best seam map. Two chords of different size of which one is empty
    /// cannot be paired.
    pub fn find_best_chord_pairs(&self, chord: &CNChord) -> (r: Result<
        (CNChord, CNChord),
        ParseCNChordError,
    >)
        ensures
            pair_view(r) == best_pairs(self@, chord@),
            r matches Ok(pair) ==> pair.0@.len() == pair.1@.len() && pair.0@.len() == (if self@.len()
                >= chord@.len() {
                self@.len()
            } else {
                chord@.len()
            }),
            0 < self@.len() < chord@.len() ==> is_best_seam_map(
                best_seam_map(self@, chord@),
                self@,
                chord@,
            ),
            0 < chord@.len() < self@.len() ==> is_best_seam_map(
                best_seam_map(chord@, self@),
                chord@,
                self@,
            ),
    {
        if self.t_size() == chord.t_size() {
            Ok((self.clone(), chord.clone()))
        } else if self.t_size() == 0 || chord.t_size() == 0 {
            Err(ParseCNChordError { kind: ErrorKind::Empty })
        } else if self.t_size() < chord.t_size() {
            let stretched = self.closest_expansion(chord);
            Ok((stretched, chord.clone()))
        } else {
            let stretched = chord.closest_expansion(self);
            Ok((self.clone(), stretched))
        }
    }

    /// The movements between the two chords. For equal sizes, from this
    /// chord to `chord`, voice by voice. If this chord is smaller, from
    /// `chord` to this chord stretched along its best seam map. If it is
    /// larger, the difference of `chord` against it, turned round.
    pub fn diff(&self, chord: &CNChord) -> (r: Result<ChordDiff, ParseCNChordError>)
        ensures
            diff_view(r) == chord_diff(self@, chord@),
            0 < self@.len() < chord@.len() ==> is_best_seam_map(
                best_seam_map(self@, chord@),
                self@,
                chord@,
            ),
            0 < chord@.len() < self@.len() ==> is_best_seam_map(
                best_seam_map(chord@, self@),
                chord@,
                self@,
            ),
    {
        if self.t_size() == chord.t_size() {
            Ok(self.movement_to(chord))
        } else if self.t_size() == 0 || chord.t_size() == 0 {
            Err(ParseCNChordError { kind: ErrorKind::Empty })
        } else if self.t_size() < chord.t_size() {
            let stretched = self.closest_expansion(chord);
            Ok(chord.movement_to(&stretched))
        } else {
            let stretched = chord.closest_expansion(self);
            let against = self.movement_to(&stretched);
            proof {
                lemma_movement_negatable(self@, stretched@);
            }
            Ok(against.negate())
        }
    }

    /// The second chord inverted and shifted, with its distance from this
    /// chord; nothing if the transform leaves the range of pitches.
    fn transform_candidate(&self, new_chord: &CNChord, octave: i8, inversion: usize) -> (r: Option<
        (u128, CNChord),
    >)
        requires
            self@.len() > 0,
            inversion < new_chord@.len(),
        ensures
            inversion_in_range(new_chord@, octave as int, inversion as int) ==> (r matches Some(
                found,
            ) && found.1@ == inverted(new_chord@, octave as int, inversion as int) && found.0
                == transform_cost(self@, new_chord@, octave as int, inversion as int)),
            !inversion_in_range(new_chord@, octave as int, inversion as int) ==> r is None,
    {
        match new_chord.apply_inversion(octave, inversion) {
            Err(_) => None,
            Ok(turned) => {
                proof {
                    lemma_ascending(
                        Seq::new(
                            new_chord@.len(),
                            |i: int|
                                inverted_values(new_chord@, octave as int, inversion as int)[i] as u8,
                        ),
                    );
                }
                match self.diff(&turned) {
                    Ok(d) => Some((d.sv(), turned)),
                    Err(_) => None,
                }
            },
        }
    }

    /// This chord paired with the transform of `new_chord` that lies
    /// closest to it. The transforms are the inversions of `new_chord` at
    /// each of its pitches, an octave down and in place; those that leave
    /// the range of pitches are passed over, and of several that lie
    /// equally close the one tried first is taken. An empty chord on either
    /// side is refused.
    pub fn find_vec_simple(&self, new_chord: &CNChord) -> (r: Result<
        (CNChord, CNChord),
        ParseCNChordError,
    >)
        ensures
            pair_view(r) == voice_leading(self@, new_chord@),
            self@.len() > 0 && new_chord@.len() > 0 ==> is_best_transform(
                self@,
                new_chord@,
                best_transform(self@, new_chord@).0,
                best_transform(self@, new_chord@).1,
            ),
    {
        let n: usize = new_chord.t_size();
        if self.t_size() == 0 || n == 0 {
            return Err(ParseCNChordError { kind: ErrorKind::Empty });
        }
        let mut best: Option<(u128, CNChord)> = None;
        let ghost mut best_o: int = 0;
        let ghost mut best_k: int = 0;
        let mut octave: i8 = -1;
        let mut inversion: usize = 0;
        while octave < 1
            invariant
                -1 <= octave <= 1,
                inversion <= n,
                octave == 1 ==> inversion == 0,
                n == new_chord@.len(),
                self@.len() > 0,
                best is None ==> forall|o: int, k: int| #[trigger]
                    transform_defined(new_chord@, o, k) ==> !transform_before(
                        o,
                        k,
                        octave as int,
                        inversion as int,
                    ),
                best matches Some(found) ==> {
                    &&& transform_defined(new_chord@, best_o, best_k)
                    &&& transform_before(best_o, best_k, octave as int, inversion as int)
                    &&& found.1@ == inverted(new_chord@, best_o, best_k)
                    &&& found.0 == transform_cost(self@, new_chord@, best_o, best_k)
                    &&& forall|o: int, k: int| #[trigger]
                        transform_defined(new_chord@, o, k) && transform_before(
                            o,
                            k,
                            octave as int,
                            inversion as int,
                        ) ==> {
                            ||| found.0 < transform_cost(self@, new_chord@, o, k)
                            ||| (found.0 == transform_cost(self@, new_chord@, o, k) && ((o
                                == best_o && k == best_k) || transform_before(
                                best_o,
                                best_k,
                                o,
                                k,
                            )))
                        }
                },
            decreases 1 - octave, n - inversion,
        {
            if inversion < n {
                let tried = self.transform_candidate(new_chord, octave, inversion);
                match tried {
                    None => {},
                    Some(found) => {
                        let better = match &best {
                            None => true,
                            Some(held) => found.0 < held.0,
                        };
                        if better {
                            best = Some(found);
                            proof {
                                best_o = octave as int;
                                best_k = inversion as int;
                            }
                        }
                    },
                }
                inversion = inversion + 1;
            } else {
                octave = octave + 1;
                inversion = 0;
            }
        }
        match best {
            None => {
                proof {
                    lemma_plain_transform(new_chord@);
                }
                unreached()
            },
            Some(found) => {
                proof {
                    assert(is_best_transform(self@, new_chord@, best_o, best_k));
                    lemma_best_transform_is(self@, new_chord@, best_o, best_k);
                    lemma_ascending(
                        Seq::new(
                            new_chord@.len(),
                            |i: int| inverted_values(new_chord@, best_o, best_k)[i] as u8,
                        ),
                    );
                }
                self.find_best_chord_pairs(&found.1)
            },
        }
    }

    /// This chord, and the chord of the pitches that lie nearest to its
    /// own among the pitch classes of `new_chord`: each pitch, from the
    /// lowest up, takes the nearest pitch of a class that no lower pitch
    /// has taken. If there are more pitches than classes, nothing is left
    /// to choose from.
    pub fn find_vec_by_pitch_class(&self, new_chord: &CNChord) -> (r: Result<
        (CNChord, CNChord),
        ParseCNChordError,
    >)
        ensures
            pair_view(r) == class_matching(self@, new_chord@),
    {
        let mut unused = new_chord.get_pitch_classes();
        let mut new_pitches: Vec<Pitch> = Vec::new();
        let source = self.pitches();
        let mut i: usize = 0;
        proof {
            let whole = nearest_by_class(self@, unused@);
            assert(self@.skip(0) =~= self@);
            assert(pitch_values(new_pitches@) =~= Seq::<u8>::empty());
            if whole is Some {
                assert(Seq::<u8>::empty() + whole->0 =~= whole->0);
            }
        }
        while i < source.len()
            invariant
                i <= source.len(),
                pitch_values(source@) == self@,
                nearest_by_class(self@, pitch_classes(new_chord@)) == with_front(
                    pitch_values(new_pitches@),
                    nearest_by_class(self@.skip(i as int), unused@),
                ),
            decreases source.len() - i,
        {
            let ghost rest = self@.skip(i as int);
            let ghost before = unused@;
            let ghost front = pitch_values(new_pitches@);
            assert(rest.len() > 0 && rest[0] == source@[i as int].0);
            match source[i].get_nearest_pitch_by_pitch_class(&unused) {
                Err(_) => {
                    return Err(ParseCNChordError { kind: ErrorKind::Empty });
                },
                Ok(q) => {
                    let at: usize = match q.get_pitch_class().position_in(&unused) {
                        Some(at) => at,
                        None => unreached(),
                    };
                    assert(first_position(before, q.0 as int % 12) == at) by {
                        let chosen = first_position(before, q.0 as int % 12);
                        assert(is_first_position(before, q.0 as int % 12, at as int));
                        assert(is_first_position(before, q.0 as int % 12, chosen));
                    }
                    unused.remove(at);
                    new_pitches.push(q);
                    proof {
                        assert(rest.drop_first() =~= self@.skip(i + 1));
                        let tail = nearest_by_class(self@.skip(i + 1), unused@);
                        assert(nearest_by_class(rest, before) == with_front(seq![q.0], tail));
                        assert(pitch_values(new_pitches@) =~= front + seq![q.0]);
                        if tail is Some {
                            assert(front + (seq![q.0] + tail->0) =~= (front + seq![q.0]) + tail->0);
                        }
                    }
                },
            }
            i = i + 1;
        }
        proof {
            assert(self@.skip(i as int).len() == 0);
            assert(pitch_values(new_pitches@) + Seq::<u8>::empty() =~= pitch_values(new_pitches@));
        }
        Ok((self.clone(), CNChord::from_notes(&new_pitches, false)))
    }

    /// The pairing of the two chords: by the best transform of `new_chord`
    /// if `in_substitution` is set, else by stretching the smaller chord.
    pub fn find_vec(&self, new_chord: &CNChord, _in_analyser: bool, in_substitution: bool) -> (r:
        Result<(CNChord, CNChord), ParseCNChordError>)
        ensures
            pair_view(r) == (if in_substitution {
                voice_leading(self@, new_chord@)
            } else {
                best_pairs(self@, new_chord@)
            }),
    {
        if in_substitution {
            self.find_vec_simple(new_chord)
        } else {
            self.find_best_chord_pairs(new_chord)
        }
    }
}

} // verus!
