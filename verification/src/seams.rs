//! Seam maps: where an expansion of a chord moves on to its next pitch.
//!
//! A chord of `k` pitches is stretched to `n` voices by repeating pitches.
//! The output positions are numbered from 1; a seam map lists, in ascending
//! order, the `k - 1` positions after which the next source pitch begins.
//! The voices after the other `n - k` of the first `n - 1` positions repeat
//! the pitch before them.

use itertools::Itertools;
use vstd::prelude::*;

verus! {

/// The source index whose pitch stands at output index `pos` (from 0): the
/// number of seams that the walk has passed before it gets there. The walk
/// looks only at the next unused entry of the map.
pub open spec fn seam_cursor(map: Seq<usize>, pos: nat) -> nat
    decreases pos,
{
    if pos == 0 {
        0
    } else {
        let before = seam_cursor(map, (pos - 1) as nat);
        if before < map.len() && map[before as int] == pos {
            before + 1
        } else {
            before
        }
    }
}

/// The source stretched to `total` voices along the map.
pub open spec fn expanded(source: Seq<u8>, map: Seq<usize>, total: nat) -> Seq<u8> {
    Seq::new(total, |i: int| source[seam_cursor(map, i as nat) as int])
}

/// `map` has `seams` entries, all from 1 to `total - 1`, each greater than
/// the one before.
pub open spec fn is_selection(map: Seq<usize>, total: nat, seams: nat) -> bool {
    &&& map.len() == seams
    &&& forall|i: int| 0 <= i < map.len() ==> 1 <= #[trigger] map[i] < total
    &&& forall|i: int, j: int| 0 <= i < j < map.len() ==> map[i] < map[j]
}

/// `map` stretches a chord of `sources` pitches to `total` voices.
pub open spec fn is_seam_map(map: Seq<usize>, sources: nat, total: nat) -> bool {
    sources >= 1 && is_selection(map, total, (sources - 1) as nat)
}

/// `a` comes before `b` in the order of a dictionary: at the first index
/// where they differ, `a` holds the smaller entry.
pub open spec fn lex_less(a: Seq<usize>, b: Seq<usize>) -> bool {
    exists|i: int|
        0 <= i < a.len() && i < b.len() && #[trigger] a[i] < b[i] && a.take(i) == b.take(i)
}

/// The views of a list of maps.
pub open spec fn map_views(maps: Seq<Vec<usize>>) -> Seq<Seq<usize>> {
    maps.map_values(|m: Vec<usize>| m@)
}

/// `maps` lists every selection of `seams` positions below `total` once,
/// in the order of a dictionary.
pub open spec fn enumerates_selections(maps: Seq<Seq<usize>>, total: nat, seams: nat) -> bool {
    &&& forall|i: int| 0 <= i < maps.len() ==> is_selection(#[trigger] maps[i], total, seams)
    &&& forall|i: int, j: int|
        0 <= i < j < maps.len() ==> lex_less(#[trigger] maps[i], #[trigger] maps[j])
    &&& forall|m: Seq<usize>| #[trigger] is_selection(m, total, seams) ==> maps.contains(m)
}

/// The cursor never passes the end of the map and never goes back.
pub proof fn lemma_cursor_bounds(map: Seq<usize>, pos: nat)
    ensures
        seam_cursor(map, pos) <= map.len(),
        seam_cursor(map, pos) <= pos,
        forall|earlier: nat| earlier <= pos ==> seam_cursor(map, earlier) <= seam_cursor(map, pos),
    decreases pos,
{
    if pos > 0 {
        lemma_cursor_bounds(map, (pos - 1) as nat);
        assert forall|earlier: nat| earlier <= pos implies seam_cursor(map, earlier)
            <= seam_cursor(map, pos) by {
            if earlier < pos {
                assert(seam_cursor(map, earlier) <= seam_cursor(map, (pos - 1) as nat));
            }
        }
    }
}

/// The seam map read back from an expansion along `map`: the positions up
/// to `upto` after which the walk moved on to the next pitch.
pub open spec fn seams_passed(map: Seq<usize>, upto: nat) -> Seq<usize>
    decreases upto,
{
    if upto == 0 {
        Seq::<usize>::empty()
    } else {
        let before = seams_passed(map, (upto - 1) as nat);
        if seam_cursor(map, upto) > seam_cursor(map, (upto - 1) as nat) {
            before.push(upto as usize)
        } else {
            before
        }
    }
}

/// The entries of `map` rise and none is 0.
pub open spec fn is_rising(map: Seq<usize>) -> bool {
    &&& forall|i: int| 0 <= i < map.len() ==> 1 <= #[trigger] map[i]
    &&& forall|i: int, j: int| 0 <= i < j < map.len() ==> map[i] < map[j]
}

/// Along a rising map the walk has moved on, at each position, once for
/// every entry up to that position: for such a map, to look at the next
/// unused entry is to ask whether the position stands in the map.
pub proof fn lemma_cursor_counts(map: Seq<usize>, pos: nat)
    requires
        is_rising(map),
    ensures
        seam_cursor(map, pos) <= map.len(),
        forall|i: int| 0 <= i < seam_cursor(map, pos) ==> #[trigger] map[i] <= pos,
        forall|i: int| seam_cursor(map, pos) <= i < map.len() ==> #[trigger] map[i] > pos,
    decreases pos,
{
    if pos > 0 {
        lemma_cursor_counts(map, (pos - 1) as nat);
        let before = seam_cursor(map, (pos - 1) as nat);
        if before < map.len() && map[before as int] == pos {
        } else {
            assert forall|i: int| seam_cursor(map, pos) <= i < map.len() implies #[trigger] map[i]
                > pos by {
                if i > before {
                    assert(map[before as int] < map[i]);
                }
            }
        }
    }
}

/// The map holds the position.
pub open spec fn holds_position(map: Seq<usize>, pos: nat) -> bool {
    exists|j: int| 0 <= j < map.len() && #[trigger] map[j] == pos
}

/// Along a seam map the walk moves on after exactly the positions that
/// the map holds, and it ends on the last pitch of the source: every pitch
/// of the source stands in the expansion.
pub proof fn lemma_seam_map_walk(map: Seq<usize>, sources: nat, total: nat)
    requires
        is_seam_map(map, sources, total),
    ensures
        forall|pos: nat|
            1 <= pos < total ==> #[trigger] seam_cursor(map, pos) == seam_cursor(
                map,
                (pos - 1) as nat,
            ) + (if holds_position(map, pos) {
                1nat
            } else {
                0nat
            }),
        total > 0 ==> seam_cursor(map, (total - 1) as nat) == sources - 1,
{
    assert(is_rising(map));
    assert forall|pos: nat| 1 <= pos < total implies #[trigger] seam_cursor(map, pos)
        == seam_cursor(map, (pos - 1) as nat) + (if holds_position(map, pos) {
        1nat
    } else {
        0nat
    }) by {
        let before = seam_cursor(map, (pos - 1) as nat);
        lemma_cursor_counts(map, (pos - 1) as nat);
        if holds_position(map, pos) {
            let j = choose|j: int| 0 <= j < map.len() && #[trigger] map[j] == pos;
            if j < before {
                assert(map[j] <= pos - 1);
            }
            if j > before {
                assert(map[before as int] < map[j]);
                assert(map[before as int] > pos - 1);
            }
        }
    }
    if total > 0 {
        let last = (total - 1) as nat;
        lemma_cursor_counts(map, last);
        if seam_cursor(map, last) < map.len() {
            assert(map[seam_cursor(map, last) as int] > last);
        }
    }
}

/// Stretched to its own size along the map that holds every position, a
/// chord is the chord itself.
pub proof fn lemma_full_expansion(source: Seq<u8>)
    requires
        0 < source.len() <= usize::MAX,
    ensures
        is_seam_map(first_selection((source.len() - 1) as nat), source.len(), source.len()),
        expanded(source, first_selection((source.len() - 1) as nat), source.len()) == source,
{
    let map = first_selection((source.len() - 1) as nat);
    lemma_first_selection(source.len(), (source.len() - 1) as nat);
    assert forall|pos: nat| pos < source.len() implies #[trigger] seam_cursor(map, pos) == pos by {
        lemma_full_walk(map, source.len(), pos);
    }
    assert(expanded(source, map, source.len()) =~= source);
}

/// Along the map that holds every position the walk moves on every time.
proof fn lemma_full_walk(map: Seq<usize>, size: nat, pos: nat)
    requires
        0 < size <= usize::MAX,
        map == first_selection((size - 1) as nat),
        pos < size,
    ensures
        seam_cursor(map, pos) == pos,
    decreases pos,
{
    if pos > 0 {
        lemma_full_walk(map, size, (pos - 1) as nat);
    }
}

/// The seams passed up to a position are as many as the cursor says, they
/// begin with the seams passed up to any earlier position, and the others
/// lie after that position.
pub proof fn lemma_seams_passed(map: Seq<usize>, upto: nat, earlier: nat)
    requires
        earlier <= upto <= usize::MAX,
    ensures
        seams_passed(map, upto).len() == seam_cursor(map, upto),
        seam_cursor(map, earlier) <= seam_cursor(map, upto),
        seams_passed(map, earlier) == seams_passed(map, upto).take(
            seam_cursor(map, earlier) as int,
        ),
        forall|i: int|
            seam_cursor(map, earlier) <= i < seams_passed(map, upto).len() ==> earlier
                < #[trigger] seams_passed(map, upto)[i] <= upto,
    decreases upto,
{
    let whole = seams_passed(map, upto);
    if upto == 0 {
        assert(whole.take(0) =~= whole);
    } else if earlier == upto {
        lemma_seams_passed(map, (upto - 1) as nat, (upto - 1) as nat);
        assert(whole.take(whole.len() as int) =~= whole);
    } else {
        lemma_seams_passed(map, (upto - 1) as nat, earlier);
        let before = seams_passed(map, (upto - 1) as nat);
        let kept = seam_cursor(map, earlier) as int;
        assert(whole.take(kept) =~= before.take(kept));
    }
}

/// The walk along the map read back goes as the walk along the map.
pub proof fn lemma_walk_read_back(map: Seq<usize>, upto: nat, pos: nat)
    requires
        pos <= upto <= usize::MAX,
    ensures
        seam_cursor(seams_passed(map, upto), pos) == seam_cursor(map, pos),
    decreases pos,
{
    if pos > 0 {
        let whole = seams_passed(map, upto);
        let before = seam_cursor(map, (pos - 1) as nat);
        lemma_walk_read_back(map, upto, (pos - 1) as nat);
        lemma_seams_passed(map, upto, pos);
        lemma_seams_passed(map, pos, (pos - 1) as nat);
        if seam_cursor(map, pos) > before {
            let here = seams_passed(map, pos);
            assert(here == seams_passed(map, (pos - 1) as nat).push(pos as usize));
            assert(here[before as int] == pos);
            assert(whole.take(seam_cursor(map, pos) as int)[before as int] == whole[before as int]);
        }
    }
}

/// An expansion is stable: the seam map read back from it expands the
/// source to the same chord again.
pub proof fn lemma_expansion_stable(source: Seq<u8>, map: Seq<usize>, total: nat)
    requires
        0 < total <= usize::MAX,
    ensures
        expanded(source, seams_passed(map, (total - 1) as nat), total) == expanded(
            source,
            map,
            total,
        ),
{
    let back = seams_passed(map, (total - 1) as nat);
    assert forall|p: nat| p < total implies #[trigger] seam_cursor(back, p) == seam_cursor(
        map,
        p,
    ) by {
        lemma_walk_read_back(map, (total - 1) as nat, p);
    }
    assert(expanded(source, back, total) =~= expanded(source, map, total));
}

/// Read back from its expansion, a selection of seams is the same
/// selection.
pub proof fn lemma_selection_read_back(map: Seq<usize>, total: nat)
    requires
        0 < total <= usize::MAX,
        is_selection(map, total, map.len()),
    ensures
        seams_passed(map, (total - 1) as nat) == map,
{
    let last = (total - 1) as nat;
    let back = seams_passed(map, last);
    assert(is_rising(map));
    lemma_cursor_counts(map, last);
    lemma_seams_passed(map, last, last);
    assert(back.len() == map.len()) by {
        if seam_cursor(map, last) < map.len() {
            assert(map[seam_cursor(map, last) as int] > last);
        }
    }
    assert forall|j: int| 0 <= j < map.len() implies back[j] == map[j] by {
        let v = map[j] as nat;
        lemma_cursor_counts(map, v);
        lemma_cursor_counts(map, (v - 1) as nat);
        assert(seam_cursor(map, v) == j + 1) by {
            if seam_cursor(map, v) <= j {
                assert(map[j] > v);
            }
            if seam_cursor(map, v) > j + 1 {
                assert(map[j + 1] <= v);
            }
        }
        assert(seam_cursor(map, (v - 1) as nat) == j) by {
            if seam_cursor(map, (v - 1) as nat) > j {
                assert(map[j] <= v - 1);
            }
        }
        lemma_seams_passed(map, last, v);
        lemma_seams_passed(map, v, (v - 1) as nat);
        let here = seams_passed(map, v);
        assert(here == seams_passed(map, (v - 1) as nat).push(v as usize));
        assert(here[j] == v);
        assert(back.take(seam_cursor(map, v) as int)[j] == back[j]);
    }
    assert(back =~= map);
}

/// No two sequences come before each other.
pub proof fn lemma_lex_asymmetric(a: Seq<usize>, b: Seq<usize>)
    requires
        lex_less(a, b),
    ensures
        !lex_less(b, a),
        a != b,
{
    let i = choose|i: int|
        0 <= i < a.len() && i < b.len() && #[trigger] a[i] < b[i] && a.take(i) == b.take(i);
    if lex_less(b, a) {
        let j = choose|j: int|
            0 <= j < b.len() && j < a.len() && #[trigger] b[j] < a[j] && b.take(j) == a.take(j);
        if i < j {
            assert(b.take(j)[i] == a.take(j)[i]);
        } else if j < i {
            assert(a.take(i)[j] == b.take(i)[j]);
        }
    }
}

/// The positions 1 to `seams`, which every enumeration holds.
pub open spec fn first_selection(seams: nat) -> Seq<usize> {
    Seq::new(seams, |i: int| (i + 1) as usize)
}

/// Where there is room for the seams, there is a selection.
pub proof fn lemma_first_selection(total: nat, seams: nat)
    requires
        seams < total <= usize::MAX,
    ensures
        is_selection(first_selection(seams), total, seams),
{
}

/// Every selection of `seams` of the positions 1 to `total - 1`, by
/// `Itertools::combinations` on the range from 1 to `total`. It yields each
/// combination as a vector in the order of the range, starts with the first
/// `seams` positions and moves the rightmost index that can still move, so
/// that the combinations come in the order of a dictionary, each once.
#[verifier::external_body]
pub(crate) fn seam_selections(total: usize, seams: usize) -> (maps: Vec<Vec<usize>>)
    requires
        seams < total,
    ensures
        enumerates_selections(map_views(maps@), total as nat, seams as nat),
{
    (1..total).combinations(seams).collect()
}

} // verus!
