//! Every selection of seam positions, written out in order: the ground on
//! which a best seam map is known to exist.

use crate::seams::lex_less;
use vstd::prelude::*;

verus! {

/// `map` has `seams` entries, all from `low` to `total - 1`, each greater
/// than the one before.
pub open spec fn is_selection_from(map: Seq<usize>, low: nat, total: nat, seams: nat) -> bool {
    &&& map.len() == seams
    &&& forall|i: int| 0 <= i < map.len() ==> low <= #[trigger] map[i] < total
    &&& forall|i: int, j: int| 0 <= i < j < map.len() ==> map[i] < map[j]
}

/// Each of the maps with `first` put before it.
pub open spec fn with_first(first: usize, rest: Seq<Seq<usize>>) -> Seq<Seq<usize>> {
    rest.map_values(|m: Seq<usize>| seq![first] + m)
}

/// The selections of `seams` positions from `low` to `total - 1`: first
/// those that hold `low`, then those that do not.
pub open spec fn selections_from(low: nat, total: nat, seams: nat) -> Seq<Seq<usize>>
    decreases total - low,
{
    if seams == 0 {
        seq![Seq::<usize>::empty()]
    } else if low >= total {
        Seq::<Seq<usize>>::empty()
    } else {
        with_first(low as usize, selections_from(low + 1, total, (seams - 1) as nat))
            + selections_from(low + 1, total, seams)
    }
}

/// `selections_from` lists selections only, in the order of a dictionary,
/// and leaves none out.
pub proof fn lemma_selections_from(low: nat, total: nat, seams: nat)
    requires
        total <= usize::MAX,
    ensures
        forall|i: int|
            0 <= i < selections_from(low, total, seams).len() ==> is_selection_from(
                #[trigger] selections_from(low, total, seams)[i],
                low,
                total,
                seams,
            ),
        forall|i: int, j: int|
            0 <= i < j < selections_from(low, total, seams).len() ==> lex_less(
                #[trigger] selections_from(low, total, seams)[i],
                #[trigger] selections_from(low, total, seams)[j],
            ),
        forall|m: Seq<usize>| #[trigger]
            is_selection_from(m, low, total, seams) ==> selections_from(low, total, seams).contains(
                m,
            ),
    decreases total - low,
{
    let all = selections_from(low, total, seams);
    if seams == 0 {
        assert forall|m: Seq<usize>| #[trigger]
            is_selection_from(m, low, total, seams) implies all.contains(m) by {
            assert(m =~= Seq::<usize>::empty());
            assert(all[0] == m);
        }
    } else if low >= total {
        assert forall|m: Seq<usize>| #[trigger]
            is_selection_from(m, low, total, seams) implies all.contains(m) by {
            assert(low <= m[0] < total);
        }
    } else {
        let first = low as usize;
        let shorter = selections_from(low + 1, total, (seams - 1) as nat);
        let others = selections_from(low + 1, total, seams);
        let holding = with_first(first, shorter);
        lemma_selections_from(low + 1, total, (seams - 1) as nat);
        lemma_selections_from(low + 1, total, seams);
        assert(all == holding + others);
        assert forall|i: int| 0 <= i < all.len() implies is_selection_from(
            #[trigger] all[i],
            low,
            total,
            seams,
        ) by {
            if i < holding.len() {
                let tail = shorter[i];
                assert(is_selection_from(tail, low + 1, total, (seams - 1) as nat));
                assert(all[i] == seq![first] + tail);
                assert forall|p: int| 0 <= p < all[i].len() implies low <= #[trigger] all[i][p]
                    < total by {
                    if p > 0 {
                        assert(all[i][p] == tail[p - 1]);
                    }
                }
                assert forall|p: int, q: int| 0 <= p < q < all[i].len() implies all[i][p]
                    < all[i][q] by {
                    assert(all[i][q] == tail[q - 1]);
                    if p > 0 {
                        assert(all[i][p] == tail[p - 1]);
                    }
                }
            } else {
                assert(all[i] == others[i - holding.len()]);
                assert(is_selection_from(others[i - holding.len()], low + 1, total, seams));
            }
        }
        assert forall|i: int, j: int| 0 <= i < j < all.len() implies lex_less(
            #[trigger] all[i],
            #[trigger] all[j],
        ) by {
            if j < holding.len() {
                let a = shorter[i];
                let b = shorter[j];
                assert(lex_less(a, b));
                let w = choose|w: int|
                    0 <= w < a.len() && w < b.len() && #[trigger] a[w] < b[w] && a.take(w)
                        == b.take(w);
                assert(all[i] == seq![first] + a);
                assert(all[j] == seq![first] + b);
                assert(all[i][w + 1] == a[w]);
                assert(all[j][w + 1] == b[w]);
                assert(all[i].take(w + 1) =~= seq![first] + a.take(w));
                assert(all[j].take(w + 1) =~= seq![first] + b.take(w));
            } else if i >= holding.len() {
                assert(all[i] == others[i - holding.len()]);
                assert(all[j] == others[j - holding.len()]);
            } else {
                let a = shorter[i];
                let b = others[j - holding.len()];
                assert(all[i] == seq![first] + a);
                assert(all[j] == b);
                assert(is_selection_from(b, low + 1, total, seams));
                assert(all[i][0] == first);
                assert(low + 1 <= b[0]);
                assert(all[i].take(0) =~= all[j].take(0));
            }
        }
        assert forall|m: Seq<usize>| #[trigger]
            is_selection_from(m, low, total, seams) implies all.contains(m) by {
            if m[0] == low {
                let tail = m.drop_first();
                assert forall|p: int| 0 <= p < tail.len() implies low + 1 <= #[trigger] tail[p]
                    < total by {
                    assert(tail[p] == m[p + 1]);
                    assert(m[0] < m[p + 1]);
                }
                assert forall|p: int, q: int| 0 <= p < q < tail.len() implies tail[p]
                    < tail[q] by {
                    assert(tail[p] == m[p + 1]);
                    assert(tail[q] == m[q + 1]);
                }
                assert(is_selection_from(tail, low + 1, total, (seams - 1) as nat));
                assert(shorter.contains(tail));
                let at = choose|at: int| 0 <= at < shorter.len() && shorter[at] == tail;
                assert(holding[at] == seq![first] + tail);
                assert(seq![first] + tail =~= m);
                assert(all[at] == m);
            } else {
                assert forall|p: int| 0 <= p < m.len() implies low + 1 <= #[trigger] m[p]
                    < total by {
                    if p > 0 {
                        assert(m[0] < m[p]);
                    }
                }
                assert(is_selection_from(m, low + 1, total, seams));
                assert(others.contains(m));
                let at = choose|at: int| 0 <= at < others.len() && others[at] == m;
                assert(all[holding.len() + at] == m);
            }
        }
    }
}

/// The index of the first least element among the first `upto`.
pub proof fn lemma_first_minimum(costs: Seq<nat>, upto: nat) -> (at: int)
    requires
        0 < upto <= costs.len(),
    ensures
        0 <= at < upto,
        forall|k: int| 0 <= k < upto ==> costs[at] <= #[trigger] costs[k],
        forall|k: int| 0 <= k < at ==> costs[at] < #[trigger] costs[k],
    decreases upto,
{
    if upto == 1 {
        0
    } else {
        let before = lemma_first_minimum(costs, (upto - 1) as nat);
        if costs[upto - 1] < costs[before] {
            upto - 1
        } else {
            before
        }
    }
}

} // verus!
