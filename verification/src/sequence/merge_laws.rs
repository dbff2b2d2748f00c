//! What holds of the merge of streams that give notes only.
use crate::notes::MIDINote;
use crate::sequence::merge_model::{
    holds_error, holds_note, is_earliest, lemma_earliest_exists, lemma_merged_note, lemma_merged_nothing,
    lemma_total_len_update, merged, popped, time_of, total_len,
};
use vstd::multiset::Multiset;
use vstd::prelude::*;
use vstd::seq_lib::lemma_multiset_commutative;

verus! {

/// Whether every value of every lane is a note.
pub open spec fn notes_only<N, E>(lanes: Seq<Seq<Result<N, E>>>) -> bool {
    forall|i: int, j: int| 0 <= i < lanes.len() && 0 <= j < lanes[i].len() ==> (#[trigger] lanes[i][j]) is Ok
}

/// Whether no value starts before a value that stands before it.
pub open spec fn ordered<N: MIDINote, E>(values: Seq<Result<N, E>>) -> bool {
    forall|a: int, b: int| 0 <= a <= b < values.len() ==> time_of(values[a]) <= time_of(values[b])
}

/// Whether `out` holds the values of `lanes`, those of each lane in the
/// order in which the lane holds them.
pub open spec fn interleaves<A>(out: Seq<A>, lanes: Seq<Seq<A>>) -> bool
    decreases out.len(),
{
    if out.len() == 0 {
        forall|i: int| 0 <= i < lanes.len() ==> (#[trigger] lanes[i]).len() == 0
    } else {
        exists|k: int|
            0 <= k < lanes.len() && (#[trigger] lanes[k]).len() > 0 && lanes[k][0] == out[0] && interleaves(
                out.drop_first(),
                popped(lanes, k),
            )
    }
}

/// Lanes of notes keep being lanes of notes as notes are taken, and ordered
/// lanes stay ordered.
proof fn lemma_popped_keeps<N: MIDINote, E>(lanes: Seq<Seq<Result<N, E>>>, k: int)
    requires
        notes_only(lanes),
        0 <= k < lanes.len(),
        lanes[k].len() > 0,
    ensures
        notes_only(popped(lanes, k)),
        (forall|i: int| 0 <= i < lanes.len() ==> ordered(#[trigger] lanes[i])) ==> (forall|i: int|
            0 <= i < lanes.len() ==> ordered(#[trigger] popped(lanes, k)[i])),
        total_len(popped(lanes, k)) < total_len(lanes),
{
    let left = popped(lanes, k);
    assert forall|i: int, j: int| 0 <= i < left.len() && 0 <= j < left[i].len() implies (#[trigger] left[i][j])
        is Ok by {
        if i == k {
            assert(lanes[k][j + 1] is Ok);
        } else {
            assert(lanes[i][j] is Ok);
        }
    }
    if forall|i: int| 0 <= i < lanes.len() ==> ordered(#[trigger] lanes[i]) {
        assert forall|i: int| 0 <= i < lanes.len() implies ordered(#[trigger] left[i]) by {
            assert(ordered(lanes[i]));
            if i == k {
                assert forall|a: int, b: int| 0 <= a <= b < left[k].len() implies time_of(left[k][a]) <= time_of(
                    left[k][b],
                ) by {
                    assert(time_of(lanes[k][a + 1]) <= time_of(lanes[k][b + 1]));
                }
            }
        }
    }
    lemma_total_len_update(lanes, k, lanes[k].drop_first());
}

/// Lanes of notes either all are empty or have a lane to take a note from.
proof fn lemma_notes_only_cases<N: MIDINote, E>(lanes: Seq<Seq<Result<N, E>>>)
    requires
        notes_only(lanes),
    ensures
        forall|j: int| !holds_error(lanes, j),
        (exists|k: int| is_earliest(lanes, k)) || (forall|i: int|
            0 <= i < lanes.len() ==> (#[trigger] lanes[i]).len() == 0),
{
    assert forall|j: int| !holds_error(lanes, j) by {
        if 0 <= j < lanes.len() && lanes[j].len() > 0 {
            assert(lanes[j][0] is Ok);
        }
    }
    if exists|i: int| 0 <= i < lanes.len() && (#[trigger] lanes[i]).len() > 0 {
        let i = choose|i: int| 0 <= i < lanes.len() && (#[trigger] lanes[i]).len() > 0;
        assert(lanes[i][0] is Ok);
        assert(holds_note(lanes, i));
        lemma_earliest_exists(lanes);
    }
}

/// The values of all lanes are the first value of lane `k` and the values
/// that are left once it is taken.
proof fn lemma_flatten_popped<A>(lanes: Seq<Seq<A>>, k: int)
    requires
        0 <= k < lanes.len(),
        lanes[k].len() > 0,
    ensures
        lanes.flatten().to_multiset() == popped(lanes, k).flatten().to_multiset().insert(lanes[k][0]),
    decreases lanes.len(),
{
    broadcast use vstd::multiset::group_multiset_axioms;

    let left = popped(lanes, k);
    let first = lanes.first();
    let others = lanes.drop_first();
    let x = lanes[k][0];
    if k == 0 {
        assert(left.drop_first() =~= others);
        let tail = first.drop_first();
        assert(first =~= seq![x] + tail);
        assert(lanes.flatten() =~= seq![x] + (tail + others.flatten()));
        assert(left.flatten() =~= tail + others.flatten());
        lemma_multiset_commutative(seq![x], tail + others.flatten());
        assert(seq![x] =~= Seq::<A>::empty().push(x));
        Seq::<A>::empty().to_multiset_ensures();
        assert(seq![x].to_multiset() =~= Multiset::<A>::empty().insert(x));
        assert(lanes.flatten().to_multiset() =~= left.flatten().to_multiset().insert(x));
    } else {
        lemma_flatten_popped(others, k - 1);
        assert(left.drop_first() =~= popped(others, k - 1));
        assert(left.first() == first);
        lemma_multiset_commutative(first, others.flatten());
        lemma_multiset_commutative(first, popped(others, k - 1).flatten());
        assert(lanes.flatten().to_multiset() =~= left.flatten().to_multiset().insert(x));
    }
}

/// Lanes that are all empty hold no value.
proof fn lemma_flatten_nothing<A>(lanes: Seq<Seq<A>>)
    requires
        forall|i: int| 0 <= i < lanes.len() ==> (#[trigger] lanes[i]).len() == 0,
    ensures
        lanes.flatten() == Seq::<A>::empty(),
    decreases lanes.len(),
{
    if lanes.len() > 0 {
        assert(lanes.first() == lanes[0]);
        assert forall|i: int| 0 <= i < lanes.drop_first().len() implies (#[trigger] lanes.drop_first()[i]).len()
            == 0 by {
            assert(lanes[i + 1].len() == 0);
        }
        lemma_flatten_nothing(lanes.drop_first());
        assert(lanes.flatten() =~= Seq::<A>::empty());
    }
}

/// The merge of streams of notes holds exactly the notes of the streams,
/// each as often as the streams hold it.
pub proof fn lemma_merged_is_permutation<N: MIDINote, E>(lanes: Seq<Seq<Result<N, E>>>)
    requires
        notes_only(lanes),
    ensures
        merged(lanes).to_multiset() == lanes.flatten().to_multiset(),
    decreases total_len(lanes),
{
    broadcast use vstd::multiset::group_multiset_axioms;

    lemma_notes_only_cases(lanes);
    if exists|k: int| is_earliest(lanes, k) {
        let k = choose|k: int| is_earliest(lanes, k);
        let x = lanes[k][0];
        lemma_merged_note(lanes, k);
        lemma_popped_keeps(lanes, k);
        lemma_merged_is_permutation(popped(lanes, k));
        lemma_flatten_popped(lanes, k);
        let rest = merged(popped(lanes, k));
        lemma_multiset_commutative(seq![x], rest);
        assert(seq![x] =~= Seq::<Result<N, E>>::empty().push(x));
        Seq::<Result<N, E>>::empty().to_multiset_ensures();
        assert(seq![x].to_multiset() =~= Multiset::<Result<N, E>>::empty().insert(x));
        assert(merged(lanes).to_multiset() =~= lanes.flatten().to_multiset());
    } else {
        lemma_merged_nothing(lanes);
        lemma_flatten_nothing(lanes);
    }
}

/// The merge of streams of notes holds the notes of each stream in the
/// order in which the stream gives them.
pub proof fn lemma_merged_interleaves<N: MIDINote, E>(lanes: Seq<Seq<Result<N, E>>>)
    requires
        notes_only(lanes),
    ensures
        interleaves(merged(lanes), lanes),
    decreases total_len(lanes),
{
    lemma_notes_only_cases(lanes);
    if exists|k: int| is_earliest(lanes, k) {
        let k = choose|k: int| is_earliest(lanes, k);
        lemma_merged_note(lanes, k);
        lemma_popped_keeps(lanes, k);
        lemma_merged_interleaves(popped(lanes, k));
        let out = merged(lanes);
        assert(out.drop_first() =~= merged(popped(lanes, k)));
        assert(holds_note(lanes, k));
        assert(lanes[k].len() > 0 && lanes[k][0] == out[0]);
    } else {
        lemma_merged_nothing(lanes);
    }
}

/// No note of the merge starts before `floor`, where no note of the streams
/// does.
proof fn lemma_merged_not_before<N: MIDINote, E>(lanes: Seq<Seq<Result<N, E>>>, floor: u64)
    requires
        notes_only(lanes),
        forall|i: int, j: int|
            0 <= i < lanes.len() && 0 <= j < lanes[i].len() ==> time_of(#[trigger] lanes[i][j]) >= floor,
    ensures
        forall|a: int| 0 <= a < merged(lanes).len() ==> time_of(#[trigger] merged(lanes)[a]) >= floor,
    decreases total_len(lanes),
{
    lemma_notes_only_cases(lanes);
    if exists|k: int| is_earliest(lanes, k) {
        let k = choose|k: int| is_earliest(lanes, k);
        lemma_merged_note(lanes, k);
        lemma_popped_keeps(lanes, k);
        let left = popped(lanes, k);
        assert forall|i: int, j: int| 0 <= i < left.len() && 0 <= j < left[i].len() implies time_of(
            #[trigger] left[i][j],
        ) >= floor by {
            if i == k {
                assert(time_of(lanes[k][j + 1]) >= floor);
            } else {
                assert(time_of(lanes[i][j]) >= floor);
            }
        }
        lemma_merged_not_before(left, floor);
        assert(holds_note(lanes, k));
        assert(time_of(lanes[k][0]) >= floor);
        assert forall|a: int| 0 <= a < merged(lanes).len() implies time_of(#[trigger] merged(lanes)[a])
            >= floor by {
            if a > 0 {
                assert(merged(lanes)[a] == merged(left)[a - 1]);
            }
        }
    } else {
        lemma_merged_nothing(lanes);
    }
}

/// The merge of streams of notes that are each ordered by start time is
/// ordered by start time.
pub proof fn lemma_merged_is_ordered<N: MIDINote, E>(lanes: Seq<Seq<Result<N, E>>>)
    requires
        notes_only(lanes),
        forall|i: int| 0 <= i < lanes.len() ==> ordered(#[trigger] lanes[i]),
    ensures
        ordered(merged(lanes)),
    decreases total_len(lanes),
{
    lemma_notes_only_cases(lanes);
    if exists|k: int| is_earliest(lanes, k) {
        let k = choose|k: int| is_earliest(lanes, k);
        lemma_merged_note(lanes, k);
        lemma_popped_keeps(lanes, k);
        let left = popped(lanes, k);
        let floor = time_of(lanes[k][0]);
        lemma_merged_is_ordered(left);
        assert forall|i: int, j: int| 0 <= i < left.len() && 0 <= j < left[i].len() implies time_of(
            #[trigger] left[i][j],
        ) >= floor by {
            assert(ordered(lanes[i]));
            if i == k {
                assert(time_of(lanes[k][0]) <= time_of(lanes[k][j + 1]));
            } else {
                assert(lanes[i][0] is Ok);
                assert(holds_note(lanes, i));
                assert(time_of(lanes[i][0]) <= time_of(lanes[i][j]));
            }
        }
        lemma_merged_not_before(left, floor);
        let out = merged(lanes);
        assert forall|a: int, b: int| 0 <= a <= b < out.len() implies time_of(out[a]) <= time_of(out[b]) by {
            if a == 0 {
                if b > 0 {
                    assert(out[b] == merged(left)[b - 1]);
                }
            } else {
                assert(out[a] == merged(left)[a - 1]);
                assert(out[b] == merged(left)[b - 1]);
            }
        }
    } else {
        lemma_merged_nothing(lanes);
    }
}

/// The place in the lanes before a note was taken from lane `k` of a value
/// that stands at `at` behind it: a stream and a place in the stream.
pub open spec fn unpopped(k: int, at: (int, int)) -> (int, int) {
    if at.0 == k {
        (k, at.1 + 1)
    } else {
        at
    }
}

/// Where each value of the merge of streams of notes comes from: the index
/// of its stream, and its place in the stream.
pub open spec fn origins<N: MIDINote, E>(lanes: Seq<Seq<Result<N, E>>>) -> Seq<(int, int)>
    decreases total_len(lanes),
{
    if exists|k: int| is_earliest(lanes, k) {
        let k = choose|k: int| is_earliest(lanes, k);
        proof {
            lemma_total_len_update(lanes, k, lanes[k].drop_first());
        }
        seq![(k, 0int)] + origins(popped(lanes, k)).map_values(|at: (int, int)| unpopped(k, at))
    } else {
        Seq::empty()
    }
}

/// Whether the value at `a` goes before the value at `b` in the order of
/// start time, then stream, then place in the stream.
pub open spec fn goes_before<N: MIDINote, E>(lanes: Seq<Seq<Result<N, E>>>, a: (int, int), b: (int, int)) -> bool {
    let start_a = time_of(lanes[a.0][a.1]);
    let start_b = time_of(lanes[b.0][b.1]);
    start_a < start_b || (start_a == start_b && (a.0 < b.0 || (a.0 == b.0 && a.1 < b.1)))
}

/// Whether `at` is a place in `lanes`.
pub open spec fn is_place<A>(lanes: Seq<Seq<A>>, at: (int, int)) -> bool {
    0 <= at.0 < lanes.len() && 0 <= at.1 < lanes[at.0].len()
}

/// The merge of streams of notes that are each ordered by start time is
/// their stable sort: it holds the notes in the order of start time, notes
/// of one start time in the order of their streams, and notes of one start
/// time and stream in the order in which the stream gives them.
pub proof fn lemma_merged_is_stable_sort<N: MIDINote, E>(lanes: Seq<Seq<Result<N, E>>>)
    requires
        notes_only(lanes),
        forall|i: int| 0 <= i < lanes.len() ==> ordered(#[trigger] lanes[i]),
    ensures
        origins(lanes).len() == merged(lanes).len(),
        forall|a: int|
            0 <= a < merged(lanes).len() ==> {
                &&& is_place(lanes, #[trigger] origins(lanes)[a])
                &&& merged(lanes)[a] == lanes[origins(lanes)[a].0][origins(lanes)[a].1]
            },
        forall|a: int, b: int|
            0 <= a < b < merged(lanes).len() ==> goes_before(
                lanes,
                #[trigger] origins(lanes)[a],
                #[trigger] origins(lanes)[b],
            ),
    decreases total_len(lanes),
{
    lemma_notes_only_cases(lanes);
    if exists|k: int| is_earliest(lanes, k) {
        let k = choose|k: int| is_earliest(lanes, k);
        lemma_merged_note(lanes, k);
        lemma_popped_keeps(lanes, k);
        let left = popped(lanes, k);
        lemma_merged_is_stable_sort(left);
        let out = merged(lanes);
        let from = origins(lanes);
        let from_left = origins(left);
        assert(holds_note(lanes, k));
        assert(from.len() == out.len());
        assert forall|a: int| 0 <= a < out.len() implies {
            &&& is_place(lanes, #[trigger] from[a])
            &&& out[a] == lanes[from[a].0][from[a].1]
        } by {
            if a > 0 {
                let at = from_left[a - 1];
                assert(is_place(left, at));
                assert(from[a] == unpopped(k, at));
                assert(out[a] == merged(left)[a - 1]);
            }
        }
        assert forall|a: int, b: int| 0 <= a < b < out.len() implies goes_before(
            lanes,
            #[trigger] from[a],
            #[trigger] from[b],
        ) by {
            let at_b = from_left[b - 1];
            assert(is_place(left, at_b));
            assert(from[b] == unpopped(k, at_b));
            assert(is_place(lanes, from[b]));
            if a == 0 {
                let j = from[b].0;
                assert(ordered(lanes[j]));
                assert(time_of(lanes[j][0]) <= time_of(lanes[j][from[b].1]));
                assert(lanes[j][0] is Ok);
                assert(holds_note(lanes, j));
            } else {
                let at_a = from_left[a - 1];
                assert(is_place(left, at_a));
                assert(from[a] == unpopped(k, at_a));
                assert(goes_before(left, at_a, at_b));
            }
        }
    } else {
        lemma_merged_nothing(lanes);
    }
}

} // verus!
