//! What merging note streams gives, as a function on sequences.
//!
//! A lane is what one stream still has to give: notes in the order in which
//! they come, and possibly an error. The merge takes, again and again, the
//! first note of the lane whose first note starts earliest; among lanes that
//! start at the same time the one with the lowest index goes first. An error
//! at the front of a lane ends the merge.
use crate::notes::MIDINote;
use vstd::prelude::*;

verus! {

/// The number of values in all lanes together.
pub open spec fn total_len<A>(lanes: Seq<Seq<A>>) -> nat
    decreases lanes.len(),
{
    if lanes.len() == 0 {
        0
    } else {
        total_len(lanes.drop_last()) + lanes.last().len()
    }
}

/// Whether lane `k` starts with a note.
pub open spec fn holds_note<N, E>(lanes: Seq<Seq<Result<N, E>>>, k: int) -> bool {
    0 <= k < lanes.len() && lanes[k].len() > 0 && lanes[k][0] is Ok
}

/// Whether lane `k` starts with an error.
pub open spec fn holds_error<N, E>(lanes: Seq<Seq<Result<N, E>>>, k: int) -> bool {
    0 <= k < lanes.len() && lanes[k].len() > 0 && lanes[k][0] is Err
}

/// The start time of a note; 0 for an error.
pub open spec fn time_of<N: MIDINote, E>(value: Result<N, E>) -> u64 {
    match value {
        Ok(note) => note.start_time(),
        Err(_) => 0,
    }
}

/// Whether lane `k` is the first lane that starts with an error.
pub open spec fn is_first_error<N, E>(lanes: Seq<Seq<Result<N, E>>>, k: int) -> bool {
    &&& holds_error(lanes, k)
    &&& forall|j: int| 0 <= j < k ==> !#[trigger] holds_error(lanes, j)
}

/// Whether lane `k` is the one to take a note from: it starts with a note,
/// every lane before it starts later, and no lane behind it starts earlier.
pub open spec fn is_earliest<N: MIDINote, E>(lanes: Seq<Seq<Result<N, E>>>, k: int) -> bool {
    &&& holds_note(lanes, k)
    &&& forall|j: int| #[trigger]
        holds_note(lanes, j) ==> {
            &&& j < k ==> time_of(lanes[j][0]) > time_of(lanes[k][0])
            &&& j > k ==> time_of(lanes[j][0]) >= time_of(lanes[k][0])
        }
}

/// The lanes after the first value of lane `k` has been taken.
pub open spec fn popped<A>(lanes: Seq<Seq<A>>, k: int) -> Seq<Seq<A>> {
    lanes.update(k, lanes[k].drop_first())
}

/// What the merge of `lanes` hands out, in order.
pub open spec fn merged<N: MIDINote, E>(lanes: Seq<Seq<Result<N, E>>>) -> Seq<Result<N, E>>
    decreases total_len(lanes),
{
    if exists|k: int| holds_error(lanes, k) {
        let k = choose|k: int| is_first_error(lanes, k);
        seq![lanes[k][0]]
    } else if exists|k: int| is_earliest(lanes, k) {
        let k = choose|k: int| is_earliest(lanes, k);
        proof {
            lemma_total_len_update(lanes, k, lanes[k].drop_first());
        }
        seq![lanes[k][0]] + merged(popped(lanes, k))
    } else {
        Seq::empty()
    }
}

/// Putting another lane in place of lane `k` changes the total by the
/// difference of their lengths.
pub proof fn lemma_total_len_update<A>(lanes: Seq<Seq<A>>, k: int, lane: Seq<A>)
    requires
        0 <= k < lanes.len(),
    ensures
        total_len(lanes.update(k, lane)) == total_len(lanes) - lanes[k].len() + lane.len(),
    decreases lanes.len(),
{
    let after = lanes.update(k, lane);
    if k == lanes.len() - 1 {
        assert(after.drop_last() =~= lanes.drop_last());
    } else {
        lemma_total_len_update(lanes.drop_last(), k, lane);
        assert(after.drop_last() =~= lanes.drop_last().update(k, lane));
    }
}

/// Only one lane is the one to take a note from.
pub proof fn lemma_earliest_unique<N: MIDINote, E>(lanes: Seq<Seq<Result<N, E>>>, a: int, b: int)
    requires
        is_earliest(lanes, a),
        is_earliest(lanes, b),
    ensures
        a == b,
{
    assert(holds_note(lanes, a));
    assert(holds_note(lanes, b));
}

/// Among the first `n` lanes, where one of them starts with a note, there is
/// one to take a note from.
pub proof fn lemma_earliest_among<N: MIDINote, E>(lanes: Seq<Seq<Result<N, E>>>, n: int) -> (k: int)
    requires
        0 <= n <= lanes.len(),
        exists|j: int| 0 <= j < n && holds_note(lanes, j),
    ensures
        0 <= k < n,
        holds_note(lanes, k),
        forall|j: int|
            0 <= j < n && #[trigger] holds_note(lanes, j) ==> {
                &&& j < k ==> time_of(lanes[j][0]) > time_of(lanes[k][0])
                &&& j > k ==> time_of(lanes[j][0]) >= time_of(lanes[k][0])
            },
    decreases n,
{
    if exists|j: int| 0 <= j < n - 1 && holds_note(lanes, j) {
        let before = lemma_earliest_among(lanes, n - 1);
        if holds_note(lanes, n - 1) && time_of(lanes[n - 1][0]) < time_of(lanes[before][0]) {
            n - 1
        } else {
            before
        }
    } else {
        n - 1
    }
}

/// Where a lane starts with a note, there is a lane to take a note from.
pub proof fn lemma_earliest_exists<N: MIDINote, E>(lanes: Seq<Seq<Result<N, E>>>)
    requires
        exists|j: int| holds_note(lanes, j),
    ensures
        exists|k: int| is_earliest(lanes, k),
{
    let j = choose|j: int| holds_note(lanes, j);
    assert(0 <= j < lanes.len() && holds_note(lanes, j));
    let k = lemma_earliest_among(lanes, lanes.len() as int);
    assert(is_earliest(lanes, k));
}

/// Where no lane starts with an error, the merge hands out the first note of
/// the earliest lane and goes on with what is left.
pub proof fn lemma_merged_note<N: MIDINote, E>(lanes: Seq<Seq<Result<N, E>>>, k: int)
    requires
        forall|j: int| !holds_error(lanes, j),
        is_earliest(lanes, k),
    ensures
        merged(lanes) == seq![lanes[k][0]] + merged(popped(lanes, k)),
{
    let chosen = choose|k: int| is_earliest(lanes, k);
    lemma_earliest_unique(lanes, k, chosen);
}

/// Where a lane starts with an error, the merge hands out the error of the
/// first such lane and nothing more.
pub proof fn lemma_merged_error<N: MIDINote, E>(lanes: Seq<Seq<Result<N, E>>>, k: int)
    requires
        is_first_error(lanes, k),
    ensures
        merged(lanes) == seq![lanes[k][0]],
{
    let chosen = choose|k: int| is_first_error(lanes, k);
    assert(holds_error(lanes, k));
    if chosen < k {
        assert(!holds_error(lanes, chosen));
    }
    if k < chosen {
        assert(!holds_error(lanes, k));
    }
}

/// Where every lane is empty, the merge hands out nothing.
pub proof fn lemma_merged_nothing<N: MIDINote, E>(lanes: Seq<Seq<Result<N, E>>>)
    requires
        forall|j: int| 0 <= j < lanes.len() ==> (#[trigger] lanes[j]).len() == 0,
    ensures
        merged(lanes) == Seq::<Result<N, E>>::empty(),
{
    assert forall|k: int| !holds_error(lanes, k) by {}
    assert forall|k: int| !is_earliest(lanes, k) by {}
}

/// Among the first `n` lanes, where one of them starts with an error, there
/// is a first one that does.
pub proof fn lemma_first_error_among<N, E>(lanes: Seq<Seq<Result<N, E>>>, n: int) -> (k: int)
    requires
        0 <= n <= lanes.len(),
        exists|j: int| 0 <= j < n && holds_error(lanes, j),
    ensures
        0 <= k < n,
        is_first_error(lanes, k),
    decreases n,
{
    if exists|j: int| 0 <= j < n - 1 && holds_error(lanes, j) {
        lemma_first_error_among(lanes, n - 1)
    } else {
        n - 1
    }
}

/// The index that lane `j` has, `j` not being `i`, once lane `i` is taken
/// out.
pub open spec fn shifted(i: int, j: int) -> int {
    if j < i {
        j
    } else {
        j - 1
    }
}

/// The index that lane `j` had before lane `i` was taken out.
pub open spec fn unshifted(i: int, j: int) -> int {
    if j < i {
        j
    } else {
        j + 1
    }
}

/// An empty lane adds nothing to the merge.
pub proof fn lemma_merged_remove_empty<N: MIDINote, E>(lanes: Seq<Seq<Result<N, E>>>, i: int)
    requires
        0 <= i < lanes.len(),
        lanes[i].len() == 0,
    ensures
        merged(lanes.remove(i)) == merged(lanes),
    decreases total_len(lanes),
{
    let rest = lanes.remove(i);
    if exists|j: int| holds_error(lanes, j) {
        let j = choose|j: int| holds_error(lanes, j);
        assert(0 <= j < lanes.len() && holds_error(lanes, j));
        let k = lemma_first_error_among(lanes, lanes.len() as int);
        let moved = shifted(i, k);
        assert(holds_error(lanes, k));
        assert(rest[moved] == lanes[k]);
        assert(holds_error(rest, moved));
        assert forall|j: int| 0 <= j < moved implies !#[trigger] holds_error(rest, j) by {
            assert(rest[j] == lanes[unshifted(i, j)]);
            assert(!holds_error(lanes, unshifted(i, j)));
        }
        lemma_merged_error(lanes, k);
        lemma_merged_error(rest, moved);
    } else if exists|j: int| holds_note(lanes, j) {
        lemma_earliest_exists(lanes);
        let k = choose|k: int| is_earliest(lanes, k);
        let moved = shifted(i, k);
        assert(holds_note(lanes, k));
        assert(rest[moved] == lanes[k]);
        assert(holds_note(rest, moved));
        assert forall|j: int| #[trigger] holds_note(rest, j) implies {
            &&& j < moved ==> time_of(rest[j][0]) > time_of(rest[moved][0])
            &&& j > moved ==> time_of(rest[j][0]) >= time_of(rest[moved][0])
        } by {
            assert(rest[j] == lanes[unshifted(i, j)]);
            assert(holds_note(lanes, unshifted(i, j)));
        }
        assert(is_earliest(rest, moved));
        assert forall|j: int| !holds_error(rest, j) by {
            if holds_error(rest, j) {
                assert(rest[j] == lanes[unshifted(i, j)]);
                assert(holds_error(lanes, unshifted(i, j)));
            }
        }
        lemma_merged_note(lanes, k);
        lemma_merged_note(rest, moved);
        lemma_total_len_update(lanes, k, lanes[k].drop_first());
        lemma_merged_remove_empty(popped(lanes, k), i);
        assert(popped(lanes, k).remove(i) =~= popped(rest, moved));
    } else {
        assert forall|j: int| !holds_error(rest, j) by {
            if holds_error(rest, j) {
                assert(rest[j] == lanes[unshifted(i, j)]);
                assert(holds_error(lanes, unshifted(i, j)));
            }
        }
        assert forall|j: int| !is_earliest(rest, j) by {
            if holds_note(rest, j) {
                assert(rest[j] == lanes[unshifted(i, j)]);
                assert(holds_note(lanes, unshifted(i, j)));
            }
        }
        assert forall|j: int| !is_earliest(lanes, j) by {}
    }
}

/// The lanes with which a merge starts, and the error that ends it at once:
/// each stream is asked for its first value, in order, up to the first
/// stream that gives an error; streams that hold nothing are left out.
pub open spec fn primed<N, E>(lanes: Seq<Seq<Result<N, E>>>) -> (Seq<Seq<Result<N, E>>>, Option<E>)
    decreases lanes.len(),
{
    if lanes.len() == 0 {
        (Seq::empty(), None)
    } else {
        let (before, failure) = primed(lanes.drop_last());
        if failure is Some || lanes.last().len() == 0 {
            (before, failure)
        } else {
            match lanes.last()[0] {
                Ok(_) => (before.push(lanes.last()), None),
                Err(e) => (before, Some(e)),
            }
        }
    }
}

/// Streams behind one that gives an error at once are not asked for
/// anything.
pub proof fn lemma_primed_stops<N, E>(lanes: Seq<Seq<Result<N, E>>>, n: int)
    requires
        0 <= n <= lanes.len(),
        primed(lanes.take(n)).1 is Some,
    ensures
        primed(lanes) == primed(lanes.take(n)),
    decreases lanes.len() - n,
{
    if n < lanes.len() {
        assert(lanes.take(n + 1).drop_last() =~= lanes.take(n));
        lemma_primed_stops(lanes, n + 1);
    } else {
        assert(lanes.take(n) =~= lanes);
    }
}

} // verus!
