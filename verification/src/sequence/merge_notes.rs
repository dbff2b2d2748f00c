//! Merging note streams that are each ordered by start time.
use crate::notes::MIDINote;
use crate::sequence::merge_model::{
    holds_error, holds_note, lemma_merged_error, lemma_merged_note, lemma_merged_nothing,
    lemma_merged_remove_empty, lemma_primed_stops, merged, popped, primed, time_of,
};
use vstd::prelude::*;
use vstd::std_specs::iter::IteratorSpec;

verus! {

/// A stream that has given a note which has not been handed out yet.
struct SeqTime<N, I> {
    iter: I,
    /// The note and its start time.
    next: (u64, N),
}

/// Whether `k` is the first index at which `times` is least.
pub open spec fn first_min(times: Seq<u64>, k: int) -> bool {
    &&& 0 <= k < times.len()
    &&& forall|j: int| 0 <= j < k ==> times[j] > times[k]
    &&& forall|j: int| k < j < times.len() ==> times[j] >= times[k]
}

/// Only one index is the first at which `times` is least.
pub proof fn lemma_first_min_unique(times: Seq<u64>, a: int, b: int)
    requires
        first_min(times, a),
        first_min(times, b),
    ensures
        a == b,
{
    if a < b {
        assert(times[a] > times[b]);
        assert(times[b] >= times[a]);
    }
    if b < a {
        assert(times[b] > times[a]);
        assert(times[a] >= times[b]);
    }
}

/// The start times of `notes`.
pub open spec fn start_times<N: MIDINote>(notes: Seq<N>) -> Seq<u64> {
    Seq::new(notes.len(), |i: int| notes[i].start_time())
}

/// The lanes of streams of which each has given the note `heads[i]` and
/// still holds `rests[i]`.
pub open spec fn with_heads<N, E>(heads: Seq<N>, rests: Seq<Seq<Result<N, E>>>) -> Seq<
    Seq<Result<N, E>>,
> {
    Seq::new(heads.len(), |i: int| seq![Ok::<N, E>(heads[i])] + rests[i])
}

/// The merge of note streams, handing out one note per call of
/// [`Merger::next`].
#[verifier::reject_recursive_types(N)]
#[verifier::reject_recursive_types(E)]
#[verifier::reject_recursive_types(I)]
pub struct Merger<N: MIDINote, E, I: Iterator<Item = Result<N, E>>> {
    /// The streams, up to the first call of `next`.
    array: Vec<I>,
    /// The streams that still have notes, from the first call of `next` on.
    sequences: Vec<SeqTime<N, I>>,
    /// The stream that gave the last note, while its next note starts at the
    /// same time.
    run: Option<usize>,
    /// An error that a stream has given and that has not been handed out yet.
    failure: Option<E>,
    started: bool,
}

impl<N: MIDINote, E, I: Iterator<Item = Result<N, E>>> Merger<N, E, I> {
    /// The start times of the notes that the streams have given.
    spec fn times(&self) -> Seq<u64> {
        Seq::new(self.sequences.len() as nat, |i: int| self.sequences[i].next.0)
    }

    /// Whether the merger is in a state that its own functions lead to: the
    /// start times it keeps are those of the notes it holds, and a stream it
    /// goes on with is the one whose note starts earliest.
    pub closed spec fn wf(&self) -> bool {
        &&& forall|i: int|
            0 <= i < self.sequences.len() ==> (#[trigger] self.sequences[i]).next.0
                == self.sequences[i].next.1.start_time()
        &&& self.run matches Some(k) ==> first_min(self.times(), k as int)
        &&& !self.started ==> self.sequences.len() == 0 && self.run is None && self.failure is None
    }

    /// The streams that the merger still draws from.
    pub closed spec fn sources(&self) -> Seq<I> {
        if self.started {
            Seq::new(self.sequences.len() as nat, |i: int| self.sequences[i].iter)
        } else {
            self.array@
        }
    }

    /// The notes that the streams have given and that have not been handed
    /// out yet.
    pub closed spec fn heads(&self) -> Seq<N> {
        Seq::new(self.sequences.len() as nat, |i: int| self.sequences[i].next.1)
    }

    /// Whether the first value of every stream has been asked for.
    pub closed spec fn started(&self) -> bool {
        self.started
    }

    /// The error that a stream has given and that has not been handed out
    /// yet.
    pub closed spec fn failure(&self) -> Option<E> {
        self.failure
    }

    /// What is still to be merged, where `rests[i]` is what `sources()[i]`
    /// still holds: the streams as they are before the first call of `next`;
    /// then the notes that the streams have given, each followed by what its
    /// stream still holds; and nothing but the error once a stream has given
    /// one.
    pub open spec fn lanes(&self, rests: Seq<Seq<Result<N, E>>>) -> Seq<Seq<Result<N, E>>> {
        if !self.started() {
            rests
        } else {
            match self.failure() {
                Some(e) => seq![seq![Err::<N, E>(e)]],
                None => with_heads(self.heads(), rests),
            }
        }
    }

    /// What the next call of `next` hands out once the merger has started,
    /// whatever the streams give then: the error that is waiting, or the
    /// note that starts earliest among the notes that the streams have
    /// given, the first of several.
    pub open spec fn front(&self) -> Option<Result<N, E>> {
        match self.failure() {
            Some(e) => Some(Err(e)),
            None => if self.heads().len() == 0 {
                None
            } else {
                Some(Ok(self.heads()[self.earliest()]))
            },
        }
    }

    /// The index of the stream whose note leaves next: the first of those
    /// whose note starts earliest.
    pub open spec fn earliest(&self) -> int {
        choose|k: int| first_min(start_times(self.heads()), k)
    }

    /// Whether `after` is what this merger is once stream `k` has given
    /// another note and holds it in its place: no other stream has been
    /// asked for anything.
    pub open spec fn kept_stream(&self, after: &Self, k: int) -> bool {
        &&& after.failure() is None
        &&& after.sources().len() == self.sources().len()
        &&& after.heads().len() == self.heads().len()
        &&& forall|j: int|
            0 <= j < self.sources().len() && j != k ==> #[trigger] after.sources()[j] == self.sources()[j]
        &&& forall|j: int| 0 <= j < self.heads().len() && j != k ==> #[trigger] after.heads()[j] == self.heads()[j]
    }

    /// Whether `after` is what this merger is once stream `k` has left: no
    /// other stream has been asked for anything.
    pub open spec fn dropped_stream(&self, after: &Self, k: int) -> bool {
        &&& after.sources() == self.sources().remove(k)
        &&& after.heads() == self.heads().remove(k)
    }

    /// Whether `after` is what this merger is once the note of stream `k`
    /// has left and the stream, which held `rest`, has been asked for its
    /// next value and holds `rest_after`: a stream that gives a note keeps
    /// its place with that note, a stream that has ended or gives an error
    /// leaves, and the error waits to be handed out.
    pub open spec fn drawn_from(
        &self,
        after: &Self,
        k: int,
        rest: Seq<Result<N, E>>,
        rest_after: Seq<Seq<Result<N, E>>>,
    ) -> bool {
        if rest.len() == 0 {
            self.dropped_stream(after, k) && after.failure() is None
        } else {
            match rest[0] {
                Ok(note) => {
                    &&& self.kept_stream(after, k)
                    &&& after.heads()[k] == note
                    &&& rest_after[k] == rest.drop_first()
                },
                Err(e) => self.dropped_stream(after, k) && after.failure() == Some(e),
            }
        }
    }

    /// Whether `after` is what a call of `next` makes of this merger, which
    /// has started, and `item` what the call hands out, where `rests[i]` is
    /// what `sources()[i]` holds and `rests_after` the same of `after`: an
    /// error that waits is handed out and every stream let go; else the
    /// note that starts earliest leaves, and only its stream is asked for
    /// another value.
    pub open spec fn stepped_to(
        &self,
        after: &Self,
        item: Option<Result<N, E>>,
        rests: Seq<Seq<Result<N, E>>>,
        rests_after: Seq<Seq<Result<N, E>>>,
    ) -> bool {
        &&& item == self.front()
        &&& match self.failure() {
            Some(_) => after.failure() is None && after.sources().len() == 0,
            None => if self.heads().len() == 0 {
                after.failure() is None && after.sources() == self.sources()
            } else {
                let k = self.earliest();
                &&& self.kept_stream(after, k) || self.dropped_stream(after, k)
                &&& self.sources()[k].obeys_prophetic_iter_laws() ==> self.drawn_from(
                    after,
                    k,
                    rests[k],
                    rests_after,
                )
            },
        }
    }

    /// Whether `after` is this merger once it has started, where `rests[i]`
    /// is what `sources()[i]` holds and `rests_after` the same of `after`:
    /// every stream up to the first that gives an error has been asked for
    /// one value, and those that gave a note are kept with it.
    pub open spec fn primed_to(
        &self,
        after: &Self,
        rests: Seq<Seq<Result<N, E>>>,
        rests_after: Seq<Seq<Result<N, E>>>,
    ) -> bool {
        &&& after.started()
        &&& after.heads().len() == after.sources().len()
        &&& after.failure() == primed(rests).1
        &&& with_heads(after.heads(), rests_after) == primed(rests).0
    }

    /// Whether every stream behaves as an iterator should: it hands out what
    /// it holds, in order, and then ends.
    pub open spec fn lawful(&self) -> bool {
        forall|i: int|
            0 <= i < self.sources().len() ==> (#[trigger] self.sources()[i]).obeys_prophetic_iter_laws()
    }

    /// The index of the stream whose note starts earliest; of several, the
    /// first.
    fn scan(&self) -> (k: usize)
        requires
            self.sequences.len() > 0,
        ensures
            first_min(self.times(), k as int),
    {
        let len: usize = self.sequences.len();
        let mut smallest_index: usize = 0;
        let mut smallest_time: u64 = self.sequences[0].next.0;
        let mut i: usize = 1;
        while i < len
            invariant
                len == self.sequences.len(),
                1 <= i <= len,
                smallest_index < i,
                smallest_time == self.times()[smallest_index as int],
                forall|j: int| 0 <= j < smallest_index ==> self.times()[j] > smallest_time,
                forall|j: int| smallest_index < j < i ==> self.times()[j] >= smallest_time,
            decreases len - i,
        {
            if self.sequences[i].next.0 < smallest_time {
                smallest_time = self.sequences[i].next.0;
                smallest_index = i;
            }
            i = i + 1;
        }
        smallest_index
    }

    /// Draws the first value of every stream, in the order of the streams,
    /// up to the first error.
    fn start(&mut self)
        requires
            old(self).wf(),
            !old(self).started,
        ensures
            final(self).wf(),
            final(self).started,
            final(self).heads().len() == final(self).sources().len(),
            old(self).lawful() ==> {
                &&& final(self).lawful()
                &&& merged(final(self).lanes(final(self).sources().map_values(|it: I| it.remaining())))
                    == merged(old(self).sources().map_values(|it: I| it.remaining()))
                &&& old(self).primed_to(
                    final(self),
                    old(self).sources().map_values(|it: I| it.remaining()),
                    final(self).sources().map_values(|it: I| it.remaining()),
                )
            },
    {
        let ghost raw: Seq<I> = self.array@;
        let ghost good: bool = self.lawful();
        proof {
            assert(self.sources() == raw);
            assert forall|i: int| 0 <= i < raw.len() && good implies (#[trigger] raw[i]).obeys_prophetic_iter_laws() by {
                assert(self.sources()[i].obeys_prophetic_iter_laws());
            }
        }
        let mut array: Vec<I> = Vec::new();
        core::mem::swap(&mut self.array, &mut array);
        self.started = true;
        proof {
            assert(with_heads(self.heads(), self.sources().map_values(|it: I| it.remaining())) + raw.skip(
                0,
            ).map_values(|it: I| it.remaining()) =~= raw.map_values(|it: I| it.remaining()));
            assert(with_heads(self.heads(), self.sources().map_values(|it: I| it.remaining())) =~= Seq::<
                Seq<Result<N, E>>,
            >::empty());
            assert(raw.take(0).map_values(|it: I| it.remaining()) =~= Seq::<Seq<Result<N, E>>>::empty());
        }
        for seq in it: array.into_iter()
            invariant
                it.seq() == raw,
                raw == old(self).sources(),
                good == old(self).lawful(),
                self.wf(),
                self.started,
                self.failure is None,
                self.run is None,
                good ==> forall|i: int| 0 <= i < raw.len() ==> (#[trigger] raw[i]).obeys_prophetic_iter_laws(),
                good ==> self.lawful(),
                good ==> merged(
                    with_heads(self.heads(), self.sources().map_values(|it: I| it.remaining()))
                        + raw.skip(it.index()).map_values(|it: I| it.remaining()),
                ) == merged(raw.map_values(|it: I| it.remaining())),
                good ==> primed(raw.take(it.index()).map_values(|it: I| it.remaining())) == (
                    with_heads(self.heads(), self.sources().map_values(|it: I| it.remaining())),
                    None::<E>,
                ),
        {
            let ghost n: int = self.sequences.len() as int;
            let ghost before = with_heads(self.heads(), self.sources().map_values(|it: I| it.remaining()))
                + raw.skip(it.index()).map_values(|it: I| it.remaining());
            let ghost held = self.heads();
            let ghost drawn = self.sources();
            let ghost asked = raw.take(it.index()).map_values(|it: I| it.remaining());
            let ghost asked_now = raw.take(it.index() + 1).map_values(|it: I| it.remaining());
            proof {
                assert(asked_now.drop_last() =~= asked);
                assert(asked_now.last() == raw[it.index()].remaining());
            }
            let mut seq = seq;
            let first = seq.next();
            match first {
                None => {
                    proof {
                        if good {
                            assert(before[n].len() == 0);
                            lemma_merged_remove_empty(before, n);
                            assert(before.remove(n) =~= with_heads(
                                self.heads(),
                                self.sources().map_values(|it: I| it.remaining()),
                            ) + raw.skip(it.index() + 1).map_values(|it: I| it.remaining()));
                        }
                    }
                },
                Some(Err(e)) => {
                    self.failure = Some(e);
                    proof {
                        if good {
                            assert(before[n] == raw[it.index()].remaining());
                            assert(holds_error(before, n));
                            assert forall|j: int| 0 <= j < n implies !#[trigger] holds_error(before, j) by {
                                assert(before[j][0] is Ok);
                            }
                            lemma_merged_error(before, n);
                            let last = seq![seq![Err::<N, E>(e)]];
                            assert(holds_error(last, 0));
                            lemma_merged_error(last, 0);
                            let all = raw.map_values(|it: I| it.remaining());
                            assert(all.take(it.index() + 1) =~= asked_now);
                            lemma_primed_stops(all, it.index() + 1);
                        }
                    }
                    return ;
                },
                Some(Ok(e)) => {
                    let time: u64 = e.start();
                    self.sequences.push(SeqTime { iter: seq, next: (time, e) });
                    proof {
                        if good {
                            assert(self.heads() =~= held.push(e));
                            assert(self.sources() =~= drawn.push(seq));
                            let after = with_heads(self.heads(), self.sources().map_values(|it: I| it.remaining()))
                                + raw.skip(it.index() + 1).map_values(|it: I| it.remaining());
                            assert(after.len() == before.len());
                            assert forall|j: int| 0 <= j < after.len() implies #[trigger] after[j]
                                =~= before[j] by {}
                            assert(after =~= before);
                            let kept = with_heads(self.heads(), self.sources().map_values(|it: I| it.remaining()));
                            assert(kept[n] =~= asked_now.last());
                            assert(kept =~= primed(asked).0.push(asked_now.last()));
                        }
                    }
                },
            }
        }
        proof {
            if good {
                assert(with_heads(self.heads(), self.sources().map_values(|it: I| it.remaining())) + raw.skip(
                    raw.len() as int,
                ).map_values(|it: I| it.remaining()) =~= with_heads(
                    self.heads(),
                    self.sources().map_values(|it: I| it.remaining()),
                ));
                assert(raw.take(raw.len() as int) =~= raw);
            }
        }
    }

    /// Takes the note that stream `k` holds and asks the stream for its next
    /// one: the stream keeps its place with that note, leaves where it has
    /// ended, and ends the merge where it gives an error.
    fn draw(&mut self, k: usize) -> (note: N)
        requires
            old(self).wf(),
            old(self).started,
            old(self).failure is None,
            old(self).run is None,
            first_min(old(self).times(), k as int),
        ensures
            final(self).wf(),
            final(self).started,
            note == old(self).heads()[k as int],
            old(self).kept_stream(final(self), k as int) || old(self).dropped_stream(final(self), k as int),
            old(self).sources()[k as int].obeys_prophetic_iter_laws() ==> old(self).drawn_from(
                final(self),
                k as int,
                old(self).sources()[k as int].remaining(),
                final(self).sources().map_values(|it: I| it.remaining()),
            ),
            old(self).lawful() ==> {
                &&& final(self).lawful()
                &&& merged(final(self).lanes(final(self).sources().map_values(|it: I| it.remaining())))
                    == merged(
                    popped(old(self).lanes(old(self).sources().map_values(|it: I| it.remaining())), k as int),
                )
            },
    {
        let ghost good: bool = self.lawful();
        let ghost start = *self;
        let ghost drawn = self.sources();
        let ghost held = self.heads();
        let ghost before = self.lanes(self.sources().map_values(|it: I| it.remaining()));
        let ghost left = popped(before, k as int);
        let ghost times = self.times();
        let smallest_time: u64 = self.sequences[k].next.0;
        let pulled = self.sequences[k].iter.next();
        let ghost pulled_from = self.sources();
        proof {
            assert forall|j: int| 0 <= j < drawn.len() && good implies (
            #[trigger] pulled_from[j]).obeys_prophetic_iter_laws() by {
                assert(drawn[j].obeys_prophetic_iter_laws());
            }
        }
        match pulled {
            None => {
                let cursor = self.sequences.remove(k);
                proof {
                    assert(self.sources() =~= pulled_from.remove(k as int));
                    assert(self.sources() =~= drawn.remove(k as int));
                    assert(self.heads() =~= held.remove(k as int));
                    assert(start.dropped_stream(self, k as int));
                    if good {
                        lemma_merged_remove_empty(left, k as int);
                        assert(left.remove(k as int) =~= self.lanes(
                            self.sources().map_values(|it: I| it.remaining()),
                        ));
                    }
                }
                cursor.next.1
            },
            Some(Err(e)) => {
                let cursor = self.sequences.remove(k);
                self.failure = Some(e);
                proof {
                    assert(self.sources() =~= pulled_from.remove(k as int));
                    assert(self.sources() =~= drawn.remove(k as int));
                    assert(self.heads() =~= held.remove(k as int));
                    assert(start.dropped_stream(self, k as int));
                    if good {
                        let last = seq![seq![Err::<N, E>(e)]];
                        assert(holds_error(last, 0));
                        lemma_merged_error(last, 0);
                        assert(holds_error(left, k as int));
                        assert forall|j: int| 0 <= j < k implies !#[trigger] holds_error(left, j) by {
                            assert(left[j][0] is Ok);
                        }
                        lemma_merged_error(left, k as int);
                    }
                }
                cursor.next.1
            },
            Some(Ok(note)) => {
                let time: u64 = note.start();
                let mut fresh = (time, note);
                core::mem::swap(&mut self.sequences[k].next, &mut fresh);
                proof {
                    assert(self.sources() =~= pulled_from);
                    assert(time == smallest_time ==> self.times() =~= times);
                }
                if time == smallest_time {
                    self.run = Some(k);
                }
                proof {
                    assert forall|j: int| 0 <= j < drawn.len() && j != k implies #[trigger] self.sources()[j]
                        == drawn[j] by {}
                    assert forall|j: int| 0 <= j < held.len() && j != k implies #[trigger] self.heads()[j]
                        == held[j] by {}
                    assert(start.kept_stream(self, k as int));
                    if good {
                        let after = self.lanes(self.sources().map_values(|it: I| it.remaining()));
                        assert(after.len() == left.len());
                        assert forall|j: int| 0 <= j < after.len() implies #[trigger] after[j] =~= left[j] by {}
                        assert(after =~= left);
                    }
                }
                fresh.1
            },
        }
    }

    /// The next value of the merge: the note that starts earliest among the
    /// notes that the streams hold, or the error that a stream has given.
    /// `None` once every stream has ended or an error has been handed out.
    ///
    /// A stream that has given a note is asked for its next one before the
    /// note is handed out. While that stream goes on giving notes of the
    /// same start time it is drawn from again without a look at the others.
    pub fn next(&mut self) -> (item: Option<Result<N, E>>)
        requires
            old(self).wf(),
        ensures
            final(self).wf(),
            final(self).started(),
            final(self).heads().len() == final(self).sources().len(),
            old(self).started() ==> old(self).stepped_to(
                final(self),
                item,
                old(self).sources().map_values(|it: I| it.remaining()),
                final(self).sources().map_values(|it: I| it.remaining()),
            ),
            !old(self).started() && old(self).lawful() ==> exists|mid: Self|
                {
                    &&& #[trigger] mid.started()
                    &&& old(self).primed_to(
                        &mid,
                        old(self).sources().map_values(|it: I| it.remaining()),
                        mid.sources().map_values(|it: I| it.remaining()),
                    )
                    &&& mid.stepped_to(
                        final(self),
                        item,
                        mid.sources().map_values(|it: I| it.remaining()),
                        final(self).sources().map_values(|it: I| it.remaining()),
                    )
                },
            old(self).lawful() ==> {
                &&& final(self).lawful()
                &&& merged(old(self).lanes(old(self).sources().map_values(|it: I| it.remaining())))
                    == (match item {
                    Some(value) => seq![value] + merged(
                        final(self).lanes(final(self).sources().map_values(|it: I| it.remaining())),
                    ),
                    None => Seq::empty(),
                })
            },
    {
        let ghost good: bool = self.lawful();
        if !self.started {
            self.start();
        }
        let ghost mid = *self;
        match self.failure.take() {
            Some(e) => {
                proof {
                    let last = seq![seq![Err::<N, E>(e)]];
                    assert(holds_error(last, 0));
                    lemma_merged_error(last, 0);
                }
                self.run = None;
                self.sequences.clear();
                proof {
                    lemma_merged_nothing(
                        self.lanes(self.sources().map_values(|it: I| it.remaining())),
                    );
                    assert(mid.stepped_to(
                        self,
                        Some(Err::<N, E>(e)),
                        mid.sources().map_values(|it: I| it.remaining()),
                        self.sources().map_values(|it: I| it.remaining()),
                    ));
                }
                return Some(Err(e));
            },
            None => {},
        }
        if self.sequences.len() == 0 {
            proof {
                lemma_merged_nothing(self.lanes(self.sources().map_values(|it: I| it.remaining())));
                assert(self.sources() =~= mid.sources());
                assert(mid.stepped_to(
                    self,
                    None::<Result<N, E>>,
                    mid.sources().map_values(|it: I| it.remaining()),
                    self.sources().map_values(|it: I| it.remaining()),
                ));
            }
            return None;
        }
        let smallest_index: usize = match self.run {
            Some(k) => k,
            None => self.scan(),
        };
        proof {
            let k: int = smallest_index as int;
            let before = self.lanes(self.sources().map_values(|it: I| it.remaining()));
            assert(start_times(self.heads()) =~= self.times());
            assert(first_min(self.times(), k));
            lemma_first_min_unique(self.times(), k, self.earliest());
            if good {
                assert forall|j: int| !holds_error(before, j) by {
                    if 0 <= j < before.len() {
                        assert(before[j][0] is Ok);
                    }
                }
                assert(holds_note(before, k));
                assert forall|j: int| #[trigger] holds_note(before, j) implies {
                    &&& j < k ==> time_of(before[j][0]) > time_of(before[k][0])
                    &&& j > k ==> time_of(before[j][0]) >= time_of(before[k][0])
                } by {
                    assert(time_of(before[j][0]) == self.times()[j]);
                    assert(time_of(before[k][0]) == self.times()[k]);
                }
                lemma_merged_note(before, k);
            }
        }
        self.run = None;
        let note = self.draw(smallest_index);
        proof {
            assert(mid.stepped_to(
                self,
                Some(Ok::<N, E>(note)),
                mid.sources().map_values(|it: I| it.remaining()),
                self.sources().map_values(|it: I| it.remaining()),
            ));
        }
        Some(Ok(note))
    }
}

/// Merges `array`, a collection of note streams that are each ordered by
/// start time, into one stream ordered by start time. Nothing is drawn from
/// the streams before the first call of [`Merger::next`].
pub fn merge_notes_array<N: MIDINote, E, I: Iterator<Item = Result<N, E>>>(array: Vec<I>) -> (merger:
    Merger<N, E, I>)
    ensures
        merger.wf(),
        !merger.started(),
        merger.sources() == array@,
{
    Merger { array, sequences: Vec::new(), run: None, failure: None, started: false }
}

} // verus!

