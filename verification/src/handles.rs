//! How the handles of a shared record are counted.
//!
//! Every record counts its handles the same way: a clone counts one more, a drop counts one
//! less and says whether it was the last. The last drop is the one that may free the record.

use vstd::prelude::*;

verus! {

use crate::bits::{bumped, lemma_wrapping_count, lowered};

/// What happened to the handles of a record.
#[derive(Clone, Copy, Debug, PartialEq, Eq, Structural)]
pub enum HandleEvent {
    /// A handle was cloned.
    Clone,
    /// A handle was dropped, and was or was not called the last.
    Drop { last: bool },
}

/// How many handles there are after the events, when there was one before.
pub open spec fn live(events: Seq<HandleEvent>) -> int
    decreases events.len(),
{
    if events.len() == 0 {
        1
    } else {
        match events.last() {
            HandleEvent::Clone => live(events.drop_last()) + 1,
            HandleEvent::Drop { .. } => live(events.drop_last()) - 1,
        }
    }
}

/// The count goes from `before` to `after` by an event.
pub open spec fn counts(before: usize, event: HandleEvent, after: usize) -> bool {
    match event {
        HandleEvent::Clone => after == bumped(before),
        HandleEvent::Drop { last } => after == lowered(before) && last == (before == 1),
    }
}

/// The counts are those of a new record to which the events happen one after the other.
pub open spec fn is_counted(counts_seen: Seq<usize>, events: Seq<HandleEvent>) -> bool {
    &&& counts_seen.len() == events.len() + 1
    &&& counts_seen[0] == 1
    &&& forall|i: int|
        0 <= i < events.len() ==> #[trigger] counts(
            counts_seen[i],
            events[i],
            counts_seen[i + 1],
        )
}

/// Only a handle that exists is cloned or dropped, and there are never more handles than a
/// counter can tell.
pub open spec fn in_range(events: Seq<HandleEvent>) -> bool {
    forall|i: int| 0 <= i < events.len() ==> 1 <= #[trigger] live(events.take(i)) < usize::MAX
}

/// The counter tells how many handles there are.
pub proof fn lemma_count_is_live(counts_seen: Seq<usize>, events: Seq<HandleEvent>)
    requires
        is_counted(counts_seen, events),
        in_range(events),
    ensures
        counts_seen.last() == live(events),
    decreases events.len(),
{
    if events.len() > 0 {
        let n = events.len() - 1;
        let past = events.drop_last();
        let earlier = counts_seen.drop_last();
        assert forall|i: int| 0 <= i < past.len() implies #[trigger] counts(
            earlier[i],
            past[i],
            earlier[i + 1],
        ) by {
            assert(counts(counts_seen[i], events[i], counts_seen[i + 1]));
        }
        assert forall|i: int| 0 <= i < past.len() implies 1 <= #[trigger] live(past.take(i))
            < usize::MAX by {
            assert(past.take(i) =~= events.take(i));
        }
        lemma_count_is_live(earlier, past);
        assert(events.take(n) =~= past);
        assert(1 <= live(events.take(n)) < usize::MAX);
        assert(counts(counts_seen[n], events[n], counts_seen[n + 1]));
    }
}

/// A drop is called the last one exactly when it leaves no handle: no record is freed under
/// a handle, and none is left behind.
pub proof fn lemma_last_drop_leaves_no_handle(
    counts_seen: Seq<usize>,
    events: Seq<HandleEvent>,
    i: int,
)
    requires
        is_counted(counts_seen, events),
        in_range(events),
        0 <= i < events.len(),
        events[i] is Drop,
    ensures
        events[i]->last <==> live(events.take(i + 1)) == 0,
{
    let past = events.take(i);
    let earlier = counts_seen.take(i + 1);
    assert forall|j: int| 0 <= j < past.len() implies #[trigger] counts(
        earlier[j],
        past[j],
        earlier[j + 1],
    ) by {
        assert(counts(counts_seen[j], events[j], counts_seen[j + 1]));
    }
    assert forall|j: int| 0 <= j < past.len() implies 1 <= #[trigger] live(past.take(j))
        < usize::MAX by {
        assert(past.take(j) =~= events.take(j));
    }
    lemma_count_is_live(earlier, past);
    assert(counts(counts_seen[i], events[i], counts_seen[i + 1]));
    assert(events.take(i + 1).drop_last() =~= past);
}

/// Handles are counted event by event, from the one that a new record has.
pub proof fn lemma_live_in_turn(first: Seq<HandleEvent>, second: Seq<HandleEvent>, last: bool)
    ensures
        live(Seq::<HandleEvent>::empty()) == 1,
        live(seq![HandleEvent::Clone]) == 2,
        live(seq![HandleEvent::Drop { last }]) == 0,
        live(first + second) + 1 == live(first) + live(second),
    decreases second.len(),
{
    let none = Seq::<HandleEvent>::empty();
    assert(seq![HandleEvent::Clone].drop_last() =~= none);
    assert(seq![HandleEvent::Drop { last }].drop_last() =~= none);
    assert(live(none) == 1);
    if second.len() == 0 {
        assert(first + second =~= first);
    } else {
        lemma_live_in_turn(first, second.drop_last(), last);
        assert((first + second).drop_last() =~= first + second.drop_last());
    }
}

/// A clone counts one more and a drop one less, around the word, and a drop is called the last
/// where it finds one.
pub proof fn lemma_count_steps(before: usize, event: HandleEvent, after: usize)
    requires
        counts(before, event, after),
    ensures
        event is Clone ==> after as int == (before + 1) % (usize::MAX + 1),
        event matches HandleEvent::Drop { last } ==> {
            &&& after as int == (before - 1) % (usize::MAX + 1)
            &&& last <==> before == 1
        },
{
    lemma_wrapping_count(before, 0, 0);
}

} // verus!
