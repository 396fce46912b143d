//! The order in which a queue hands out what it was given.
//!
//! A run of a queue is the sequence of its contents, from before the first event to after the
//! last one. The containers that take at one end and give at the other state their order over
//! such runs.

use vstd::prelude::*;

verus! {

/// What happened to a queue.
pub enum Event<T> {
    /// An item was put in at the end.
    Put(T),
    /// The item at the front was taken out.
    Taken(T),
    /// Something that leaves the items alone.
    Other,
}

/// The contents go from `before` to `after` by an event.
pub open spec fn follows<T>(before: Seq<T>, event: Event<T>, after: Seq<T>) -> bool {
    match event {
        Event::Put(item) => after == before.push(item),
        Event::Taken(item) => {
            &&& before.len() > 0
            &&& item == before.first()
            &&& after == before.drop_first()
        },
        Event::Other => after == before,
    }
}

/// The contents are those of a queue to which the events happen one after the other.
pub open spec fn is_run<T>(contents: Seq<Seq<T>>, events: Seq<Event<T>>) -> bool {
    &&& contents.len() == events.len() + 1
    &&& forall|i: int|
        0 <= i < events.len() ==> #[trigger] follows(contents[i], events[i], contents[i + 1])
}

/// The items that were put in, in their order.
pub open spec fn put<T>(events: Seq<Event<T>>) -> Seq<T>
    decreases events.len(),
{
    if events.len() == 0 {
        Seq::empty()
    } else {
        match events.last() {
            Event::Put(item) => put(events.drop_last()).push(item),
            _ => put(events.drop_last()),
        }
    }
}

/// The items that were taken out, in their order.
pub open spec fn taken<T>(events: Seq<Event<T>>) -> Seq<T>
    decreases events.len(),
{
    if events.len() == 0 {
        Seq::empty()
    } else {
        match events.last() {
            Event::Taken(item) => taken(events.drop_last()).push(item),
            _ => taken(events.drop_last()),
        }
    }
}

/// Whoever puts in and whoever takes out, and however they take turns: the items taken out,
/// followed by those that are left, are the items that were there at first, followed by those
/// put in. None is lost, none comes twice, and none overtakes another.
pub proof fn lemma_first_in_first_out<T>(contents: Seq<Seq<T>>, events: Seq<Event<T>>)
    requires
        is_run(contents, events),
    ensures
        taken(events) + contents.last() == contents.first() + put(events),
    decreases events.len(),
{
    if events.len() == 0 {
        assert(taken(events) + contents.last() =~= contents.first() + put(events));
    } else {
        let n = events.len() - 1;
        let earlier = contents.drop_last();
        let past = events.drop_last();
        assert forall|i: int| 0 <= i < past.len() implies #[trigger] follows(
            earlier[i],
            past[i],
            earlier[i + 1],
        ) by {
            assert(follows(contents[i], events[i], contents[i + 1]));
        }
        lemma_first_in_first_out(earlier, past);
        assert(follows(contents[n], events[n], contents[n + 1]));
        let before = earlier.last();
        match events.last() {
            Event::Put(item) => {
                assert(taken(past) + before.push(item) =~= (taken(past) + before).push(item));
                assert((contents.first() + put(past)).push(item) =~= contents.first() + put(
                    past,
                ).push(item));
            },
            Event::Taken(item) => {
                assert(taken(past).push(item) + before.drop_first() =~= taken(past) + before);
            },
            Event::Other => {},
        }
    }
}

/// What was put in and what was taken out is listed event by event.
pub proof fn lemma_events_in_turn<T>(first: Seq<Event<T>>, second: Seq<Event<T>>, event: Event<T>)
    ensures
        put(first + second) == put(first) + put(second),
        taken(first + second) == taken(first) + taken(second),
        put(seq![event]) == match event {
            Event::Put(item) => seq![item],
            _ => Seq::<T>::empty(),
        },
        taken(seq![event]) == match event {
            Event::Taken(item) => seq![item],
            _ => Seq::<T>::empty(),
        },
    decreases second.len(),
{
    let none = Seq::<Event<T>>::empty();
    assert(seq![event].drop_last() =~= none);
    assert(put(none) == Seq::<T>::empty());
    assert(taken(none) == Seq::<T>::empty());
    if second.len() == 0 {
        assert(first + second =~= first);
    } else {
        lemma_events_in_turn(first, second.drop_last(), event);
        assert((first + second).drop_last() =~= first + second.drop_last());
    }
}

/// An item that is put in stands last, one that is taken out stood first, and the others keep
/// their places.
pub proof fn lemma_follows<T>(before: Seq<T>, event: Event<T>, after: Seq<T>)
    requires
        follows(before, event, after),
    ensures
        event matches Event::Put(item) ==> after == before + seq![item],
        event matches Event::Taken(item) ==> before == seq![item] + after,
        event is Other ==> after == before,
{
    match event {
        Event::Put(item) => {
            assert(after =~= before + seq![item]);
        },
        Event::Taken(item) => {
            assert(before =~= seq![item] + after);
        },
        Event::Other => {},
    }
}

} // verus!
