//! The life of one stream as a sequence of subscriptions and releases, and
//! what the broker emits along the way.

use crate::broker::{
    admission_of, after_acquire, after_release, all_streams_live, intent_on_acquire,
    intent_on_release, is_last_release, live_of, Admission, StreamId, StreamState,
};
use crate::connector::Intent;
use crate::model::L1FriendlyBook;
use std::sync::Arc;
use vstd::prelude::*;

verus! {

/// One operation on a stream.
pub enum Step {
    /// A subscriber is admitted.
    Subscribe,
    /// A live handle is released.
    Release,
}

/// What the broker asks of the connector.
pub enum Signal {
    /// Begin the physical subscription.
    Begin,
    /// End the physical subscription.
    End,
}

/// The live-handle count after one step.
pub open spec fn live_after(live: nat, step: Step) -> nat {
    match step {
        Step::Subscribe => if live < usize::MAX {
            live + 1
        } else {
            live
        },
        Step::Release => if live >= 1 {
            (live - 1) as nat
        } else {
            0
        },
    }
}

/// What one step emits at a given live-handle count.
pub open spec fn signal_of(live: nat, step: Step) -> Option<Signal> {
    match step {
        Step::Subscribe => if live == 0 {
            Some(Signal::Begin)
        } else {
            None
        },
        Step::Release => if live == 1 {
            Some(Signal::End)
        } else {
            None
        },
    }
}

/// The live-handle count after a sequence of steps on a stream that had no
/// entry.
pub open spec fn live_after_all(steps: Seq<Step>) -> nat
    decreases steps.len(),
{
    if steps.len() == 0 {
        0
    } else {
        live_after(live_after_all(steps.drop_last()), steps.last())
    }
}

/// Everything that a sequence of steps emits, in order, on a stream that had
/// no entry.
pub open spec fn signals_of(steps: Seq<Step>) -> Seq<Signal>
    decreases steps.len(),
{
    if steps.len() == 0 {
        Seq::empty()
    } else {
        let earlier = signals_of(steps.drop_last());
        match signal_of(live_after_all(steps.drop_last()), steps.last()) {
            Some(signal) => earlier.push(signal),
            None => earlier,
        }
    }
}

/// The number of subscriptions in a sequence of steps.
pub open spec fn subscriptions_in(steps: Seq<Step>) -> nat
    decreases steps.len(),
{
    if steps.len() == 0 {
        0
    } else {
        subscriptions_in(steps.drop_last()) + if steps.last() is Subscribe {
            1nat
        } else {
            0nat
        }
    }
}

/// The number of releases in a sequence of steps.
pub open spec fn releases_in(steps: Seq<Step>) -> nat
    decreases steps.len(),
{
    if steps.len() == 0 {
        0
    } else {
        releases_in(steps.drop_last()) + if steps.last() is Release {
            1nat
        } else {
            0nat
        }
    }
}

/// Every release in the sequence gives back a handle that is live: handles
/// are released once each, and only after they were handed out.
pub open spec fn releases_live_handles(steps: Seq<Step>) -> bool {
    forall|i: int|
        0 <= i < steps.len() && steps[i] is Release ==> live_after_all(#[trigger] steps.take(i))
            >= 1
}

/// Begin and end take turns, and begin comes first.
pub open spec fn alternating(signals: Seq<Signal>) -> bool {
    forall|i: int|
        0 <= i < signals.len() ==> #[trigger] signals[i] == if i % 2 == 0 {
            Signal::Begin
        } else {
            Signal::End
        }
}

/// A prefix of a sequence whose releases give back live handles has that
/// property too.
proof fn lemma_prefix_releases_live(steps: Seq<Step>)
    requires
        steps.len() > 0,
        releases_live_handles(steps),
    ensures
        releases_live_handles(steps.drop_last()),
        steps.last() is Release ==> live_after_all(steps.drop_last()) >= 1,
{
    let front = steps.drop_last();
    assert forall|i: int| 0 <= i < front.len() && front[i] is Release implies live_after_all(
        #[trigger] front.take(i),
    ) >= 1 by {
        assert(front.take(i) == steps.take(i));
        assert(steps[i] is Release);
    }
    assert(steps.take(steps.len() - 1) == front);
}

/// The count of live handles is the number of subscriptions less the number
/// of releases; the stream is subscribed exactly while that count is
/// positive; begin and end intents take turns, begin first, and one begin is
/// outstanding exactly while the stream is subscribed.
pub proof fn lemma_refcount_trace(steps: Seq<Step>)
    requires
        releases_live_handles(steps),
        steps.len() < usize::MAX,
    ensures
        live_after_all(steps) == subscriptions_in(steps) - releases_in(steps),
        live_after_all(steps) <= steps.len(),
        alternating(signals_of(steps)),
        signals_of(steps).len() % 2 == if live_after_all(steps) >= 1 {
            1int
        } else {
            0int
        },
    decreases steps.len(),
{
    if steps.len() > 0 {
        lemma_prefix_releases_live(steps);
        lemma_refcount_trace(steps.drop_last());
    }
}

/// While a stream stays subscribed from its first subscription to its last
/// release, with as many releases as subscriptions, exactly one begin and one
/// end are emitted, begin first.
pub proof fn lemma_one_begin_one_end(steps: Seq<Step>)
    requires
        releases_live_handles(steps),
        steps.len() < usize::MAX,
        steps.len() > 0,
        subscriptions_in(steps) == releases_in(steps),
        forall|i: int| 0 < i < steps.len() ==> live_after_all(#[trigger] steps.take(i)) >= 1,
    ensures
        signals_of(steps) == seq![Signal::Begin, Signal::End],
{
    lemma_refcount_trace(steps);
    lemma_prefix_releases_live(steps);
    let front = steps.drop_last();
    assert(steps.take(steps.len() - 1) == front);
    lemma_refcount_trace(front);
    assert(live_after_all(steps) == 0);
    // The last step takes the count from one to zero.
    assert(steps.last() is Release);
    assert(live_after_all(front) == 1);
    assert forall|i: int| 0 < i <= front.len() implies live_after_all(#[trigger] front.take(i))
        >= 1 by {
        assert(front.take(i) == steps.take(i));
    }
    lemma_begin_only(front);
    assert(signals_of(steps) =~= seq![Signal::Begin, Signal::End]);
}

/// A stream that was subscribed after every step so far has emitted one
/// begin and nothing else.
proof fn lemma_begin_only(steps: Seq<Step>)
    requires
        steps.len() > 0,
        forall|i: int| 0 < i <= steps.len() ==> live_after_all(#[trigger] steps.take(i)) >= 1,
    ensures
        signals_of(steps) == seq![Signal::Begin],
    decreases steps.len(),
{
    let front = steps.drop_last();
    assert(steps.take(steps.len() as int) == steps);
    if front.len() == 0 {
        assert(live_after_all(front) == 0);
        assert(signals_of(front) =~= Seq::<Signal>::empty());
        assert(signals_of(steps) =~= seq![Signal::Begin]);
    } else {
        assert forall|i: int| 0 < i <= front.len() implies live_after_all(
            #[trigger] front.take(i),
        ) >= 1 by {
            assert(front.take(i) == steps.take(i));
        }
        lemma_begin_only(front);
        assert(front.take(front.len() as int) == front);
        assert(live_after_all(front) >= 1);
        assert(live_after_all(steps) >= 1);
    }
}

/// The signal that an intent carries.
pub open spec fn signal_in(intent: Option<Intent>) -> Option<Signal> {
    match intent {
        Some(Intent::Begin(_)) => Some(Signal::Begin),
        Some(Intent::End(_)) => Some(Signal::End),
        None => None,
    }
}

/// Admitting a subscriber is one `Subscribe` step of its stream and leaves
/// every other stream alone.
pub proof fn lemma_acquire_is_step(
    streams: Map<StreamId, StreamState>,
    stream: StreamId,
    fresh: Arc<L1FriendlyBook>,
)
    requires
        all_streams_live(streams),
    ensures
        all_streams_live(after_acquire(streams, stream, fresh)),
        live_of(after_acquire(streams, stream, fresh), stream) == live_after(
            live_of(streams, stream),
            Step::Subscribe,
        ),
        signal_in(intent_on_acquire(admission_of(streams, stream), stream)) == signal_of(
            live_of(streams, stream),
            Step::Subscribe,
        ),
        after_acquire(streams, stream, fresh).contains_key(stream),
        forall|other: StreamId|
            other != stream ==> after_acquire(streams, stream, fresh).contains_key(other)
                == streams.contains_key(other) && #[trigger] after_acquire(
                streams,
                stream,
                fresh,
            )[other] == streams[other],
{
    if streams.contains_key(stream) {
        assert(streams[stream].live >= 1);
    }
}

/// Releasing a handle is one `Release` step of its stream and leaves every
/// other stream alone; the stream keeps its entry exactly while a handle is
/// live.
pub proof fn lemma_release_is_step(streams: Map<StreamId, StreamState>, stream: StreamId)
    requires
        all_streams_live(streams),
    ensures
        all_streams_live(after_release(streams, stream)),
        live_of(after_release(streams, stream), stream) == live_after(
            live_of(streams, stream),
            Step::Release,
        ),
        signal_in(intent_on_release(is_last_release(streams, stream), stream)) == signal_of(
            live_of(streams, stream),
            Step::Release,
        ),
        after_release(streams, stream).contains_key(stream) <==> live_of(
            after_release(streams, stream),
            stream,
        ) >= 1,
        forall|other: StreamId|
            other != stream ==> after_release(streams, stream).contains_key(other)
                == streams.contains_key(other) && #[trigger] after_release(streams, stream)[other]
                == streams[other],
{
    if streams.contains_key(stream) {
        assert(streams[stream].live >= 1);
    }
}

/// Every subscriber that joins a subscribed stream gets the book that the
/// stream's entry holds, and the entry keeps that book.
pub proof fn lemma_shared_book(
    streams: Map<StreamId, StreamState>,
    stream: StreamId,
    fresh: Arc<L1FriendlyBook>,
)
    requires
        streams.contains_key(stream),
    ensures
        admission_of(streams, stream) != Admission::First,
        after_acquire(streams, stream, fresh).contains_key(stream),
        after_acquire(streams, stream, fresh)[stream].book == streams[stream].book,
{
}

} // verus!
