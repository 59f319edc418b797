//! Reference-counted sharing of one physical feed per market-data stream.

use crate::connector::{ConnectorCmd, ExchangeConnector, Intent};
use crate::model::L1FriendlyBook;
use parking_lot::{RwLock, RwLockWriteGuard};
use std::sync::Arc;
use vstd::prelude::*;

verus! {

/// Represents the specific instrument class.
#[derive(Hash, Eq, PartialEq, Structural, Clone, Copy, Debug)]
pub enum ProductType {
    Spot,
    Future,
    Perpetual,
    VanillaOption,
}

/// Supported exchange venues.
#[derive(Hash, Eq, PartialEq, Structural, Clone, Copy, Debug)]
pub enum Exchange {
    Binance,
    Coinbase,
    Kraken,
}

/// A unique identifier for a market data stream.
#[derive(Hash, Eq, PartialEq, Debug)]
pub struct SymbolKey {
    pub exchange: Exchange,
    /// Venue-native spelling, e.g. "BTC-USDT".
    pub symbol: String,
    pub product: ProductType,
}

/// The stream that a key names, as plain values.
pub struct StreamId {
    pub exchange: Exchange,
    pub symbol: Seq<char>,
    pub product: ProductType,
}

impl View for SymbolKey {
    type V = StreamId;

    open spec fn view(&self) -> StreamId {
        StreamId { exchange: self.exchange, symbol: self.symbol@, product: self.product }
    }
}

impl Clone for SymbolKey {
    fn clone(&self) -> (copy: Self)
        ensures
            copy == *self,
    {
        SymbolKey { exchange: self.exchange, symbol: self.symbol.clone(), product: self.product }
    }
}

impl SymbolKey {
    /// Whether two keys name the same stream.
    pub fn same_stream(&self, other: &SymbolKey) -> (same: bool)
        ensures
            same == (self@ == other@),
    {
        self.exchange == other.exchange && self.product == other.product && self.symbol
            == other.symbol
    }
}

/// What the broker keeps for one subscribed stream.
pub struct SubscriptionData {
    pub key: SymbolKey,
    pub book: Arc<L1FriendlyBook>,
    /// Number of live handles.
    pub ref_count: usize,
}

/// What a stream's entry holds, as plain values.
pub struct StreamState {
    pub book: Arc<L1FriendlyBook>,
    pub live: nat,
}

/// How a subscriber was admitted to a stream.
#[derive(PartialEq, Eq, Structural, Clone, Copy, Debug)]
pub enum Admission {
    /// The stream had no entry: one was created and the feed must begin.
    First,
    /// The stream was live already: its book is shared.
    Shared,
    /// The count of live handles cannot grow: nothing changed.
    Saturated,
}

/// No stream has two entries.
pub open spec fn distinct_streams(entries: Seq<SubscriptionData>) -> bool {
    forall|i: int, j: int|
        0 <= i < j < entries.len() ==> (#[trigger] entries[i]).key@ != (#[trigger] entries[j]).key@
}

/// Every entry has a live handle.
pub open spec fn all_live(entries: Seq<SubscriptionData>) -> bool {
    forall|i: int| 0 <= i < entries.len() ==> (#[trigger] entries[i]).ref_count >= 1
}

/// Whether some entry is for `stream`.
pub open spec fn has_stream(entries: Seq<SubscriptionData>, stream: StreamId) -> bool {
    exists|i: int| 0 <= i < entries.len() && (#[trigger] entries[i]).key@ == stream
}

/// The index of an entry for `stream`.
pub open spec fn stream_index(entries: Seq<SubscriptionData>, stream: StreamId) -> int {
    choose|i: int| 0 <= i < entries.len() && (#[trigger] entries[i]).key@ == stream
}

/// The subscribed streams with their state.
pub open spec fn streams_of(entries: Seq<SubscriptionData>) -> Map<StreamId, StreamState> {
    Map::new(
        |stream: StreamId| has_stream(entries, stream),
        |stream: StreamId|
            StreamState {
                book: entries[stream_index(entries, stream)].book,
                live: entries[stream_index(entries, stream)].ref_count as nat,
            },
    )
}

/// The state that an entry stands for.
pub open spec fn state_of(entry: SubscriptionData) -> StreamState {
    StreamState { book: entry.book, live: entry.ref_count as nat }
}

/// The live-handle count of a stream; zero where it has no entry.
pub open spec fn live_of(streams: Map<StreamId, StreamState>, stream: StreamId) -> nat {
    if streams.contains_key(stream) {
        streams[stream].live
    } else {
        0
    }
}

/// Every subscribed stream has a live handle.
pub open spec fn all_streams_live(streams: Map<StreamId, StreamState>) -> bool {
    forall|stream: StreamId| #[trigger] streams.contains_key(stream) ==> streams[stream].live >= 1
}

/// How a new subscriber to `stream` is admitted.
pub open spec fn admission_of(streams: Map<StreamId, StreamState>, stream: StreamId) -> Admission {
    if !streams.contains_key(stream) {
        Admission::First
    } else if streams[stream].live < usize::MAX {
        Admission::Shared
    } else {
        Admission::Saturated
    }
}

/// The streams after a subscriber to `stream` was admitted; `fresh` is the
/// book that a first subscriber gets.
pub open spec fn after_acquire(
    streams: Map<StreamId, StreamState>,
    stream: StreamId,
    fresh: Arc<L1FriendlyBook>,
) -> Map<StreamId, StreamState> {
    match admission_of(streams, stream) {
        Admission::First => streams.insert(stream, StreamState { book: fresh, live: 1 }),
        Admission::Shared => streams.insert(
            stream,
            StreamState { book: streams[stream].book, live: streams[stream].live + 1 },
        ),
        Admission::Saturated => streams,
    }
}

/// Whether a release of `stream` is that of its last live handle.
pub open spec fn is_last_release(streams: Map<StreamId, StreamState>, stream: StreamId) -> bool {
    streams.contains_key(stream) && streams[stream].live <= 1
}

/// The streams after one handle of `stream` was released.
pub open spec fn after_release(streams: Map<StreamId, StreamState>, stream: StreamId) -> Map<
    StreamId,
    StreamState,
> {
    if !streams.contains_key(stream) {
        streams
    } else if streams[stream].live <= 1 {
        streams.remove(stream)
    } else {
        streams.insert(
            stream,
            StreamState { book: streams[stream].book, live: (streams[stream].live - 1) as nat },
        )
    }
}

/// The map from stream to shared book and live-handle count.
pub struct Registry {
    entries: Vec<SubscriptionData>,
}

impl View for Registry {
    type V = Map<StreamId, StreamState>;

    closed spec fn view(&self) -> Map<StreamId, StreamState> {
        streams_of(self.entries@)
    }
}

/// In a list without repeated streams, an entry is found at its own index.
proof fn lemma_stream_index(entries: Seq<SubscriptionData>, i: int)
    requires
        distinct_streams(entries),
        0 <= i < entries.len(),
    ensures
        has_stream(entries, entries[i].key@),
        stream_index(entries, entries[i].key@) == i,
{
    let stream = entries[i].key@;
    let j = stream_index(entries, stream);
    if j < i {
        assert(entries[j].key@ != entries[i].key@);
    } else if i < j {
        assert(entries[i].key@ != entries[j].key@);
    }
}

/// In a list without repeated streams, each entry is the state of its stream.
proof fn lemma_streams_at(entries: Seq<SubscriptionData>, i: int)
    requires
        distinct_streams(entries),
        0 <= i < entries.len(),
    ensures
        streams_of(entries).contains_key(entries[i].key@),
        streams_of(entries)[entries[i].key@] == state_of(entries[i]),
{
    lemma_stream_index(entries, i);
}

/// Entries that all have a live handle stand for streams that all have one.
proof fn lemma_streams_live(entries: Seq<SubscriptionData>)
    requires
        distinct_streams(entries),
        all_live(entries),
    ensures
        all_streams_live(streams_of(entries)),
{
    assert forall|stream: StreamId| #[trigger]
        streams_of(entries).contains_key(stream) implies streams_of(entries)[stream].live >= 1 by {
        let i = stream_index(entries, stream);
        assert(entries[i].ref_count >= 1);
    }
}

/// Appending an entry for a new stream inserts that stream.
proof fn lemma_streams_push(entries: Seq<SubscriptionData>, entry: SubscriptionData)
    requires
        distinct_streams(entries),
        !has_stream(entries, entry.key@),
    ensures
        distinct_streams(entries.push(entry)),
        streams_of(entries.push(entry)) == streams_of(entries).insert(entry.key@, state_of(entry)),
{
    let grown = entries.push(entry);
    assert forall|i: int, j: int| 0 <= i < j < grown.len() implies (#[trigger] grown[i]).key@ != (
    #[trigger] grown[j]).key@ by {
        if j == entries.len() {
            assert(entries[i].key@ != entry.key@);
        } else {
            assert(entries[i].key@ != entries[j].key@);
        }
    }
    let expected = streams_of(entries).insert(entry.key@, state_of(entry));
    assert forall|stream: StreamId| #[trigger]
        streams_of(grown).contains_key(stream) == expected.contains_key(stream) by {
        if has_stream(grown, stream) {
            let i = stream_index(grown, stream);
            if i < entries.len() {
                assert(entries[i].key@ == stream);
            }
        }
        if has_stream(entries, stream) {
            let i = stream_index(entries, stream);
            assert(grown[i].key@ == stream);
        }
        if stream == entry.key@ {
            assert(grown[entries.len() as int].key@ == stream);
        }
    }
    assert forall|stream: StreamId| #[trigger]
        streams_of(grown).contains_key(stream) implies streams_of(grown)[stream]
        == expected[stream] by {
        let i = stream_index(grown, stream);
        lemma_streams_at(grown, i);
        if i < entries.len() {
            assert(entries[i].key@ == stream);
            lemma_streams_at(entries, i);
        }
    }
    assert(streams_of(grown) =~= expected);
}

/// Replacing an entry by one for the same stream replaces that stream's state.
proof fn lemma_streams_update(entries: Seq<SubscriptionData>, at: int, entry: SubscriptionData)
    requires
        distinct_streams(entries),
        0 <= at < entries.len(),
        entry.key@ == entries[at].key@,
    ensures
        distinct_streams(entries.update(at, entry)),
        streams_of(entries.update(at, entry)) == streams_of(entries).insert(
            entry.key@,
            state_of(entry),
        ),
{
    let changed = entries.update(at, entry);
    assert forall|i: int, j: int| 0 <= i < j < changed.len() implies (#[trigger] changed[i]).key@
        != (#[trigger] changed[j]).key@ by {
        assert(entries[i].key@ != entries[j].key@);
    }
    let expected = streams_of(entries).insert(entry.key@, state_of(entry));
    assert forall|stream: StreamId| #[trigger]
        streams_of(changed).contains_key(stream) == expected.contains_key(stream) by {
        if has_stream(changed, stream) {
            let i = stream_index(changed, stream);
            assert(entries[i].key@ == stream);
        }
        if has_stream(entries, stream) {
            let i = stream_index(entries, stream);
            assert(changed[i].key@ == stream);
        }
        if stream == entry.key@ {
            assert(changed[at].key@ == stream);
        }
    }
    assert forall|stream: StreamId| #[trigger]
        streams_of(changed).contains_key(stream) implies streams_of(changed)[stream]
        == expected[stream] by {
        let i = stream_index(changed, stream);
        lemma_streams_at(changed, i);
        if i != at {
            assert(entries[i].key@ == stream);
            lemma_streams_at(entries, i);
            assert(entries[i].key@ != entries[at].key@) by {
                if i < at {
                    assert(entries[i].key@ != entries[at].key@);
                } else {
                    assert(entries[at].key@ != entries[i].key@);
                }
            }
        }
    }
    assert(streams_of(changed) =~= expected);
}

/// Taking an entry out removes its stream.
proof fn lemma_streams_remove(entries: Seq<SubscriptionData>, at: int)
    requires
        distinct_streams(entries),
        0 <= at < entries.len(),
    ensures
        distinct_streams(entries.remove(at)),
        streams_of(entries.remove(at)) == streams_of(entries).remove(entries[at].key@),
{
    let rest = entries.remove(at);
    let gone = entries[at].key@;
    assert forall|i: int| 0 <= i < rest.len() implies (#[trigger] rest[i]) == entries[if i < at {
        i
    } else {
        i + 1
    }] by {}
    assert forall|i: int, j: int| 0 <= i < j < rest.len() implies (#[trigger] rest[i]).key@ != (
    #[trigger] rest[j]).key@ by {
        let oi = if i < at {
            i
        } else {
            i + 1
        };
        let oj = if j < at {
            j
        } else {
            j + 1
        };
        assert(entries[oi].key@ != entries[oj].key@);
    }
    let expected = streams_of(entries).remove(gone);
    assert forall|stream: StreamId| #[trigger]
        streams_of(rest).contains_key(stream) == expected.contains_key(stream) by {
        if has_stream(rest, stream) {
            let i = stream_index(rest, stream);
            let oi = if i < at {
                i
            } else {
                i + 1
            };
            assert(entries[oi].key@ == stream);
            if oi < at {
                assert(entries[oi].key@ != entries[at].key@);
            } else {
                assert(entries[at].key@ != entries[oi].key@);
            }
        }
        if has_stream(entries, stream) && stream != gone {
            let i = stream_index(entries, stream);
            let ri = if i < at {
                i
            } else {
                i - 1
            };
            assert(rest[ri].key@ == stream);
        }
    }
    assert forall|stream: StreamId| #[trigger]
        streams_of(rest).contains_key(stream) implies streams_of(rest)[stream]
        == expected[stream] by {
        let i = stream_index(rest, stream);
        let oi = if i < at {
            i
        } else {
            i + 1
        };
        lemma_streams_at(rest, i);
        assert(entries[oi].key@ == stream);
        lemma_streams_at(entries, oi);
    }
    assert(streams_of(rest) =~= expected);
}

impl Registry {
    #[verifier::type_invariant]
    spec fn well_formed(&self) -> bool {
        distinct_streams(self.entries@) && all_live(self.entries@)
    }

    /// The live-handle count of a stream; zero where it has no entry.
    pub open spec fn live_count(&self, stream: StreamId) -> nat {
        live_of(self@, stream)
    }

    /// A registry without streams.
    pub fn new() -> (registry: Self)
        ensures
            registry@ == Map::<StreamId, StreamState>::empty(),
            all_streams_live(registry@),
    {
        let registry = Registry { entries: Vec::new() };
        assert(registry@ =~= Map::<StreamId, StreamState>::empty());
        registry
    }

    /// The index of the entry for `key`, if there is one.
    fn find(&self, key: &SymbolKey) -> (found: Option<usize>)
        ensures
            match found {
                Some(i) => i < self.entries@.len() && self.entries@[i as int].key@ == key@,
                None => !has_stream(self.entries@, key@),
            },
    {
        let mut i: usize = 0;
        while i < self.entries.len()
            invariant
                i <= self.entries@.len(),
                forall|j: int| 0 <= j < i ==> (#[trigger] self.entries@[j]).key@ != key@,
            decreases self.entries@.len() - i,
        {
            if self.entries[i].key.same_stream(key) {
                return Some(i);
            }
            i += 1;
        }
        None
    }

    /// Admits one more subscriber to the stream of `key` and returns its
    /// book: a fresh one for a first subscriber, the shared one otherwise.
    pub fn acquire(&mut self, key: &SymbolKey) -> (admitted: (Arc<L1FriendlyBook>, Admission))
        ensures
            admitted.1 == admission_of(old(self)@, key@),
            final(self)@ == after_acquire(old(self)@, key@, admitted.0),
            admitted.1 != Admission::First ==> admitted.0 == old(self)@[key@].book,
            admitted.1 == Admission::First ==> crate::model::all_zero(admitted.0.bids@)
                && crate::model::all_zero(admitted.0.asks@),
            admitted.1 != Admission::Saturated ==> final(self)@.contains_key(key@)
                && final(self)@[key@].book == admitted.0,
            all_streams_live(old(self)@),
            all_streams_live(final(self)@),
    {
        proof {
            use_type_invariant(&*self);
            lemma_streams_live(self.entries@);
        }
        let found = self.find(key);
        let mut entries: Vec<SubscriptionData> = Vec::new();
        std::mem::swap(&mut entries, &mut self.entries);
        let ghost before = entries@;
        let admitted = match found {
            None => {
                let book = Arc::new(L1FriendlyBook::new());
                let shared = book.clone();
                let entry = SubscriptionData { key: key.clone(), book, ref_count: 1 };
                proof {
                    lemma_streams_push(before, entry);
                }
                entries.push(entry);
                (shared, Admission::First)
            },
            Some(i) => {
                proof {
                    lemma_streams_at(before, i as int);
                }
                let shared = entries[i].book.clone();
                if entries[i].ref_count < usize::MAX {
                    let taken = entries.remove(i);
                    let entry = SubscriptionData {
                        key: taken.key,
                        book: taken.book,
                        ref_count: taken.ref_count + 1,
                    };
                    proof {
                        lemma_streams_update(before, i as int, entry);
                        assert(entries@.insert(i as int, entry) =~= before.update(i as int, entry));
                    }
                    entries.insert(i, entry);
                    (shared, Admission::Shared)
                } else {
                    (shared, Admission::Saturated)
                }
            },
        };
        self.entries = entries;
        proof {
            lemma_streams_live(self.entries@);
        }
        admitted
    }

    /// Gives back one handle of the stream of `key`; where it was the last
    /// one, removes the entry and returns true. A stream without an entry is
    /// left alone.
    pub fn release(&mut self, key: &SymbolKey) -> (last: bool)
        ensures
            last == is_last_release(old(self)@, key@),
            final(self)@ == after_release(old(self)@, key@),
            all_streams_live(old(self)@),
            all_streams_live(final(self)@),
    {
        proof {
            use_type_invariant(&*self);
            lemma_streams_live(self.entries@);
        }
        let found = self.find(key);
        let mut entries: Vec<SubscriptionData> = Vec::new();
        std::mem::swap(&mut entries, &mut self.entries);
        let ghost before = entries@;
        let last = match found {
            None => false,
            Some(i) => {
                proof {
                    lemma_streams_at(before, i as int);
                    lemma_streams_remove(before, i as int);
                }
                let taken = entries.remove(i);
                if taken.ref_count <= 1 {
                    true
                } else {
                    let entry = SubscriptionData {
                        key: taken.key,
                        book: taken.book,
                        ref_count: taken.ref_count - 1,
                    };
                    proof {
                        lemma_streams_update(before, i as int, entry);
                        assert(entries@.insert(i as int, entry) =~= before.update(i as int, entry));
                    }
                    entries.insert(i, entry);
                    false
                }
            },
        };
        self.entries = entries;
        proof {
            lemma_streams_live(self.entries@);
        }
        last
    }

    /// The number of live handles of `key`; zero where it has no entry.
    pub fn handles(&self, key: &SymbolKey) -> (n: usize)
        ensures
            n == self.live_count(key@),
            self@.contains_key(key@) <==> n >= 1,
            all_streams_live(self@),
    {
        proof {
            use_type_invariant(self);
            lemma_streams_live(self.entries@);
        }
        match self.find(key) {
            None => 0,
            Some(i) => {
                proof {
                    lemma_streams_at(self.entries@, i as int);
                }
                self.entries[i].ref_count
            },
        }
    }

    /// Whether `key` has an entry.
    pub fn contains(&self, key: &SymbolKey) -> (present: bool)
        ensures
            present == self@.contains_key(key@),
    {
        self.find(key).is_some()
    }

    /// The number of subscribed streams.
    pub fn len(&self) -> (n: usize)
        ensures
            n == self@.dom().len(),
            self@.dom().finite(),
    {
        proof {
            use_type_invariant(self);
            lemma_streams_count(self.entries@);
        }
        self.entries.len()
    }
}

/// A list without repeated streams names as many streams as it has entries.
proof fn lemma_streams_count(entries: Seq<SubscriptionData>)
    requires
        distinct_streams(entries),
    ensures
        streams_of(entries).dom().finite(),
        streams_of(entries).dom().len() == entries.len(),
    decreases entries.len(),
{
    if entries.len() == 0 {
        assert(streams_of(entries).dom() =~= Set::<StreamId>::empty());
    } else {
        let front = entries.drop_last();
        let last = entries.last();
        lemma_streams_count(front);
        assert forall|stream: StreamId|
            streams_of(entries).dom().contains(stream) <==> streams_of(front).dom().insert(
                last.key@,
            ).contains(stream) by {
            if has_stream(entries, stream) {
                let i = stream_index(entries, stream);
                if i < front.len() {
                    assert(front[i].key@ == stream);
                }
            }
            if has_stream(front, stream) {
                let i = stream_index(front, stream);
                assert(entries[i].key@ == stream);
            }
            if stream == last.key@ {
                assert(entries[entries.len() - 1].key@ == stream);
            }
        }
        assert(streams_of(entries).dom() =~= streams_of(front).dom().insert(last.key@));
        if has_stream(front, last.key@) {
            let i = stream_index(front, last.key@);
            assert(entries[i].key@ != entries[entries.len() - 1].key@);
        }
    }
}

/// The raw lock of `parking_lot`; nothing of its inside is visible to the
/// proofs.
#[verifier::external_type_specification]
#[verifier::external_body]
pub struct ExRawRwLock<const RECURSIVE: bool>(parking_lot::RawRwLock<RECURSIVE>);

/// The reader-writer lock of `lock_api`; nothing of its inside is visible to
/// the proofs.
#[verifier::external_type_specification]
#[verifier::external_body]
#[verifier::reject_recursive_types(R)]
#[verifier::reject_recursive_types(T)]
pub struct ExRwLock<R, T: ?Sized>(parking_lot::lock_api::RwLock<R, T>);

/// Exclusive access to the registry for as long as the value lives.
///
/// Holds the write guard of `lock_api`, whose own declaration names a trait
/// that the verifier does not take; nothing of its inside is visible to the
/// proofs.
#[verifier::external_body]
pub struct ExclusiveAccess<'a> {
    guard: RwLockWriteGuard<'a, Registry>,
}

/// Puts a registry behind a lock.
///
/// Calls `RwLock::new`, which makes an unlocked lock around the value.
/// Nothing is claimed of the lock.
#[verifier::external_body]
fn lock_around(registry: Registry) -> (lock: RwLock<Registry>) {
    RwLock::new(registry)
}

/// Waits for exclusive access to the registry.
///
/// Calls `RwLock::write`, which blocks until no reader and no other writer
/// holds the lock; the guard gives the access back when it goes out of
/// scope. Nothing is claimed of the guard.
#[verifier::external_body]
fn lock_exclusive<'a>(lock: &'a Arc<RwLock<Registry>>) -> (access: ExclusiveAccess<'a>) {
    ExclusiveAccess { guard: lock.write() }
}

/// The registry that a guard gives exclusive access to.
///
/// Calls `DerefMut::deref_mut` of the guard. Other holders of the lock may
/// have changed the registry since it was last seen, so nothing is claimed
/// of what it holds.
#[verifier::external_body]
fn guarded<'a, 'b>(access: &'a mut ExclusiveAccess<'b>) -> (registry: &'a mut Registry) {
    &mut *access.guard
}

/// Capability to end the physical subscription of a stream.
pub trait SubscriptionTeardown: Send + Sync {
    fn teardown(&self, key: &SymbolKey);
}

/// Manages shared book states and subscription reference counting.
#[derive(Clone)]
pub struct MarketBroker {
    /// Maps symbols to their L1-resident book and active handle count.
    subscriptions: Arc<RwLock<Registry>>,
    /// Where the begin and end intents go; without it they are lost.
    connector: Option<ExchangeConnector>,
}

/// A subscriber's share of a stream, to be given back with `release`.
///
/// When the last handle for a symbol is released, the broker ends the
/// physical subscription. A handle that is never released keeps its stream
/// subscribed.
#[must_use]
pub struct SubscriptionHandle {
    pub key: SymbolKey,
    pub book: Arc<L1FriendlyBook>,
    registry: Arc<RwLock<Registry>>,
    teardown: Box<dyn SubscriptionTeardown>,
    released: bool,
}

/// The intent that admitting a subscriber to `stream` calls for.
pub open spec fn intent_on_acquire(admission: Admission, stream: StreamId) -> Option<Intent> {
    if admission == Admission::First {
        Some(Intent::Begin(stream))
    } else {
        None
    }
}

/// The intent that a release of `stream` calls for.
pub open spec fn intent_on_release(last: bool, stream: StreamId) -> Option<Intent> {
    if last {
        Some(Intent::End(stream))
    } else {
        None
    }
}

/// A command that may be absent, as plain values.
pub open spec fn intent_of(cmd: Option<ConnectorCmd>) -> Option<Intent> {
    match cmd {
        Some(cmd) => Some(cmd@),
        None => None,
    }
}

/// The command to send after a subscriber was admitted: a begin for the
/// first subscriber of a stream, nothing otherwise.
pub fn begin_command(admission: Admission, key: &SymbolKey) -> (cmd: Option<ConnectorCmd>)
    ensures
        intent_of(cmd) == intent_on_acquire(admission, key@),
{
    if admission == Admission::First {
        Some(ConnectorCmd::Subscribe(key.clone()))
    } else {
        None
    }
}

/// The command to send after a handle was released: an end where it was the
/// last live handle of its stream, nothing otherwise.
pub fn end_command(last: bool, key: &SymbolKey) -> (cmd: Option<ConnectorCmd>)
    ensures
        intent_of(cmd) == intent_on_release(last, key@),
{
    if last {
        Some(ConnectorCmd::Unsubscribe(key.clone()))
    } else {
        None
    }
}

impl MarketBroker {
    /// Creates a broker that is not attached to a connector.
    pub fn new() -> (broker: Self)
        ensures
            !broker.is_attached(),
    {
        MarketBroker { subscriptions: Arc::new(lock_around(Registry::new())), connector: None }
    }

    /// Creates a broker whose intents go to `connector`.
    pub fn with_connector(connector: ExchangeConnector) -> (broker: Self)
        ensures
            broker.is_attached(),
    {
        MarketBroker {
            subscriptions: Arc::new(lock_around(Registry::new())),
            connector: Some(connector),
        }
    }

    /// Whether the broker has a connector to send its intents to.
    pub closed spec fn is_attached(&self) -> bool {
        self.connector is Some
    }

    /// Subscribes to a specific market product.
    ///
    /// If this is the first subscription for the stream, the broker begins
    /// the physical subscription; otherwise it shares the existing one.
    pub fn subscribe(&self, exchange: Exchange, symbol: &str, product: ProductType) -> (handle:
        SubscriptionHandle)
        ensures
            handle.stream() == (StreamId { exchange, symbol: symbol@, product }),
    {
        let key = SymbolKey { exchange, symbol: symbol.to_owned(), product };
        let mut guard = lock_exclusive(&self.subscriptions);
        let registry = guarded(&mut guard);
        let (book, admission) = registry.acquire(&key);
        if let Some(cmd) = begin_command(admission, &key) {
            self.dispatch(cmd);
        }
        SubscriptionHandle {
            key,
            book,
            registry: self.subscriptions.clone(),
            teardown: Box::new(self.clone()),
            released: admission == Admission::Saturated,
        }
    }

    /// Hands a command to the connector without waiting for it; without a
    /// connector the command is lost.
    fn dispatch(&self, cmd: ConnectorCmd) {
        if let Some(connector) = &self.connector {
            connector.send_cmd(cmd);
        }
    }

    fn terminate_subscription(&self, key: &SymbolKey) {
        if let Some(cmd) = end_command(true, key) {
            self.dispatch(cmd);
        }
    }
}

impl SubscriptionTeardown for MarketBroker {
    fn teardown(&self, key: &SymbolKey) {
        self.terminate_subscription(key);
    }
}

impl SubscriptionHandle {
    /// The stream that the handle is for.
    pub closed spec fn stream(&self) -> StreamId {
        self.key@
    }

    /// The book that the handle shares.
    pub closed spec fn shared_book(&self) -> Arc<L1FriendlyBook> {
        self.book
    }

    /// Whether the handle counts as a live subscriber no longer.
    pub closed spec fn released(&self) -> bool {
        self.released
    }

    /// Whether the handle has given its reference back.
    pub fn is_released(&self) -> (released: bool)
        ensures
            released == self.released(),
    {
        self.released
    }

    /// Gives the handle's reference back. A second call does nothing.
    pub fn release(&mut self)
        ensures
            final(self).released(),
            final(self).stream() == old(self).stream(),
            final(self).shared_book() == old(self).shared_book(),
    {
        if self.released {
            return ;
        }
        self.released = true;
        let mut guard = lock_exclusive(&self.registry);
        let registry = guarded(&mut guard);
        if registry.release(&self.key) {
            self.teardown.teardown(&self.key);
        }
    }
}

} // verus!
