//! Data structures for L1-resident order book state.

use std::sync::atomic::{AtomicU64, Ordering};
use vstd::prelude::*;

verus! {

/// Number of price levels kept on each side of the book.
pub const BOOK_DEPTH: usize = 32;

/// Quantity that marks a level for lazy removal.
pub const SENTINEL_QTY: i64 = 0;

/// A single price level in the order book.
#[derive(Debug, Clone, Copy)]
pub struct Level {
    /// Fixed-point price (signed to support spreads).
    pub price: i64,
    /// Fixed-point quantity; `SENTINEL_QTY` marks the level for removal.
    pub qty: i64,
}

/// The level that fills every unused slot.
pub open spec fn zero_level() -> Level {
    Level { price: 0, qty: 0 }
}

/// A level survives compaction when it is neither marked for removal nor
/// priced at zero.
pub open spec fn is_live(level: Level) -> bool {
    level.qty != SENTINEL_QTY && level.price != 0
}

/// The live levels of a side, in the order in which they stand.
pub open spec fn live_levels(side: Seq<Level>) -> Seq<Level>
    decreases side.len(),
{
    if side.len() == 0 {
        Seq::empty()
    } else {
        let front = live_levels(side.drop_last());
        if is_live(side.last()) {
            front.push(side.last())
        } else {
            front
        }
    }
}

/// A side after compaction: its live levels first, zero levels behind them.
pub open spec fn compacted(side: Seq<Level>) -> Seq<Level> {
    let live = live_levels(side);
    Seq::new(
        side.len(),
        |i: int|
            if i < live.len() {
                live[i]
            } else {
                zero_level()
            },
    )
}

/// A side in which every slot holds the zero level.
pub open spec fn all_zero(side: Seq<Level>) -> bool {
    forall|i: int| 0 <= i < side.len() ==> #[trigger] side[i] == zero_level()
}

/// A side is empty when its best slot holds no price.
pub open spec fn side_empty(side: Seq<Level>) -> bool {
    side[0].price == 0
}

/// There are never more live levels than slots.
pub proof fn lemma_live_levels_len(side: Seq<Level>)
    ensures
        live_levels(side).len() <= side.len(),
    decreases side.len(),
{
    if side.len() > 0 {
        lemma_live_levels_len(side.drop_last());
    }
}

/// Every level that `live_levels` keeps is live.
pub proof fn lemma_live_levels_are_live(side: Seq<Level>)
    ensures
        forall|i: int| 0 <= i < live_levels(side).len() ==> is_live(#[trigger] live_levels(side)[i]),
    decreases side.len(),
{
    if side.len() > 0 {
        lemma_live_levels_are_live(side.drop_last());
        let front = live_levels(side.drop_last());
        assert forall|i: int| 0 <= i < live_levels(side).len() implies is_live(
            #[trigger] live_levels(side)[i],
        ) by {
            if i < front.len() {
                assert(live_levels(side)[i] == front[i]);
            }
        }
    }
}

/// The live levels of a concatenation are those of its parts, in order.
pub proof fn lemma_live_levels_concat(front: Seq<Level>, back: Seq<Level>)
    ensures
        live_levels(front + back) == live_levels(front) + live_levels(back),
    decreases back.len(),
{
    if back.len() == 0 {
        assert(front + back == front);
        assert(live_levels(front) + live_levels(back) == live_levels(front));
    } else {
        lemma_live_levels_concat(front, back.drop_last());
        assert((front + back).drop_last() == front + back.drop_last());
        assert((front + back).last() == back.last());
        if is_live(back.last()) {
            assert((live_levels(front) + live_levels(back.drop_last())).push(back.last())
                == live_levels(front) + live_levels(back.drop_last()).push(back.last()));
        }
    }
}

/// A side made of live levels only is its own list of live levels.
pub proof fn lemma_live_levels_of_live(side: Seq<Level>)
    requires
        forall|i: int| 0 <= i < side.len() ==> is_live(#[trigger] side[i]),
    ensures
        live_levels(side) == side,
    decreases side.len(),
{
    if side.len() > 0 {
        lemma_live_levels_of_live(side.drop_last());
        assert(side.drop_last().push(side.last()) == side);
    }
}

/// A side without a live level has an empty list of live levels.
pub proof fn lemma_live_levels_of_dead(side: Seq<Level>)
    requires
        forall|i: int| 0 <= i < side.len() ==> !is_live(#[trigger] side[i]),
    ensures
        live_levels(side) == Seq::<Level>::empty(),
    decreases side.len(),
{
    if side.len() > 0 {
        lemma_live_levels_of_dead(side.drop_last());
    }
}

/// Compaction keeps the live levels, their number and their relative order.
pub proof fn lemma_compact_preserves_live(side: Seq<Level>)
    ensures
        live_levels(compacted(side)) == live_levels(side),
{
    let live = live_levels(side);
    lemma_live_levels_len(side);
    lemma_live_levels_are_live(side);
    let tail = Seq::new((side.len() - live.len()) as nat, |i: int| zero_level());
    assert(compacted(side) == live + tail);
    lemma_live_levels_concat(live, tail);
    lemma_live_levels_of_live(live);
    lemma_live_levels_of_dead(tail);
    assert(live + Seq::<Level>::empty() == live);
}

/// After compaction the live levels stand at the front and every slot behind
/// them holds the zero level.
pub proof fn lemma_compact_layout(side: Seq<Level>)
    ensures
        compacted(side).len() == side.len(),
        live_levels(side).len() <= side.len(),
        forall|i: int|
            0 <= i < live_levels(side).len() ==> #[trigger] compacted(side)[i] == live_levels(
                side,
            )[i],
        forall|i: int|
            live_levels(side).len() <= i < side.len() ==> #[trigger] compacted(side)[i]
                == zero_level(),
{
    lemma_live_levels_len(side);
}

/// Compacting a compacted side changes nothing.
pub proof fn lemma_compact_idempotent(side: Seq<Level>)
    ensures
        compacted(compacted(side)) == compacted(side),
{
    lemma_compact_preserves_live(side);
    assert(compacted(compacted(side)) =~= compacted(side));
}

/// A side of zero levels is empty.
pub proof fn lemma_all_zero_is_empty(side: Seq<Level>)
    requires
        side.len() > 0,
        all_zero(side),
    ensures
        side_empty(side),
{
    assert(side[0] == zero_level());
}

impl Default for Level {
    fn default() -> (level: Self)
        ensures
            level == zero_level(),
    {
        Level { price: 0, qty: 0 }
    }
}

/// A cache-aligned, 32-level order book.
pub struct L1FriendlyBook {
    pub bids: [Level; BOOK_DEPTH],
    pub asks: [Level; BOOK_DEPTH],
    /// Monotonically increasing version for lock-free synchronization.
    pub version: AtomicU64,
}

impl L1FriendlyBook {
    /// A book with both sides zeroed.
    pub fn new() -> (book: Self)
        ensures
            all_zero(book.bids@),
            all_zero(book.asks@),
            side_empty(book.bids@),
            side_empty(book.asks@),
    {
        let book = L1FriendlyBook {
            bids: [Level { price: 0, qty: 0 }; BOOK_DEPTH],
            asks: [Level { price: 0, qty: 0 }; BOOK_DEPTH],
            version: AtomicU64::new(0),
        };
        proof {
            lemma_all_zero_is_empty(book.bids@);
            lemma_all_zero_is_empty(book.asks@);
        }
        book
    }

    /// Returns true if the best ask is 0 (uninitialized).
    pub fn asks_empty(&self) -> (empty: bool)
        ensures
            empty == side_empty(self.asks@),
    {
        self.asks[0].price == 0
    }

    /// Returns true if the best bid is 0 (uninitialized).
    pub fn bids_empty(&self) -> (empty: bool)
        ensures
            empty == side_empty(self.bids@),
    {
        self.bids[0].price == 0
    }

    /// Returns true if both sides are empty.
    pub fn is_empty(&self) -> (empty: bool)
        ensures
            empty == (side_empty(self.bids@) && side_empty(self.asks@)),
    {
        self.bids_empty() && self.asks_empty()
    }

    /// Increments the version counter with release ordering, so that every
    /// write made to the sides before the call is visible to a reader that
    /// observes the new version with an acquire load.
    pub fn increment_version(&self) {
        self.version.fetch_add(1, Ordering::Release);
    }

    /// Opens an update batch: the version becomes odd until `end_update`.
    /// To be called before the first write of the batch.
    pub fn begin_update(&self) {
        self.version.fetch_add(1, Ordering::AcqRel);
    }

    /// Closes an update batch: the version becomes even again, and every
    /// write of the batch is visible to a reader that observes it.
    pub fn end_update(&self) {
        self.version.fetch_add(1, Ordering::Release);
    }

    /// Reads the version with acquire ordering.
    pub fn read_version(&self) -> u64 {
        self.version.load(Ordering::Acquire)
    }

    /// Whether a copy of the sides that was taken between two reads of the
    /// version is consistent: no batch was open at the first read and none
    /// was opened or closed before the second.
    pub fn snapshot_is_stable(before: u64, after: u64) -> (stable: bool)
        ensures
            stable == (before == after && before % 2 == 0),
    {
        before == after && before % 2 == 0
    }

    /// Marks a level for lazy deletion by setting a sentinel quantity.
    pub fn mark_removal(side: &mut [Level; BOOK_DEPTH], index: usize)
        requires
            index < BOOK_DEPTH,
        ensures
            final(side)@ == old(side)@.update(
                index as int,
                (Level { price: old(side)@[index as int].price, qty: SENTINEL_QTY }),
            ),
    {
        let price = side[index].price;
        side[index] = Level { price, qty: SENTINEL_QTY };
    }

    /// Compacts a side: live levels move to the front and keep their order,
    /// and every slot behind them is zeroed.
    pub fn compact(side: &mut [Level; BOOK_DEPTH])
        ensures
            final(side)@ == compacted(old(side)@),
    {
        let ghost orig = side@;
        let mut next_fill: usize = 0;
        let mut i: usize = 0;
        while i < BOOK_DEPTH
            invariant
                next_fill <= i <= BOOK_DEPTH,
                orig.len() == BOOK_DEPTH,
                side@.subrange(0, next_fill as int) == live_levels(orig.subrange(0, i as int)),
                forall|j: int| i <= j < BOOK_DEPTH ==> side@[j] == orig[j],
            decreases BOOK_DEPTH - i,
        {
            let level = side[i];
            let ghost before = side@;
            proof {
                assert(orig.subrange(0, i + 1).drop_last() == orig.subrange(0, i as int));
                assert(orig.subrange(0, i + 1).last() == level);
            }
            if level.qty != SENTINEL_QTY && level.price != 0 {
                if i != next_fill {
                    side[next_fill] = level;
                }
                proof {
                    assert(side@.subrange(0, next_fill + 1) == before.subrange(
                        0,
                        next_fill as int,
                    ).push(level));
                }
                next_fill += 1;
            }
            i += 1;
        }
        proof {
            assert(orig.subrange(0, BOOK_DEPTH as int) == orig);
        }
        let live_count = next_fill;
        while next_fill < BOOK_DEPTH
            invariant
                live_count <= next_fill <= BOOK_DEPTH,
                orig.len() == BOOK_DEPTH,
                side@.subrange(0, live_count as int) == live_levels(orig),
                forall|j: int| live_count <= j < next_fill ==> side@[j] == zero_level(),
            decreases BOOK_DEPTH - next_fill,
        {
            let ghost before = side@;
            side[next_fill] = Level { price: 0, qty: 0 };
            proof {
                assert(side@.subrange(0, live_count as int) == before.subrange(
                    0,
                    live_count as int,
                ));
            }
            next_fill += 1;
        }
        proof {
            let live = live_levels(orig);
            assert(live.len() == live_count);
            assert forall|j: int| 0 <= j < BOOK_DEPTH implies side@[j] == compacted(orig)[j] by {
                if j < live_count {
                    assert(side@[j] == side@.subrange(0, live_count as int)[j]);
                }
            }
            assert(side@ =~= compacted(orig));
        }
    }
}

} // verus!
