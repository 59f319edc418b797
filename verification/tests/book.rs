use hft_broker::model::{L1FriendlyBook, Level, BOOK_DEPTH, SENTINEL_QTY};

fn level(price: i64, qty: i64) -> Level {
    Level { price, qty }
}

fn same(a: &Level, b: &Level) -> bool {
    a.price == b.price && a.qty == b.qty
}

#[test]
fn fresh_book_is_empty() {
    let book = L1FriendlyBook::new();
    assert!(book.is_empty());
    assert!(book.bids_empty());
    assert!(book.asks_empty());
    for i in 0..BOOK_DEPTH {
        assert!(same(&book.bids[i], &level(0, 0)));
        assert!(same(&book.asks[i], &level(0, 0)));
    }
    assert_eq!(book.version.load(std::sync::atomic::Ordering::Acquire), 0);
}

#[test]
fn default_level_is_zero() {
    assert!(same(&Level::default(), &level(0, 0)));
}

#[test]
fn sides_report_empty_separately() {
    let mut book = L1FriendlyBook::new();
    book.bids[0] = level(100, 5);
    assert!(!book.bids_empty());
    assert!(book.asks_empty());
    assert!(!book.is_empty());
    book.asks[0] = level(101, 7);
    assert!(!book.asks_empty());
    assert!(!book.is_empty());
    book.bids[0] = level(0, 5);
    assert!(book.bids_empty());
    assert!(!book.is_empty());
}

#[test]
fn increment_version_adds_one() {
    let book = L1FriendlyBook::new();
    book.increment_version();
    book.increment_version();
    assert_eq!(book.version.load(std::sync::atomic::Ordering::Acquire), 2);
}

#[test]
fn mark_removal_writes_only_the_quantity() {
    let mut book = L1FriendlyBook::new();
    book.bids[0] = level(100, 5);
    book.bids[1] = level(99, 6);
    book.bids[2] = level(98, 7);
    L1FriendlyBook::mark_removal(&mut book.bids, 1);
    assert!(same(&book.bids[0], &level(100, 5)));
    assert!(same(&book.bids[1], &level(99, SENTINEL_QTY)));
    assert!(same(&book.bids[2], &level(98, 7)));
    L1FriendlyBook::mark_removal(&mut book.bids, BOOK_DEPTH - 1);
    assert!(same(&book.bids[BOOK_DEPTH - 1], &level(0, 0)));
}

#[test]
fn compact_moves_live_levels_to_the_front() {
    let mut book = L1FriendlyBook::new();
    book.bids[0] = level(100, SENTINEL_QTY);
    book.bids[1] = level(99, 10);
    L1FriendlyBook::compact(&mut book.bids);
    assert_eq!(book.bids[0].price, 99);
    assert_eq!(book.bids[0].qty, 10);
    for i in 1..BOOK_DEPTH {
        assert!(same(&book.bids[i], &level(0, 0)));
    }
}

#[test]
fn compact_keeps_order_and_count() {
    let mut side = [level(0, 0); BOOK_DEPTH];
    side[0] = level(50, 1);
    side[1] = level(49, 0);
    side[2] = level(0, 9);
    side[3] = level(48, -3);
    side[7] = level(47, 4);
    side[BOOK_DEPTH - 1] = level(46, 5);
    L1FriendlyBook::compact(&mut side);
    assert!(same(&side[0], &level(50, 1)));
    assert!(same(&side[1], &level(48, -3)));
    assert!(same(&side[2], &level(47, 4)));
    assert!(same(&side[3], &level(46, 5)));
    for i in 4..BOOK_DEPTH {
        assert!(same(&side[i], &level(0, 0)));
    }
}

#[test]
fn compact_is_idempotent() {
    let mut side = [level(0, 0); BOOK_DEPTH];
    for i in 0..BOOK_DEPTH {
        let qty = if i % 3 == 0 { 0 } else { i as i64 };
        let price = if i % 5 == 0 { 0 } else { 1000 - i as i64 };
        side[i] = level(price, qty);
    }
    L1FriendlyBook::compact(&mut side);
    let once = side;
    L1FriendlyBook::compact(&mut side);
    for i in 0..BOOK_DEPTH {
        assert!(same(&side[i], &once[i]));
    }
}

#[test]
fn compact_of_full_and_of_empty_side() {
    let mut full = [level(0, 0); BOOK_DEPTH];
    for i in 0..BOOK_DEPTH {
        full[i] = level(10 + i as i64, 1);
    }
    let before = full;
    L1FriendlyBook::compact(&mut full);
    for i in 0..BOOK_DEPTH {
        assert!(same(&full[i], &before[i]));
    }
    let mut dead = [level(7, SENTINEL_QTY); BOOK_DEPTH];
    L1FriendlyBook::compact(&mut dead);
    for i in 0..BOOK_DEPTH {
        assert!(same(&dead[i], &level(0, 0)));
    }
}

#[test]
fn removal_then_compaction_drops_the_level() {
    let mut book = L1FriendlyBook::new();
    book.asks[0] = level(101, 5);
    book.asks[1] = level(102, 6);
    book.asks[2] = level(103, 7);
    L1FriendlyBook::mark_removal(&mut book.asks, 0);
    L1FriendlyBook::compact(&mut book.asks);
    book.increment_version();
    assert!(same(&book.asks[0], &level(102, 6)));
    assert!(same(&book.asks[1], &level(103, 7)));
    assert!(same(&book.asks[2], &level(0, 0)));
    assert!(!book.asks_empty());
}

#[test]
fn update_batch_makes_the_version_odd_then_even() {
    let book = L1FriendlyBook::new();
    assert_eq!(book.read_version(), 0);
    book.begin_update();
    assert_eq!(book.read_version(), 1);
    book.end_update();
    assert_eq!(book.read_version(), 2);
}

#[test]
fn snapshot_is_stable_only_between_batches() {
    assert!(L1FriendlyBook::snapshot_is_stable(0, 0));
    assert!(L1FriendlyBook::snapshot_is_stable(4, 4));
    assert!(!L1FriendlyBook::snapshot_is_stable(1, 1));
    assert!(!L1FriendlyBook::snapshot_is_stable(2, 4));
    assert!(!L1FriendlyBook::snapshot_is_stable(2, 3));
    assert!(!L1FriendlyBook::snapshot_is_stable(u64::MAX, u64::MAX));
}

#[test]
fn reader_retries_a_torn_snapshot() {
    let mut book = L1FriendlyBook::new();
    let before = book.read_version();
    book.begin_update();
    book.bids[0] = level(100, 1);
    let torn = book.bids;
    assert!(!L1FriendlyBook::snapshot_is_stable(before, book.read_version()));
    book.end_update();
    let start = book.read_version();
    let copy = book.bids;
    assert!(L1FriendlyBook::snapshot_is_stable(start, book.read_version()));
    assert!(same(&copy[0], &torn[0]));
}
