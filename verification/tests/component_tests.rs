use orderbook_rust::orderbook::Handle;
use orderbook_rust::orderbook::OrderSide;
use orderbook_rust::orderbook::PriceLevel;
use orderbook_rust::orderbook::ladder::find_slot;
use orderbook_rust::orderbook::ladder::remove_entry;
use orderbook_rust::orderbook::ordermap::OrderMap;
use orderbook_rust::orderbook::store::PriceLevelStore;

fn handle(idx: usize) -> Handle {
    Handle { idx, ver: 0 }
}

#[test]
fn test_ordermap_put_get() {
    let mut m = OrderMap::new(4);
    assert_eq!(m.get(0), Some((handle(0), 0)));
    assert_eq!(m.get(3), Some((handle(0), 0)));
    assert_eq!(m.get(4), None);
    m.put(2, (handle(9), 50));
    assert_eq!(m.get(2), Some((handle(9), 50)));
    // writing past the end grows the table
    m.put(10, (handle(1), 7));
    assert_eq!(m.get(10), Some((handle(1), 7)));
    assert_eq!(m.get(5), Some((handle(0), 0)));
}

#[test]
fn test_ordermap_reserve() {
    let mut m = OrderMap::new(0);
    assert_eq!(m.get(0), None);
    m.reserve(5);
    assert_eq!(m.get(5), Some((handle(0), 0)));
    assert_eq!(m.get(6), None);
}

#[test]
fn test_ordermap_reduce_volume() {
    let mut m = OrderMap::new(1);
    m.put(0, (handle(3), 10));
    m.reduce_volume(0, 4);
    assert_eq!(m.get(0), Some((handle(3), 6)));
    m.reduce_volume(0, 6);
    assert_eq!(m.get(0), Some((handle(3), 0)));
}

#[test]
fn test_ordermap_live_count() {
    let mut m = OrderMap::new(8);
    assert_eq!(m.live_count(), 0);
    m.put(1, (handle(0), 5));
    m.put(4, (handle(1), 2));
    m.put(6, (handle(2), 9));
    assert_eq!(m.live_count(), 3);
    m.reduce_volume(4, 2);
    assert_eq!(m.live_count(), 2);
}

#[test]
fn test_store_handles_stay_stable() {
    let mut s = PriceLevelStore::new(4);
    let lvl = |price: u32| PriceLevel { price, side: OrderSide::Buy, volume: 1, depth: 1 };
    let a = s.insert(lvl(1));
    let b = s.insert(lvl(2));
    let c = s.insert(lvl(3));
    assert_eq!(s.len(), 3);
    s.remove(b);
    assert_eq!(s.len(), 2);
    // the neighbours keep their records
    assert_eq!(s.get(a).map(|l| l.price), Some(1));
    assert_eq!(s.get(c).map(|l| l.price), Some(3));
    // the removed handle is stale, even after its slot is recycled
    assert_eq!(s.get(b), None);
    let d = s.insert(lvl(4));
    assert_eq!(s.get(b), None);
    assert_eq!(s.get(d).map(|l| l.price), Some(4));
    assert_ne!(b, d);
}

#[test]
fn test_store_set_overwrites() {
    let mut s = PriceLevelStore::new(2);
    let h = s.insert(PriceLevel { price: 5, side: OrderSide::Sell, volume: 7, depth: 1 });
    s.set(h, PriceLevel { price: 5, side: OrderSide::Sell, volume: 12, depth: 2 });
    assert_eq!(s.get(h).map(|l| (l.volume, l.depth)), Some((12, 2)));
    assert_eq!(s.len(), 1);
}

#[test]
fn test_find_slot_positions() {
    let mut l: Vec<(u32, Handle)> = Vec::new();
    // an empty ladder takes its first entry at the head
    assert_eq!(find_slot(&l, 10), (false, 0));
    l.push((10, handle(0)));
    l.push((20, handle(1)));
    l.push((30, handle(2)));
    assert_eq!(find_slot(&l, 20), (true, 1));
    assert_eq!(find_slot(&l, 5), (false, 0));
    assert_eq!(find_slot(&l, 15), (false, 1));
    assert_eq!(find_slot(&l, 35), (false, 3));
}

#[test]
fn test_remove_entry_keeps_order() {
    let mut l: Vec<(u32, Handle)> = vec![(10, handle(0)), (20, handle(1)), (30, handle(2))];
    remove_entry(&mut l, handle(1));
    assert_eq!(l, vec![(10, handle(0)), (30, handle(2))]);
    remove_entry(&mut l, handle(0));
    assert_eq!(l, vec![(30, handle(2))]);
}
