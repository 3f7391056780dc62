//! The mathematical model of the book: an abstract state, the joint
//! invariant that every event handler preserves, and the transition
//! functions that the handlers' contracts are stated against.

use vstd::prelude::*;

use crate::orderbook::Handle;
use crate::orderbook::OrderSide;
use crate::orderbook::PriceLevel;
use crate::orderbook::ladder::asc;
use crate::orderbook::ladder::handle_idx;
use crate::orderbook::ladder::has_price;
use crate::orderbook::ladder::in_ladder;
use crate::orderbook::ladder::insert_pos;
use crate::orderbook::ladder::price_idx;
use crate::orderbook::ladder::lemma_handle_idx_unique;
use crate::orderbook::ladder::lemma_insert_keeps_asc;
use crate::orderbook::ladder::lemma_insert_pos_props;
use crate::orderbook::ladder::lemma_price_idx_unique;
use crate::orderbook::ladder::lemma_remove_keeps_asc;
use crate::orderbook::ladder::lemma_seq_insert_index;
use crate::orderbook::ladder::lemma_seq_remove_index;
use crate::orderbook::ordermap::count_at;
use crate::orderbook::ordermap::grow;
use crate::orderbook::ordermap::lemma_aggregates_grow;
use crate::orderbook::ordermap::lemma_aggregates_update;
use crate::orderbook::ordermap::lemma_bounds;
use crate::orderbook::ordermap::lemma_count_zero;
use crate::orderbook::ordermap::lemma_entry_bounds;
use crate::orderbook::ordermap::lemma_single_order;
use crate::orderbook::ordermap::lemma_total_dead;
use crate::orderbook::ordermap::lemma_unpointed_zero;
use crate::orderbook::ordermap::live_at;
use crate::orderbook::ordermap::sum_vol;
use crate::orderbook::ordermap::total_live;

verus! {

/// The abstract state of the book: both ladders, the map from live
/// handles to level records, and the order table.
#[verifier::ext_equal]
pub ghost struct BookView {
    pub bids: Seq<(u32, Handle)>,
    pub asks: Seq<(u32, Handle)>,
    pub levels: Map<Handle, PriceLevel>,
    pub orders: Seq<(Handle, u32)>,
}

/// The ladder of one side.
pub open spec fn side_ladder(v: BookView, side: OrderSide) -> Seq<(u32, Handle)> {
    if side == OrderSide::Buy {
        v.bids
    } else {
        v.asks
    }
}

/// The book with the ladder of one side replaced.
pub open spec fn with_side_ladder(v: BookView, side: OrderSide, l: Seq<(u32, Handle)>) -> BookView {
    if side == OrderSide::Buy {
        BookView { bids: l, ..v }
    } else {
        BookView { asks: l, ..v }
    }
}

/// Every ladder entry points at a live level of its own side whose
/// record carries the entry's price.
pub open spec fn ladder_entries_ok(
    l: Seq<(u32, Handle)>,
    levels: Map<Handle, PriceLevel>,
    side: OrderSide,
) -> bool {
    forall|i: int|
        0 <= i < l.len() ==> {
            &&& levels.dom().contains((#[trigger] l[i]).1)
            &&& levels[l[i].1].price == l[i].0
            &&& levels[l[i].1].side == side
        }
}

/// The residual volume recorded for an order id.
pub open spec fn residual_of(v: BookView, id: u64) -> u32 {
    v.orders[id as int].1
}

/// The joint well-formedness of the book:
/// both ladders strictly ascending; every ladder entry backed by a live
/// level of the right side and price; every live level listed on its
/// side's ladder; every level's volume and depth equal to the sum of the
/// residuals and the count of the live orders pointing at it, the count
/// positive; every live order pointing at a live level.
pub open spec fn inv(v: BookView) -> bool {
    &&& asc(v.bids)
    &&& asc(v.asks)
    &&& ladder_entries_ok(v.bids, v.levels, OrderSide::Buy)
    &&& ladder_entries_ok(v.asks, v.levels, OrderSide::Sell)
    &&& forall|h: Handle| #[trigger]
        v.levels.dom().contains(h) ==> in_ladder(side_ladder(v, v.levels[h].side), h)
    &&& forall|h: Handle| #[trigger]
        v.levels.dom().contains(h) ==> {
            &&& v.levels[h].volume as int == sum_vol(v.orders, h)
            &&& v.levels[h].depth as int == count_at(v.orders, h)
            &&& v.levels[h].depth >= 1
        }
    &&& forall|i: int| live_at(v.orders, i) ==> v.levels.dom().contains((#[trigger] v.orders[i]).0)
    &&& v.levels.dom().finite()
    &&& v.orders.len() <= usize::MAX
}

/// Whether the aggregate volume at the target level of an add would
/// still fit its counter.
pub open spec fn add_fits(v: BookView, price: u32, volume: u32, side: OrderSide) -> bool {
    has_price(side_ladder(v, side), price) ==> {
        let l = side_ladder(v, side);
        v.levels[l[price_idx(l, price)].1].volume + volume <= u32::MAX
    }
}

/// The preconditions of an add, besides the choice of a fresh handle.
pub open spec fn can_add(v: BookView, id: u64, price: u32, volume: u32, side: OrderSide) -> bool {
    &&& !live_at(v.orders, id as int)
    &&& volume > 0
    &&& add_fits(v, price, volume, side)
}

/// A handle is an acceptable name for the level an add would create: if
/// the level at (side, price) already exists the handle is not used, and
/// otherwise any handle that no live level carries will do.
pub open spec fn add_handle_ok(v: BookView, price: u32, side: OrderSide, h: Handle) -> bool {
    !has_price(side_ladder(v, side), price) ==> !v.levels.dom().contains(h)
}

/// The book after `add(id, price, volume, side)`, where `h` names the
/// level created when (side, price) had none.
pub open spec fn model_add(
    v: BookView,
    id: u64,
    price: u32,
    volume: u32,
    side: OrderSide,
    h: Handle,
) -> BookView {
    let orders1 = grow(v.orders, id as int + 1);
    let l = side_ladder(v, side);
    if has_price(l, price) {
        let hh = l[price_idx(l, price)].1;
        let lvl = v.levels[hh];
        let lvl2 = PriceLevel {
            volume: (lvl.volume + volume) as u32,
            depth: (lvl.depth + 1) as usize,
            ..lvl
        };
        BookView {
            levels: v.levels.insert(hh, lvl2),
            orders: orders1.update(id as int, (hh, volume)),
            ..v
        }
    } else {
        let lvl = PriceLevel { price, side, volume, depth: 1 };
        with_side_ladder(
            BookView {
                levels: v.levels.insert(h, lvl),
                orders: orders1.update(id as int, (h, volume)),
                ..v
            },
            side,
            l.insert(insert_pos(l, price), (price, h)),
        )
    }
}

/// The book after `execute(id, vol)` or `cancel(id, vol)`: the residual
/// and the level's volume drop by `vol`; an order whose residual reaches
/// zero dies and leaves the level's depth; a level left with no volume
/// and no orders collapses and leaves its ladder.
pub open spec fn model_execute(v: BookView, id: u64, vol: u32) -> BookView {
    let h = v.orders[id as int].0;
    let res2 = (v.orders[id as int].1 - vol) as u32;
    let orders1 = v.orders.update(id as int, (h, res2));
    let lvl = v.levels[h];
    let vol2 = (lvl.volume - vol) as u32;
    let depth2 = if res2 == 0 {
        (lvl.depth - 1) as usize
    } else {
        lvl.depth
    };
    if vol2 == 0 && depth2 == 0 {
        with_side_ladder(
            BookView { levels: v.levels.remove(h), orders: orders1, ..v },
            lvl.side,
            side_ladder(v, lvl.side).remove(handle_idx(side_ladder(v, lvl.side), h)),
        )
    } else {
        BookView {
            levels: v.levels.insert(h, PriceLevel { volume: vol2, depth: depth2, ..lvl }),
            orders: orders1,
            ..v
        }
    }
}

/// The book after `delete(id)`: the order's whole residual is taken out.
pub open spec fn model_delete(v: BookView, id: u64) -> BookView {
    model_execute(v, id, residual_of(v, id))
}

/// The side a live order rests on.
pub open spec fn side_of(v: BookView, id: u64) -> OrderSide {
    v.levels[v.orders[id as int].0].side
}

/// The highest resting bid price: the tail of the bids ladder.
pub open spec fn spec_best_bid(v: BookView) -> Option<u32> {
    if v.bids.len() == 0 {
        None
    } else {
        Some(v.bids.last().0)
    }
}

/// The lowest resting ask price: the head of the asks ladder.
pub open spec fn spec_best_ask(v: BookView) -> Option<u32> {
    if v.asks.len() == 0 {
        None
    } else {
        Some(v.asks.first().0)
    }
}

/// Best ask minus best bid when both sides rest and the book is not
/// crossed; never zero or negative.
pub open spec fn spec_spread(v: BookView) -> Option<u32> {
    if v.bids.len() > 0 && v.asks.len() > 0 && v.asks.first().0 > v.bids.last().0 {
        Some((v.asks.first().0 - v.bids.last().0) as u32)
    } else {
        None
    }
}

/// The aggregate `(volume, depth)` resting at one (side, price), if a
/// level lives there.
pub open spec fn spec_level_at(v: BookView, side: OrderSide, price: u32) -> Option<(u32, usize)> {
    let l = side_ladder(v, side);
    if has_price(l, price) {
        let lvl = v.levels[l[price_idx(l, price)].1];
        Some((lvl.volume, lvl.depth))
    } else {
        None
    }
}

/// The error an add surfaces, if any: the checks run in this order.
pub open spec fn add_error(v: BookView, id: u64, price: u32, volume: u32, side: OrderSide) -> Option<
    crate::orderbook::BookError,
> {
    if live_at(v.orders, id as int) {
        Some(crate::orderbook::BookError::DuplicateOrder)
    } else if volume == 0 {
        Some(crate::orderbook::BookError::ZeroVolume)
    } else if !add_fits(v, price, volume, side) {
        Some(crate::orderbook::BookError::VolumeOverflow)
    } else {
        None
    }
}

/// The error an execute or cancel surfaces, if any.
pub open spec fn execute_error(v: BookView, id: u64, volume: u32) -> Option<
    crate::orderbook::BookError,
> {
    if !live_at(v.orders, id as int) {
        Some(crate::orderbook::BookError::UnknownOrder)
    } else if volume > residual_of(v, id) {
        Some(crate::orderbook::BookError::VolumeExceedsResidual)
    } else {
        None
    }
}

/// The error a replace surfaces, if any: the checks run in this order,
/// and the volume check looks at the book as the delete leaves it.
pub open spec fn replace_error(
    v: BookView,
    old_id: u64,
    new_id: u64,
    price: u32,
    volume: u32,
) -> Option<crate::orderbook::BookError> {
    if !live_at(v.orders, old_id as int) {
        Some(crate::orderbook::BookError::UnknownOrder)
    } else if volume == 0 {
        Some(crate::orderbook::BookError::ZeroVolume)
    } else if live_at(v.orders, new_id as int) && new_id != old_id {
        Some(crate::orderbook::BookError::DuplicateOrder)
    } else if !add_fits(model_delete(v, old_id), price, volume, side_of(v, old_id)) {
        Some(crate::orderbook::BookError::VolumeOverflow)
    } else {
        None
    }
}

/// Observable equality of one side: the same prices in the same order,
/// with the same aggregate volume and depth behind each.
pub open spec fn obs_equiv_side(a: BookView, b: BookView, side: OrderSide) -> bool {
    let la = side_ladder(a, side);
    let lb = side_ladder(b, side);
    &&& la.len() == lb.len()
    &&& forall|i: int|
        0 <= i < la.len() ==> {
            &&& (#[trigger] la[i]).0 == (#[trigger] lb[i]).0
            &&& a.levels[la[i].1].volume == b.levels[lb[i].1].volume
            &&& a.levels[la[i].1].depth == b.levels[lb[i].1].depth
        }
}

/// Observable equality of the whole book: a consumer that reads the
/// ladders and the levels behind them cannot tell the two states apart.
pub open spec fn obs_equiv(a: BookView, b: BookView) -> bool {
    obs_equiv_side(a, b, OrderSide::Buy) && obs_equiv_side(a, b, OrderSide::Sell)
}

/// One more order fits a level's depth counter: the table always has a
/// dead entry or spare room where the new order's id goes.
pub proof fn lemma_add_depth_fits(v: BookView, id: u64, hh: Handle)
    requires
        inv(v),
        v.levels.dom().contains(hh),
        !live_at(v.orders, id as int),
        id + 1 <= usize::MAX,
    ensures
        v.levels[hh].depth + 1 <= usize::MAX,
{
    lemma_bounds(v.orders);
    if (id as int) < v.orders.len() {
        lemma_total_dead(v.orders, id as int);
    }
}

/// An add preserves the book invariant.
pub proof fn lemma_inv_add(v: BookView, id: u64, price: u32, volume: u32, side: OrderSide, h: Handle)
    requires
        inv(v),
        can_add(v, id, price, volume, side),
        add_handle_ok(v, price, side, h),
        id + 1 <= usize::MAX,
    ensures
        inv(model_add(v, id, price, volume, side, h)),
{
    let v2 = model_add(v, id, price, volume, side, h);
    let o0 = v.orders;
    let n1 = id as int + 1;
    let o1 = grow(o0, n1);
    let l = side_ladder(v, side);
    lemma_aggregates_grow(o0, n1);
    lemma_bounds(o0);
    lemma_bounds(o1);
    assert(o1[id as int].1 == 0);
    assert(o1.len() <= usize::MAX);
    lemma_total_dead(o1, id as int);
    if has_price(l, price) {
        let pi = price_idx(l, price);
        assert(0 <= pi < l.len() && l[pi].0 == price);
        let hh = l[pi].1;
        assert(v.levels.dom().contains(hh));
        let lvl = v.levels[hh];
        assert(lvl.price == price && lvl.side == side);
        let lvl2 = PriceLevel {
            volume: (lvl.volume + volume) as u32,
            depth: (lvl.depth + 1) as usize,
            ..lvl
        };
        let o2 = o1.update(id as int, (hh, volume));
        lemma_aggregates_update(o1, id as int, (hh, volume));
        assert(v2.bids == v.bids && v2.asks == v.asks);
        assert(v2.orders == o2);
        assert(v2.levels == v.levels.insert(hh, lvl2));
        assert(lvl.volume + volume <= u32::MAX);
        assert(count_at(o1, hh) <= total_live(o1) <= o1.len() - 1);
        assert(lvl.depth + 1 <= usize::MAX);
        assert(sum_vol(o2, hh) == sum_vol(o0, hh) + volume);
        assert(count_at(o2, hh) == count_at(o0, hh) + 1);
        assert(v2.levels.dom() =~= v.levels.dom());
        assert forall|g: Handle| #[trigger] v2.levels.dom().contains(g) implies {
            &&& v2.levels[g].volume as int == sum_vol(o2, g)
            &&& v2.levels[g].depth as int == count_at(o2, g)
            &&& v2.levels[g].depth >= 1
        } by {
            if g != hh {
                assert(v2.levels[g] == v.levels[g]);
                assert(sum_vol(o2, g) == sum_vol(o0, g));
                assert(count_at(o2, g) == count_at(o0, g));
            }
        }
        assert forall|g: Handle| #[trigger] v2.levels.dom().contains(g) implies in_ladder(
            side_ladder(v2, v2.levels[g].side),
            g,
        ) by {
            assert(v.levels.dom().contains(g));
            assert(v2.levels[g].side == v.levels[g].side);
            assert(side_ladder(v2, v2.levels[g].side) == side_ladder(v, v.levels[g].side));
        }
        assert forall|i: int| live_at(o2, i) implies v2.levels.dom().contains(
            (#[trigger] o2[i]).0,
        ) by {
            if i != id as int {
                assert(o2[i] == o1[i]);
                if i < o0.len() {
                    assert(o1[i] == o0[i]);
                    assert(live_at(o0, i));
                } else {
                    assert(o1[i].1 == 0);
                }
            }
        }
        assert(inv(v2));
    } else {
        let pos = insert_pos(l, price);
        lemma_insert_pos_props(l, price);
        let e = (price, h);
        let l2 = l.insert(pos, e);
        lemma_seq_insert_index(l, pos, e);
        lemma_insert_keeps_asc(l, pos, e);
        assert(!v.levels.dom().contains(h));
        let lvl_new = PriceLevel { price, side, volume, depth: 1 };
        let o2 = o1.update(id as int, (h, volume));
        lemma_aggregates_update(o1, id as int, (h, volume));
        assert forall|i: int|
            0 <= i < o0.len() && (#[trigger] o0[i]).1 > 0 implies o0[i].0 != h by {
            assert(live_at(o0, i));
            assert(v.levels.dom().contains(o0[i].0));
        }
        lemma_unpointed_zero(o0, h);
        assert(sum_vol(o2, h) == volume);
        assert(count_at(o2, h) == 1);
        assert(v2.levels == v.levels.insert(h, lvl_new));
        assert(v2.orders == o2);
        assert(side_ladder(v2, side) == l2);
        let other = if side == OrderSide::Buy {
            OrderSide::Sell
        } else {
            OrderSide::Buy
        };
        assert(side_ladder(v2, other) == side_ladder(v, other));
        // both ladders stay sorted
        assert(asc(side_ladder(v2, OrderSide::Buy)) && asc(side_ladder(v2, OrderSide::Sell)));
        // entries of the touched side
        assert forall|i: int| 0 <= i < l2.len() implies {
            &&& v2.levels.dom().contains((#[trigger] l2[i]).1)
            &&& v2.levels[l2[i].1].price == l2[i].0
            &&& v2.levels[l2[i].1].side == side
        } by {
            if i < pos {
                assert(l2[i] == l[i]);
                assert(v.levels.dom().contains(l[i].1));
                assert(l[i].1 != h);
            } else if i == pos {
                assert(l2[i] == e);
            } else {
                assert(l2[i] == l[i - 1]);
                assert(v.levels.dom().contains(l[i - 1].1));
                assert(l[i - 1].1 != h);
            }
        }
        // entries of the untouched side
        assert forall|i: int|
            0 <= i < side_ladder(v2, other).len() implies {
            &&& v2.levels.dom().contains((#[trigger] side_ladder(v2, other)[i]).1)
            &&& v2.levels[side_ladder(v2, other)[i].1].price == side_ladder(v2, other)[i].0
            &&& v2.levels[side_ladder(v2, other)[i].1].side == other
        } by {
            assert(v.levels.dom().contains(side_ladder(v, other)[i].1));
            assert(side_ladder(v, other)[i].1 != h);
        }
        assert(ladder_entries_ok(v2.bids, v2.levels, OrderSide::Buy));
        assert(ladder_entries_ok(v2.asks, v2.levels, OrderSide::Sell));
        // every live level is listed
        assert forall|g: Handle| #[trigger] v2.levels.dom().contains(g) implies in_ladder(
            side_ladder(v2, v2.levels[g].side),
            g,
        ) by {
            if g == h {
                assert(l2[pos].1 == h);
                assert(in_ladder(l2, h));
            } else {
                assert(v.levels.dom().contains(g));
                assert(v2.levels[g] == v.levels[g]);
                let gs = v.levels[g].side;
                assert(in_ladder(side_ladder(v, gs), g));
                let w = choose|i: int|
                    0 <= i < side_ladder(v, gs).len() && (#[trigger] side_ladder(v, gs)[i]).1
                        == g;
                if gs == side {
                    if w < pos {
                        assert(l2[w] == l[w]);
                        assert(in_ladder(l2, g));
                    } else {
                        assert(l2[w + 1] == l[w]);
                        assert(in_ladder(l2, g));
                    }
                } else {
                    assert(side_ladder(v2, gs) == side_ladder(v, gs));
                }
            }
        }
        // aggregates
        assert forall|g: Handle| #[trigger] v2.levels.dom().contains(g) implies {
            &&& v2.levels[g].volume as int == sum_vol(o2, g)
            &&& v2.levels[g].depth as int == count_at(o2, g)
            &&& v2.levels[g].depth >= 1
        } by {
            if g != h {
                assert(v.levels.dom().contains(g));
                assert(v2.levels[g] == v.levels[g]);
                assert(sum_vol(o2, g) == sum_vol(o0, g));
                assert(count_at(o2, g) == count_at(o0, g));
            }
        }
        // every live order points at a live level
        assert forall|i: int| live_at(o2, i) implies v2.levels.dom().contains(
            (#[trigger] o2[i]).0,
        ) by {
            if i != id as int {
                assert(o2[i] == o1[i]);
                if i < o0.len() {
                    assert(o1[i] == o0[i]);
                    assert(live_at(o0, i));
                    assert(v.levels.dom().contains(o0[i].0));
                } else {
                    assert(o1[i].1 == 0);
                }
            }
        }
        assert(inv(v2));
    }
}

/// The other side.
pub open spec fn opposite(side: OrderSide) -> OrderSide {
    if side == OrderSide::Buy {
        OrderSide::Sell
    } else {
        OrderSide::Buy
    }
}

/// What a delete does, resolved against the invariant: a level of depth
/// one collapses with its ladder entry; a deeper level survives with the
/// order's residual and one unit of depth taken out.
pub proof fn lemma_delete_shape(v: BookView, id: u64)
    requires
        inv(v),
        live_at(v.orders, id as int),
    ensures
        ({
            let h = v.orders[id as int].0;
            let res = v.orders[id as int].1;
            let lvl = v.levels[h];
            let v1 = model_delete(v, id);
            &&& v1.orders == v.orders.update(id as int, (h, 0u32))
            &&& (lvl.depth == 1 ==> {
                &&& v1.levels == v.levels.remove(h)
                &&& side_ladder(v1, lvl.side) == side_ladder(v, lvl.side).remove(
                    handle_idx(side_ladder(v, lvl.side), h),
                )
                &&& side_ladder(v1, opposite(lvl.side)) == side_ladder(v, opposite(lvl.side))
            })
            &&& (lvl.depth > 1 ==> {
                &&& v1.levels == v.levels.insert(
                    h,
                    PriceLevel {
                        volume: (lvl.volume - res) as u32,
                        depth: (lvl.depth - 1) as usize,
                        ..lvl
                    },
                )
                &&& v1.bids == v.bids
                &&& v1.asks == v.asks
            })
        }),
{
    let h = v.orders[id as int].0;
    let res = v.orders[id as int].1;
    let lvl = v.levels[h];
    assert(v.levels.dom().contains(h));
    lemma_entry_bounds(v.orders, id as int);
    if lvl.depth == 1 {
        lemma_single_order(v.orders, id as int, h);
        assert(lvl.volume == res);
    }
}

/// Whether the replacement volume fits, read off the book before the
/// delete: the target level is the one at the replacement's price on the
/// old order's side; when that is the old order's own level it first
/// gives up the old residual, or collapses entirely if the old order was
/// its only one.
pub proof fn lemma_add_fits_after_delete(v: BookView, id: u64, price: u32, volume: u32)
    requires
        inv(v),
        live_at(v.orders, id as int),
    ensures
        ({
            let h = v.orders[id as int].0;
            let res = v.orders[id as int].1;
            let lvl = v.levels[h];
            let l = side_ladder(v, lvl.side);
            let fits_now = if has_price(l, price) {
                let g = l[price_idx(l, price)].1;
                if g == h {
                    lvl.depth > 1 ==> lvl.volume - res + volume <= u32::MAX
                } else {
                    v.levels[g].volume + volume <= u32::MAX
                }
            } else {
                true
            };
            add_fits(model_delete(v, id), price, volume, lvl.side) <==> fits_now
        }),
{
    let h = v.orders[id as int].0;
    let res = v.orders[id as int].1;
    assert(v.levels.dom().contains(h));
    let lvl = v.levels[h];
    let ls = lvl.side;
    let l = side_ladder(v, ls);
    let v1 = model_delete(v, id);
    lemma_delete_shape(v, id);
    lemma_handle_unique(l, v.levels, ls);
    if lvl.depth == 1 {
        assert(in_ladder(l, h));
        let hi = handle_idx(l, h);
        assert(0 <= hi < l.len() && l[hi].1 == h);
        let l1 = l.remove(hi);
        assert(side_ladder(v1, ls) == l1);
        lemma_seq_remove_index(l, hi);
        lemma_remove_keeps_asc(l, hi);
        if has_price(l, price) {
            let pi = price_idx(l, price);
            assert(0 <= pi < l.len() && l[pi].0 == price);
            let g = l[pi].1;
            if g == h {
                lemma_handle_idx_unique(l, h, pi);
                assert(hi == pi);
                assert(!has_price(l1, price)) by {
                    if has_price(l1, price) {
                        let j = choose|j: int| 0 <= j < l1.len() && (#[trigger] l1[j]).0 == price;
                        let j0 = if j < hi {
                            j
                        } else {
                            j + 1
                        };
                        assert(l1[j] == l[j0]);
                        assert(l[j0].0 == price);
                        if j0 < pi {
                            assert(l[j0].0 < l[pi].0);
                        } else {
                            assert(l[pi].0 < l[j0].0);
                        }
                    }
                }
                assert(add_fits(v1, price, volume, ls));
            } else {
                assert(hi != pi);
                let pi1 = if pi < hi {
                    pi
                } else {
                    pi - 1
                };
                assert(l1[pi1] == l[pi]);
                lemma_price_idx_unique(l1, price, pi1);
                assert(l1[price_idx(l1, price)].1 == g);
                assert(v1.levels.dom().contains(g));
                assert(v1.levels[g] == v.levels[g]);
            }
        } else {
            assert(!has_price(l1, price)) by {
                if has_price(l1, price) {
                    let j = choose|j: int| 0 <= j < l1.len() && (#[trigger] l1[j]).0 == price;
                    let j0 = if j < hi {
                        j
                    } else {
                        j + 1
                    };
                    assert(l1[j] == l[j0]);
                    assert(has_price(l, price));
                }
            }
        }
    } else {
        assert(side_ladder(v1, ls) == l);
        if has_price(l, price) {
            let pi = price_idx(l, price);
            assert(0 <= pi < l.len() && l[pi].0 == price);
            let g = l[pi].1;
            if g == h {
                lemma_entry_bounds(v.orders, id as int);
                assert(res <= lvl.volume);
                assert(v1.levels[h].volume == lvl.volume - res);
            } else {
                assert(v1.levels[g] == v.levels[g]);
            }
        }
    }
}

/// An execute, cancel or delete preserves the book invariant.
pub proof fn lemma_inv_execute(v: BookView, id: u64, vol: u32)
    requires
        inv(v),
        live_at(v.orders, id as int),
        vol <= residual_of(v, id),
    ensures
        inv(model_execute(v, id, vol)),
{
    let v2 = model_execute(v, id, vol);
    let o0 = v.orders;
    let h = o0[id as int].0;
    let res = o0[id as int].1;
    let res2 = (res - vol) as u32;
    let o2 = o0.update(id as int, (h, res2));
    assert(v.levels.dom().contains(h));
    let lvl = v.levels[h];
    lemma_entry_bounds(o0, id as int);
    lemma_bounds(o0);
    lemma_aggregates_update(o0, id as int, (h, res2));
    assert(sum_vol(o2, h) == sum_vol(o0, h) - vol);
    assert(count_at(o2, h) == count_at(o0, h) - (if res2 == 0 {
        1int
    } else {
        0
    }));
    let vol2 = (lvl.volume - vol) as u32;
    let depth2 = if res2 == 0 {
        (lvl.depth - 1) as usize
    } else {
        lvl.depth
    };
    assert(vol2 as int == sum_vol(o2, h));
    assert(depth2 as int == count_at(o2, h));
    assert(v2.orders == o2);
    if vol2 == 0 && depth2 == 0 {
        assert(res2 == 0);
        let ls = lvl.side;
        let l = side_ladder(v, ls);
        let other = if ls == OrderSide::Buy {
            OrderSide::Sell
        } else {
            OrderSide::Buy
        };
        lemma_handle_unique(l, v.levels, ls);
        assert(in_ladder(l, h));
        let hi = handle_idx(l, h);
        assert(0 <= hi < l.len() && l[hi].1 == h);
        let l2 = l.remove(hi);
        lemma_seq_remove_index(l, hi);
        lemma_remove_keeps_asc(l, hi);
        assert(v2.levels == v.levels.remove(h));
        assert(side_ladder(v2, ls) == l2);
        assert(side_ladder(v2, other) == side_ladder(v, other));
        lemma_count_zero(o2, h);
        assert(asc(side_ladder(v2, OrderSide::Buy)) && asc(side_ladder(v2, OrderSide::Sell)));
        // entries of the collapsed level's side
        assert forall|i: int| 0 <= i < l2.len() implies {
            &&& v2.levels.dom().contains((#[trigger] l2[i]).1)
            &&& v2.levels[l2[i].1].price == l2[i].0
            &&& v2.levels[l2[i].1].side == ls
        } by {
            if i < hi {
                assert(l2[i] == l[i]);
                assert(l[i].1 != h);
            } else {
                assert(l2[i] == l[i + 1]);
                assert(l[i + 1].1 != h);
            }
        }
        // entries of the other side never carried h: their side differs
        assert forall|i: int|
            0 <= i < side_ladder(v2, other).len() implies {
            &&& v2.levels.dom().contains((#[trigger] side_ladder(v2, other)[i]).1)
            &&& v2.levels[side_ladder(v2, other)[i].1].price == side_ladder(v2, other)[i].0
            &&& v2.levels[side_ladder(v2, other)[i].1].side == other
        } by {
            assert(v.levels.dom().contains(side_ladder(v, other)[i].1));
            assert(v.levels[side_ladder(v, other)[i].1].side == other);
            assert(side_ladder(v, other)[i].1 != h);
        }
        assert(ladder_entries_ok(v2.bids, v2.levels, OrderSide::Buy));
        assert(ladder_entries_ok(v2.asks, v2.levels, OrderSide::Sell));
        // every surviving level is still listed
        assert forall|g: Handle| #[trigger] v2.levels.dom().contains(g) implies in_ladder(
            side_ladder(v2, v2.levels[g].side),
            g,
        ) by {
            assert(g != h && v.levels.dom().contains(g));
            let gs = v.levels[g].side;
            assert(in_ladder(side_ladder(v, gs), g));
            let w = choose|i: int|
                0 <= i < side_ladder(v, gs).len() && (#[trigger] side_ladder(v, gs)[i]).1 == g;
            if gs == ls {
                assert(w != hi);
                if w < hi {
                    assert(l2[w] == l[w]);
                    assert(in_ladder(l2, g));
                } else {
                    assert(l2[w - 1] == l[w]);
                    assert(in_ladder(l2, g));
                }
            } else {
                assert(side_ladder(v2, gs) == side_ladder(v, gs));
            }
        }
        // aggregates of the surviving levels
        assert forall|g: Handle| #[trigger] v2.levels.dom().contains(g) implies {
            &&& v2.levels[g].volume as int == sum_vol(o2, g)
            &&& v2.levels[g].depth as int == count_at(o2, g)
            &&& v2.levels[g].depth >= 1
        } by {
            assert(g != h && v.levels.dom().contains(g));
            assert(v2.levels[g] == v.levels[g]);
            assert(sum_vol(o2, g) == sum_vol(o0, g));
            assert(count_at(o2, g) == count_at(o0, g));
        }
        // live orders still point at live levels
        assert forall|i: int| live_at(o2, i) implies v2.levels.dom().contains(
            (#[trigger] o2[i]).0,
        ) by {
            assert(i != id as int);
            assert(o2[i] == o0[i]);
            assert(live_at(o0, i));
            assert(o2[i].0 != h);
        }
        assert(inv(v2));
    } else {
        let lvl2 = PriceLevel { volume: vol2, depth: depth2, ..lvl };
        assert(v2.levels == v.levels.insert(h, lvl2));
        assert(v2.bids == v.bids && v2.asks == v.asks);
        assert(v2.levels.dom() =~= v.levels.dom());
        // the level keeps at least one order: were its count zero, its
        // volume sum would be zero too and it would have collapsed
        if depth2 == 0 {
            lemma_count_zero(o2, h);
            assert(vol2 == 0);
            assert(false);
        }
        assert forall|g: Handle| #[trigger] v2.levels.dom().contains(g) implies {
            &&& v2.levels[g].volume as int == sum_vol(o2, g)
            &&& v2.levels[g].depth as int == count_at(o2, g)
            &&& v2.levels[g].depth >= 1
        } by {
            if g != h {
                assert(v2.levels[g] == v.levels[g]);
                assert(sum_vol(o2, g) == sum_vol(o0, g));
                assert(count_at(o2, g) == count_at(o0, g));
            }
        }
        assert forall|g: Handle| #[trigger] v2.levels.dom().contains(g) implies in_ladder(
            side_ladder(v2, v2.levels[g].side),
            g,
        ) by {
            assert(v.levels.dom().contains(g));
            assert(v2.levels[g].side == v.levels[g].side);
            assert(side_ladder(v2, v2.levels[g].side) == side_ladder(v, v.levels[g].side));
        }
        assert forall|i: int| live_at(o2, i) implies v2.levels.dom().contains(
            (#[trigger] o2[i]).0,
        ) by {
            if i != id as int {
                assert(o2[i] == o0[i]);
                assert(live_at(o0, i));
            }
        }
        assert(inv(v2));
    }
}

/// On a well-formed side no two ladder entries share a handle: their
/// prices would have to be equal, and the ladder is strictly ascending.
pub proof fn lemma_handle_unique(l: Seq<(u32, Handle)>, levels: Map<Handle, PriceLevel>, side: OrderSide)
    requires
        asc(l),
        ladder_entries_ok(l, levels, side),
    ensures
        forall|i: int, j: int|
            0 <= i < l.len() && 0 <= j < l.len() && (#[trigger] l[i]).1 == (#[trigger] l[j]).1
                ==> i == j,
{
    assert forall|i: int, j: int|
        0 <= i < l.len() && 0 <= j < l.len() && (#[trigger] l[i]).1 == (#[trigger] l[j]).1
            implies i == j by {
        if i < j {
            assert(l[i].0 < l[j].0);
            assert(levels[l[i].1].price == l[i].0);
            assert(levels[l[j].1].price == l[j].0);
        }
        if j < i {
            assert(l[j].0 < l[i].0);
            assert(levels[l[i].1].price == l[i].0);
            assert(levels[l[j].1].price == l[j].0);
        }
    }
}

} // verus!
