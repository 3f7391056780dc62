//! The laws of the book, stated over the abstract model and proved from
//! the invariant and the transition functions.

use vstd::prelude::*;

use crate::orderbook::Handle;
use crate::orderbook::OrderSide;
use crate::orderbook::PriceLevel;
use crate::orderbook::ladder::asc;
use crate::orderbook::ladder::has_price;
use crate::orderbook::ladder::in_ladder;
use crate::orderbook::ladder::insert_pos;
use crate::orderbook::ladder::lemma_handle_idx_unique;
use crate::orderbook::ladder::lemma_insert_pos_props;
use crate::orderbook::ladder::lemma_seq_insert_index;
use crate::orderbook::ladder::lemma_seq_remove_index;
use crate::orderbook::ladder::price_idx;
use crate::orderbook::model::BookView;
use crate::orderbook::model::add_handle_ok;
use crate::orderbook::model::can_add;
use crate::orderbook::model::inv;
use crate::orderbook::model::lemma_handle_unique;
use crate::orderbook::model::lemma_inv_add;
use crate::orderbook::model::model_add;
use crate::orderbook::model::model_delete;
use crate::orderbook::model::model_execute;
use crate::orderbook::model::obs_equiv;
use crate::orderbook::model::obs_equiv_side;
use crate::orderbook::model::opposite;
use crate::orderbook::model::residual_of;
use crate::orderbook::model::side_ladder;
use crate::orderbook::model::side_of;
use crate::orderbook::ordermap::count_at;
use crate::orderbook::ordermap::grow;
use crate::orderbook::ordermap::lemma_aggregates_grow;
use crate::orderbook::ordermap::lemma_bounds;
use crate::orderbook::ordermap::lemma_entry_bounds;
use crate::orderbook::ordermap::lemma_total_dead;
use crate::orderbook::ordermap::live_at;
use crate::orderbook::ordermap::sum_vol;
use crate::orderbook::ordermap::total_live;

verus! {

/// Every live price level's volume is the sum of the residuals of the
/// live orders pointing at it, and its depth is their count, at least
/// one.
pub proof fn lemma_level_aggregates(v: BookView, h: Handle)
    requires
        inv(v),
        v.levels.dom().contains(h),
    ensures
        v.levels[h].volume as int == sum_vol(v.orders, h),
        v.levels[h].depth as int == count_at(v.orders, h),
        v.levels[h].depth >= 1,
{
}

/// Every live order id resolves to a live price level, listed on the
/// ladder of its side.
pub proof fn lemma_order_index_live(v: BookView, id: u64)
    requires
        inv(v),
        live_at(v.orders, id as int),
    ensures
        v.levels.dom().contains(v.orders[id as int].0),
        in_ladder(side_ladder(v, side_of(v, id)), v.orders[id as int].0),
{
}

/// The live price levels of one side.
pub open spec fn side_levels(v: BookView, side: OrderSide) -> Set<Handle> {
    v.levels.dom().filter(|h: Handle| v.levels[h].side == side)
}

/// Each ladder is strictly ascending in price, carries no duplicate
/// price, and holds exactly one entry per live level of its side.
pub proof fn lemma_ladder_complete(v: BookView, side: OrderSide)
    requires
        inv(v),
    ensures
        asc(side_ladder(v, side)),
        side_ladder(v, side).len() == side_levels(v, side).len(),
        side_levels(v, side).finite(),
{
    let l = side_ladder(v, side);
    let hs = l.map_values(|e: (u32, Handle)| e.1);
    lemma_handle_unique(l, v.levels, side);
    assert(hs.len() == l.len());
    assert(forall|i: int| 0 <= i < l.len() ==> #[trigger] hs[i] == l[i].1);
    assert(hs.no_duplicates());
    assert(hs.to_set() =~= side_levels(v, side)) by {
        assert forall|g: Handle| hs.to_set().contains(g) implies side_levels(v, side).contains(
            g,
        ) by {
            let i = choose|i: int| 0 <= i < hs.len() && hs[i] == g;
            assert(l[i].1 == g);
            assert(v.levels.dom().contains(g) && v.levels[g].side == side);
        }
        assert forall|g: Handle| side_levels(v, side).contains(g) implies hs.to_set().contains(
            g,
        ) by {
            assert(v.levels.dom().contains(g));
            assert(in_ladder(side_ladder(v, v.levels[g].side), g));
            let i = choose|i: int| 0 <= i < l.len() && (#[trigger] l[i]).1 == g;
            assert(hs[i] == g);
            assert(hs.contains(g));
        }
    }
    hs.unique_seq_to_set();
    v.levels.dom().lemma_len_filter(|h: Handle| v.levels[h].side == side);
}

/// A spread is quoted exactly when both sides rest and the best bid is
/// strictly below the best ask; it is then their positive difference.
/// The engine itself does not reject a crossing feed, so a crossed book
/// simply quotes no spread.
pub proof fn lemma_spread_uncrossed(v: BookView)
    ensures
        crate::orderbook::model::spec_spread(v) is Some <==> {
            &&& crate::orderbook::model::spec_best_bid(v) is Some
            &&& crate::orderbook::model::spec_best_ask(v) is Some
            &&& crate::orderbook::model::spec_best_bid(v).unwrap()
                < crate::orderbook::model::spec_best_ask(v).unwrap()
        },
        crate::orderbook::model::spec_spread(v) is Some
            ==> crate::orderbook::model::spec_spread(v).unwrap()
            == crate::orderbook::model::spec_best_ask(v).unwrap()
            - crate::orderbook::model::spec_best_bid(v).unwrap()
            && crate::orderbook::model::spec_spread(v).unwrap() > 0,
{
}

/// Adding an order and deleting it straight away leaves a book that no
/// reader of the ladders and levels can tell from the one it started
/// from.
pub proof fn lemma_add_delete_inverse(
    v: BookView,
    id: u64,
    price: u32,
    volume: u32,
    side: OrderSide,
    h: Handle,
)
    requires
        inv(v),
        can_add(v, id, price, volume, side),
        add_handle_ok(v, price, side, h),
        id + 1 <= usize::MAX,
    ensures
        obs_equiv(model_delete(model_add(v, id, price, volume, side, h), id), v),
{
    let v2 = model_add(v, id, price, volume, side, h);
    lemma_inv_add(v, id, price, volume, side, h);
    let o0 = v.orders;
    let o1 = grow(o0, id as int + 1);
    lemma_aggregates_grow(o0, id as int + 1);
    lemma_bounds(o1);
    assert(o1[id as int].1 == 0);
    lemma_total_dead(o1, id as int);
    let l = side_ladder(v, side);
    if has_price(l, price) {
        let pi = price_idx(l, price);
        assert(0 <= pi < l.len() && l[pi].0 == price);
        let hh = l[pi].1;
        assert(v.levels.dom().contains(hh));
        let lvl = v.levels[hh];
        assert(lvl.depth as int == count_at(o0, hh));
        assert(count_at(o1, hh) == count_at(o0, hh));
        assert(count_at(o1, hh) <= total_live(o1));
        assert(lvl.volume + volume <= u32::MAX);
        let lvl2 = v2.levels[hh];
        assert(v2.bids == v.bids && v2.asks == v.asks);
        assert(v2.orders == o1.update(id as int, (hh, volume)));
        assert(lvl2.volume == lvl.volume + volume && lvl2.depth == lvl.depth + 1);
        assert(lvl2.price == lvl.price && lvl2.side == lvl.side);
        assert(live_at(v2.orders, id as int) && residual_of(v2, id) == volume);
        let v3 = model_delete(v2, id);
        // the level keeps its orders, so it does not collapse
        assert(lvl.depth >= 1);
        assert(v3.levels == v2.levels.insert(
            hh,
            PriceLevel {
                volume: (lvl2.volume - volume) as u32,
                depth: (lvl2.depth - 1) as usize,
                ..lvl2
            },
        ));
        assert(v3.levels =~= v.levels);
        assert(v3.bids == v.bids && v3.asks == v.asks);
        assert(obs_equiv_side(v3, v, OrderSide::Buy));
        assert(obs_equiv_side(v3, v, OrderSide::Sell));
    } else {
        assert(!v.levels.dom().contains(h));
        let pos = insert_pos(l, price);
        lemma_insert_pos_props(l, price);
        let e = (price, h);
        let l2 = l.insert(pos, e);
        lemma_seq_insert_index(l, pos, e);
        assert(v2.levels == v.levels.insert(h, PriceLevel { price, side, volume, depth: 1 }));
        assert(side_ladder(v2, side) == l2);
        assert(side_ladder(v2, opposite(side)) == side_ladder(v, opposite(side)));
        assert(v2.orders == o1.update(id as int, (h, volume)));
        assert(live_at(v2.orders, id as int) && residual_of(v2, id) == volume);
        let v3 = model_delete(v2, id);
        assert(v2.levels[h].volume == volume && v2.levels[h].depth == 1);
        assert(v2.levels[h].side == side);
        // the new entry is the only one carrying h
        assert forall|i: int, j: int|
            0 <= i < l2.len() && 0 <= j < l2.len() && (#[trigger] l2[i]).1 == h && (
            #[trigger] l2[j]).1 == h implies i == j by {
            if i != pos {
                let i0 = if i < pos {
                    i
                } else {
                    i - 1
                };
                assert(l2[i] == l[i0]);
                assert(v.levels.dom().contains(l[i0].1));
            }
            if j != pos {
                let j0 = if j < pos {
                    j
                } else {
                    j - 1
                };
                assert(l2[j] == l[j0]);
                assert(v.levels.dom().contains(l[j0].1));
            }
        }
        assert(l2[pos].1 == h);
        lemma_handle_idx_unique(l2, h, pos);
        // the fresh level empties and collapses, taking its entry along
        assert(v3.levels == v2.levels.remove(h));
        assert(v3.levels =~= v.levels);
        assert(side_ladder(v3, side) == l2.remove(pos));
        lemma_seq_remove_index(l2, pos);
        assert(l2.remove(pos) =~= l);
        assert(side_ladder(v3, opposite(side)) == side_ladder(v, opposite(side)));
        assert(obs_equiv_side(v3, v, OrderSide::Buy));
        assert(obs_equiv_side(v3, v, OrderSide::Sell));
    }
}

/// Two executions against one order act as a single execution of their
/// combined volume, so long as the first does not already fill the
/// order.
pub proof fn lemma_execute_associative(v: BookView, id: u64, a: u32, b: u32)
    requires
        inv(v),
        live_at(v.orders, id as int),
        a + b <= residual_of(v, id),
        a < residual_of(v, id),
    ensures
        model_execute(model_execute(v, id, a), id, b) == model_execute(v, id, (a + b) as u32),
{
    let h = v.orders[id as int].0;
    let res = v.orders[id as int].1;
    assert(v.levels.dom().contains(h));
    let lvl = v.levels[h];
    lemma_entry_bounds(v.orders, id as int);
    assert(res <= lvl.volume);
    let m1 = model_execute(v, id, a);
    // the first execution leaves the order and its level alive
    assert(lvl.depth >= 1);
    let lvl1 = PriceLevel { volume: (lvl.volume - a) as u32, depth: lvl.depth, ..lvl };
    assert(m1.levels == v.levels.insert(h, lvl1));
    assert(m1.orders == v.orders.update(id as int, (h, (res - a) as u32)));
    assert(m1.bids == v.bids && m1.asks == v.asks);
    assert(live_at(m1.orders, id as int) && residual_of(m1, id) == res - a);
    let m2 = model_execute(m1, id, b);
    let ms = model_execute(v, id, (a + b) as u32);
    assert(m1.orders.update(id as int, (h, (res - a - b) as u32)) =~= v.orders.update(
        id as int,
        (h, (res - a - b) as u32),
    ));
    let res2 = (res - a - b) as u32;
    let vol2 = (lvl.volume - a - b) as u32;
    let depth2 = if res2 == 0 {
        (lvl.depth - 1) as usize
    } else {
        lvl.depth
    };
    if vol2 == 0 && depth2 == 0 {
        assert(side_ladder(m1, lvl1.side) == side_ladder(v, lvl.side));
        assert(m2.levels =~= ms.levels);
        assert(m2.orders =~= ms.orders);
        assert(m2.bids =~= ms.bids);
        assert(m2.asks =~= ms.asks);
    } else {
        assert(m1.levels.insert(h, PriceLevel { volume: vol2, depth: depth2, ..lvl1 }) =~= v
            .levels.insert(h, PriceLevel { volume: vol2, depth: depth2, ..lvl }));
        assert(m2.levels =~= ms.levels);
        assert(m2.orders =~= ms.orders);
    }
    assert(m2 =~= ms);
}

} // verus!
