//! The limit-order-book engine: two sorted price ladders, an arena of
//! price-level records with versioned handles, and a dense order index.

use vstd::prelude::*;

pub mod ordermap;
pub mod store;
pub mod ladder;
pub mod model;
pub mod laws;

verus! {

/// The side of an order or of a price level.
#[derive(Debug, PartialEq, Eq, Structural, Copy, Clone)]
pub enum OrderSide {
    Buy,
    Sell,
}

/// A versioned handle to a price-level record in the arena.  The version
/// tag makes a handle to a destroyed record distinguishable from a handle
/// to a record that later recycled the same slot.
#[derive(Debug, PartialEq, Eq, Structural, Copy, Clone)]
pub struct Handle {
    pub idx: usize,
    pub ver: u64,
}

/// One price level: all resting volume at one (side, price) pair.
/// `depth` counts the live orders resting here; `volume` is the sum of
/// their residual volumes.
#[derive(Debug, PartialEq, Eq, Structural, Copy, Clone)]
pub struct PriceLevel {
    pub price: u32,
    pub side: OrderSide,
    pub volume: u32,
    pub depth: usize,
}

/// A feed-integrity violation.  The book cannot recover lost state from a
/// malformed stream, so every handler surfaces these instead of guessing.
#[derive(Debug, PartialEq, Eq, Structural, Copy, Clone)]
pub enum BookError {
    /// The event references an order id that is not live.
    UnknownOrder,
    /// An add names an id that is already live.
    DuplicateOrder,
    /// An add or replace carries zero volume.
    ZeroVolume,
    /// An execute or cancel exceeds the order's residual volume.
    VolumeExceedsResidual,
    /// The aggregate volume at the target level would not fit.
    VolumeOverflow,
}

/// Ticks per currency unit: prices are integers in ten-thousandths.
pub const PRICE_SCALE: u32 = 10_000;

/// Levels to pre-reserve room for at construction.
pub const LEVEL_CAPACITY: usize = 10_000;

/// Order ids to pre-reserve room for at construction.
pub const ORDER_CAPACITY: usize = 2_000_000;

/// The book: two price-ascending ladders, the level arena, and the dense
/// order index.
pub struct OrderBook {
    bids: Vec<(u32, Handle)>,
    asks: Vec<(u32, Handle)>,
    price_levels: store::PriceLevelStore,
    order_map: ordermap::OrderMap,
}

impl View for OrderBook {
    type V = model::BookView;

    closed spec fn view(&self) -> model::BookView {
        model::BookView {
            bids: self.bids@,
            asks: self.asks@,
            levels: self.price_levels@,
            orders: self.order_map@,
        }
    }
}

impl OrderBook {
    /// The arena is internally consistent and the abstract state is
    /// well-formed.
    pub closed spec fn wf(&self) -> bool {
        &&& self.price_levels.wf()
        &&& model::inv(self@)
    }

    /// An empty book with a session's worth of room pre-reserved.
    pub fn new() -> (r: Self)
        ensures
            r.wf(),
            r@.bids == Seq::<(u32, Handle)>::empty(),
            r@.asks == Seq::<(u32, Handle)>::empty(),
            r@.levels == Map::<Handle, PriceLevel>::empty(),
            r@.orders == ordermap::dead_pad(ORDER_CAPACITY as int),
    {
        let r = OrderBook {
            bids: Vec::with_capacity(LEVEL_CAPACITY),
            asks: Vec::with_capacity(LEVEL_CAPACITY),
            price_levels: store::PriceLevelStore::new(LEVEL_CAPACITY),
            order_map: ordermap::OrderMap::new(ORDER_CAPACITY),
        };
        proof {
            assert(r@.levels.dom() =~= Set::<Handle>::empty());
            assert forall|i: int| ordermap::live_at(r@.orders, i) implies r@.levels.dom().contains(
                (#[trigger] r@.orders[i]).0,
            ) by {
                assert(r@.orders[i].1 == 0);
            }
        }
        r
    }

    /// A well-formed book has a well-formed abstract state.
    pub proof fn lemma_wf_inv(&self)
        requires
            self.wf(),
        ensures
            model::inv(self@),
    {
    }

    /// Ladder sizes, live level count and live order count.
    pub fn meta(&self) -> (r: (usize, usize, usize, usize))
        requires
            self.wf(),
        ensures
            r.0 == self@.bids.len(),
            r.1 == self@.asks.len(),
            r.2 as int == self@.levels.dom().len(),
            r.3 as int == ordermap::total_live(self@.orders),
    {
        (self.bids.len(), self.asks.len(), self.price_levels.len(), self.order_map.live_count())
    }

    /// The highest resting bid price, in ticks.
    pub fn best_bid(&self) -> (r: Option<u32>)
        ensures
            r == model::spec_best_bid(self@),
    {
        if self.bids.len() == 0 {
            None
        } else {
            Some(self.bids[self.bids.len() - 1].0)
        }
    }

    /// The lowest resting ask price, in ticks.
    pub fn best_ask(&self) -> (r: Option<u32>)
        ensures
            r == model::spec_best_ask(self@),
    {
        if self.asks.len() == 0 {
            None
        } else {
            Some(self.asks[0].0)
        }
    }

    /// Best ask minus best bid, in ticks; `None` when either side is
    /// empty or the book is crossed, so a returned spread is positive.
    pub fn spread(&self) -> (r: Option<u32>)
        ensures
            r == model::spec_spread(self@),
            r is Some ==> r.unwrap() > 0,
    {
        let a = match self.best_ask() {
            Some(a) => a,
            None => { return None; },
        };
        let b = match self.best_bid() {
            Some(b) => b,
            None => { return None; },
        };
        if a > b {
            Some(a - b)
        } else {
            None
        }
    }

    /// The aggregate `(volume, depth)` resting at one (side, price).
    pub fn level_at(&self, side: OrderSide, price: u32) -> (r: Option<(u32, usize)>)
        requires
            self.wf(),
        ensures
            r == model::spec_level_at(self@, side, price),
    {
        let (found, idx) = if side == OrderSide::Sell {
            ladder::find_slot(&self.asks, price)
        } else {
            ladder::find_slot(&self.bids, price)
        };
        if !found {
            return None;
        }
        let h = if side == OrderSide::Sell {
            self.asks[idx].1
        } else {
            self.bids[idx].1
        };
        match self.price_levels.get(h) {
            Some(lvl) => Some((lvl.volume, lvl.depth)),
            None => {
                proof {
                    assert(false);
                }
                None
            },
        }
    }

    /// The residual volume of a live order.
    pub fn order_residual(&self, order_id: u64) -> (r: Option<u32>)
        ensures
            r == if ordermap::live_at(self@.orders, order_id as int) {
                Some(self@.orders[order_id as int].1)
            } else {
                None::<u32>
            },
    {
        match self.order_map.get(order_id) {
            Some(e) => if e.1 > 0 {
                Some(e.1)
            } else {
                None
            },
            None => None,
        }
    }

    /// Books a new order: joins the level at (side, price) or opens that
    /// level at its sorted ladder slot, and records the order.
    pub fn add_order(&mut self, id: u64, price: u32, volume: u32, side: OrderSide) -> (r: Result<
        (),
        BookError,
    >)
        requires
            old(self).wf(),
            id + 1 <= usize::MAX,
        ensures
            final(self).wf(),
            (match r {
                Ok(()) => {
                    &&& model::add_error(old(self)@, id, price, volume, side) is None
                    &&& exists|h: Handle|
                        model::add_handle_ok(old(self)@, price, side, h) && final(self)@
                            == #[trigger] model::model_add(old(self)@, id, price, volume, side, h)
                },
                Err(e) => {
                    &&& model::add_error(old(self)@, id, price, volume, side) == Some(e)
                    &&& *final(self) == *old(self)
                },
            }),
    {
        let ghost v = old(self)@;
        match self.order_map.get(id) {
            Some(e) => if e.1 > 0 {
                return Err(BookError::DuplicateOrder);
            },
            None => {},
        }
        if volume == 0 {
            return Err(BookError::ZeroVolume);
        }
        let (found, idx) = if side == OrderSide::Sell {
            ladder::find_slot(&self.asks, price)
        } else {
            ladder::find_slot(&self.bids, price)
        };
        if found {
            let hh = if side == OrderSide::Sell {
                self.asks[idx].1
            } else {
                self.bids[idx].1
            };
            let lvl = match self.price_levels.get(hh) {
                Some(l) => l,
                None => {
                    proof {
                        assert(false);
                    }
                    return Err(BookError::UnknownOrder);
                },
            };
            if (lvl.volume as u64) + (volume as u64) > (u32::MAX as u64) {
                return Err(BookError::VolumeOverflow);
            }
            proof {
                model::lemma_add_depth_fits(v, id, hh);
            }
            let lvl2 = PriceLevel {
                price: lvl.price,
                side: lvl.side,
                volume: lvl.volume + volume,
                depth: lvl.depth + 1,
            };
            self.price_levels.set(hh, lvl2);
            self.order_map.put(id, (hh, volume));
            proof {
                let h0 = Handle { idx: 0, ver: 0 };
                model::lemma_inv_add(v, id, price, volume, side, h0);
                assert(self@ =~= model::model_add(v, id, price, volume, side, h0));
            }
            Ok(())
        } else {
            let lvl_new = PriceLevel { price, side, volume, depth: 1 };
            let h = self.price_levels.insert(lvl_new);
            if side == OrderSide::Sell {
                self.asks.insert(idx, (price, h));
            } else {
                self.bids.insert(idx, (price, h));
            }
            self.order_map.put(id, (h, volume));
            proof {
                model::lemma_inv_add(v, id, price, volume, side, h);
                assert(self@ =~= model::model_add(v, id, price, volume, side, h));
            }
            Ok(())
        }
    }

    /// Applies an execution: the residual and the level's volume drop by
    /// `volume`; a filled order dies; an emptied level collapses.
    pub fn execute_order(&mut self, order_id: u64, volume: u32) -> (r: Result<(), BookError>)
        requires
            old(self).wf(),
        ensures
            final(self).wf(),
            (match r {
                Ok(()) => {
                    &&& model::execute_error(old(self)@, order_id, volume) is None
                    &&& final(self)@ == model::model_execute(old(self)@, order_id, volume)
                },
                Err(e) => {
                    &&& model::execute_error(old(self)@, order_id, volume) == Some(e)
                    &&& *final(self) == *old(self)
                },
            }),
    {
        let ghost v = old(self)@;
        let e = match self.order_map.get(order_id) {
            Some(e) => e,
            None => {
                return Err(BookError::UnknownOrder);
            },
        };
        let h = e.0;
        let res = e.1;
        if res == 0 {
            return Err(BookError::UnknownOrder);
        }
        if volume > res {
            return Err(BookError::VolumeExceedsResidual);
        }
        let lvl = match self.price_levels.get(h) {
            Some(l) => l,
            None => {
                proof {
                    assert(false);
                }
                return Err(BookError::UnknownOrder);
            },
        };
        proof {
            ordermap::lemma_entry_bounds(v.orders, order_id as int);
            assert(lvl.depth >= 1);
        }
        let res2 = res - volume;
        let vol2 = lvl.volume - volume;
        let depth2 = if res2 == 0 {
            lvl.depth - 1
        } else {
            lvl.depth
        };
        self.order_map.reduce_volume(order_id, volume);
        if vol2 == 0 && depth2 == 0 {
            proof {
                assert(ladder::in_ladder(model::side_ladder(v, lvl.side), h));
                model::lemma_handle_unique(
                    model::side_ladder(v, lvl.side),
                    v.levels,
                    lvl.side,
                );
            }
            if lvl.side == OrderSide::Sell {
                ladder::remove_entry(&mut self.asks, h);
            } else {
                ladder::remove_entry(&mut self.bids, h);
            }
            self.price_levels.remove(h);
            proof {
                model::lemma_inv_execute(v, order_id, volume);
                assert(self@ =~= model::model_execute(v, order_id, volume));
            }
            Ok(())
        } else {
            self.price_levels.set(
                h,
                PriceLevel { price: lvl.price, side: lvl.side, volume: vol2, depth: depth2 },
            );
            proof {
                model::lemma_inv_execute(v, order_id, volume);
                assert(self@ =~= model::model_execute(v, order_id, volume));
            }
            Ok(())
        }
    }

    /// Applies a cancellation.  For the book's state this is the same
    /// transition as an execution of the same volume.
    pub fn cancel_order(&mut self, order_id: u64, volume: u32) -> (r: Result<(), BookError>)
        requires
            old(self).wf(),
        ensures
            final(self).wf(),
            (match r {
                Ok(()) => {
                    &&& model::execute_error(old(self)@, order_id, volume) is None
                    &&& final(self)@ == model::model_execute(old(self)@, order_id, volume)
                },
                Err(e) => {
                    &&& model::execute_error(old(self)@, order_id, volume) == Some(e)
                    &&& *final(self) == *old(self)
                },
            }),
    {
        self.execute_order(order_id, volume)
    }

    /// Removes a live order outright: its whole residual leaves its
    /// level, and an emptied level collapses.
    pub fn delete_order(&mut self, order_id: u64) -> (r: Result<(), BookError>)
        requires
            old(self).wf(),
        ensures
            final(self).wf(),
            (match r {
                Ok(()) => {
                    &&& ordermap::live_at(old(self)@.orders, order_id as int)
                    &&& final(self)@ == model::model_delete(old(self)@, order_id)
                },
                Err(e) => {
                    &&& e == BookError::UnknownOrder
                    &&& !ordermap::live_at(old(self)@.orders, order_id as int)
                    &&& *final(self) == *old(self)
                },
            }),
    {
        let res = match self.order_map.get(order_id) {
            Some(e) => e.1,
            None => {
                return Err(BookError::UnknownOrder);
            },
        };
        if res == 0 {
            return Err(BookError::UnknownOrder);
        }
        match self.execute_order(order_id, res) {
            Ok(()) => Ok(()),
            Err(_) => {
                proof {
                    assert(false);
                }
                Err(BookError::UnknownOrder)
            },
        }
    }

    /// Replaces a live order: deletes it and books the replacement on
    /// the same side at the given price and volume.  All checks run
    /// before anything changes, so an error leaves the book untouched.
    pub fn replace_order(
        &mut self,
        old_order_id: u64,
        new_order_id: u64,
        price: u32,
        volume: u32,
    ) -> (r: Result<(), BookError>)
        requires
            old(self).wf(),
            new_order_id + 1 <= usize::MAX,
        ensures
            final(self).wf(),
            (match r {
                Ok(()) => {
                    &&& model::replace_error(old(self)@, old_order_id, new_order_id, price, volume)
                        is None
                    &&& exists|h: Handle|
                        model::add_handle_ok(
                            model::model_delete(old(self)@, old_order_id),
                            price,
                            model::side_of(old(self)@, old_order_id),
                            h,
                        ) && final(self)@ == #[trigger] model::model_add(
                            model::model_delete(old(self)@, old_order_id),
                            new_order_id,
                            price,
                            volume,
                            model::side_of(old(self)@, old_order_id),
                            h,
                        )
                },
                Err(e) => {
                    &&& model::replace_error(old(self)@, old_order_id, new_order_id, price, volume)
                        == Some(e)
                    &&& *final(self) == *old(self)
                },
            }),
    {
        let ghost v = old(self)@;
        let e = match self.order_map.get(old_order_id) {
            Some(e) => e,
            None => {
                return Err(BookError::UnknownOrder);
            },
        };
        let h = e.0;
        let res = e.1;
        if res == 0 {
            return Err(BookError::UnknownOrder);
        }
        if volume == 0 {
            return Err(BookError::ZeroVolume);
        }
        if new_order_id != old_order_id {
            match self.order_map.get(new_order_id) {
                Some(e2) => if e2.1 > 0 {
                    return Err(BookError::DuplicateOrder);
                },
                None => {},
            }
        }
        let lvl = match self.price_levels.get(h) {
            Some(l) => l,
            None => {
                proof {
                    assert(false);
                }
                return Err(BookError::UnknownOrder);
            },
        };
        let side = lvl.side;
        proof {
            ordermap::lemma_entry_bounds(v.orders, old_order_id as int);
            model::lemma_add_fits_after_delete(v, old_order_id, price, volume);
        }
        let (found, idx) = if side == OrderSide::Sell {
            ladder::find_slot(&self.asks, price)
        } else {
            ladder::find_slot(&self.bids, price)
        };
        if found {
            let g = if side == OrderSide::Sell {
                self.asks[idx].1
            } else {
                self.bids[idx].1
            };
            if g == h {
                if lvl.depth > 1 {
                    let base = lvl.volume - res;
                    if (base as u64) + (volume as u64) > (u32::MAX as u64) {
                        return Err(BookError::VolumeOverflow);
                    }
                }
            } else {
                let gl = match self.price_levels.get(g) {
                    Some(x) => x,
                    None => {
                        proof {
                            assert(false);
                        }
                        return Err(BookError::UnknownOrder);
                    },
                };
                if (gl.volume as u64) + (volume as u64) > (u32::MAX as u64) {
                    return Err(BookError::VolumeOverflow);
                }
            }
        }
        let ghost v1 = model::model_delete(v, old_order_id);
        proof {
            assert(model::replace_error(v, old_order_id, new_order_id, price, volume) is None);
            assert(v1.orders == v.orders.update(old_order_id as int, (h, 0u32)));
        }
        match self.delete_order(old_order_id) {
            Ok(()) => {},
            Err(_) => {
                proof {
                    assert(false);
                }
                return Err(BookError::UnknownOrder);
            },
        }
        match self.add_order(new_order_id, price, volume, side) {
            Ok(()) => {},
            Err(_) => {
                proof {
                    assert(false);
                }
                return Err(BookError::UnknownOrder);
            },
        }
        Ok(())
    }
}

} // verus!
