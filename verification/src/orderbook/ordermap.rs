//! Dense mapping from a 64-bit order id to the order's price-level handle
//! and residual volume, together with the aggregate spec functions (volume
//! sum, order count) that the book's invariant is stated over.
//!
//! An id is live exactly when its recorded residual volume is positive; a
//! zero residual is the dead sentinel, so a stale lookup can never be
//! mistaken for a live order.

use vstd::prelude::*;

use crate::orderbook::Handle;

verus! {

/// The sentinel stored for an id that has never carried a live order, or
/// whose order has died.
pub open spec fn dead_entry() -> (Handle, u32) {
    (Handle { idx: 0, ver: 0 }, 0u32)
}

/// Whether index `i` of the order table holds a live order.
pub open spec fn live_at(orders: Seq<(Handle, u32)>, i: int) -> bool {
    0 <= i < orders.len() && orders[i].1 > 0
}

/// The residual volume that entry `e` contributes to the level `h`.
pub open spec fn vol_contrib(e: (Handle, u32), h: Handle) -> int {
    if e.1 > 0 && e.0 == h {
        e.1 as int
    } else {
        0
    }
}

/// The order count that entry `e` contributes to the level `h`.
pub open spec fn cnt_contrib(e: (Handle, u32), h: Handle) -> int {
    if e.1 > 0 && e.0 == h {
        1
    } else {
        0
    }
}

/// The count that entry `e` contributes to the number of live orders.
pub open spec fn live_contrib(e: (Handle, u32)) -> int {
    if e.1 > 0 {
        1
    } else {
        0
    }
}

/// Sum of the residual volumes of the live orders resting at level `h`.
pub open spec fn sum_vol(orders: Seq<(Handle, u32)>, h: Handle) -> int
    decreases orders.len(),
{
    if orders.len() == 0 {
        0
    } else {
        sum_vol(orders.drop_last(), h) + vol_contrib(orders.last(), h)
    }
}

/// Number of live orders resting at level `h`.
pub open spec fn count_at(orders: Seq<(Handle, u32)>, h: Handle) -> int
    decreases orders.len(),
{
    if orders.len() == 0 {
        0
    } else {
        count_at(orders.drop_last(), h) + cnt_contrib(orders.last(), h)
    }
}

/// Number of live orders in the whole table.
pub open spec fn total_live(orders: Seq<(Handle, u32)>) -> int
    decreases orders.len(),
{
    if orders.len() == 0 {
        0
    } else {
        total_live(orders.drop_last()) + live_contrib(orders.last())
    }
}

/// A table of `n` dead entries.
pub open spec fn dead_pad(n: int) -> Seq<(Handle, u32)> {
    Seq::new(n as nat, |j: int| dead_entry())
}

/// The order table grown to hold at least `n` entries, new ones dead.
pub open spec fn grow(orders: Seq<(Handle, u32)>, n: int) -> Seq<(Handle, u32)> {
    if orders.len() >= n {
        orders
    } else {
        orders + dead_pad(n - orders.len())
    }
}

/// How a point update moves every aggregate: the old entry's contribution
/// leaves, the new entry's contribution arrives.
pub proof fn lemma_aggregates_update(s: Seq<(Handle, u32)>, i: int, e: (Handle, u32))
    requires
        0 <= i < s.len(),
    ensures
        forall|h: Handle| #[trigger] sum_vol(s.update(i, e), h)
            == sum_vol(s, h) - vol_contrib(s[i], h) + vol_contrib(e, h),
        forall|h: Handle| #[trigger] count_at(s.update(i, e), h)
            == count_at(s, h) - cnt_contrib(s[i], h) + cnt_contrib(e, h),
        total_live(s.update(i, e)) == total_live(s) - live_contrib(s[i]) + live_contrib(e),
    decreases s.len(),
{
    let s2 = s.update(i, e);
    if i == s.len() - 1 {
        assert(s2.drop_last() =~= s.drop_last());
        assert(s2.last() == e);
    } else {
        assert(s2.drop_last() =~= s.drop_last().update(i, e));
        lemma_aggregates_update(s.drop_last(), i, e);
        assert(s2.last() == s.last());
        assert(s.drop_last()[i] == s[i]);
    }
    assert forall|h: Handle| #[trigger] sum_vol(s2, h)
        == sum_vol(s, h) - vol_contrib(s[i], h) + vol_contrib(e, h) by {
        assert(sum_vol(s2, h) == sum_vol(s2.drop_last(), h) + vol_contrib(s2.last(), h));
        assert(sum_vol(s, h) == sum_vol(s.drop_last(), h) + vol_contrib(s.last(), h));
    }
    assert forall|h: Handle| #[trigger] count_at(s2, h)
        == count_at(s, h) - cnt_contrib(s[i], h) + cnt_contrib(e, h) by {
        assert(count_at(s2, h) == count_at(s2.drop_last(), h) + cnt_contrib(s2.last(), h));
        assert(count_at(s, h) == count_at(s.drop_last(), h) + cnt_contrib(s.last(), h));
    }
    assert(total_live(s2) == total_live(s2.drop_last()) + live_contrib(s2.last()));
    assert(total_live(s) == total_live(s.drop_last()) + live_contrib(s.last()));
}

/// Appending dead entries changes no aggregate.
pub proof fn lemma_aggregates_pad(s: Seq<(Handle, u32)>, k: int)
    requires
        k >= 0,
    ensures
        forall|h: Handle| #[trigger] sum_vol(s + dead_pad(k), h) == sum_vol(s, h),
        forall|h: Handle| #[trigger] count_at(s + dead_pad(k), h) == count_at(s, h),
        total_live(s + dead_pad(k)) == total_live(s),
    decreases k,
{
    if k == 0 {
        assert(s + dead_pad(0) =~= s);
    } else {
        let t = s + dead_pad(k);
        assert(t.drop_last() =~= s + dead_pad(k - 1));
        assert(t.last() == dead_entry());
        lemma_aggregates_pad(s, k - 1);
        assert forall|h: Handle| #[trigger] sum_vol(t, h) == sum_vol(s, h) by {
            assert(sum_vol(t, h) == sum_vol(t.drop_last(), h) + vol_contrib(t.last(), h));
        }
        assert forall|h: Handle| #[trigger] count_at(t, h) == count_at(s, h) by {
            assert(count_at(t, h) == count_at(t.drop_last(), h) + cnt_contrib(t.last(), h));
        }
        assert(total_live(t) == total_live(t.drop_last()) + live_contrib(t.last()));
    }
}

/// Growing the table preserves every entry, pads with dead entries, and
/// changes no aggregate.
pub proof fn lemma_aggregates_grow(s: Seq<(Handle, u32)>, n: int)
    ensures
        grow(s, n).len() == if s.len() >= n { s.len() as int } else { n },
        forall|j: int| 0 <= j < s.len() ==> #[trigger] grow(s, n)[j] == s[j],
        forall|j: int| s.len() <= j < grow(s, n).len() ==> #[trigger] grow(s, n)[j] == dead_entry(),
        forall|h: Handle| #[trigger] sum_vol(grow(s, n), h) == sum_vol(s, h),
        forall|h: Handle| #[trigger] count_at(grow(s, n), h) == count_at(s, h),
        total_live(grow(s, n)) == total_live(s),
{
    if s.len() < n {
        lemma_aggregates_pad(s, n - s.len());
    }
}

/// Every aggregate is non-negative; a level's order count never exceeds
/// the number of live orders, which never exceeds the table's size.
pub proof fn lemma_bounds(s: Seq<(Handle, u32)>)
    ensures
        forall|h: Handle| 0 <= #[trigger] count_at(s, h) <= total_live(s),
        forall|h: Handle| 0 <= #[trigger] sum_vol(s, h),
        0 <= total_live(s) <= s.len(),
    decreases s.len(),
{
    if s.len() > 0 {
        lemma_bounds(s.drop_last());
        assert forall|h: Handle| 0 <= #[trigger] count_at(s, h) <= total_live(s) by {
            assert(count_at(s, h) == count_at(s.drop_last(), h) + cnt_contrib(s.last(), h));
            assert(total_live(s) == total_live(s.drop_last()) + live_contrib(s.last()));
        }
        assert forall|h: Handle| 0 <= #[trigger] sum_vol(s, h) by {
            assert(sum_vol(s, h) == sum_vol(s.drop_last(), h) + vol_contrib(s.last(), h));
        }
        assert(total_live(s) == total_live(s.drop_last()) + live_contrib(s.last()));
    }
}

/// A table with a dead entry holds fewer live orders than entries.
pub proof fn lemma_total_dead(s: Seq<(Handle, u32)>, i: int)
    requires
        0 <= i < s.len(),
        s[i].1 == 0,
    ensures
        total_live(s) <= s.len() - 1,
    decreases s.len(),
{
    if i == s.len() - 1 {
        lemma_bounds(s.drop_last());
    } else {
        lemma_total_dead(s.drop_last(), i);
        assert(s.drop_last()[i] == s[i]);
    }
}

/// A live order's residual is part of its level's volume sum, and the
/// order itself is part of its level's count.
pub proof fn lemma_entry_bounds(s: Seq<(Handle, u32)>, i: int)
    requires
        0 <= i < s.len(),
        s[i].1 > 0,
    ensures
        s[i].1 as int <= sum_vol(s, s[i].0),
        count_at(s, s[i].0) >= 1,
    decreases s.len(),
{
    if i == s.len() - 1 {
        lemma_bounds(s.drop_last());
        assert(sum_vol(s, s[i].0) == sum_vol(s.drop_last(), s[i].0) + vol_contrib(
            s.last(),
            s[i].0,
        ));
        assert(count_at(s, s[i].0) == count_at(s.drop_last(), s[i].0) + cnt_contrib(
            s.last(),
            s[i].0,
        ));
    } else {
        lemma_entry_bounds(s.drop_last(), i);
        assert(s.drop_last()[i] == s[i]);
        assert(sum_vol(s, s[i].0) == sum_vol(s.drop_last(), s[i].0) + vol_contrib(
            s.last(),
            s[i].0,
        ));
        assert(count_at(s, s[i].0) == count_at(s.drop_last(), s[i].0) + cnt_contrib(
            s.last(),
            s[i].0,
        ));
        assert(vol_contrib(s.last(), s[i].0) >= 0);
    }
}

/// A level that counts no orders also sums no volume, and no live order
/// points to it.
pub proof fn lemma_count_zero(s: Seq<(Handle, u32)>, h: Handle)
    requires
        count_at(s, h) == 0,
    ensures
        sum_vol(s, h) == 0,
        forall|i: int| 0 <= i < s.len() && (#[trigger] s[i]).1 > 0 ==> s[i].0 != h,
    decreases s.len(),
{
    if s.len() > 0 {
        lemma_bounds(s.drop_last());
        assert(cnt_contrib(s.last(), h) >= 0);
        lemma_count_zero(s.drop_last(), h);
        assert(forall|i: int|
            0 <= i < s.len() - 1 ==> #[trigger] s[i] == s.drop_last()[i]);
    }
}

/// A level that no live order points to counts no orders and sums no
/// volume.
pub proof fn lemma_unpointed_zero(s: Seq<(Handle, u32)>, h: Handle)
    requires
        forall|i: int| 0 <= i < s.len() && (#[trigger] s[i]).1 > 0 ==> s[i].0 != h,
    ensures
        count_at(s, h) == 0,
        sum_vol(s, h) == 0,
    decreases s.len(),
{
    if s.len() > 0 {
        assert(forall|i: int|
            0 <= i < s.len() - 1 ==> #[trigger] s.drop_last()[i] == s[i]);
        lemma_unpointed_zero(s.drop_last(), h);
    }
}

/// A level with exactly one live order sums exactly that order's
/// residual.
pub proof fn lemma_single_order(s: Seq<(Handle, u32)>, id: int, h: Handle)
    requires
        0 <= id < s.len(),
        s[id].1 > 0,
        s[id].0 == h,
        count_at(s, h) == 1,
    ensures
        sum_vol(s, h) == s[id].1 as int,
    decreases s.len(),
{
    assert(count_at(s, h) == count_at(s.drop_last(), h) + cnt_contrib(s.last(), h));
    assert(sum_vol(s, h) == sum_vol(s.drop_last(), h) + vol_contrib(s.last(), h));
    if id == s.len() - 1 {
        assert(cnt_contrib(s.last(), h) == 1);
        lemma_count_zero(s.drop_last(), h);
    } else {
        assert(s.drop_last()[id] == s[id]);
        lemma_entry_bounds(s.drop_last(), id);
        assert(cnt_contrib(s.last(), h) >= 0);
        assert(count_at(s.drop_last(), h) == 1);
        lemma_single_order(s.drop_last(), id, h);
        assert(cnt_contrib(s.last(), h) == 0);
        assert(vol_contrib(s.last(), h) == 0);
    }
}

/// Dense index from order id to `(price-level handle, residual volume)`.
pub struct OrderMap {
    orders: Vec<(Handle, u32)>,
}

impl View for OrderMap {
    type V = Seq<(Handle, u32)>;

    closed spec fn view(&self) -> Seq<(Handle, u32)> {
        self.orders@
    }
}

impl OrderMap {
    /// A table of `size` dead entries.
    pub fn new(size: usize) -> (r: Self)
        ensures
            r@ == dead_pad(size as int),
    {
        let mut orders: Vec<(Handle, u32)> = Vec::with_capacity(size);
        while orders.len() < size
            invariant
                orders@.len() <= size,
                orders@ == dead_pad(orders@.len() as int),
            decreases size - orders@.len(),
        {
            orders.push((Handle { idx: 0, ver: 0 }, 0u32));
            proof {
                assert(orders@ =~= dead_pad(orders@.len() as int));
            }
        }
        OrderMap { orders }
    }

    /// Grows the table so that `id` is in range, new entries dead.
    pub fn reserve(&mut self, id: u64)
        requires
            id + 1 <= usize::MAX,
        ensures
            final(self)@ == grow(old(self)@, id as int + 1),
    {
        let target: usize = (id as usize) + 1;
        if self.orders.len() >= target {
            return ;
        }
        while self.orders.len() < target
            invariant
                old(self)@.len() < target,
                old(self)@.len() <= self.orders@.len() <= target,
                self.orders@ == old(self)@ + dead_pad(
                    self.orders@.len() - old(self)@.len(),
                ),
            decreases target - self.orders@.len(),
        {
            self.orders.push((Handle { idx: 0, ver: 0 }, 0u32));
            proof {
                assert(self.orders@ =~= old(self)@ + dead_pad(
                    self.orders@.len() - old(self)@.len(),
                ));
            }
        }
    }

    /// The recorded `(handle, residual)` for `id`, if `id` is in range.
    /// A residual of zero means the id carries no live order.
    pub fn get(&self, id: u64) -> (r: Option<(Handle, u32)>)
        ensures
            r == if (id as int) < self@.len() {
                Some(self@[id as int])
            } else {
                None::<(Handle, u32)>
            },
    {
        let n = self.orders.len();
        if id < n as u64 {
            Some(self.orders[id as usize])
        } else {
            None
        }
    }

    /// Records the mapping for `id`, growing the table if needed.
    pub fn put(&mut self, id: u64, data: (Handle, u32))
        requires
            id + 1 <= usize::MAX,
        ensures
            final(self)@ == grow(old(self)@, id as int + 1).update(id as int, data),
    {
        self.reserve(id);
        self.orders[id as usize] = data;
    }

    /// Subtracts `volume` from the residual recorded for `id`.
    pub fn reduce_volume(&mut self, id: u64, volume: u32)
        requires
            (id as int) < old(self)@.len(),
            volume <= old(self)@[id as int].1,
        ensures
            final(self)@ == old(self)@.update(
                id as int,
                (old(self)@[id as int].0, (old(self)@[id as int].1 - volume) as u32),
            ),
    {
        let n = self.orders.len();
        let e = self.orders[id as usize];
        self.orders[id as usize] = (e.0, e.1 - volume);
    }

    /// Counts the live orders in the table.
    pub fn live_count(&self) -> (n: usize)
        ensures
            n as int == total_live(self@),
    {
        let len = self.orders.len();
        let mut i: usize = 0;
        let mut acc: usize = 0;
        while i < len
            invariant
                len == self@.len(),
                i <= len,
                acc as int == total_live(self@.subrange(0, i as int)),
            decreases len - i,
        {
            proof {
                lemma_bounds(self@.subrange(0, i as int));
                assert(self@.subrange(0, i as int + 1).drop_last() =~= self@.subrange(
                    0,
                    i as int,
                ));
                assert(self@.subrange(0, i as int + 1).last() == self@[i as int]);
            }
            if self.orders[i].1 > 0 {
                acc = acc + 1;
            }
            i = i + 1;
        }
        proof {
            assert(self@.subrange(0, self@.len() as int) =~= self@);
        }
        acc
    }
}

} // verus!
