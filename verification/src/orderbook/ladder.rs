//! One side of the book: a price-ascending sequence of `(price, handle)`
//! entries, one per live price level of that side.  Scans run from the
//! tail inward, where real feeds concentrate their activity.

use vstd::prelude::*;

use crate::orderbook::Handle;

verus! {

/// Strictly ascending prices: no duplicates, best bid at the tail.
pub open spec fn asc(l: Seq<(u32, Handle)>) -> bool {
    forall|i: int, j: int| 0 <= i < j < l.len() ==> (#[trigger] l[i]).0 < (#[trigger] l[j]).0
}

/// Whether some entry rests at `price`.
pub open spec fn has_price(l: Seq<(u32, Handle)>, price: u32) -> bool {
    exists|i: int| 0 <= i < l.len() && (#[trigger] l[i]).0 == price
}

/// The index of the entry at `price` (unique when the ladder is sorted).
pub open spec fn price_idx(l: Seq<(u32, Handle)>, price: u32) -> int {
    choose|i: int| 0 <= i < l.len() && (#[trigger] l[i]).0 == price
}

/// Whether some entry carries the handle `h`.
pub open spec fn in_ladder(l: Seq<(u32, Handle)>, h: Handle) -> bool {
    exists|i: int| 0 <= i < l.len() && (#[trigger] l[i]).1 == h
}

/// The index of the entry carrying `h` (unique under the book invariant).
pub open spec fn handle_idx(l: Seq<(u32, Handle)>, h: Handle) -> int {
    choose|i: int| 0 <= i < l.len() && (#[trigger] l[i]).1 == h
}

/// Where a new entry at `price` belongs: the number of entries whose
/// price is below it.
pub open spec fn insert_pos(l: Seq<(u32, Handle)>, price: u32) -> int
    decreases l.len(),
{
    if l.len() == 0 {
        0
    } else if l.first().0 < price {
        1 + insert_pos(l.drop_first(), price)
    } else {
        0
    }
}

/// On a sorted ladder the insert position splits the entries into those
/// priced strictly below and those priced at or above.
pub proof fn lemma_insert_pos_props(l: Seq<(u32, Handle)>, price: u32)
    requires
        asc(l),
    ensures
        0 <= insert_pos(l, price) <= l.len(),
        forall|j: int| 0 <= j < insert_pos(l, price) ==> (#[trigger] l[j]).0 < price,
        forall|j: int|
            insert_pos(l, price) <= j < l.len() ==> (#[trigger] l[j]).0 >= price,
        !has_price(l, price) ==> forall|j: int|
            insert_pos(l, price) <= j < l.len() ==> (#[trigger] l[j]).0 > price,
    decreases l.len(),
{
    if l.len() == 0 {
    } else if l.first().0 < price {
        let t = l.drop_first();
        let p = insert_pos(l, price);
        assert(forall|i: int| 0 <= i < t.len() ==> #[trigger] t[i] == l[i + 1]);
        assert(asc(t));
        lemma_insert_pos_props(t, price);
        assert(p == 1 + insert_pos(t, price));
        assert forall|j: int| 0 <= j < p implies (#[trigger] l[j]).0 < price by {
            if j >= 1 {
                assert(l[j] == t[j - 1]);
            }
        }
        assert forall|j: int| p <= j < l.len() implies (#[trigger] l[j]).0 >= price by {
            assert(l[j] == t[j - 1]);
        }
        if !has_price(l, price) {
            assert(!has_price(t, price)) by {
                if has_price(t, price) {
                    let k = choose|k: int| 0 <= k < t.len() && (#[trigger] t[k]).0 == price;
                    assert(l[k + 1].0 == price);
                }
            }
            assert forall|j: int| p <= j < l.len() implies (#[trigger] l[j]).0 > price by {
                assert(l[j] == t[j - 1]);
            }
        }
    } else {
        assert(insert_pos(l, price) == 0);
        assert forall|j: int| 0 <= j < l.len() implies (#[trigger] l[j]).0 >= price by {
            if j > 0 {
                assert(l[0].0 < l[j].0);
            }
        }
        if !has_price(l, price) {
            assert forall|j: int| 0 <= j < l.len() implies (#[trigger] l[j]).0 > price by {
                assert(l[j].0 >= price);
                assert(l[j].0 != price);
            }
        }
    }
}

/// Any index whose strictly-smaller prefix and at-least-as-large suffix
/// split the ladder at `price` is the insert position.
pub proof fn lemma_insert_pos_unique(l: Seq<(u32, Handle)>, price: u32, k: int)
    requires
        asc(l),
        0 <= k <= l.len(),
        forall|j: int| 0 <= j < k ==> (#[trigger] l[j]).0 < price,
        forall|j: int| k <= j < l.len() ==> (#[trigger] l[j]).0 > price,
    ensures
        insert_pos(l, price) == k,
        !has_price(l, price),
{
    lemma_insert_pos_props(l, price);
    let p = insert_pos(l, price);
    if has_price(l, price) {
        let i = choose|i: int| 0 <= i < l.len() && (#[trigger] l[i]).0 == price;
        assert(false);
    }
    if p < k {
        assert(l[p].0 < price);
        assert(l[p].0 > price);
    }
    if p > k {
        assert(l[k].0 > price);
        assert(l[k].0 < price);
    }
}

/// On a sorted ladder the entry at a price is unique, so `price_idx`
/// names the index of any entry found at that price.
pub proof fn lemma_price_idx_unique(l: Seq<(u32, Handle)>, price: u32, k: int)
    requires
        asc(l),
        0 <= k < l.len(),
        l[k].0 == price,
    ensures
        has_price(l, price),
        price_idx(l, price) == k,
{
    assert(has_price(l, price));
    let i = price_idx(l, price);
    assert(0 <= i < l.len() && l[i].0 == price);
    if i < k {
        assert(l[i].0 < l[k].0);
    }
    if i > k {
        assert(l[k].0 < l[i].0);
    }
}

/// When only one entry carries `h`, `handle_idx` names the index of any
/// entry found to carry it.
pub proof fn lemma_handle_idx_unique(l: Seq<(u32, Handle)>, h: Handle, k: int)
    requires
        0 <= k < l.len(),
        l[k].1 == h,
        forall|i: int, j: int|
            0 <= i < l.len() && 0 <= j < l.len() && (#[trigger] l[i]).1 == h && (
            #[trigger] l[j]).1 == h ==> i == j,
    ensures
        in_ladder(l, h),
        handle_idx(l, h) == k,
{
    assert(in_ladder(l, h));
    let i = handle_idx(l, h);
    assert(0 <= i < l.len() && l[i].1 == h);
}

/// How `Seq::insert` rearranges indices.
pub proof fn lemma_seq_insert_index(l: Seq<(u32, Handle)>, k: int, e: (u32, Handle))
    requires
        0 <= k <= l.len(),
    ensures
        l.insert(k, e).len() == l.len() + 1,
        forall|j: int| 0 <= j < k ==> #[trigger] l.insert(k, e)[j] == l[j],
        l.insert(k, e)[k] == e,
        forall|j: int| k < j < l.len() + 1 ==> #[trigger] l.insert(k, e)[j] == l[j - 1],
{
}

/// How `Seq::remove` rearranges indices.
pub proof fn lemma_seq_remove_index(l: Seq<(u32, Handle)>, k: int)
    requires
        0 <= k < l.len(),
    ensures
        l.remove(k).len() == l.len() - 1,
        forall|j: int| 0 <= j < k ==> #[trigger] l.remove(k)[j] == l[j],
        forall|j: int| k <= j < l.len() - 1 ==> #[trigger] l.remove(k)[j] == l[j + 1],
{
}

/// Inserting at the split position keeps the ladder sorted.
pub proof fn lemma_insert_keeps_asc(l: Seq<(u32, Handle)>, k: int, e: (u32, Handle))
    requires
        asc(l),
        0 <= k <= l.len(),
        forall|j: int| 0 <= j < k ==> (#[trigger] l[j]).0 < e.0,
        forall|j: int| k <= j < l.len() ==> (#[trigger] l[j]).0 > e.0,
    ensures
        asc(l.insert(k, e)),
{
    lemma_seq_insert_index(l, k, e);
}

/// Removing an entry keeps the ladder sorted.
pub proof fn lemma_remove_keeps_asc(l: Seq<(u32, Handle)>, k: int)
    requires
        asc(l),
        0 <= k < l.len(),
    ensures
        asc(l.remove(k)),
{
    lemma_seq_remove_index(l, k);
}

/// Finds the entry at `price`, or the position where one would go.
/// Scans from the tail inward.
pub fn find_slot(l: &Vec<(u32, Handle)>, price: u32) -> (r: (bool, usize))
    requires
        asc(l@),
    ensures
        r.0 == has_price(l@, price),
        r.0 ==> r.1 < l@.len() && l@[r.1 as int].0 == price && r.1 as int == price_idx(
            l@,
            price,
        ),
        !r.0 ==> r.1 <= l@.len() && r.1 as int == insert_pos(l@, price),
    no_unwind
{
    let mut i: usize = l.len();
    while i > 0
        invariant
            i <= l@.len(),
            asc(l@),
            forall|j: int| i <= j < l@.len() ==> (#[trigger] l@[j]).0 > price,
        decreases i,
    {
        let p = l[i - 1].0;
        if p == price {
            proof {
                lemma_price_idx_unique(l@, price, i - 1);
            }
            return (true, i - 1);
        }
        if p < price {
            proof {
                assert forall|j: int| 0 <= j < i implies (#[trigger] l@[j]).0 < price by {
                    if j < i - 1 {
                        assert(l@[j].0 < l@[i - 1].0);
                    }
                }
                lemma_insert_pos_unique(l@, price, i as int);
            }
            return (false, i);
        }
        i = i - 1;
    }
    proof {
        lemma_insert_pos_unique(l@, price, 0);
    }
    (false, 0)
}

/// Removes the one entry carrying `h`.  Scans from the tail inward.
pub fn remove_entry(l: &mut Vec<(u32, Handle)>, h: Handle)
    requires
        in_ladder(old(l)@, h),
        forall|i: int, j: int|
            0 <= i < old(l)@.len() && 0 <= j < old(l)@.len() && (#[trigger] old(
                l,
            )@[i]).1 == h && (#[trigger] old(l)@[j]).1 == h ==> i == j,
    ensures
        0 <= handle_idx(old(l)@, h) < old(l)@.len(),
        old(l)@[handle_idx(old(l)@, h)].1 == h,
        final(l)@ == old(l)@.remove(handle_idx(old(l)@, h)),
{
    let mut i: usize = l.len();
    while i > 0
        invariant
            i <= l@.len(),
            l@ == old(l)@,
            in_ladder(l@, h),
            forall|j: int| i <= j < l@.len() ==> (#[trigger] l@[j]).1 != h,
            forall|a: int, b: int|
                0 <= a < l@.len() && 0 <= b < l@.len() && (#[trigger] l@[a]).1 == h && (
                #[trigger] l@[b]).1 == h ==> a == b,
        decreases i,
    {
        if l[i - 1].1 == h {
            proof {
                lemma_handle_idx_unique(l@, h, i - 1);
            }
            l.remove(i - 1);
            return ;
        }
        i = i - 1;
    }
    proof {
        let w = choose|i: int| 0 <= i < l@.len() && (#[trigger] l@[i]).1 == h;
        assert(false);
    }
}

} // verus!
