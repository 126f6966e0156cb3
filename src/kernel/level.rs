//! A price level: the FIFO queue of resting orders at one price, with its
//! cached aggregates.
use vstd::prelude::*;
use crate::kernel::{order_wf, remaining, volume, RestingOrder};

verus! {

/// Largest open quantity of one order, plus one.
pub open spec fn order_cap() -> int {
    0x8000_0000_0000_0000
}

pub proof fn lemma_volume_push(s: Seq<RestingOrder>, o: RestingOrder)
    ensures
        volume(s.push(o)) == volume(s) + remaining(o),
    decreases s.len(),
{
    if s.len() > 0 {
        assert(s.push(o).drop_first() =~= s.drop_first().push(o));
        assert(s.push(o)[0] == s[0]);
        lemma_volume_push(s.drop_first(), o);
    } else {
        assert(s.push(o).drop_first() =~= Seq::<RestingOrder>::empty());
        assert(volume(Seq::<RestingOrder>::empty()) == 0);
    }
}

pub proof fn lemma_volume_remove(s: Seq<RestingOrder>, j: int)
    requires
        0 <= j < s.len(),
    ensures
        volume(s.remove(j)) == volume(s) - remaining(s[j]),
    decreases s.len(),
{
    if j > 0 {
        assert(s.remove(j).drop_first() =~= s.drop_first().remove(j - 1));
        lemma_volume_remove(s.drop_first(), j - 1);
    } else {
        assert(s.remove(0) =~= s.drop_first());
    }
}

pub proof fn lemma_volume_update_head(s: Seq<RestingOrder>, o: RestingOrder)
    requires
        s.len() > 0,
    ensures
        volume(s.update(0, o)) == volume(s) - remaining(s[0]) + remaining(o),
{
    assert(s.update(0, o).drop_first() =~= s.drop_first());
}

pub proof fn lemma_volume_bounds(s: Seq<RestingOrder>)
    requires
        forall|j: int| 0 <= j < s.len() ==> order_wf(#[trigger] s[j]),
    ensures
        0 <= volume(s) <= s.len() * order_cap(),
        s.len() > 0 ==> volume(s) > 0,
    decreases s.len(),
{
    if s.len() > 0 {
        lemma_volume_bounds(s.drop_first());
    }
}

/// All resting orders at one exact price on one side, oldest first.
pub struct Bucket {
    pub price: i64,
    pub orders: Vec<RestingOrder>,
    /// Sum of the open quantities of `orders`.
    pub total_volume: u128,
    /// Number of orders in the queue.
    pub order_number: usize,
}

impl Bucket {
    /// The queue is well formed: aggregates match, every order is open and
    /// priced at the level, and arrival order is kept.
    pub open spec fn inv(&self) -> bool {
        &&& self.total_volume == volume(self.orders@)
        &&& self.order_number == self.orders@.len()
        &&& forall|j: int|
            0 <= j < self.orders@.len() ==> order_wf(#[trigger] self.orders@[j])
                && self.orders@[j].price == self.price
        &&& forall|j: int, k: int|
            0 <= j < k < self.orders@.len() ==> (#[trigger] self.orders@[j]).sequence
                < (#[trigger] self.orders@[k]).sequence
    }

    /// A level as it stands in a ladder: well formed and not empty.
    pub open spec fn wf(&self) -> bool {
        self.inv() && self.orders@.len() > 0
    }

    /// A level holding the single order `o`.
    pub fn new(o: RestingOrder) -> (r: Bucket)
        requires
            order_wf(o),
        ensures
            r.wf(),
            r.price == o.price,
            r.orders@ == seq![o],
    {
        let mut orders: Vec<RestingOrder> = Vec::new();
        orders.push(o);
        proof {
            assert(orders@.drop_first() =~= Seq::<RestingOrder>::empty());
            assert(volume(Seq::<RestingOrder>::empty()) == 0);
        }
        Bucket { price: o.price, orders, total_volume: (o.size - o.filled) as u128, order_number: 1 }
    }

    /// Appends `o` at the tail of the queue.
    pub fn enqueue(&mut self, o: RestingOrder)
        requires
            old(self).inv(),
            order_wf(o),
            o.price == old(self).price,
            forall|j: int|
                0 <= j < old(self).orders@.len() ==> (#[trigger] old(self).orders@[j]).sequence
                    < o.sequence,
        ensures
            final(self).inv(),
            final(self).price == old(self).price,
            final(self).orders@ == old(self).orders@.push(o),
    {
        proof {
            lemma_volume_bounds(self.orders@);
            lemma_volume_push(self.orders@, o);
        }
        self.orders.push(o);
        self.total_volume = self.total_volume + (o.size - o.filled) as u128;
        self.order_number = self.orders.len();
    }

    /// The oldest resting order.
    pub fn peek_head(&self) -> (r: RestingOrder)
        requires
            self.wf(),
        ensures
            r == self.orders@[0],
    {
        self.orders[0]
    }

    /// Fills `qty` of the oldest order. An order that becomes complete
    /// leaves the queue; otherwise it stays at the head.
    pub fn apply_fill(&mut self, qty: i64) -> (r: RestingOrder)
        requires
            old(self).wf(),
            0 < qty <= remaining(old(self).orders@[0]),
        ensures
            final(self).inv(),
            final(self).price == old(self).price,
            r == (RestingOrder { filled: (old(self).orders@[0].filled + qty) as i64, ..old(self).orders@[0] }),
            r.filled == r.size ==> final(self).orders@ == old(self).orders@.drop_first(),
            r.filled < r.size ==> final(self).orders@ == old(self).orders@.update(0, r),
            volume(final(self).orders@) == volume(old(self).orders@) - qty,
    {
        proof {
            lemma_volume_bounds(self.orders@.drop_first());
        }
        let head = self.orders.remove(0);
        let filled = RestingOrder { filled: head.filled + qty, ..head };
        proof {
            lemma_volume_update_head(old(self).orders@, filled);
            assert(old(self).orders@.remove(0) =~= old(self).orders@.drop_first());
        }
        if filled.filled < filled.size {
            self.orders.insert(0, filled);
            proof {
                assert(self.orders@ =~= old(self).orders@.update(0, filled));
                assert(forall|j: int| 0 < j < self.orders@.len() ==> self.orders@[j] == old(self).orders@[j]);
            }
        } else {
            proof {
                assert(forall|j: int| 0 <= j < self.orders@.len() ==> self.orders@[j] == old(self).orders@[j + 1]);
            }
        }
        self.total_volume = self.total_volume - qty as u128;
        self.order_number = self.orders.len();
        filled
    }

    /// Takes the order at position `j` out of the queue.
    pub fn remove(&mut self, j: usize) -> (r: RestingOrder)
        requires
            old(self).inv(),
            j < old(self).orders@.len(),
        ensures
            final(self).inv(),
            final(self).price == old(self).price,
            r == old(self).orders@[j as int],
            final(self).orders@ == old(self).orders@.remove(j as int),
    {
        proof {
            lemma_volume_remove(self.orders@, j as int);
            lemma_volume_bounds(self.orders@);
            lemma_volume_bounds(self.orders@.remove(j as int));
        }
        let o = self.orders.remove(j);
        proof {
            assert(forall|k: int| 0 <= k < j ==> self.orders@[k] == old(self).orders@[k]);
            assert(forall|k: int| j <= k < self.orders@.len() ==> self.orders@[k] == old(self).orders@[k + 1]);
        }
        self.total_volume = self.total_volume - (o.size - o.filled) as u128;
        self.order_number = self.orders.len();
        o
    }

    pub fn is_empty(&self) -> (r: bool)
        requires
            self.inv(),
        ensures
            r == (self.orders@.len() == 0),
    {
        self.order_number == 0
    }
}

} // verus!
