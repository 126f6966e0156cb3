//! The matching engine: an order book of two side ladders with price-time
//! priority matching.
use vstd::prelude::*;
use crate::kernel::ladder::{
    consumed_from, crossing_volume, flat, ladder_wf, lemma_crossing_volume_nonneg,
    has_id, ids_unique, lemma_consumed_facts, lemma_flat_sorted, lemma_flat_split,
    lemma_has_id_levels, lemma_insert_facts, lemma_ladder_tail, lemma_remove_facts,
    sequences_below,
};
use crate::kernel::level::{lemma_volume_bounds, order_cap, Bucket};
use crate::kernel::{
    better, crosses, opposite, order_wf, remaining, trade_precedes, traded, trades_in_priority,
    volume, MatchError, Order, OrderAction, OrderBook, OrderBookFactory, RestingOrder, TimeInForce,
    Trade,
};

verus! {

/// The trade `t` comes before any fill of the resting order `o`.
pub open spec fn precedes_order(side: OrderAction, t: Trade, o: RestingOrder) -> bool {
    better(side, t.price as int, o.price as int) || (t.price == o.price && t.maker_sequence
        < o.sequence)
}

/// The trades `t` took the queue `o` from its front down to `f`: trade `k`
/// is against `o[k]` at that order's price; every order that left the queue
/// gave one trade of its whole open quantity; the order now at the front is
/// either untouched or was partly filled by the last trade.
pub open spec fn fills_prefix(o: Seq<RestingOrder>, f: Seq<RestingOrder>, t: Seq<Trade>) -> bool {
    let d = o.len() - f.len();
    &&& consumed_from(f, o)
    &&& (t.len() == d && (f.len() > 0 ==> f[0] == o[d])) || (t.len() == d + 1 && f.len() > 0
        && f[0].filled == o[d].filled + t[d].quantity)
    &&& forall|k: int|
        0 <= k < t.len() ==> (#[trigger] t[k]).maker_order_id == o[k].order_id && t[k].price == o[k].price
            && t[k].maker_sequence == o[k].sequence
    &&& forall|k: int| 0 <= k < d ==> (#[trigger] t[k]).quantity == remaining(o[k])
}

/// `new` is the ladder `old` with `o` at the tail of the level at its
/// price, or, when `old` has no level at that price, in a new level of its
/// own; every other level is kept as it was.
pub open spec fn rested_at_tail(old: Seq<Bucket>, new: Seq<Bucket>, o: RestingOrder) -> bool {
    exists|i: int|
        0 <= i < new.len() && (#[trigger] new[i]).price == o.price && ({
            ||| (i < old.len() && old[i].price == o.price && new.len() == old.len() && new[i].orders@
                == old[i].orders@.push(o) && forall|k: int| 0 <= k < old.len() && k != i ==> new[k] == old[k])
            ||| (i <= old.len() && new[i].orders@ == seq![o] && new == old.insert(i, new[i]) && forall|k: int|
                0 <= k < old.len() ==> (#[trigger] old[k]).price != o.price)
        })
}

/// Whether a resting price `p` is marketable against a taker of `side`
/// with `limit`.
pub fn marketable(side: OrderAction, limit: Option<i64>, p: i64) -> (r: bool)
    ensures
        r == crosses(side, limit, p as int),
{
    match limit {
        None => true,
        Some(l) => match side {
            OrderAction::BID => p <= l,
            OrderAction::ASK => p >= l,
        },
    }
}

/// Walks the ladder `opp` from its best level, filling a taker of `side`
/// with limit `limit` for up to `qty`. Returns the trades and the quantity
/// filled.
fn match_against(
    opp: &mut Vec<Bucket>,
    side: OrderAction,
    limit: Option<i64>,
    qty: i64,
    taker_id: u64,
    taker_seq: u64,
) -> (res: (Vec<Trade>, i64))
    requires
        ladder_wf(opposite(side), old(opp)@),
        qty > 0,
    ensures
        ladder_wf(opposite(side), final(opp)@),
        res.1 == traded(res.0@),
        res.1 == if qty <= crossing_volume(old(opp)@, side, limit) {
            qty as int
        } else {
            crossing_volume(old(opp)@, side, limit)
        },
        crossing_volume(final(opp)@, side, limit) == crossing_volume(old(opp)@, side, limit) - res.1,
        res.1 < qty ==> final(opp)@.len() == 0 || !crosses(side, limit, final(opp)@[0].price as int),
        final(opp)@.len() > 0 ==> old(opp)@.len() > 0 && !better(
            opposite(side),
            final(opp)@[0].price as int,
            old(opp)@[0].price as int,
        ),
        fills_prefix(flat(old(opp)@), flat(final(opp)@), res.0@),
        trades_in_priority(opposite(side), res.0@),
        forall|k: int|
            0 <= k < res.0@.len() ==> (#[trigger] res.0@[k]).taker_order_id == taker_id
                && res.0@[k].taker_sequence == taker_seq && res.0@[k].quantity > 0 && crosses(
                side,
                limit,
                res.0@[k].price as int,
            ),
{
    let ghost oside = opposite(side);
    let ghost orig = opp@;
    let ghost cv0 = crossing_volume(orig, side, limit);
    let mut trades: Vec<Trade> = Vec::new();
    let mut filled: i64 = 0;
    proof {
        lemma_crossing_volume_nonneg(orig, side, limit);
        assert(traded(trades@) == 0);
        assert(consumed_from(flat(opp@), flat(orig)));
        assert(fills_prefix(flat(orig), flat(opp@), trades@));
    }
    while filled < qty && opp.len() > 0 && marketable(side, limit, opp[0].price)
        invariant
            oside == opposite(side),
            ladder_wf(oside, opp@),
            0 <= filled <= qty,
            filled == traded(trades@),
            crossing_volume(opp@, side, limit) == cv0 - filled,
            opp@.len() > 0 ==> orig.len() > 0 && !better(oside, opp@[0].price as int, orig[0].price as int),
            fills_prefix(flat(orig), flat(opp@), trades@),
            filled < qty ==> trades@.len() == flat(orig).len() - flat(opp@).len(),
            trades_in_priority(oside, trades@),
            filled < qty && trades@.len() > 0 ==> forall|k: int|
                0 <= k < flat(opp@).len() ==> precedes_order(oside, trades@.last(), #[trigger] flat(opp@)[k]),
            forall|k: int|
                0 <= k < trades@.len() ==> (#[trigger] trades@[k]).taker_order_id == taker_id
                    && trades@[k].taker_sequence == taker_seq && trades@[k].quantity > 0 && crosses(
                    side,
                    limit,
                    trades@[k].price as int,
                ),
        decreases qty - filled,
    {
        let ghost cur = opp@;
        proof {
            lemma_ladder_tail(oside, cur);
            lemma_flat_sorted(oside, cur);
            assert(cur[0].wf());
            assert(flat(cur) == cur[0].orders@ + flat(cur.drop_first()));
            assert(flat(cur)[0] == cur[0].orders@[0]);
        }
        let mut level = opp.remove(0);
        proof {
            assert(opp@ =~= cur.drop_first());
        }
        let head = level.peek_head();
        let open_qty = head.size - head.filled;
        let q = if qty - filled < open_qty { qty - filled } else { open_qty };
        let after = level.apply_fill(q);
        let t = Trade {
            maker_order_id: head.order_id,
            taker_order_id: taker_id,
            price: head.price,
            quantity: q,
            maker_sequence: head.sequence,
            taker_sequence: taker_seq,
        };
        let ghost old_trades = trades@;
        trades.push(t);
        filled = filled + q;
        proof {
            assert(trades@.drop_last() =~= old_trades);
            assert(trades@.last() == t);
            if old_trades.len() > 0 {
                assert(trades@[old_trades.len() - 1] == old_trades.last());
                assert(precedes_order(oside, old_trades.last(), flat(cur)[0]));
                assert(trade_precedes(oside, trades@[old_trades.len() - 1], trades@[old_trades.len() as int]));
            }
            assert forall|k: int| 0 <= k < trades@.len() - 1 implies #[trigger] trade_precedes(oside, trades@[k], trades@[k + 1]) by {
                if k < old_trades.len() - 1 {
                    assert(trades@[k] == old_trades[k] && trades@[k + 1] == old_trades[k + 1]);
                }
            }
            assert forall|k: int| 0 <= k < trades@.len() implies (#[trigger] trades@[k]).taker_order_id == taker_id
                && trades@[k].taker_sequence == taker_seq && trades@[k].quantity > 0 && crosses(side, limit, trades@[k].price as int) by {
                if k < old_trades.len() {
                    assert(trades@[k] == old_trades[k]);
                }
            }
        }
        if level.is_empty() {
            proof {
                assert(level.orders@ =~= Seq::<RestingOrder>::empty());
                assert(cur[0].orders@.len() == 1);
                assert(flat(cur).drop_first() =~= flat(opp@));
                assert(crossing_volume(cur, side, limit) == volume(cur[0].orders@) + crossing_volume(opp@, side, limit));
            }
        } else {
            let ghost rest = opp@;
            opp.insert(0, level);
            proof {
                assert(opp@.drop_first() =~= rest);
                assert(opp@[0] == level);
                assert(forall|i: int| 0 < i < opp@.len() ==> opp@[i] == cur[i]);
                assert(ladder_wf(oside, opp@));
                assert(flat(opp@) == level.orders@ + flat(rest));
                if after.filled < after.size {
                    assert(flat(opp@) =~= flat(cur).update(0, after));
                } else {
                    assert(flat(opp@) =~= flat(cur).drop_first());
                }
                assert(crossing_volume(cur, side, limit) == volume(cur[0].orders@) + crossing_volume(rest, side, limit));
            }
        }
        proof {
            let f = flat(opp@);
            let f0 = flat(cur);
            let o = flat(orig);
            let d = o.len() - f0.len();
            assert(f0[0] == o[d]);
            assert(trades@[d] == t);
            assert forall|k: int| 0 <= k < trades@.len() implies (#[trigger] trades@[k]).maker_order_id == o[k].order_id
                && trades@[k].price == o[k].price && trades@[k].maker_sequence == o[k].sequence by {
                if k < d {
                    assert(trades@[k] == old_trades[k]);
                }
            }
            if after.filled == after.size {
                assert(f =~= f0.drop_first());
                assert forall|k: int| 0 < k < f.len() implies #[trigger] f[k] == o[k + o.len() - f.len()] by {
                    assert(f[k] == f0[k + 1]);
                }
                if f.len() > 0 {
                    assert(f[0] == f0[1]);
                    assert(f0[1] == o[1 + o.len() - f0.len()]);
                }
                assert forall|k: int| 0 <= k < d + 1 implies (#[trigger] trades@[k]).quantity == remaining(o[k]) by {
                    if k < d {
                        assert(trades@[k] == old_trades[k]);
                    }
                }
                if filled < qty {
                    assert forall|k: int| 0 <= k < f.len() implies precedes_order(oside, trades@.last(), #[trigger] f[k]) by {
                        assert(f[k] == f0[k + 1]);
                    }
                }
            } else {
                assert(f =~= f0.update(0, after));
                assert forall|k: int| 0 < k < f.len() implies #[trigger] f[k] == o[k + o.len() - f.len()] by {
                    assert(f[k] == f0[k]);
                }
                assert forall|k: int| 0 <= k < d implies (#[trigger] trades@[k]).quantity == remaining(o[k]) by {
                    assert(trades@[k] == old_trades[k]);
                }
            }
            assert(consumed_from(f, o));
            assert(fills_prefix(o, f, trades@));
        }
    }
    proof {
        lemma_crossing_volume_nonneg(opp@, side, limit);
    }
    (trades, filled)
}

/// Whether price `a` has priority over `b` on a ladder of `side`.
pub fn price_better(side: OrderAction, a: i64, b: i64) -> (r: bool)
    ensures
        r == better(side, a as int, b as int),
{
    match side {
        OrderAction::ASK => a < b,
        OrderAction::BID => a > b,
    }
}

/// Whether the levels of `l` that a taker of `side` with `limit` reaches hold
/// at least `qty` in all.
fn can_fill(l: &Vec<Bucket>, side: OrderAction, limit: Option<i64>, qty: i64) -> (r: bool)
    requires
        ladder_wf(opposite(side), l@),
        qty > 0,
    ensures
        r == (crossing_volume(l@, side, limit) >= qty),
{
    let ghost s = l@;
    let mut acc: u128 = 0;
    let mut i: usize = 0;
    proof {
        assert(s.skip(0) =~= s);
    }
    while i < l.len() && acc < qty as u128 && marketable(side, limit, l[i].price)
        invariant
            ladder_wf(opposite(side), s),
            s == l@,
            qty > 0,
            0 <= i <= s.len(),
            acc <= qty + order_cap() * 0x1_0000_0000_0000_0000,
            acc + crossing_volume(s.skip(i as int), side, limit) == crossing_volume(s, side, limit),
        decreases s.len() - i,
    {
        proof {
            assert(s[i as int].wf());
            lemma_volume_bounds(s[i as int].orders@);
            let n = s[i as int].orders@.len();
            assert(n == s[i as int].order_number);
            assert(n * order_cap() <= order_cap() * 0x1_0000_0000_0000_0000) by (nonlinear_arith)
                requires n <= 0xffff_ffff_ffff_ffff;
            assert(s.skip(i as int).drop_first() =~= s.skip(i + 1));
            assert(s.skip(i as int)[0] == s[i as int]);
        }
        acc = acc + l[i].total_volume;
        i = i + 1;
    }
    proof {
        assert forall|k: int| 0 <= k < s.skip(i as int).len() implies (#[trigger] s.skip(i as int)[k]).inv() by {
            assert(s.skip(i as int)[k] == s[k + i]);
            assert(s[k + i].wf());
        }
        lemma_crossing_volume_nonneg(s.skip(i as int), side, limit);
        if i < s.len() {
            assert(s.skip(i as int)[0] == s[i as int]);
        }
    }
    acc >= qty as u128
}

/// Puts `o` at the tail of the level at its price, creating the level at its
/// place in the ladder when there is none.
#[verifier::rlimit(50)]
fn rest(own: &mut Vec<Bucket>, side: OrderAction, o: RestingOrder)
    requires
        ladder_wf(side, old(own)@),
        order_wf(o),
        sequences_below(flat(old(own)@), o.sequence),
    ensures
        ladder_wf(side, final(own)@),
        exists|p: int| 0 <= p <= flat(old(own)@).len() && flat(final(own)@) == flat(old(own)@).insert(p, o),
        final(own)@.len() > 0,
        final(own)@[0].price == o.price || (old(own)@.len() > 0 && final(own)@[0].price == old(own)@[0].price),
        rested_at_tail(old(own)@, final(own)@, o),
{
    let ghost l = old(own)@;
    let mut i: usize = 0;
    while i < own.len() && price_better(side, own[i].price, o.price)
        invariant
            own@ == l,
            0 <= i <= l.len(),
            forall|k: int| 0 <= k < i ==> better(side, (#[trigger] l[k]).price as int, o.price as int),
        decreases l.len() - i,
    {
        i = i + 1;
    }
    if i < own.len() && own[i].price == o.price {
        proof {
            lemma_flat_split(l, i as int);
            let a = flat(l.take(i as int));
            assert forall|j: int| 0 <= j < l[i as int].orders@.len() implies (#[trigger] l[i as int].orders@[j]).sequence < o.sequence by {
                assert(flat(l)[a.len() + j] == l[i as int].orders@[j]);
            }
        }
        let mut level = own.remove(i);
        level.enqueue(o);
        own.insert(i, level);
        proof {
            let n = own@;
            assert(n =~= l.update(i as int, level));
            assert(n.take(i as int) =~= l.take(i as int));
            assert(n.skip(i + 1) =~= l.skip(i + 1));
            lemma_flat_split(n, i as int);
            let p: int = (flat(l.take(i as int)).len() + l[i as int].orders@.len()) as int;
            assert(flat(n) =~= flat(l).insert(p, o));
            assert(forall|k: int| 0 <= k < n.len() && k != i ==> n[k] == l[k]);
            assert(ladder_wf(side, n));
            assert(n[i as int].price == o.price);
            assert(rested_at_tail(l, n, o));
        }
    } else {
        let level = Bucket::new(o);
        own.insert(i, level);
        proof {
            let n = own@;
            assert(n.take(i as int) =~= l.take(i as int));
            assert(n.skip(i + 1) =~= l.skip(i as int));
            lemma_flat_split(n, i as int);
            if i < l.len() {
                lemma_flat_split(l, i as int);
                assert(l.skip(i as int) =~= seq![l[i as int]] + l.skip(i + 1));
                assert(flat(l) =~= flat(l.take(i as int)) + flat(l.skip(i as int))) by {
                    crate::kernel::ladder::lemma_flat_concat(seq![l[i as int]], l.skip(i + 1));
                    crate::kernel::ladder::lemma_flat_single(l[i as int]);
                }
            } else {
                assert(l.take(i as int) =~= l);
                assert(l.skip(i as int) =~= Seq::<Bucket>::empty());
                assert(flat(Seq::<Bucket>::empty()) =~= Seq::<RestingOrder>::empty());
            }
            let p: int = flat(l.take(i as int)).len() as int;
            assert(flat(n) =~= flat(l).insert(p, o));
            assert forall|k: int| 0 <= k < n.len() implies (#[trigger] n[k]).wf() by {
                if k < i {
                    assert(n[k] == l[k]);
                } else if k > i {
                    assert(n[k] == l[k - 1]);
                }
            }
            assert forall|a: int, b: int| 0 <= a < b < n.len() implies better(side, (#[trigger] n[a]).price as int, (#[trigger] n[b]).price as int) by {
                if b < i {
                    assert(n[a] == l[a] && n[b] == l[b]);
                } else if b == i {
                    assert(n[a] == l[a]);
                } else if a < i {
                    assert(n[a] == l[a] && n[b] == l[b - 1]);
                } else if a == i {
                    assert(n[b] == l[b - 1]);
                    if b - 1 > i {
                        assert(better(side, l[i as int].price as int, l[b - 1].price as int));
                    }
                } else {
                    assert(n[a] == l[a - 1] && n[b] == l[b - 1]);
                }
            }
            assert(n =~= l.insert(i as int, n[i as int]));
            assert forall|k: int| 0 <= k < l.len() implies (#[trigger] l[k]).price != o.price by {
                if k > i {
                    assert(better(side, l[i as int].price as int, l[k].price as int));
                }
            }
            assert(n[i as int].price == o.price);
            assert(rested_at_tail(l, n, o));
        }
    }
}

/// Position of the order `id` in the queue of `b`.
fn find_in_level(b: &Bucket, id: u64) -> (r: Option<usize>)
    ensures
        match r {
            Some(j) => j < b.orders@.len() && b.orders@[j as int].order_id == id,
            None => !has_id(b.orders@, id),
        },
{
    let mut j: usize = 0;
    while j < b.orders.len()
        invariant
            0 <= j <= b.orders@.len(),
            forall|k: int| 0 <= k < j ==> (#[trigger] b.orders@[k]).order_id != id,
        decreases b.orders@.len() - j,
    {
        if b.orders[j].order_id == id {
            return Some(j);
        }
        j = j + 1;
    }
    None
}

/// Level and queue position of the order `id` in the ladder `l`.
fn find_in_ladder(l: &Vec<Bucket>, id: u64) -> (r: Option<(usize, usize)>)
    ensures
        match r {
            Some((i, j)) => i < l@.len() && j < l@[i as int].orders@.len()
                && l@[i as int].orders@[j as int].order_id == id && has_id(flat(l@), id),
            None => !has_id(flat(l@), id),
        },
{
    let mut i: usize = 0;
    while i < l.len()
        invariant
            0 <= i <= l@.len(),
            forall|k: int| 0 <= k < i ==> !has_id((#[trigger] l@[k]).orders@, id),
        decreases l@.len() - i,
    {
        match find_in_level(&l[i], id) {
            Some(j) => {
                proof {
                    lemma_flat_split(l@, i as int);
                    let q = flat(l@.take(i as int)).len() + j;
                    assert(flat(l@)[q] == l@[i as int].orders@[j as int]);
                }
                return Some((i, j));
            },
            None => {},
        }
        i = i + 1;
    }
    proof {
        lemma_has_id_levels(l@, id);
    }
    None
}

/// Takes the order at queue position `j` of level `i` out of the ladder,
/// dropping the level when it becomes empty.
fn remove_at(l: &mut Vec<Bucket>, side: OrderAction, i: usize, j: usize) -> (r: RestingOrder)
    requires
        ladder_wf(side, old(l)@),
        i < old(l)@.len(),
        j < old(l)@[i as int].orders@.len(),
    ensures
        ladder_wf(side, final(l)@),
        r == old(l)@[i as int].orders@[j as int],
        exists|p: int| 0 <= p < flat(old(l)@).len() && flat(old(l)@)[p] == r && flat(final(l)@) == flat(old(l)@).remove(p),
        final(l)@.len() > 0 ==> old(l)@.len() > 0 && (final(l)@[0].price == old(l)@[0].price
            || better(side, old(l)@[0].price as int, final(l)@[0].price as int)),
{
    let ghost s = l@;
    proof {
        lemma_flat_split(s, i as int);
    }
    let ghost p: int = flat(s.take(i as int)).len() + j;
    let mut level = l.remove(i);
    let o = level.remove(j);
    if level.is_empty() {
        proof {
            assert(l@ =~= s.take(i as int) + s.skip(i + 1));
            crate::kernel::ladder::lemma_flat_concat(s.take(i as int), s.skip(i + 1));
            assert(flat(l@) =~= flat(s).remove(p));
            assert forall|a: int, b: int| 0 <= a < b < l@.len() implies better(side, (#[trigger] l@[a]).price as int, (#[trigger] l@[b]).price as int) by {
                let aa = if a < i { a } else { a + 1 };
                let bb = if b < i { b } else { b + 1 };
                assert(l@[a] == s[aa] && l@[b] == s[bb]);
            }
            assert forall|a: int| 0 <= a < l@.len() implies (#[trigger] l@[a]).wf() by {
                let aa = if a < i { a } else { a + 1 };
                assert(l@[a] == s[aa]);
            }
            if l@.len() > 0 {
                if i == 0 {
                    assert(l@[0] == s[1]);
                }
            }
        }
    } else {
        l.insert(i, level);
        proof {
            let n = l@;
            assert(n =~= s.update(i as int, level));
            assert(n.take(i as int) =~= s.take(i as int));
            assert(n.skip(i + 1) =~= s.skip(i + 1));
            lemma_flat_split(n, i as int);
            assert(flat(n) =~= flat(s).remove(p));
            assert(forall|k: int| 0 <= k < n.len() && k != i ==> n[k] == s[k]);
        }
    }
    o
}

/// Whether both ladders hold well formed, priority-ordered levels with
/// distinct order ids and sequences below `next`, and the book is not
/// crossed: the best level of `own` (of `side`) is worse for a taker than the
/// best level of `opp`.
pub open spec fn pair_wf(side: OrderAction, own: Seq<Bucket>, opp: Seq<Bucket>, next: u64) -> bool {
    &&& ladder_wf(side, own)
    &&& ladder_wf(opposite(side), opp)
    &&& ids_unique(flat(own))
    &&& ids_unique(flat(opp))
    &&& forall|id: u64| !(has_id(flat(own), id) && has_id(flat(opp), id))
    &&& sequences_below(flat(own), next)
    &&& sequences_below(flat(opp), next)
    &&& own.len() > 0 && opp.len() > 0 ==> better(opposite(side), own[0].price as int, opp[0].price as int)
}

/// Matches a taker of `side` against `opp`, then rests its remainder in
/// `own` when `keep` holds.
fn execute(
    own: &mut Vec<Bucket>,
    opp: &mut Vec<Bucket>,
    side: OrderAction,
    limit: Option<i64>,
    size: i64,
    id: u64,
    seq: u64,
    keep: bool,
) -> (trades: Vec<Trade>)
    requires
        pair_wf(side, old(own)@, old(opp)@, seq),
        !has_id(flat(old(own)@), id),
        !has_id(flat(old(opp)@), id),
        size > 0,
        seq < u64::MAX,
        keep ==> limit is Some,
    ensures
        pair_wf(side, final(own)@, final(opp)@, (seq + 1) as u64),
        traded(trades@) == if size <= crossing_volume(old(opp)@, side, limit) {
            size as int
        } else {
            crossing_volume(old(opp)@, side, limit)
        },
        crossing_volume(final(opp)@, side, limit) == crossing_volume(old(opp)@, side, limit) - traded(trades@),
        fills_prefix(flat(old(opp)@), flat(final(opp)@), trades@),
        trades_in_priority(opposite(side), trades@),
        forall|k: int|
            0 <= k < trades@.len() ==> (#[trigger] trades@[k]).taker_order_id == id
                && trades@[k].taker_sequence == seq && trades@[k].quantity > 0 && crosses(
                side,
                limit,
                trades@[k].price as int,
            ),
        forall|x: u64|
            has_id(flat(final(own)@), x) || has_id(flat(final(opp)@), x) ==> has_id(flat(old(own)@), x)
                || has_id(flat(old(opp)@), x) || x == id,
        !has_id(flat(final(opp)@), id),
        has_id(flat(final(own)@), id) == (keep && traded(trades@) < size),
        keep && traded(trades@) < size ==> flat(final(own)@).contains(
            RestingOrder {
                order_id: id,
                price: limit->Some_0,
                size,
                filled: traded(trades@) as i64,
                sequence: seq,
            },
        ),
        keep && traded(trades@) < size ==> rested_at_tail(
            old(own)@,
            final(own)@,
            RestingOrder {
                order_id: id,
                price: limit->Some_0,
                size,
                filled: traded(trades@) as i64,
                sequence: seq,
            },
        ),
        !(keep && traded(trades@) < size) ==> final(own)@ == old(own)@,
{
    let ghost own0 = own@;
    let ghost opp0 = opp@;
    proof {
        assert forall|i: int| 0 <= i < opp0.len() implies (#[trigger] opp0[i]).inv() by {
            assert(opp0[i].wf());
        }
        lemma_crossing_volume_nonneg(opp0, side, limit);
    }
    let (trades, filled) = match_against(opp, side, limit, size, id, seq);
    proof {
        lemma_consumed_facts(flat(opp@), flat(opp0), seq);
        lemma_consumed_facts(flat(opp@), flat(opp0), (seq + 1) as u64);
    }
    if keep && filled < size {
        let price = match limit {
            Some(p) => p,
            None => 0,
        };
        let o = RestingOrder { order_id: id, price, size, filled, sequence: seq };
        rest(own, side, o);
        proof {
            let p = choose|p: int| 0 <= p <= flat(own0).len() && flat(own@) == flat(own0).insert(p, o);
            lemma_insert_facts(flat(own0), p, o, (seq + 1) as u64);
            assert(sequences_below(flat(own0), (seq + 1) as u64));
            if opp@.len() > 0 {
                assert(!crosses(side, limit, opp@[0].price as int));
                if own@[0].price != o.price {
                    assert(better(opposite(side), own0[0].price as int, opp0[0].price as int));
                }
            }
        }
    } else {
        proof {
            assert(sequences_below(flat(own0), (seq + 1) as u64));
        }
    }
    trades
}

/// An order book over two side ladders, with price-time priority matching.
pub struct DirectOrderBook {
    bids: Vec<Bucket>,
    asks: Vec<Bucket>,
    next_sequence: u64,
}

/// Limit of an order: none for a market order.
pub open spec fn limit_of(o: Order) -> Option<i64> {
    if o.time_in_force is None {
        None
    } else {
        Some(o.price)
    }
}

impl DirectOrderBook {
    /// Levels of the bid ladder, best (highest) first.
    pub closed spec fn bids_view(&self) -> Seq<Bucket> {
        self.bids@
    }

    /// Levels of the ask ladder, best (lowest) first.
    pub closed spec fn asks_view(&self) -> Seq<Bucket> {
        self.asks@
    }

    /// Sequence number the next accepted order receives.
    pub closed spec fn sequence_view(&self) -> u64 {
        self.next_sequence
    }

    pub open spec fn ladder_view(&self, side: OrderAction) -> Seq<Bucket> {
        match side {
            OrderAction::BID => self.bids_view(),
            OrderAction::ASK => self.asks_view(),
        }
    }

    /// An order with this id rests on the book.
    pub open spec fn has_order(&self, id: u64) -> bool {
        has_id(flat(self.bids_view()), id) || has_id(flat(self.asks_view()), id)
    }

    /// The book's invariant; among others, a book at rest is never crossed.
    pub open spec fn wf(&self) -> bool {
        pair_wf(OrderAction::BID, self.bids_view(), self.asks_view(), self.sequence_view())
    }

    /// Quantity that `o` can take from the opposite ladder right now.
    pub open spec fn fillable(&self, o: Order) -> int {
        crossing_volume(self.ladder_view(crate::kernel::opposite(o.order_action)), o.order_action, limit_of(o))
    }

    /// Why `o` is refused, if it is.
    pub open spec fn rejection(&self, o: Order) -> Option<MatchError> {
        if o.size <= 0 {
            Some(MatchError::InvalidQuantity)
        } else if o.time_in_force is Some && o.price < 0 {
            Some(MatchError::InvalidPrice)
        } else if self.has_order(o.order_id) {
            Some(MatchError::DuplicateOrderId)
        } else if self.sequence_view() == u64::MAX {
            Some(MatchError::SequenceExhausted)
        } else if o.time_in_force == Some(TimeInForce::FOK) && self.fillable(o) < o.size {
            Some(MatchError::NoFill)
        } else {
            None
        }
    }

    /// What placing `order` on `old` does: a refused order changes nothing;
    /// an accepted one takes, in priority order, from the front of the
    /// opposite queue at the makers' prices, up to its size, and rests its
    /// remainder at the tail of its price level only when it is GTC.
    pub open spec fn place_post(
        old: DirectOrderBook,
        new: DirectOrderBook,
        order: Order,
        r: Result<Vec<Trade>, MatchError>,
    ) -> bool {
        match old.rejection(order) {
            Some(e) => r == Err::<Vec<Trade>, MatchError>(e) && new.same_book(&old),
            None => r is Ok && {
                let trades = r->Ok_0@;
                let side = order.order_action;
                let opp = crate::kernel::opposite(side);
                let fill = old.fillable(order);
                let rests = order.time_in_force == Some(TimeInForce::GTC) && traded(trades) < order.size;
                &&& traded(trades) == if order.size <= fill { order.size as int } else { fill }
                &&& fills_prefix(flat(old.ladder_view(opp)), flat(new.ladder_view(opp)), trades)
                &&& trades_in_priority(opp, trades)
                &&& forall|k: int|
                    0 <= k < trades.len() ==> (#[trigger] trades[k]).taker_order_id == order.order_id
                        && trades[k].taker_sequence == old.sequence_view() && trades[k].quantity > 0
                        && crosses(side, limit_of(order), trades[k].price as int)
                &&& crossing_volume(new.ladder_view(opp), side, limit_of(order)) == fill - traded(trades)
                &&& new.sequence_view() == old.sequence_view() + 1
                &&& rests ==> rested_at_tail(
                    old.ladder_view(side),
                    new.ladder_view(side),
                    RestingOrder {
                        order_id: order.order_id,
                        price: order.price,
                        size: order.size,
                        filled: traded(trades) as i64,
                        sequence: old.sequence_view(),
                    },
                )
                &&& !rests ==> new.ladder_view(side) == old.ladder_view(side)
                &&& new.has_order(order.order_id) == rests
                &&& forall|x: u64| new.has_order(x) ==> old.has_order(x) || x == order.order_id
            },
        }
    }

    /// What canceling `id` on `old` does: an absent id changes nothing; a
    /// resting one leaves its queue, and nothing else moves.
    pub open spec fn cancel_post(
        old: DirectOrderBook,
        new: DirectOrderBook,
        id: u64,
        r: Result<RestingOrder, MatchError>,
    ) -> bool {
        &&& r is Err <==> !old.has_order(id)
        &&& r is Err ==> r == Err::<RestingOrder, MatchError>(MatchError::OrderNotFound) && new.same_book(&old)
        &&& r is Ok ==> r->Ok_0.order_id == id && !new.has_order(id) && exists|p: int| {
            ||| (0 <= p < flat(old.bids_view()).len() && flat(old.bids_view())[p] == r->Ok_0 && flat(new.bids_view())
                == flat(old.bids_view()).remove(p) && new.asks_view() == old.asks_view())
            ||| (0 <= p < flat(old.asks_view()).len() && flat(old.asks_view())[p] == r->Ok_0 && flat(new.asks_view())
                == flat(old.asks_view()).remove(p) && new.bids_view() == old.bids_view())
        }
        &&& forall|x: u64| new.has_order(x) == (old.has_order(x) && x != id)
        &&& new.sequence_view() == old.sequence_view()
    }

    /// The two books hold the same orders in the same places.
    pub open spec fn same_book(&self, other: &DirectOrderBook) -> bool {
        self.bids_view() == other.bids_view() && self.asks_view() == other.asks_view()
            && self.sequence_view() == other.sequence_view()
    }

    /// An empty book.
    pub fn new() -> (r: DirectOrderBook)
        ensures
            r.wf(),
            r.sequence_view() == 1,
            r.bids_view().len() == 0,
            r.asks_view().len() == 0,
            forall|id: u64| !r.has_order(id),
    {
        let r = DirectOrderBook { bids: Vec::new(), asks: Vec::new(), next_sequence: 1 };
        proof {
            assert(flat(r.bids@) =~= Seq::<RestingOrder>::empty());
            assert(flat(r.asks@) =~= Seq::<RestingOrder>::empty());
        }
        r
    }

    /// Whether the sequence counter can number one more order.
    pub fn can_sequence(&self) -> (r: bool)
        ensures
            r == (self.sequence_view() < u64::MAX),
    {
        self.next_sequence < u64::MAX
    }

    /// Submits `order`: matches it against the opposite ladder under
    /// price-time priority at the makers' prices, then rests the remainder
    /// of a GTC order and discards that of IOC and market orders. A FOK
    /// order that cannot fill in full is refused with nothing changed.
    pub fn place_order(&mut self, order: Order) -> (r: Result<Vec<Trade>, MatchError>)
        requires
            old(self).wf(),
        ensures
            final(self).wf(),
            Self::place_post(*old(self), *final(self), order, r),
    {
        if order.size <= 0 {
            return Err(MatchError::InvalidQuantity);
        }
        let limit: Option<i64> = match order.time_in_force {
            None => None,
            Some(_) => Some(order.price),
        };
        if order.time_in_force.is_some() && order.price < 0 {
            return Err(MatchError::InvalidPrice);
        }
        if self.contains_order(order.order_id) {
            return Err(MatchError::DuplicateOrderId);
        }
        if !self.can_sequence() {
            return Err(MatchError::SequenceExhausted);
        }
        let fok = match order.time_in_force {
            Some(TimeInForce::FOK) => true,
            _ => false,
        };
        let keep = match order.time_in_force {
            Some(TimeInForce::GTC) => true,
            _ => false,
        };
        if fok {
            let enough = match order.order_action {
                OrderAction::BID => can_fill(&self.asks, OrderAction::BID, limit, order.size),
                OrderAction::ASK => can_fill(&self.bids, OrderAction::ASK, limit, order.size),
            };
            if !enough {
                return Err(MatchError::NoFill);
            }
        }
        let seq = self.next_sequence;
        let trades = match order.order_action {
            OrderAction::BID => execute(
                &mut self.bids,
                &mut self.asks,
                OrderAction::BID,
                limit,
                order.size,
                order.order_id,
                seq,
                keep,
            ),
            OrderAction::ASK => execute(
                &mut self.asks,
                &mut self.bids,
                OrderAction::ASK,
                limit,
                order.size,
                order.order_id,
                seq,
                keep,
            ),
        };
        self.next_sequence = seq + 1;
        Ok(trades)
    }

    /// Number of price levels on `side`.
    pub fn level_count(&self, side: OrderAction) -> (r: usize)
        ensures
            r == self.ladder_view(side).len(),
    {
        match side {
            OrderAction::BID => self.bids.len(),
            OrderAction::ASK => self.asks.len(),
        }
    }

    /// Best price on `side`, if the ladder has a level.
    pub fn best_price(&self, side: OrderAction) -> (r: Option<i64>)
        ensures
            r == if self.ladder_view(side).len() == 0 {
                None::<i64>
            } else {
                Some(self.ladder_view(side)[0].price)
            },
    {
        let l = match side {
            OrderAction::BID => &self.bids,
            OrderAction::ASK => &self.asks,
        };
        if l.len() == 0 {
            None
        } else {
            Some(l[0].price)
        }
    }

    /// Open quantity and order count of the level at `price` on `side`.
    pub fn level_depth(&self, side: OrderAction, price: i64) -> (r: Option<(u128, usize)>)
        ensures
            match r {
                Some((v, n)) => exists|i: int|
                    0 <= i < self.ladder_view(side).len() && (#[trigger] self.ladder_view(side)[i]).price == price
                        && v == self.ladder_view(side)[i].total_volume
                        && n == self.ladder_view(side)[i].order_number,
                None => forall|i: int|
                    0 <= i < self.ladder_view(side).len() ==> (#[trigger] self.ladder_view(side)[i]).price != price,
            },
    {
        let l = match side {
            OrderAction::BID => &self.bids,
            OrderAction::ASK => &self.asks,
        };
        let mut i: usize = 0;
        while i < l.len()
            invariant
                0 <= i <= l@.len(),
                l@ == self.ladder_view(side),
                forall|k: int| 0 <= k < i ==> (#[trigger] l@[k]).price != price,
            decreases l@.len() - i,
        {
            if l[i].price == price {
                return Some((l[i].total_volume, l[i].order_number));
            }
            i = i + 1;
        }
        None
    }

    /// The resting order `id`, if any.
    pub fn resting_order(&self, id: u64) -> (r: Option<RestingOrder>)
        ensures
            r is Some <==> self.has_order(id),
            r is Some ==> r->Some_0.order_id == id && (flat(self.bids_view()).contains(r->Some_0) || flat(
                self.asks_view(),
            ).contains(r->Some_0)),
    {
        match find_in_ladder(&self.bids, id) {
            Some((i, j)) => {
                proof {
                    lemma_flat_split(self.bids@, i as int);
                    assert(flat(self.bids@)[flat(self.bids@.take(i as int)).len() + j] == self.bids@[i as int].orders@[j as int]);
                }
                return Some(self.bids[i].orders[j]);
            },
            None => {},
        }
        match find_in_ladder(&self.asks, id) {
            Some((i, j)) => {
                proof {
                    lemma_flat_split(self.asks@, i as int);
                    assert(flat(self.asks@)[flat(self.asks@.take(i as int)).len() + j] == self.asks@[i as int].orders@[j as int]);
                }
                Some(self.asks[i].orders[j])
            },
            None => None,
        }
    }

    /// Whether an order with this id rests on the book.
    pub fn contains_order(&self, id: u64) -> (r: bool)
        ensures
            r == self.has_order(id),
    {
        find_in_ladder(&self.bids, id).is_some() || find_in_ladder(&self.asks, id).is_some()
    }

    /// Removes the resting order `id`; no trades result.
    pub fn cancel_order(&mut self, id: u64) -> (r: Result<RestingOrder, MatchError>)
        requires
            old(self).wf(),
        ensures
            final(self).wf(),
            Self::cancel_post(*old(self), *final(self), id, r),
    {
        let ghost b0 = flat(self.bids@);
        let ghost a0 = flat(self.asks@);
        match find_in_ladder(&self.bids, id) {
            Some((i, j)) => {
                proof {
                    lemma_flat_split(self.bids@, i as int);
                    assert(b0[flat(self.bids@.take(i as int)).len() + j] == self.bids@[i as int].orders@[j as int]);
                }
                let o = remove_at(&mut self.bids, OrderAction::BID, i, j);
                proof {
                    let p = choose|p: int| 0 <= p < b0.len() && b0[p] == o && flat(self.bids@) == b0.remove(p);
                    lemma_remove_facts(b0, p, self.next_sequence);
                    assert forall|x: u64| has_id(b0, x) && x != id implies has_id(flat(self.bids@), x) by {
                        let k = choose|k: int| 0 <= k < b0.len() && (#[trigger] b0[k]).order_id == x;
                        if k < p {
                            assert(flat(self.bids@)[k] == b0[k]);
                        } else {
                            assert(flat(self.bids@)[k - 1] == b0[k]);
                        }
                    }
                }
                return Ok(o);
            },
            None => {},
        }
        match find_in_ladder(&self.asks, id) {
            Some((i, j)) => {
                proof {
                    lemma_flat_split(self.asks@, i as int);
                    assert(a0[flat(self.asks@.take(i as int)).len() + j] == self.asks@[i as int].orders@[j as int]);
                }
                let o = remove_at(&mut self.asks, OrderAction::ASK, i, j);
                proof {
                    let p = choose|p: int| 0 <= p < a0.len() && a0[p] == o && flat(self.asks@) == a0.remove(p);
                    lemma_remove_facts(a0, p, self.next_sequence);
                    assert forall|x: u64| has_id(a0, x) && x != id implies has_id(flat(self.asks@), x) by {
                        let k = choose|k: int| 0 <= k < a0.len() && (#[trigger] a0[k]).order_id == x;
                        if k < p {
                            assert(flat(self.asks@)[k] == a0[k]);
                        } else {
                            assert(flat(self.asks@)[k - 1] == a0[k]);
                        }
                    }
                }
                Ok(o)
            },
            None => Err(MatchError::OrderNotFound),
        }
    }
}

impl OrderBook for DirectOrderBook {
    open spec fn book_wf(&self) -> bool {
        self.wf()
    }

    open spec fn book_empty(&self) -> bool {
        self.bids_view().len() == 0 && self.asks_view().len() == 0 && self.sequence_view() == 1
    }

    fn place_order(&mut self, order: Order) -> (r: Result<Vec<Trade>, MatchError>) {
        DirectOrderBook::place_order(self, order)
    }

    fn cancel_order(&mut self, order_id: u64) -> (r: Result<RestingOrder, MatchError>) {
        DirectOrderBook::cancel_order(self, order_id)
    }
}

/// Makes empty [`DirectOrderBook`]s.
pub struct DirectOrderBookFactory {}

impl DirectOrderBookFactory {
    pub fn new() -> (r: DirectOrderBookFactory)
        ensures
            r == (DirectOrderBookFactory {  }),
    {
        DirectOrderBookFactory {  }
    }
}

impl OrderBookFactory for DirectOrderBookFactory {
    type Book = DirectOrderBook;

    fn create(&self) -> (r: DirectOrderBook) {
        DirectOrderBook::new()
    }
}

} // verus!
