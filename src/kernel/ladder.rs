//! Side ladders: price levels of one side, best price first, and the facts
//! about the queue of all their orders in priority order.
use vstd::prelude::*;
use crate::kernel::level::{lemma_volume_bounds, Bucket};
use crate::kernel::{better, crosses, order_wf, volume, OrderAction, RestingOrder};

verus! {

/// All resting orders of a ladder in matching priority: best level first,
/// oldest first within a level.
pub open spec fn flat(l: Seq<Bucket>) -> Seq<RestingOrder>
    decreases l.len(),
{
    if l.len() == 0 {
        Seq::empty()
    } else {
        l[0].orders@ + flat(l.drop_first())
    }
}

/// Levels are well formed and strictly ordered by price priority of `side`.
pub open spec fn ladder_wf(side: OrderAction, l: Seq<Bucket>) -> bool {
    &&& forall|i: int| 0 <= i < l.len() ==> (#[trigger] l[i]).wf()
    &&& forall|i: int, j: int|
        0 <= i < j < l.len() ==> better(side, (#[trigger] l[i]).price as int, (#[trigger] l[j]).price as int)
}

/// Open quantity on levels of `l` that a taker of `side` with `limit` can reach.
pub open spec fn crossing_volume(l: Seq<Bucket>, side: OrderAction, limit: Option<i64>) -> int
    decreases l.len(),
{
    if l.len() == 0 || !crosses(side, limit, l[0].price as int) {
        0
    } else {
        volume(l[0].orders@) + crossing_volume(l.drop_first(), side, limit)
    }
}

pub open spec fn has_id(s: Seq<RestingOrder>, id: u64) -> bool {
    exists|k: int| 0 <= k < s.len() && (#[trigger] s[k]).order_id == id
}

pub open spec fn ids_unique(s: Seq<RestingOrder>) -> bool {
    forall|i: int, j: int|
        0 <= i < s.len() && 0 <= j < s.len() && i != j ==> (#[trigger] s[i]).order_id != (#[trigger] s[j]).order_id
}

pub open spec fn sequences_below(s: Seq<RestingOrder>, n: u64) -> bool {
    forall|k: int| 0 <= k < s.len() ==> (#[trigger] s[k]).sequence < n
}

/// `a` is `b` with possibly more filled.
pub open spec fn same_order(a: RestingOrder, b: RestingOrder) -> bool {
    a.order_id == b.order_id && a.price == b.price && a.size == b.size && a.sequence == b.sequence
}

/// `f` is what is left of the queue `o` after taking orders from its front:
/// a suffix of `o`, whose first order may have been partly filled.
pub open spec fn consumed_from(f: Seq<RestingOrder>, o: Seq<RestingOrder>) -> bool {
    &&& f.len() <= o.len()
    &&& forall|k: int| 0 < k < f.len() ==> #[trigger] f[k] == o[k + o.len() - f.len()]
    &&& f.len() > 0 ==> same_order(f[0], o[o.len() - f.len()])
}

/// Orders of `s` come in price-time priority of `side`.
pub open spec fn priority_sorted(side: OrderAction, s: Seq<RestingOrder>) -> bool {
    forall|i: int, j: int|
        0 <= i < j < s.len() ==> better(side, (#[trigger] s[i]).price as int, (#[trigger] s[j]).price as int)
            || (s[i].price == s[j].price && s[i].sequence < s[j].sequence)
}

pub proof fn lemma_flat_concat(a: Seq<Bucket>, b: Seq<Bucket>)
    ensures
        flat(a + b) == flat(a) + flat(b),
    decreases a.len(),
{
    if a.len() == 0 {
        assert(a + b =~= b);
        assert(flat(a) + flat(b) =~= flat(b));
    } else {
        assert((a + b).drop_first() =~= a.drop_first() + b);
        assert((a + b)[0] == a[0]);
        lemma_flat_concat(a.drop_first(), b);
        assert(flat(a + b) =~= flat(a) + flat(b));
    }
}

pub proof fn lemma_flat_single(b: Bucket)
    ensures
        flat(seq![b]) == b.orders@,
{
    assert(seq![b].drop_first() =~= Seq::<Bucket>::empty());
    assert(flat(Seq::<Bucket>::empty()) == Seq::<RestingOrder>::empty());
    assert(seq![b][0] == b);
    assert(flat(seq![b]) =~= b.orders@ + Seq::<RestingOrder>::empty());
    assert(b.orders@ + Seq::<RestingOrder>::empty() =~= b.orders@);
}

/// Replacing the level at `i` replaces its orders inside the flat queue.
pub proof fn lemma_flat_split(l: Seq<Bucket>, i: int)
    requires
        0 <= i < l.len(),
    ensures
        flat(l) == flat(l.take(i)) + l[i].orders@ + flat(l.skip(i + 1)),
{
    assert(l =~= l.take(i) + (seq![l[i]] + l.skip(i + 1)));
    lemma_flat_concat(l.take(i), seq![l[i]] + l.skip(i + 1));
    lemma_flat_concat(seq![l[i]], l.skip(i + 1));
    lemma_flat_single(l[i]);
    assert(flat(l) =~= flat(l.take(i)) + l[i].orders@ + flat(l.skip(i + 1)));
}

pub proof fn lemma_has_id_concat(a: Seq<RestingOrder>, b: Seq<RestingOrder>, id: u64)
    ensures
        has_id(a + b, id) == (has_id(a, id) || has_id(b, id)),
{
    if has_id(a + b, id) {
        let k = choose|k: int| 0 <= k < (a + b).len() && (#[trigger] (a + b)[k]).order_id == id;
        if k < a.len() {
            assert(a[k] == (a + b)[k]);
        } else {
            assert(b[k - a.len()] == (a + b)[k]);
        }
    }
    if has_id(a, id) {
        let k = choose|k: int| 0 <= k < a.len() && (#[trigger] a[k]).order_id == id;
        assert((a + b)[k] == a[k]);
    }
    if has_id(b, id) {
        let k = choose|k: int| 0 <= k < b.len() && (#[trigger] b[k]).order_id == id;
        assert((a + b)[k + a.len()] == b[k]);
    }
}

/// An id is in the flat queue exactly when some level holds it.
pub proof fn lemma_has_id_levels(l: Seq<Bucket>, id: u64)
    ensures
        has_id(flat(l), id) == exists|i: int| 0 <= i < l.len() && has_id((#[trigger] l[i]).orders@, id),
    decreases l.len(),
{
    if l.len() > 0 {
        lemma_has_id_concat(l[0].orders@, flat(l.drop_first()), id);
        lemma_has_id_levels(l.drop_first(), id);
        if exists|i: int| 0 <= i < l.drop_first().len() && has_id((#[trigger] l.drop_first()[i]).orders@, id) {
            let i = choose|i: int| 0 <= i < l.drop_first().len() && has_id((#[trigger] l.drop_first()[i]).orders@, id);
            assert(l[i + 1] == l.drop_first()[i]);
        }
        if exists|i: int| 0 <= i < l.len() && has_id((#[trigger] l[i]).orders@, id) {
            let i = choose|i: int| 0 <= i < l.len() && has_id((#[trigger] l[i]).orders@, id);
            if i > 0 {
                assert(l.drop_first()[i - 1] == l[i]);
            }
        }
    }
}

/// Every order of a ladder whose levels are all worse than `p` is worse than `p`.
pub proof fn lemma_flat_prices_below(side: OrderAction, l: Seq<Bucket>, p: int)
    requires
        ladder_wf(side, l),
        forall|i: int| 0 <= i < l.len() ==> better(side, p, (#[trigger] l[i]).price as int),
    ensures
        forall|k: int| 0 <= k < flat(l).len() ==> better(side, p, (#[trigger] flat(l)[k]).price as int),
    decreases l.len(),
{
    if l.len() > 0 {
        let r = l.drop_first();
        assert forall|i: int| 0 <= i < r.len() implies better(side, p, (#[trigger] r[i]).price as int) by {
            assert(r[i] == l[i + 1]);
        }
        assert(ladder_wf(side, r)) by {
            assert forall|i: int| 0 <= i < r.len() implies (#[trigger] r[i]).wf() by {
                assert(r[i] == l[i + 1]);
            }
            assert forall|i: int, j: int| 0 <= i < j < r.len() implies better(side, (#[trigger] r[i]).price as int, (#[trigger] r[j]).price as int) by {
                assert(r[i] == l[i + 1] && r[j] == l[j + 1]);
            }
        }
        lemma_flat_prices_below(side, r, p);
        let o = l[0].orders@;
        assert(l[0].wf());
        assert forall|k: int| 0 <= k < flat(l).len() implies better(side, p, (#[trigger] flat(l)[k]).price as int) by {
            if k < o.len() {
                assert(flat(l)[k] == o[k]);
            } else {
                assert(flat(l)[k] == flat(r)[k - o.len()]);
            }
        }
    }
}

pub proof fn lemma_ladder_tail(side: OrderAction, l: Seq<Bucket>)
    requires
        ladder_wf(side, l),
        l.len() > 0,
    ensures
        ladder_wf(side, l.drop_first()),
        forall|i: int| 0 <= i < l.drop_first().len() ==> better(side, l[0].price as int, (#[trigger] l.drop_first()[i]).price as int),
{
    let r = l.drop_first();
    assert forall|i: int| 0 <= i < r.len() implies (#[trigger] r[i]).wf() && better(side, l[0].price as int, r[i].price as int) by {
        assert(r[i] == l[i + 1]);
    }
    assert forall|i: int, j: int| 0 <= i < j < r.len() implies better(side, (#[trigger] r[i]).price as int, (#[trigger] r[j]).price as int) by {
        assert(r[i] == l[i + 1] && r[j] == l[j + 1]);
    }
}

/// The flat queue of a well formed ladder is in price-time priority.
pub proof fn lemma_flat_sorted(side: OrderAction, l: Seq<Bucket>)
    requires
        ladder_wf(side, l),
    ensures
        priority_sorted(side, flat(l)),
        forall|k: int| 0 <= k < flat(l).len() ==> order_wf(#[trigger] flat(l)[k]),
    decreases l.len(),
{
    if l.len() > 0 {
        let r = l.drop_first();
        lemma_ladder_tail(side, l);
        lemma_flat_sorted(side, r);
        lemma_flat_prices_below(side, r, l[0].price as int);
        let o = l[0].orders@;
        let f = flat(l);
        assert(l[0].wf());
        assert(f == o + flat(r));
        assert forall|k: int| 0 <= k < f.len() implies order_wf(#[trigger] f[k]) by {
            if k < o.len() {
                assert(f[k] == o[k]);
            } else {
                assert(f[k] == flat(r)[k - o.len()]);
            }
        }
        assert forall|i: int, j: int| 0 <= i < j < f.len() implies better(side, (#[trigger] f[i]).price as int, (#[trigger] f[j]).price as int)
            || (f[i].price == f[j].price && f[i].sequence < f[j].sequence) by {
            if j < o.len() {
                assert(f[i] == o[i] && f[j] == o[j]);
            } else if i < o.len() {
                assert(f[i] == o[i] && f[j] == flat(r)[j - o.len()]);
            } else {
                assert(f[i] == flat(r)[i - o.len()] && f[j] == flat(r)[j - o.len()]);
            }
        }
    }
}

pub proof fn lemma_crossing_volume_nonneg(l: Seq<Bucket>, side: OrderAction, limit: Option<i64>)
    requires
        forall|i: int| 0 <= i < l.len() ==> (#[trigger] l[i]).inv(),
    ensures
        crossing_volume(l, side, limit) >= 0,
    decreases l.len(),
{
    if l.len() > 0 {
        assert(l[0].inv());
        lemma_volume_bounds(l[0].orders@);
        assert forall|i: int| 0 <= i < l.drop_first().len() implies (#[trigger] l.drop_first()[i]).inv() by {
            assert(l.drop_first()[i] == l[i + 1]);
        }
        lemma_crossing_volume_nonneg(l.drop_first(), side, limit);
    }
}

pub proof fn lemma_consumed_facts(f: Seq<RestingOrder>, o: Seq<RestingOrder>, n: u64)
    requires
        consumed_from(f, o),
    ensures
        ids_unique(o) ==> ids_unique(f),
        forall|id: u64| has_id(f, id) ==> has_id(o, id),
        sequences_below(o, n) ==> sequences_below(f, n),
{
    let d = o.len() - f.len();
    assert forall|k: int| 0 <= k < f.len() implies same_order(#[trigger] f[k], o[k + d]) by {
        if k > 0 {
            assert(f[k] == o[k + d]);
        }
    }
    assert forall|id: u64| has_id(f, id) implies has_id(o, id) by {
        let k = choose|k: int| 0 <= k < f.len() && (#[trigger] f[k]).order_id == id;
        assert(same_order(f[k], o[k + d]));
    }
    if ids_unique(o) {
        assert forall|i: int, j: int| 0 <= i < f.len() && 0 <= j < f.len() && i != j implies (#[trigger] f[i]).order_id != (#[trigger] f[j]).order_id by {
            assert(same_order(f[i], o[i + d]) && same_order(f[j], o[j + d]));
        }
    }
    if sequences_below(o, n) {
        assert forall|k: int| 0 <= k < f.len() implies (#[trigger] f[k]).sequence < n by {
            assert(same_order(f[k], o[k + d]));
        }
    }
}

pub proof fn lemma_insert_facts(s: Seq<RestingOrder>, p: int, x: RestingOrder, n: u64)
    requires
        0 <= p <= s.len(),
    ensures
        ids_unique(s) && !has_id(s, x.order_id) ==> ids_unique(s.insert(p, x)),
        forall|id: u64| has_id(s.insert(p, x), id) == (has_id(s, id) || id == x.order_id),
        sequences_below(s, n) && x.sequence < n ==> sequences_below(s.insert(p, x), n),
        s.insert(p, x).contains(x),
{
    let t = s.insert(p, x);
    assert(t[p] == x);
    assert forall|k: int| 0 <= k < t.len() implies #[trigger] t[k] == (if k < p { s[k] } else if k == p { x } else { s[k - 1] }) by {}
    assert forall|id: u64| has_id(t, id) == (has_id(s, id) || id == x.order_id) by {
        if has_id(s, id) {
            let k = choose|k: int| 0 <= k < s.len() && (#[trigger] s[k]).order_id == id;
            if k < p {
                assert(t[k] == s[k]);
            } else {
                assert(t[k + 1] == s[k]);
            }
        }
        if has_id(t, id) {
            let k = choose|k: int| 0 <= k < t.len() && (#[trigger] t[k]).order_id == id;
            if k < p {
                assert(t[k] == s[k]);
            } else if k > p {
                assert(t[k] == s[k - 1]);
            }
        }
    }
    if ids_unique(s) && !has_id(s, x.order_id) {
        assert forall|i: int, j: int| 0 <= i < t.len() && 0 <= j < t.len() && i != j implies (#[trigger] t[i]).order_id != (#[trigger] t[j]).order_id by {
            if i == p {
                let jj = if j < p { j } else { j - 1 };
                assert(t[j] == s[jj]);
            } else if j == p {
                let ii = if i < p { i } else { i - 1 };
                assert(t[i] == s[ii]);
            } else {
                let ii = if i < p { i } else { i - 1 };
                let jj = if j < p { j } else { j - 1 };
                assert(t[i] == s[ii] && t[j] == s[jj]);
            }
        }
    }
}

pub proof fn lemma_remove_facts(s: Seq<RestingOrder>, p: int, n: u64)
    requires
        0 <= p < s.len(),
    ensures
        ids_unique(s) ==> ids_unique(s.remove(p)) && !has_id(s.remove(p), s[p].order_id),
        forall|id: u64| has_id(s.remove(p), id) ==> has_id(s, id),
        sequences_below(s, n) ==> sequences_below(s.remove(p), n),
{
    let t = s.remove(p);
    assert forall|k: int| 0 <= k < t.len() implies #[trigger] t[k] == (if k < p { s[k] } else { s[k + 1] }) by {}
    assert forall|id: u64| has_id(t, id) implies has_id(s, id) by {
        let k = choose|k: int| 0 <= k < t.len() && (#[trigger] t[k]).order_id == id;
        if k < p {
            assert(t[k] == s[k]);
        } else {
            assert(t[k] == s[k + 1]);
        }
    }
    if ids_unique(s) {
        assert forall|i: int, j: int| 0 <= i < t.len() && 0 <= j < t.len() && i != j implies (#[trigger] t[i]).order_id != (#[trigger] t[j]).order_id by {
            let ii = if i < p { i } else { i + 1 };
            let jj = if j < p { j } else { j + 1 };
            assert(t[i] == s[ii] && t[j] == s[jj]);
        }
        if has_id(t, s[p].order_id) {
            let k = choose|k: int| 0 <= k < t.len() && (#[trigger] t[k]).order_id == s[p].order_id;
            let kk = if k < p { k } else { k + 1 };
            assert(t[k] == s[kk]);
        }
    }
}

} // verus!
