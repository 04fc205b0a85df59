//! Order ids in a book: the orders of a side in priority order, and the
//! facts that keep their ids distinct across matching, resting and removal.
use vstd::prelude::*;
use crate::model::{
    better, crosses, insert_resting, match_levels, min_int, with_orders, LevelView,
};
use crate::side::{holds_at, without_order};
use crate::types::Order;

verus! {

/// The orders of the levels in priority order: best level first, oldest
/// order first within a level.
pub open spec fn flatten(levels: Seq<LevelView>) -> Seq<Order>
    decreases levels.len(),
{
    if levels.len() == 0 {
        Seq::empty()
    } else {
        levels[0].orders + flatten(levels.drop_first())
    }
}

/// The ids of a sequence of orders.
pub open spec fn ids(s: Seq<Order>) -> Seq<u64> {
    s.map_values(|o: Order| o.id)
}

/// No id occurs twice.
pub open spec fn distinct(s: Seq<u64>) -> bool {
    forall|i: int, j: int| 0 <= i < j < s.len() ==> s[i] != s[j]
}

/// Where level `i` starts in `flatten(levels)`.
pub open spec fn offset(levels: Seq<LevelView>, i: int) -> int
    decreases i,
{
    if i <= 0 || levels.len() == 0 {
        0
    } else {
        levels[0].orders.len() + offset(levels.drop_first(), i - 1)
    }
}

/// The order at position (`i`, `j`) stands at `offset(levels, i) + j` of
/// the flattened levels.
pub proof fn lemma_flatten_at(levels: Seq<LevelView>, i: int, j: int)
    requires
        holds_at(levels, i, j),
    ensures
        0 <= offset(levels, i) + j < flatten(levels).len(),
        flatten(levels)[offset(levels, i) + j] == levels[i].orders[j],
    decreases i,
{
    if i > 0 {
        let d = levels.drop_first();
        assert(holds_at(d, i - 1, j));
        lemma_flatten_at(d, i - 1, j);
    }
}

/// Later levels start after earlier ones end.
pub proof fn lemma_offset_order(levels: Seq<LevelView>, i: int, i2: int)
    requires
        0 <= i < i2 < levels.len(),
    ensures
        offset(levels, i2) >= offset(levels, i) + levels[i].orders.len(),
    decreases i,
{
    let d = levels.drop_first();
    if i == 0 {
        lemma_offset_nonneg(d, i2 - 1);
    } else {
        lemma_offset_order(d, i - 1, i2 - 1);
    }
}

pub proof fn lemma_offset_nonneg(levels: Seq<LevelView>, i: int)
    ensures
        offset(levels, i) >= 0,
    decreases i,
{
    if i > 0 && levels.len() > 0 {
        lemma_offset_nonneg(levels.drop_first(), i - 1);
    }
}

/// Every order of the flattened levels stands at some position.
pub proof fn lemma_flatten_member(levels: Seq<LevelView>, k: int)
    requires
        0 <= k < flatten(levels).len(),
    ensures
        exists|i: int, j: int| holds_at(levels, i, j) && #[trigger] levels[i].orders[j] == flatten(levels)[k],
    decreases levels.len(),
{
    let l0 = levels[0];
    let d = levels.drop_first();
    if k < l0.orders.len() {
        assert(holds_at(levels, 0, k) && levels[0].orders[k] == flatten(levels)[k]);
    } else {
        lemma_flatten_member(d, k - l0.orders.len());
        let (i, j) = choose|i: int, j: int| holds_at(d, i, j) && #[trigger] d[i].orders[j] == flatten(d)[k - l0.orders.len()];
        assert(holds_at(levels, i + 1, j) && levels[i + 1].orders[j] == flatten(levels)[k]);
    }
}

/// Matching leaves the ids of the flattened levels less some at the front.
pub proof fn lemma_match_ids(levels: Seq<LevelView>, taker: Order, next_id: int, ts: u64)
    ensures
        exists|k: int|
            0 <= k <= ids(flatten(levels)).len() && ids(flatten(match_levels(levels, taker, next_id, ts).0))
                == #[trigger] ids(flatten(levels)).skip(k),
    decreases levels.len(), levels[0].orders.len(),
{
    let m = match_levels(levels, taker, next_id, ts);
    let f = ids(flatten(levels));
    if levels.len() == 0 || taker.residual() <= 0 || !crosses(taker, levels[0].price_tick) {
        assert(f.skip(0) =~= f);
    } else {
        let l0 = levels[0];
        let d = levels.drop_first();
        if l0.orders.len() == 0 {
            assert(flatten(levels) =~= flatten(d));
            lemma_match_ids(d, taker, next_id, ts);
        } else {
            let maker = l0.orders[0];
            let q = min_int(taker.residual(), maker.residual());
            let taker2 = taker.filled_by(q);
            let maker2 = maker.filled_by(q);
            if maker2.residual() > 0 {
                let n = levels.update(0, with_orders(l0, l0.orders.update(0, maker2)));
                assert(n.drop_first() =~= d);
                assert(ids(flatten(n)) =~= f);
                assert(f.skip(0) =~= f);
            } else {
                let rest = l0.orders.drop_first();
                let levels2 = if rest.len() == 0 {
                    d
                } else {
                    levels.update(0, with_orders(l0, rest))
                };
                if rest.len() > 0 {
                    assert(levels2.drop_first() =~= d);
                }
                assert(ids(flatten(levels2)) =~= f.drop_first());
                lemma_match_ids(levels2, taker2, next_id + 1, ts);
                let k = choose|k: int|
                    0 <= k <= ids(flatten(levels2)).len() && ids(flatten(match_levels(levels2, taker2, next_id + 1, ts).0))
                        == #[trigger] ids(flatten(levels2)).skip(k);
                assert(f.drop_first().skip(k) =~= f.skip(k + 1));
            }
        }
    }
}

/// Resting an order puts its id somewhere among the ids of the levels.
pub proof fn lemma_insert_ids(levels: Seq<LevelView>, o: Order, hib: bool)
    ensures
        exists|k: int|
            0 <= k <= ids(flatten(levels)).len() && ids(flatten(insert_resting(levels, o, hib)))
                == #[trigger] ids(flatten(levels)).take(k) + seq![o.id] + ids(flatten(levels)).skip(k),
    decreases levels.len(),
{
    let f = ids(flatten(levels));
    let r = insert_resting(levels, o, hib);
    assert(flatten(Seq::<LevelView>::empty()) == Seq::<Order>::empty());
    if levels.len() == 0 {
        assert(r.drop_first() =~= Seq::<LevelView>::empty());
        assert(flatten(r) =~= seq![o]);
        assert(f =~= Seq::<u64>::empty());
        assert(ids(flatten(r)) =~= f.take(0) + seq![o.id] + f.skip(0));
    } else {
        let l0 = levels[0];
        let d = levels.drop_first();
        let n = l0.orders.len() as int;
        if l0.price_tick == o.price_tick {
            assert(r.drop_first() =~= d);
            assert(ids(flatten(r)) =~= f.take(n) + seq![o.id] + f.skip(n));
        } else if better(hib, o.price_tick, l0.price_tick) {
            assert(r.drop_first() =~= levels);
            assert(ids(flatten(r)) =~= f.take(0) + seq![o.id] + f.skip(0));
        } else {
            assert(r.drop_first() =~= insert_resting(d, o, hib));
            lemma_insert_ids(d, o, hib);
            let g = ids(flatten(d));
            let k = choose|k: int|
                0 <= k <= g.len() && ids(flatten(insert_resting(d, o, hib))) == #[trigger] g.take(k) + seq![o.id]
                    + g.skip(k);
            assert(r[0] == l0);
            assert(f =~= ids(l0.orders) + g);
            assert(ids(flatten(r)) =~= ids(l0.orders) + ids(flatten(insert_resting(d, o, hib))));
            assert(ids(flatten(r)) =~= f.take(n + k) + seq![o.id] + f.skip(n + k));
        }
    }
}

/// Taking one order out removes one id.
pub proof fn lemma_without_ids(levels: Seq<LevelView>, i: int, j: int)
    requires
        holds_at(levels, i, j),
    ensures
        exists|k: int|
            0 <= k < ids(flatten(levels)).len() && ids(flatten(without_order(levels, i, j)))
                == #[trigger] ids(flatten(levels)).remove(k),
    decreases i,
{
    let f = ids(flatten(levels));
    let l0 = levels[0];
    let d = levels.drop_first();
    let w = without_order(levels, i, j);
    assert(f =~= ids(l0.orders) + ids(flatten(d)));
    if i == 0 {
        let rest = l0.orders.remove(j);
        if rest.len() == 0 {
            assert(w =~= d);
            assert(ids(flatten(w)) =~= f.remove(j));
        } else {
            assert(w.drop_first() =~= d);
            assert(ids(flatten(w)) =~= ids(rest) + ids(flatten(d)));
            assert(ids(flatten(w)) =~= f.remove(j));
        }
    } else {
        lemma_without_ids(d, i - 1, j);
        let rest = levels[i].orders.remove(j);
        if rest.len() == 0 {
            assert(w.drop_first() =~= d.remove(i - 1));
        } else {
            assert(w.drop_first() =~= d.update(i - 1, with_orders(levels[i], rest)));
        }
        assert(w.drop_first() == without_order(d, i - 1, j));
        let g = ids(flatten(d));
        let k = choose|k: int| 0 <= k < g.len() && ids(flatten(without_order(d, i - 1, j))) == #[trigger] g.remove(k);
        let n = l0.orders.len() as int;
        assert(w[0] == l0);
        assert(ids(flatten(w)) =~= ids(l0.orders) + ids(flatten(without_order(d, i - 1, j))));
        assert(ids(flatten(w)) =~= f.remove(n + k));
    }
}

/// Dropping ids from the front of either part keeps them distinct.
pub proof fn lemma_distinct_skip(a: Seq<u64>, b: Seq<u64>, k: int, in_a: bool)
    requires
        distinct(a + b),
        0 <= k <= (if in_a { a.len() } else { b.len() }),
    ensures
        in_a ==> distinct(a.skip(k) + b),
        !in_a ==> distinct(a + b.skip(k)),
{
    let s = a + b;
    if in_a {
        let t = a.skip(k) + b;
        assert forall|i: int, j: int| 0 <= i < j < t.len() implies t[i] != t[j] by {
            assert(t[i] == s[i + k] && t[j] == s[j + k]);
        }
    } else {
        let t = a + b.skip(k);
        assert forall|i: int, j: int| 0 <= i < j < t.len() implies t[i] != t[j] by {
            let i2 = if i < a.len() { i } else { i + k };
            let j2 = if j < a.len() { j } else { j + k };
            assert(t[i] == s[i2] && t[j] == s[j2]);
        }
    }
}

/// Removing an id from either part keeps them distinct.
pub proof fn lemma_distinct_remove(a: Seq<u64>, b: Seq<u64>, k: int, in_a: bool)
    requires
        distinct(a + b),
        0 <= k < (if in_a { a.len() } else { b.len() }),
    ensures
        in_a ==> distinct(a.remove(k) + b),
        !in_a ==> distinct(a + b.remove(k)),
{
    let s = a + b;
    let split = if in_a { k } else { a.len() + k };
    let t = if in_a { a.remove(k) + b } else { a + b.remove(k) };
    assert forall|i: int, j: int| 0 <= i < j < t.len() implies t[i] != t[j] by {
        let i2 = if i < split { i } else { i + 1 };
        let j2 = if j < split { j } else { j + 1 };
        assert(t[i] == s[i2] && t[j] == s[j2]);
    }
    assert(in_a ==> t == a.remove(k) + b);
}

/// Putting a new id into either part keeps them distinct.
pub proof fn lemma_distinct_insert(a: Seq<u64>, b: Seq<u64>, k: int, x: u64, in_a: bool)
    requires
        distinct(a + b),
        forall|i: int| 0 <= i < (a + b).len() ==> (a + b)[i] != x,
        0 <= k <= (if in_a { a.len() } else { b.len() }),
    ensures
        in_a ==> distinct(a.take(k) + seq![x] + a.skip(k) + b),
        !in_a ==> distinct(a + (b.take(k) + seq![x] + b.skip(k))),
{
    let s = a + b;
    let split = if in_a { k } else { a.len() + k };
    let t = if in_a { a.take(k) + seq![x] + a.skip(k) + b } else { a + (b.take(k) + seq![x] + b.skip(k)) };
    assert(t.len() == s.len() + 1);
    assert forall|i: int| 0 <= i < t.len() implies t[i] == (if i < split { s[i] } else if i == split { x } else {
        s[i - 1]
    }) by {}
    assert forall|i: int, j: int| 0 <= i < j < t.len() implies t[i] != t[j] by {}
}

} // verus!
