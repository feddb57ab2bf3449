use vstd::prelude::*;

use super::book::{admits, ahead, level_queue, levels_wf, match_spec, traded_quantity, Level};
use super::order::OrderSide;

verus! {

proof fn lemma_drop_last_wf(levels: Seq<Level>, side: OrderSide)
    requires
        levels_wf(levels, side),
        levels.len() > 0,
    ensures
        levels_wf(levels.drop_last(), side),
{
    let next = levels.drop_last();
    assert forall|i: int| 0 <= i < next.len() implies next[i] == levels[i] by {}
}

proof fn lemma_shrink_best_wf(levels: Seq<Level>, side: OrderSide)
    requires
        levels_wf(levels, side),
        levels.len() > 0,
        levels.last().1.len() > 1,
    ensures
        levels_wf(
            levels.update(levels.len() - 1, (levels.last().0, levels.last().1.drop_first())),
            side,
        ),
{
    let last = levels.len() - 1;
    let next = levels.update(last, (levels.last().0, levels.last().1.drop_first()));
    assert forall|i: int, k: int| 0 <= i < next.len() && 0 <= k < next[i].1.len() implies {
        &&& (#[trigger] next[i].1[k]).quantity > 0
        &&& next[i].1[k].price == next[i].0
        &&& next[i].1[k].side == side
    } by {
        if i == last {
            assert(next[i].1[k] == levels[i].1[k + 1]);
        } else {
            assert(next[i] == levels[i]);
        }
    }
    assert forall|i: int| 0 <= i < next.len() implies #[trigger] next[i].1.len() > 0 by {
        if i != last {
            assert(next[i] == levels[i]);
        }
    }
    assert forall|i: int, j: int| 0 <= i < j < next.len() implies ahead(
        side,
        #[trigger] next[j].0,
        #[trigger] next[i].0,
    ) by {
        assert(next[i].0 == levels[i].0 && next[j].0 == levels[j].0);
    }
}

/// Quantity is conserved by matching: the quantities of the trades of one incoming
/// order, plus what is left of it unfilled, add up to the order's quantity.
pub proof fn lemma_quantity_conservation(
    levels: Seq<Level>,
    taker: u64,
    side: OrderSide,
    limit: Option<u64>,
    qty: nat,
)
    ensures
        ({
            let m = match_spec(levels, taker, side, limit, qty);
            traded_quantity(m.1) + m.2 == qty
        }),
    decreases levels.len(), if levels.len() > 0 { levels.last().1.len() } else { 0 },
{
    let m = match_spec(levels, taker, side, limit, qty);
    if qty == 0 || levels.len() == 0 || levels.last().1.len() == 0 || !admits(
        side,
        limit,
        levels.last().0,
    ) {
        assert(m.1.len() == 0);
    } else {
        let last = levels.len() - 1;
        let price = levels.last().0;
        let queue = levels.last().1;
        let maker = queue[0];
        if maker.quantity > qty {
            assert(m.1.drop_first().len() == 0);
            assert(traded_quantity(m.1.drop_first()) == 0);
        } else {
            let rest = queue.drop_first();
            let next = if rest.len() == 0 {
                levels.drop_last()
            } else {
                levels.update(last, (price, rest))
            };
            let r = match_spec(next, taker, side, limit, (qty - maker.quantity) as nat);
            lemma_quantity_conservation(next, taker, side, limit, (qty - maker.quantity) as nat);
            assert(m.1.drop_first() =~= r.1);
        }
    }
}

/// Price priority: on a well-formed opposite side, an incoming order trades at the best
/// price first. Its trade prices never improve from one trade to the next, none is
/// better than the best price the opposite side offered, and no level left on the
/// opposite side has a better price than any trade that was made.
pub proof fn lemma_price_priority(
    levels: Seq<Level>,
    taker: u64,
    side: OrderSide,
    limit: Option<u64>,
    qty: nat,
)
    requires
        levels_wf(levels, side.opposite()),
    ensures
        ({
            let m = match_spec(levels, taker, side, limit, qty);
            let book = side.opposite();
            &&& forall|i: int, j: int|
                0 <= i < j < m.1.len() ==> !ahead(book, #[trigger] m.1[j].price, #[trigger] m.1[i].price)
            &&& forall|i: int, k: int|
                0 <= i < m.1.len() && 0 <= k < m.0.len() ==> !ahead(
                    book,
                    #[trigger] m.0[k].0,
                    #[trigger] m.1[i].price,
                )
            &&& forall|i: int|
                0 <= i < m.1.len() ==> levels.len() > 0 && !ahead(
                    book,
                    #[trigger] m.1[i].price,
                    levels.last().0,
                )
            &&& forall|k: int|
                0 <= k < m.0.len() ==> levels.len() > 0 && !ahead(
                    book,
                    #[trigger] m.0[k].0,
                    levels.last().0,
                )
        }),
    decreases levels.len(), if levels.len() > 0 { levels.last().1.len() } else { 0 },
{
    let book = side.opposite();
    let m = match_spec(levels, taker, side, limit, qty);
    if qty == 0 || levels.len() == 0 || levels.last().1.len() == 0 || !admits(
        side,
        limit,
        levels.last().0,
    ) {
        assert forall|k: int| 0 <= k < m.0.len() implies levels.len() > 0 && !ahead(
            book,
            #[trigger] m.0[k].0,
            levels.last().0,
        ) by {
            if k < levels.len() - 1 {
                assert(ahead(book, levels[levels.len() - 1].0, levels[k].0));
            }
        }
    } else {
        let last = levels.len() - 1;
        let price = levels.last().0;
        let queue = levels.last().1;
        let maker = queue[0];
        if maker.quantity > qty {
            assert forall|k: int| 0 <= k < m.0.len() implies !ahead(
                book,
                #[trigger] m.0[k].0,
                price,
            ) by {
                assert(m.0[k].0 == levels[k].0);
                if k < last {
                    assert(ahead(book, levels[last].0, levels[k].0));
                }
            }
        } else {
            let rest = queue.drop_first();
            let next = if rest.len() == 0 {
                levels.drop_last()
            } else {
                levels.update(last, (price, rest))
            };
            if rest.len() == 0 {
                lemma_drop_last_wf(levels, book);
            } else {
                lemma_shrink_best_wf(levels, book);
            }
            let r = match_spec(next, taker, side, limit, (qty - maker.quantity) as nat);
            lemma_price_priority(next, taker, side, limit, (qty - maker.quantity) as nat);
            if next.len() > 0 {
                assert(!ahead(book, next.last().0, price)) by {
                    if rest.len() == 0 {
                        assert(ahead(book, levels[last].0, levels[last - 1].0));
                    }
                }
            }
            assert forall|i: int| 0 < i < m.1.len() implies m.1[i] == r.1[i - 1] by {}
            assert forall|i: int, j: int| 0 <= i < j < m.1.len() implies !ahead(
                book,
                #[trigger] m.1[j].price,
                #[trigger] m.1[i].price,
            ) by {
                assert(m.1[j] == r.1[j - 1]);
                if i > 0 {
                    assert(m.1[i] == r.1[i - 1]);
                }
            }
            assert forall|i: int, k: int| 0 <= i < m.1.len() && 0 <= k < m.0.len() implies !ahead(
                book,
                #[trigger] m.0[k].0,
                #[trigger] m.1[i].price,
            ) by {
                if i > 0 {
                    assert(m.1[i] == r.1[i - 1]);
                }
            }
            assert forall|i: int| 0 <= i < m.1.len() implies !ahead(
                book,
                #[trigger] m.1[i].price,
                levels.last().0,
            ) by {
                if i > 0 {
                    assert(m.1[i] == r.1[i - 1]);
                }
            }
        }
    }
}

/// Time priority, and price priority with it: the makers of an incoming order's trades
/// are, one for one and in order, the first orders of the opposite side's queue (best
/// level first, oldest order first within a level).
pub proof fn lemma_fills_follow_queue(
    levels: Seq<Level>,
    taker: u64,
    side: OrderSide,
    limit: Option<u64>,
    qty: nat,
)
    ensures
        ({
            let m = match_spec(levels, taker, side, limit, qty);
            &&& m.1.len() <= level_queue(levels).len()
            &&& forall|i: int|
                0 <= i < m.1.len() ==> #[trigger] m.1[i].maker_order_id == level_queue(
                    levels,
                )[i].id
        }),
    decreases levels.len(), if levels.len() > 0 { levels.last().1.len() } else { 0 },
{
    let m = match_spec(levels, taker, side, limit, qty);
    if qty == 0 || levels.len() == 0 || levels.last().1.len() == 0 || !admits(
        side,
        limit,
        levels.last().0,
    ) {
    } else {
        let last = levels.len() - 1;
        let price = levels.last().0;
        let queue = levels.last().1;
        let maker = queue[0];
        let whole = level_queue(levels);
        assert(whole == queue + level_queue(levels.drop_last()));
        assert(whole[0] == maker);
        if maker.quantity > qty {
        } else {
            let rest = queue.drop_first();
            let next = if rest.len() == 0 {
                levels.drop_last()
            } else {
                levels.update(last, (price, rest))
            };
            let r = match_spec(next, taker, side, limit, (qty - maker.quantity) as nat);
            lemma_fills_follow_queue(next, taker, side, limit, (qty - maker.quantity) as nat);
            if rest.len() == 0 {
                assert(level_queue(next) =~= whole.drop_first());
            } else {
                assert(next.drop_last() =~= levels.drop_last());
                assert(level_queue(next) == rest + level_queue(next.drop_last()));
                assert(level_queue(next) =~= whole.drop_first());
            }
            assert forall|i: int| 0 <= i < m.1.len() implies #[trigger] m.1[i].maker_order_id
                == whole[i].id by {
                if i > 0 {
                    assert(m.1[i] == r.1[i - 1]);
                }
            }
        }
    }
}

} // verus!
