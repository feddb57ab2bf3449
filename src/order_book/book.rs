use vstd::prelude::*;

use super::order::{Order, OrderError, OrderSide, OrderType};
use super::trade_recorder::{Trade, TradeRecorder};

verus! {

/// A price level as the contracts see it: its price and its queue, oldest order first.
pub type Level = (u64, Seq<Order>);

/// On a book side of `side`, price `a` has priority over price `b`:
/// higher bids come first, lower asks come first.
pub open spec fn ahead(side: OrderSide, a: u64, b: u64) -> bool {
    match side {
        OrderSide::Buy => a > b,
        OrderSide::Sell => a < b,
    }
}

/// A book side of `side`, stored from the worst level to the best: every level is
/// non-empty, holds only orders of that side with a positive quantity at the level's
/// price, and the levels are strictly ordered by priority (the last one is the best).
pub open spec fn levels_wf(levels: Seq<Level>, side: OrderSide) -> bool {
    &&& forall|i: int| 0 <= i < levels.len() ==> #[trigger] levels[i].1.len() > 0
    &&& forall|i: int, k: int|
        0 <= i < levels.len() && 0 <= k < levels[i].1.len() ==> {
            &&& (#[trigger] levels[i].1[k]).quantity > 0
            &&& levels[i].1[k].price == levels[i].0
            &&& levels[i].1[k].side == side
        }
    &&& forall|i: int, j: int|
        0 <= i < j < levels.len() ==> ahead(side, #[trigger] levels[j].0, #[trigger] levels[i].0)
}

/// Whether an incoming order of `side` with limit `limit` may trade at `price`.
pub open spec fn admits(side: OrderSide, limit: Option<u64>, price: u64) -> bool {
    match limit {
        None => true,
        Some(l) => match side {
            OrderSide::Buy => price <= l,
            OrderSide::Sell => price >= l,
        },
    }
}

/// The outcome of matching an incoming order against the opposite side `levels`:
/// the opposite side afterwards, the trades in the order they happen, and the
/// quantity of the incoming order left unfilled.
pub open spec fn match_spec(
    levels: Seq<Level>,
    taker: u64,
    side: OrderSide,
    limit: Option<u64>,
    qty: nat,
) -> (Seq<Level>, Seq<Trade>, nat)
    decreases levels.len(), if levels.len() > 0 { levels.last().1.len() } else { 0 },
{
    if qty == 0 || levels.len() == 0 || levels.last().1.len() == 0 || !admits(
        side,
        limit,
        levels.last().0,
    ) {
        (levels, Seq::empty(), qty)
    } else {
        let last = levels.len() - 1;
        let price = levels.last().0;
        let queue = levels.last().1;
        let maker = queue[0];
        if maker.quantity > qty {
            let reduced = Order { quantity: (maker.quantity - qty) as u64, ..maker };
            (
                levels.update(last, (price, queue.update(0, reduced))),
                seq![Trade { taker_order_id: taker, maker_order_id: maker.id, quantity: qty as u64, price }],
                0,
            )
        } else {
            let rest = queue.drop_first();
            let next = if rest.len() == 0 {
                levels.drop_last()
            } else {
                levels.update(last, (price, rest))
            };
            let r = match_spec(next, taker, side, limit, (qty - maker.quantity) as nat);
            (
                r.0,
                seq![Trade { taker_order_id: taker, maker_order_id: maker.id, quantity: maker.quantity, price }]
                    + r.1,
                r.2,
            )
        }
    }
}

/// The number of leading (worst) levels that `price` has priority over.
pub open spec fn insert_pos(levels: Seq<Level>, side: OrderSide, price: u64) -> nat
    decreases levels.len(),
{
    if levels.len() > 0 && ahead(side, price, levels[0].0) {
        1 + insert_pos(levels.drop_first(), side, price)
    } else {
        0
    }
}

/// A book side after `order` comes to rest on it at `price`: appended to the level of
/// that price, or alone in a new level at its place in the priority order.
pub open spec fn rest_spec(levels: Seq<Level>, side: OrderSide, price: u64, order: Order) -> Seq<
    Level,
> {
    let k = insert_pos(levels, side, price) as int;
    if k < levels.len() && levels[k].0 == price {
        levels.update(k, (price, levels[k].1.push(order)))
    } else {
        levels.insert(k, (price, seq![order]))
    }
}

/// The sum of the quantities of `trades`.
pub open spec fn traded_quantity(trades: Seq<Trade>) -> nat
    decreases trades.len(),
{
    if trades.len() == 0 {
        0
    } else {
        (trades[0].quantity + traded_quantity(trades.drop_first())) as nat
    }
}

/// All orders of a book side in the order in which they would be matched:
/// best level first, and within a level oldest first.
pub open spec fn level_queue(levels: Seq<Level>) -> Seq<Order>
    decreases levels.len(),
{
    if levels.len() == 0 {
        Seq::empty()
    } else {
        levels.last().1 + level_queue(levels.drop_last())
    }
}

/// The quantities of the orders resting at `price` on `levels`, oldest first; empty
/// where no level has that price.
pub open spec fn quantities_at(levels: Seq<Level>, price: u64) -> Seq<u64> {
    if exists|i: int| 0 <= i < levels.len() && levels[i].0 == price {
        let i = choose|i: int| 0 <= i < levels.len() && levels[i].0 == price;
        levels[i].1.map_values(|o: Order| o.quantity)
    } else {
        Seq::empty()
    }
}

/// The orders resting at one price, oldest first.
struct PriceLevel {
    price: u64,
    orders: std::collections::VecDeque<Order>,
}

spec fn levels_view(levels: Seq<PriceLevel>) -> Seq<Level> {
    levels.map_values(|l: PriceLevel| (l.price, l.orders@))
}

/// The best level of `levels` exists and an incoming order of `side` with `limit`
/// may trade at its price.
fn best_admits(levels: &Vec<PriceLevel>, side: OrderSide, limit: Option<u64>) -> (r: bool)
    ensures
        r == (levels@.len() > 0 && admits(side, limit, levels@.last().price)),
{
    if levels.len() == 0 {
        return false;
    }
    let price = levels[levels.len() - 1].price;
    match limit {
        None => true,
        Some(l) => match side {
            OrderSide::Buy => price <= l,
            OrderSide::Sell => price >= l,
        },
    }
}

/// Matches an incoming order of `side` with id `taker`, limit `limit` and quantity
/// `qty` against the opposite side `opposite`; returns the fills and what is left.
fn match_order(
    opposite: &mut Vec<PriceLevel>,
    taker: u64,
    side: OrderSide,
    limit: Option<u64>,
    qty: u64,
) -> (r: (Vec<Trade>, u64))
    requires
        levels_wf(levels_view(old(opposite)@), side.opposite()),
    ensures
        ({
            let m = match_spec(levels_view(old(opposite)@), taker, side, limit, qty as nat);
            &&& levels_view(final(opposite)@) == m.0
            &&& r.0@ == m.1
            &&& r.1 == m.2
        }),
        levels_wf(levels_view(final(opposite)@), side.opposite()),
{
    let ghost start = levels_view(opposite@);
    let mut fills: Vec<Trade> = Vec::new();
    let mut left: u64 = qty;
    while left > 0 && best_admits(opposite, side, limit)
        invariant
            levels_wf(levels_view(opposite@), side.opposite()),
            ({
                let whole = match_spec(start, taker, side, limit, qty as nat);
                let rest = match_spec(levels_view(opposite@), taker, side, limit, left as nat);
                &&& whole.0 == rest.0
                &&& whole.1 == fills@ + rest.1
                &&& whole.2 == rest.2
            }),
        decreases opposite@.len(), if opposite@.len() > 0 { opposite@.last().orders@.len() } else { 0 }, left,
    {
        let ghost before = levels_view(opposite@);
        let mut level = opposite.pop().unwrap();
        assert(levels_view(opposite@) =~= before.drop_last());
        assert(before.last() == (level.price, level.orders@));
        let price = level.price;
        let mut maker = level.orders.pop_front().unwrap();
        if maker.quantity > left {
            maker.quantity = maker.quantity - left;
            fills.push(
                Trade { taker_order_id: taker, maker_order_id: maker.id, quantity: left, price },
            );
            left = 0;
            level.orders.push_front(maker);
            opposite.push(level);
            proof {
                let last = before.len() - 1;
                assert(level.orders@ =~= before.last().1.update(0, maker));
                assert(levels_view(opposite@) =~= before.update(last, (price, level.orders@)));
            }
        } else {
            let filled = maker.quantity;
            fills.push(
                Trade { taker_order_id: taker, maker_order_id: maker.id, quantity: filled, price },
            );
            left = left - filled;
            if level.orders.len() > 0 {
                opposite.push(level);
                proof {
                    let last = before.len() - 1;
                    assert(levels_view(opposite@) =~= before.update(
                        last,
                        (price, before.last().1.drop_first()),
                    ));
                }
            }
        }
    }
    (fills, left)
}

/// Whether price `a` has priority over price `b` on a book side of `side`.
fn ranks_ahead(side: OrderSide, a: u64, b: u64) -> (r: bool)
    ensures
        r == ahead(side, a, b),
{
    match side {
        OrderSide::Buy => a > b,
        OrderSide::Sell => a < b,
    }
}

proof fn lemma_insert_pos(levels: Seq<Level>, side: OrderSide, price: u64, i: int)
    requires
        0 <= i <= levels.len(),
        forall|j: int| 0 <= j < i ==> ahead(side, price, #[trigger] levels[j].0),
        i == levels.len() || !ahead(side, price, levels[i].0),
    ensures
        insert_pos(levels, side, price) == i,
    decreases i,
{
    if i > 0 {
        assert(ahead(side, price, levels[0].0));
        let tail = levels.drop_first();
        assert forall|j: int| 0 <= j < i - 1 implies ahead(side, price, #[trigger] tail[j].0) by {
            assert(tail[j] == levels[j + 1]);
        }
        lemma_insert_pos(tail, side, price, i - 1);
    }
}

/// Puts `order` at the back of the queue at `price` on the book side `levels`,
/// opening a new level there if there is none.
fn insert_resting(levels: &mut Vec<PriceLevel>, side: OrderSide, price: u64, order: Order)
    requires
        levels_wf(levels_view(old(levels)@), side),
        order.quantity > 0,
        order.price == price,
        order.side == side,
    ensures
        levels_view(final(levels)@) == rest_spec(levels_view(old(levels)@), side, price, order),
        levels_wf(levels_view(final(levels)@), side),
{
    let ghost start = levels_view(levels@);
    let mut i: usize = 0;
    while i < levels.len() && ranks_ahead(side, price, levels[i].price)
        invariant
            0 <= i <= levels@.len(),
            levels_view(levels@) == start,
            forall|j: int| 0 <= j < i ==> ahead(side, price, #[trigger] start[j].0),
        decreases levels@.len() - i,
    {
        i = i + 1;
    }
    proof {
        lemma_insert_pos(start, side, price, i as int);
    }
    if i < levels.len() && levels[i].price == price {
        let mut level = levels.remove(i);
        level.orders.push_back(order);
        levels.insert(i, level);
        let ghost new = start.update(i as int, (price, start[i as int].1.push(order)));
        assert(levels_view(levels@) =~= new);
        assert forall|a: int, k: int| 0 <= a < new.len() && 0 <= k < new[a].1.len() implies {
            &&& (#[trigger] new[a].1[k]).quantity > 0
            &&& new[a].1[k].price == new[a].0
            &&& new[a].1[k].side == side
        } by {
            if a == i && k < start[a].1.len() {
                assert(new[a].1[k] == start[a].1[k]);
            }
        }
        assert forall|a: int| 0 <= a < new.len() implies #[trigger] new[a].1.len() > 0 by {
            if a != i {
                assert(new[a] == start[a]);
            }
        }
        assert forall|a: int, b: int| 0 <= a < b < new.len() implies ahead(
            side,
            #[trigger] new[b].0,
            #[trigger] new[a].0,
        ) by {
            assert(new[a].0 == start[a].0 && new[b].0 == start[b].0);
        }
    } else {
        let mut queue = std::collections::VecDeque::new();
        queue.push_back(order);
        levels.insert(i, PriceLevel { price, orders: queue });
        let ghost new = start.insert(i as int, (price, seq![order]));
        assert(levels_view(levels@) =~= new);
        assert(i < start.len() ==> ahead(side, start[i as int].0, price));
        assert forall|a: int, b: int| 0 <= a < b < new.len() implies ahead(
            side,
            #[trigger] new[b].0,
            #[trigger] new[a].0,
        ) by {
            if b < i {
                assert(new[a] == start[a] && new[b] == start[b]);
            } else if b == i {
                assert(new[a] == start[a]);
            } else if a == i {
                assert(new[b] == start[b - 1]);
                if b - 1 > i {
                    assert(ahead(side, start[b - 1].0, start[i as int].0));
                }
            } else if a < i {
                assert(new[a] == start[a] && new[b] == start[b - 1]);
                assert(ahead(side, start[i as int].0, price));
                if b - 1 > i {
                    assert(ahead(side, start[b - 1].0, start[i as int].0));
                }
            } else {
                assert(new[a] == start[a - 1] && new[b] == start[b - 1]);
            }
        }
        assert forall|a: int, k: int| 0 <= a < new.len() && 0 <= k < new[a].1.len() implies {
            &&& (#[trigger] new[a].1[k]).quantity > 0
            &&& new[a].1[k].price == new[a].0
            &&& new[a].1[k].side == side
        } by {
            if a < i {
                assert(new[a] == start[a]);
            } else if a > i {
                assert(new[a] == start[a - 1]);
            }
        }
        assert forall|a: int| 0 <= a < new.len() implies #[trigger] new[a].1.len() > 0 by {
            if a < i {
                assert(new[a] == start[a]);
            } else if a > i {
                assert(new[a] == start[a - 1]);
            }
        }
    }
}

/// Every price level of a book that satisfies its invariant holds at least one order.
/// A new book satisfies it and every operation keeps it, so this holds of every book
/// that can be reached.
pub proof fn lemma_no_empty_levels(book: OrderBook, side: OrderSide)
    requires
        book.wf(),
    ensures
        forall|i: int|
            0 <= i < book.side_levels(side).len() ==> #[trigger] book.side_levels(side)[i].1.len()
                > 0,
{
}

/// A limit order book for one instrument: resting buy orders (bids) and resting sell
/// orders (asks) in price-time priority, an id counter, and an optional trade recorder.
pub struct OrderBook {
    buy_side: Vec<PriceLevel>,
    sell_side: Vec<PriceLevel>,
    next_order_id: u64,
    trade_recorder: Option<TradeRecorder>,
}

impl OrderBook {
    /// The bid levels, worst price first, best price last.
    pub closed spec fn bids(&self) -> Seq<Level> {
        levels_view(self.buy_side@)
    }

    /// The ask levels, worst price first, best price last.
    pub closed spec fn asks(&self) -> Seq<Level> {
        levels_view(self.sell_side@)
    }

    /// The levels on which orders of `side` rest.
    pub open spec fn side_levels(&self, side: OrderSide) -> Seq<Level> {
        match side {
            OrderSide::Buy => self.bids(),
            OrderSide::Sell => self.asks(),
        }
    }

    /// The id that the next accepted order gets.
    pub closed spec fn next_id(&self) -> u64 {
        self.next_order_id
    }

    /// The log of the attached trade recorder, if one is attached.
    pub closed spec fn recorded(&self) -> Option<Seq<Trade>> {
        match self.trade_recorder {
            Some(r) => Some(r@),
            None => None,
        }
    }

    /// The book's invariant: both sides well formed, ids start at one.
    pub closed spec fn wf(&self) -> bool {
        &&& levels_wf(self.bids(), OrderSide::Buy)
        &&& levels_wf(self.asks(), OrderSide::Sell)
        &&& self.next_order_id >= 1
    }

    /// `after` is this book once `order` has been accepted: it took the next id, was
    /// matched against the opposite side, and what is left of a limit order rests at its
    /// limit price while what is left of a market order is dropped. The fills go to the
    /// recorder, if one is attached.
    pub open spec fn placed(self, order: Order, after: OrderBook) -> bool {
        let id = self.next_id();
        let limit = order.order_type.limit();
        let m = match_spec(
            self.side_levels(order.side.opposite()),
            id,
            order.side,
            limit,
            order.quantity as nat,
        );
        let price = match limit {
            Some(p) => p,
            None => order.price,
        };
        let remainder = Order { id, price, quantity: m.2 as u64, ..order };
        &&& after.next_id() == id + 1
        &&& after.side_levels(order.side.opposite()) == m.0
        &&& after.side_levels(order.side) == if m.2 > 0 && limit is Some {
            rest_spec(self.side_levels(order.side), order.side, price, remainder)
        } else {
            self.side_levels(order.side)
        }
        &&& after.recorded() == match self.recorded() {
            Some(log) => Some(log + m.1),
            None => None,
        }
    }

    /// The error, if any, with which `order` is refused by this book.
    pub open spec fn rejection(self, order: Order) -> Option<OrderError> {
        if order.quantity == 0 {
            Some(OrderError::InvalidQuantity)
        } else if order.order_type.limit() == Some(0u64) {
            Some(OrderError::InvalidPrice)
        } else if self.next_id() == u64::MAX {
            Some(OrderError::IdSpaceExhausted)
        } else {
            None
        }
    }

    /// An empty book whose first order gets id 1, with no trade recorder.
    pub fn new() -> (r: OrderBook)
        ensures
            r.wf(),
            r.bids().len() == 0,
            r.asks().len() == 0,
            r.next_id() == 1,
            r.recorded() is None,
    {
        let r = OrderBook {
            buy_side: Vec::new(),
            sell_side: Vec::new(),
            next_order_id: 1,
            trade_recorder: None,
        };
        assert(r.bids() =~= Seq::<Level>::empty());
        assert(r.asks() =~= Seq::<Level>::empty());
        r
    }

    /// Attaches `recorder`, replacing any recorder attached before.
    pub fn set_trade_recorder(&mut self, recorder: TradeRecorder)
        requires
            old(self).wf(),
        ensures
            final(self).wf(),
            final(self).bids() == old(self).bids(),
            final(self).asks() == old(self).asks(),
            final(self).next_id() == old(self).next_id(),
            final(self).recorded() == Some(recorder@),
    {
        self.trade_recorder = Some(recorder);
    }

    /// The attached trade recorder, if any.
    pub fn trade_recorder(&self) -> (r: Option<&TradeRecorder>)
        ensures
            match r {
                Some(t) => self.recorded() == Some(t@),
                None => self.recorded() is None,
            },
    {
        match &self.trade_recorder {
            Some(t) => Some(t),
            None => None,
        }
    }

    /// The best price at which orders of `side` rest: the highest bid or the lowest ask.
    pub fn best_price(&self, side: OrderSide) -> (r: Option<u64>)
        ensures
            r == if self.side_levels(side).len() == 0 {
                None
            } else {
                Some(self.side_levels(side).last().0)
            },
    {
        let levels = match side {
            OrderSide::Buy => &self.buy_side,
            OrderSide::Sell => &self.sell_side,
        };
        if levels.len() == 0 {
            None
        } else {
            Some(levels[levels.len() - 1].price)
        }
    }

    /// The quantities of the orders of `side` resting at `price`, oldest first.
    pub fn resting_quantities(&self, side: OrderSide, price: u64) -> (r: Vec<u64>)
        requires
            self.wf(),
        ensures
            r@ == quantities_at(self.side_levels(side), price),
    {
        let levels = match side {
            OrderSide::Buy => &self.buy_side,
            OrderSide::Sell => &self.sell_side,
        };
        let ghost view = levels_view(levels@);
        let mut r: Vec<u64> = Vec::new();
        let mut i: usize = 0;
        while i < levels.len()
            invariant
                0 <= i <= levels@.len(),
                view == levels_view(levels@),
                view == self.side_levels(side),
                levels_wf(view, side),
                r@.len() == 0,
                forall|j: int| 0 <= j < i ==> #[trigger] view[j].0 != price,
            decreases levels@.len() - i,
        {
            if levels[i].price == price {
                let orders = &levels[i].orders;
                let ghost queue = view[i as int].1;
                let mut k: usize = 0;
                while k < orders.len()
                    invariant
                        0 <= k <= orders@.len(),
                        orders@ == queue,
                        r@ == queue.subrange(0, k as int).map_values(|o: Order| o.quantity),
                    decreases orders@.len() - k,
                {
                    r.push(orders[k].quantity);
                    k = k + 1;
                    assert(queue.subrange(0, k as int).map_values(|o: Order| o.quantity)
                        =~= queue.subrange(0, k - 1).map_values(|o: Order| o.quantity).push(
                        queue[k - 1].quantity,
                    ));
                }
                proof {
                    assert(queue.subrange(0, k as int) =~= queue);
                    let c = choose|c: int| 0 <= c < view.len() && view[c].0 == price;
                    if c != i {
                        if c < i {
                            assert(view[c].0 != price);
                        } else {
                            assert(ahead(side, view[c].0, view[i as int].0));
                        }
                    }
                }
                return r;
            }
            i = i + 1;
        }
        assert(r@ =~= quantities_at(view, price));
        r
    }

    fn generate_order_id(&mut self) -> (r: u64)
        requires
            old(self).next_order_id < u64::MAX,
        ensures
            r == old(self).next_order_id,
            final(self).next_order_id == r + 1,
            final(self).buy_side == old(self).buy_side,
            final(self).sell_side == old(self).sell_side,
            final(self).trade_recorder == old(self).trade_recorder,
    {
        let id = self.next_order_id;
        self.next_order_id = id + 1;
        id
    }

    /// Validates `order`, gives it the next id and matches it against the book.
    /// Refused orders leave the book as it was.
    pub fn place_order(&mut self, order: Order) -> (r: Result<(), OrderError>)
        requires
            old(self).wf(),
        ensures
            final(self).wf(),
            match old(self).rejection(order) {
                Some(e) => r == Err::<(), OrderError>(e) && *final(self) == *old(self),
                None => r is Ok && old(self).placed(order, *final(self)),
            },
    {
        if order.quantity == 0 {
            return Err(OrderError::InvalidQuantity);
        }
        match order.order_type {
            OrderType::Limit { price } => {
                if price == 0 {
                    return Err(OrderError::InvalidPrice);
                }
            },
            OrderType::Market => {},
        }
        if self.next_order_id == u64::MAX {
            return Err(OrderError::IdSpaceExhausted);
        }
        let mut order = order;
        order.id = self.generate_order_id();
        self.process_order(order);
        Ok(())
    }

    fn process_order(&mut self, order: Order)
        requires
            old(self).wf(),
            order.quantity > 0,
            old(self).next_order_id == order.id + 1,
        ensures
            final(self).wf(),
            final(self).next_order_id == old(self).next_order_id,
            ({
                let limit = order.order_type.limit();
                let m = match_spec(
                    old(self).side_levels(order.side.opposite()),
                    order.id,
                    order.side,
                    limit,
                    order.quantity as nat,
                );
                let price = match limit {
                    Some(p) => p,
                    None => order.price,
                };
                let remainder = Order { price, quantity: m.2 as u64, ..order };
                &&& final(self).side_levels(order.side.opposite()) == m.0
                &&& final(self).side_levels(order.side) == if m.2 > 0 && limit is Some {
                    rest_spec(old(self).side_levels(order.side), order.side, price, remainder)
                } else {
                    old(self).side_levels(order.side)
                }
                &&& final(self).recorded() == match old(self).recorded() {
                    Some(log) => Some(log + m.1),
                    None => None,
                }
            }),
    {
        let mut order = order;
        let limit = match order.order_type {
            OrderType::Market => None,
            OrderType::Limit { price } => Some(price),
        };
        let (fills, left) = match order.side {
            OrderSide::Buy => match_order(&mut self.sell_side, order.id, order.side, limit, order.quantity),
            OrderSide::Sell => match_order(&mut self.buy_side, order.id, order.side, limit, order.quantity),
        };
        if self.trade_recorder.is_some() {
            let mut recorder = self.trade_recorder.take().unwrap();
            recorder.record_all(&fills);
            self.trade_recorder = Some(recorder);
        }
        if left > 0 {
            if let Some(price) = limit {
                order.quantity = left;
                order.price = price;
                self.place_remaining_order(order);
            }
        }
    }

    fn place_remaining_order(&mut self, order: Order)
        requires
            old(self).wf(),
            order.quantity > 0,
            order.order_type.limit() == Some(order.price),
        ensures
            final(self).wf(),
            final(self).next_order_id == old(self).next_order_id,
            final(self).trade_recorder == old(self).trade_recorder,
            final(self).side_levels(order.side.opposite()) == old(self).side_levels(order.side.opposite()),
            final(self).side_levels(order.side) == rest_spec(
                old(self).side_levels(order.side),
                order.side,
                order.price,
                order,
            ),
    {
        let price = order.price;
        match order.side {
            OrderSide::Buy => insert_resting(&mut self.buy_side, OrderSide::Buy, price, order),
            OrderSide::Sell => insert_resting(&mut self.sell_side, OrderSide::Sell, price, order),
        }
    }
}

} // verus!
