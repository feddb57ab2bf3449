use vstd::prelude::*;

verus! {

/// One fill: the incoming (taker) order met a resting (maker) order at the maker's price.
#[derive(Debug, Clone, Copy, PartialEq, Eq, Structural)]
pub struct Trade {
    pub taker_order_id: u64,
    pub maker_order_id: u64,
    pub quantity: u64,
    pub price: u64,
}

/// A sink for executed trades, kept in the order in which they were recorded.
pub struct TradeRecorder {
    trades: Vec<Trade>,
}

impl View for TradeRecorder {
    type V = Seq<Trade>;

    closed spec fn view(&self) -> Seq<Trade> {
        self.trades@
    }
}

impl TradeRecorder {
    /// A recorder with no trades.
    pub fn new() -> (r: TradeRecorder)
        ensures
            r@ == Seq::<Trade>::empty(),
    {
        TradeRecorder { trades: Vec::new() }
    }

    /// Appends one trade to the log.
    pub fn record(&mut self, taker_id: u64, maker_id: u64, quantity: u64, price: u64)
        ensures
            final(self)@ == old(self)@.push(
                Trade { taker_order_id: taker_id, maker_order_id: maker_id, quantity, price },
            ),
    {
        self.trades.push(
            Trade { taker_order_id: taker_id, maker_order_id: maker_id, quantity, price },
        );
    }

    /// Appends `trades` to the log, in order.
    pub(crate) fn record_all(&mut self, trades: &Vec<Trade>)
        ensures
            final(self)@ == old(self)@ + trades@,
    {
        let mut i: usize = 0;
        while i < trades.len()
            invariant
                0 <= i <= trades@.len(),
                self@ == old(self)@ + trades@.subrange(0, i as int),
            decreases trades@.len() - i,
        {
            let t = trades[i];
            self.record(t.taker_order_id, t.maker_order_id, t.quantity, t.price);
            i = i + 1;
            assert(trades@.subrange(0, i as int) =~= trades@.subrange(0, i - 1) .push(t));
        }
        assert(trades@.subrange(0, i as int) =~= trades@);
    }

    /// The trades recorded so far, oldest first.
    pub fn trades(&self) -> (r: &[Trade])
        ensures
            r@ == self@,
    {
        self.trades.as_slice()
    }
}

} // verus!
