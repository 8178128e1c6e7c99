//! The book of one instrument: the resting bids, the resting asks, and the
//! counter from which every accepted order gets its id.

use crate::ascending::{lemma_rank_in_range, lemma_rank_parts, rank};
use crate::order::{Order, OrderErr, OrderSide};
use crate::order_queue::{
    arrival_key, holds_id, insertion, lemma_insertion_keeps_arrival_order,
    lemma_insertion_well_formed, lemma_key_order_by_price, well_formed, OrderIndex, OrderQueue,
    OrderQueueError,
};
use crate::timestamp::{utc_now, Timestamp};
use vstd::prelude::*;

verus! {

/// Why the book refused an order.
#[derive(Debug, Clone, Copy, PartialEq, Eq, Structural)]
pub enum OrderBookError {
    /// The order did not pass validation.
    Invalid(OrderErr),
    /// The queue of the order's side would not take it.
    Rejected(OrderQueueError),
}

/// What a book holds.
pub struct OrderBookView {
    /// The resting buy orders, ascending by key: the best bid is the last.
    pub bids: Seq<(OrderIndex, Order)>,
    /// The resting sell orders, ascending by key: the best ask is the first.
    pub asks: Seq<(OrderIndex, Order)>,
    /// The number of orders taken in so far, from which the next accepted
    /// order gets its id. The book of a machine holds a counter of 64 bits;
    /// the count itself has no bound.
    pub id_counter: nat,
}

/// Every entry is an order of the given side.
pub open spec fn all_of_side(s: Seq<(OrderIndex, Order)>, side: OrderSide) -> bool {
    forall|i: int| 0 <= i < s.len() ==> (#[trigger] s[i]).1.spec_side() == side
}

/// Every entry is an order that passes validation.
pub open spec fn all_valid(s: Seq<(OrderIndex, Order)>) -> bool {
    forall|i: int| 0 <= i < s.len() ==> (#[trigger] s[i]).1.spec_validate() is Ok
}

/// Every id is smaller than `bound`.
pub open spec fn ids_below(s: Seq<(OrderIndex, Order)>, bound: nat) -> bool {
    forall|i: int| 0 <= i < s.len() ==> (#[trigger] s[i]).0.order_id < bound
}

/// No id occurs in both sequences.
pub open spec fn ids_apart(s: Seq<(OrderIndex, Order)>, t: Seq<(OrderIndex, Order)>) -> bool {
    forall|i: int, j: int|
        0 <= i < s.len() && 0 <= j < t.len() ==> (#[trigger] s[i]).0.order_id != (
        #[trigger] t[j]).0.order_id
}

/// Every id below `bound` rests in one of the two sequences.
pub open spec fn ids_complete(
    s: Seq<(OrderIndex, Order)>,
    t: Seq<(OrderIndex, Order)>,
    bound: nat,
) -> bool {
    forall|id: u64|
        #![trigger holds_id(s, id)]
        #![trigger holds_id(t, id)]
        id < bound ==> holds_id(s, id) || holds_id(t, id)
}

/// At every price the entries stand in the order of their ids, which is the
/// order in which the book took them in.
pub open spec fn in_arrival_order(s: Seq<(OrderIndex, Order)>) -> bool {
    forall|i: int, j: int|
        0 <= i < j < s.len() && (#[trigger] s[i]).0.limit_price == (#[trigger] s[j]).0.limit_price
            ==> s[i].0.order_id < s[j].0.order_id
}

/// `price` is the highest price among the entries.
pub open spec fn is_highest_price(s: Seq<(OrderIndex, Order)>, price: u64) -> bool {
    &&& exists|i: int| 0 <= i < s.len() && (#[trigger] s[i]).0.limit_price == price
    &&& forall|i: int| 0 <= i < s.len() ==> (#[trigger] s[i]).0.limit_price <= price
}

/// `price` is the lowest price among the entries.
pub open spec fn is_lowest_price(s: Seq<(OrderIndex, Order)>, price: u64) -> bool {
    &&& exists|i: int| 0 <= i < s.len() && (#[trigger] s[i]).0.limit_price == price
    &&& forall|i: int| 0 <= i < s.len() ==> (#[trigger] s[i]).0.limit_price >= price
}

/// Whether `order` rests in the sequence under `order_id`.
pub open spec fn holds_order(s: Seq<(OrderIndex, Order)>, order_id: u64, order: Order) -> bool {
    exists|i: int| 0 <= i < s.len() && (#[trigger] s[i]).0.order_id == order_id && s[i].1 == order
}

impl OrderBookView {
    /// The book without orders.
    pub open spec fn empty() -> OrderBookView {
        OrderBookView { bids: Seq::empty(), asks: Seq::empty(), id_counter: 0 }
    }

    /// What holds of every book: both sides are well-formed queues of valid
    /// orders of their side; the ids that rest in the book are exactly those
    /// below the counter, each once; the counter equals the number of orders
    /// that rest in the book; and at every price the orders stand in the
    /// order in which they came.
    pub open spec fn well_formed(self) -> bool {
        &&& well_formed(self.bids)
        &&& well_formed(self.asks)
        &&& all_of_side(self.bids, OrderSide::Buy)
        &&& all_of_side(self.asks, OrderSide::Sell)
        &&& all_valid(self.bids)
        &&& all_valid(self.asks)
        &&& ids_below(self.bids, self.id_counter)
        &&& ids_below(self.asks, self.id_counter)
        &&& ids_apart(self.bids, self.asks)
        &&& ids_complete(self.bids, self.asks, self.id_counter)
        &&& in_arrival_order(self.bids)
        &&& in_arrival_order(self.asks)
        &&& self.bids.len() + self.asks.len() == self.id_counter
    }

    /// The id the next accepted order gets: the counter's value, as long as
    /// it fits 64 bits.
    pub open spec fn next_id(self) -> u64 {
        self.id_counter as u64
    }

    /// The queue of one side.
    pub open spec fn side(self, side: OrderSide) -> Seq<(OrderIndex, Order)> {
        match side {
            OrderSide::Buy => self.bids,
            OrderSide::Sell => self.asks,
        }
    }

    /// The outcome of placing `order` while the clock reads `now`: the book
    /// afterwards, or why the order was refused. The order is validated
    /// first; then the queue of its side is offered the order under the
    /// counter's value, and the counter goes up if the queue takes it.
    pub open spec fn placed(self, order: Order, now: Timestamp) -> Result<
        OrderBookView,
        OrderBookError,
    > {
        match order.spec_validate() {
            Err(e) => Err(OrderBookError::Invalid(e)),
            Ok(()) => match insertion(self.side(order.spec_side()), self.next_id(), order, now) {
                Err(e) => Err(OrderBookError::Rejected(e)),
                Ok(after) => Ok(
                    match order.spec_side() {
                        OrderSide::Buy => OrderBookView {
                            bids: after,
                            asks: self.asks,
                            id_counter: self.id_counter + 1,
                        },
                        OrderSide::Sell => OrderBookView {
                            bids: self.bids,
                            asks: after,
                            id_counter: self.id_counter + 1,
                        },
                    },
                ),
            },
        }
    }

    /// The book after each of `events`, an order and the clock's reading at
    /// its arrival, was placed in turn into the empty book. A refused order
    /// leaves the book as it was.
    pub open spec fn replay(events: Seq<(Order, Timestamp)>) -> OrderBookView
        decreases events.len(),
    {
        if events.len() == 0 {
            OrderBookView::empty()
        } else {
            let before = OrderBookView::replay(events.drop_last());
            match before.placed(events.last().0, events.last().1) {
                Ok(after) => after,
                Err(_) => before,
            }
        }
    }
}

/// The number of valid limit orders among `events`.
pub open spec fn accepted(events: Seq<(Order, Timestamp)>) -> nat
    decreases events.len(),
{
    if events.len() == 0 {
        0
    } else if events.last().0.is_valid_limit() {
        accepted(events.drop_last()) + 1
    } else {
        accepted(events.drop_last())
    }
}

/// A well-formed book whose counter fits 64 bits takes in exactly the valid
/// limit orders, and never finds the counter's value in use.
pub proof fn lemma_placed_iff_valid_limit(book: OrderBookView, order: Order, now: Timestamp)
    requires
        book.well_formed(),
        book.id_counter <= u64::MAX,
    ensures
        book.placed(order, now) is Ok <==> order.is_valid_limit(),
        book.placed(order, now) != Err::<OrderBookView, OrderBookError>(
            OrderBookError::Rejected(OrderQueueError::OrderIdExists),
        ),
        order.spec_validate() is Ok && order is MarketOrder ==> book.placed(order, now) == Err::<
            OrderBookView,
            OrderBookError,
        >(OrderBookError::Rejected(OrderQueueError::NotALimitOrder)),
{
    assert(!holds_id(book.bids, book.next_id()));
    assert(!holds_id(book.asks, book.next_id()));
}

/// The best prices of a queue after it took in an order at price `p`: the
/// highest is the larger of `p` and the highest before, the lowest the
/// smaller of `p` and the lowest before; in an empty queue `p` is both.
pub proof fn lemma_best_prices_after_insertion(
    s: Seq<(OrderIndex, Order)>,
    order_id: u64,
    order: Order,
    now: Timestamp,
)
    requires
        well_formed(s),
        insertion(s, order_id, order, now) is Ok,
    ensures
        ({
            let after = insertion(s, order_id, order, now)->Ok_0;
            let p = order->limit_price;
            &&& s.len() == 0 ==> is_highest_price(after, p) && is_lowest_price(after, p)
            &&& forall|best: u64| #[trigger]
                is_highest_price(s, best) ==> is_highest_price(
                    after,
                    if p >= best {
                        p
                    } else {
                        best
                    },
                )
            &&& forall|best: u64| #[trigger]
                is_lowest_price(s, best) ==> is_lowest_price(
                    after,
                    if p <= best {
                        p
                    } else {
                        best
                    },
                )
        }),
{
    let key = arrival_key(s, order_id, order, now);
    let pos = rank(s, key);
    let after = s.insert(pos, (key, order));
    let p = order->limit_price;
    lemma_rank_parts(s, key);
    assert(after[pos].0.limit_price == p);
    assert forall|j: int| 0 <= j < after.len() && j != pos implies (#[trigger] after[j]) == s[if j
        < pos {
        j
    } else {
        j - 1
    }] by {}
    assert forall|best: u64| #[trigger] is_highest_price(s, best) implies is_highest_price(
        after,
        if p >= best {
            p
        } else {
            best
        },
    ) by {
        let i = choose|i: int| 0 <= i < s.len() && (#[trigger] s[i]).0.limit_price == best;
        assert(after[if i < pos { i } else { i + 1 }] == s[i]);
    }
    assert forall|best: u64| #[trigger] is_lowest_price(s, best) implies is_lowest_price(
        after,
        if p <= best {
            p
        } else {
            best
        },
    ) by {
        let i = choose|i: int| 0 <= i < s.len() && (#[trigger] s[i]).0.limit_price == best;
        assert(after[if i < pos { i } else { i + 1 }] == s[i]);
    }
}

/// The best bid never drops through a placement: wherever a buy order is
/// taken in, the best bid afterwards is the larger of its price and the
/// best bid before, and the asks are as they were.
pub proof fn lemma_best_bid_after_buy(book: OrderBookView, order: Order, now: Timestamp)
    requires
        book.well_formed(),
        order.spec_side() == OrderSide::Buy,
        book.placed(order, now) is Ok,
    ensures
        order is LimitOrder,
        book.placed(order, now)->Ok_0.asks == book.asks,
        book.bids.len() == 0 ==> is_highest_price(
            book.placed(order, now)->Ok_0.bids,
            order->limit_price,
        ),
        forall|best: u64| #[trigger]
            is_highest_price(book.bids, best) ==> is_highest_price(
                book.placed(order, now)->Ok_0.bids,
                if order->limit_price >= best {
                    order->limit_price
                } else {
                    best
                },
            ),
{
    lemma_best_prices_after_insertion(book.bids, book.next_id(), order, now);
}

/// The best ask never rises through a placement: wherever a sell order is
/// taken in, the best ask afterwards is the smaller of its price and the
/// best ask before, and the bids are as they were.
pub proof fn lemma_best_ask_after_sell(book: OrderBookView, order: Order, now: Timestamp)
    requires
        book.well_formed(),
        order.spec_side() == OrderSide::Sell,
        book.placed(order, now) is Ok,
    ensures
        order is LimitOrder,
        book.placed(order, now)->Ok_0.bids == book.bids,
        book.asks.len() == 0 ==> is_lowest_price(
            book.placed(order, now)->Ok_0.asks,
            order->limit_price,
        ),
        forall|best: u64| #[trigger]
            is_lowest_price(book.asks, best) ==> is_lowest_price(
                book.placed(order, now)->Ok_0.asks,
                if order->limit_price <= best {
                    order->limit_price
                } else {
                    best
                },
            ),
{
    lemma_best_prices_after_insertion(book.asks, book.next_id(), order, now);
}

/// What a side of the book is like after it took in a valid limit order of
/// its side under an id above all ids in the book.
proof fn lemma_side_after_placement(
    s: Seq<(OrderIndex, Order)>,
    other: Seq<(OrderIndex, Order)>,
    id: u64,
    order: Order,
    now: Timestamp,
)
    requires
        well_formed(s),
        all_of_side(s, order.spec_side()),
        all_valid(s),
        in_arrival_order(s),
        ids_below(s, id as nat),
        ids_below(other, id as nat),
        ids_apart(s, other),
        ids_complete(s, other, id as nat),
        order.is_valid_limit(),
    ensures
        insertion(s, id, order, now) is Ok,
        ({
            let after = insertion(s, id, order, now)->Ok_0;
            &&& well_formed(after)
            &&& all_of_side(after, order.spec_side())
            &&& all_valid(after)
            &&& in_arrival_order(after)
            &&& ids_below(after, (id + 1) as nat)
            &&& ids_apart(after, other)
            &&& ids_apart(other, after)
            &&& ids_complete(after, other, (id + 1) as nat)
            &&& ids_complete(other, after, (id + 1) as nat)
            &&& after.len() == s.len() + 1
            &&& holds_order(after, id, order)
        }),
{
    assert(!holds_id(s, id));
    let key = arrival_key(s, id, order, now);
    let pos = rank(s, key);
    let after = s.insert(pos, (key, order));
    lemma_insertion_well_formed(s, id, order, now);
    lemma_insertion_keeps_arrival_order(s, id, order, now);
    lemma_rank_parts(s, key);
    assert(after[pos] == (key, order));
    assert forall|i: int| 0 <= i < after.len() && i != pos implies (#[trigger] after[i]) == s[if i
        < pos {
        i
    } else {
        i - 1
    }] by {}
    assert forall|i: int, j: int|
        0 <= i < j < after.len() && (#[trigger] after[i]).0.limit_price == (
        #[trigger] after[j]).0.limit_price implies after[i].0.order_id < after[j].0.order_id by {
        if i == pos {
            // an entry of the same price behind the new one would have had
            // to stand before it
            assert(after[j] == s[j - 1]);
            assert(s[j - 1].0.order_id < id);
        } else if j == pos {
            assert(after[i] == s[i]);
        } else {
            assert(after[i] == s[if i < pos { i } else { i - 1 }]);
            assert(after[j] == s[if j < pos { j } else { j - 1 }]);
        }
    }
    assert(after[pos].0.order_id == id && after[pos].1 == order);
    assert(holds_order(after, id, order));
    assert(in_arrival_order(after));
    assert(all_of_side(after, order.spec_side())) by {
        assert forall|i: int| 0 <= i < after.len() implies (#[trigger] after[i]).1.spec_side()
            == order.spec_side() by {
            if i != pos {
                assert(after[i] == s[if i < pos { i } else { i - 1 }]);
            }
        }
    }
    assert(all_valid(after)) by {
        assert forall|i: int| 0 <= i < after.len() implies (#[trigger] after[i]).1.spec_validate()
            is Ok by {
            if i != pos {
                assert(after[i] == s[if i < pos { i } else { i - 1 }]);
            }
        }
    }
    assert(ids_below(after, (id + 1) as nat)) by {
        assert forall|i: int| 0 <= i < after.len() implies (#[trigger] after[i]).0.order_id < id
            + 1 by {
            if i != pos {
                assert(after[i] == s[if i < pos { i } else { i - 1 }]);
            }
        }
    }
    assert(ids_complete(after, other, (id + 1) as nat) && ids_complete(
        other,
        after,
        (id + 1) as nat,
    )) by {
        assert forall|held: u64| held < id + 1 implies holds_id(after, held) || holds_id(
            other,
            held,
        ) by {
            if held == id {
                assert(holds_id(after, held));
            } else if holds_id(s, held) {
                let i = choose|i: int| 0 <= i < s.len() && (#[trigger] s[i]).0.order_id == held;
                assert(after[if i < pos { i } else { i + 1 }] == s[i]);
                assert(holds_id(after, held));
            } else {
                assert(holds_id(other, held));
            }
        }
    }
    assert(ids_apart(after, other) && ids_apart(other, after)) by {
        assert forall|i: int, j: int| 0 <= i < after.len() && 0 <= j < other.len() implies (
        #[trigger] after[i]).0.order_id != (#[trigger] other[j]).0.order_id by {
            if i != pos {
                assert(after[i] == s[if i < pos { i } else { i - 1 }]);
            }
        }
    }
}

/// Placing an order keeps the book well formed. An accepted order gets the
/// counter's value as its id, and the counter goes up by one.
pub proof fn lemma_placed_well_formed(book: OrderBookView, order: Order, now: Timestamp)
    requires
        book.well_formed(),
        book.id_counter <= u64::MAX,
        book.placed(order, now) is Ok,
    ensures
        book.placed(order, now)->Ok_0.well_formed(),
        book.placed(order, now)->Ok_0.id_counter == book.id_counter + 1,
        holds_order(
            book.placed(order, now)->Ok_0.side(order.spec_side()),
            book.next_id(),
            order,
        ),
{
    match order.spec_side() {
        OrderSide::Buy => {
            lemma_side_after_placement(book.bids, book.asks, book.next_id(), order, now);
        },
        OrderSide::Sell => {
            lemma_side_after_placement(book.asks, book.bids, book.next_id(), order, now);
        },
    }
}

/// The number of placements among `events` that succeed when each is made
/// in turn into the empty book.
pub open spec fn taken(events: Seq<(Order, Timestamp)>) -> nat
    decreases events.len(),
{
    if events.len() == 0 {
        0
    } else if OrderBookView::replay(events.drop_last()).placed(events.last().0, events.last().1)
        is Ok {
        taken(events.drop_last()) + 1
    } else {
        taken(events.drop_last())
    }
}

/// After any sequence of placements into an empty book, accepted or not,
/// the counter equals the number of placements that succeeded, which is
/// also the number of orders that rest in the book.
pub proof fn lemma_counter_counts_placements(events: Seq<(Order, Timestamp)>)
    ensures
        OrderBookView::replay(events).id_counter == taken(events),
        OrderBookView::replay(events).bids.len() + OrderBookView::replay(events).asks.len()
            == taken(events),
    decreases events.len(),
{
    if events.len() > 0 {
        let before = OrderBookView::replay(events.drop_last());
        lemma_counter_counts_placements(events.drop_last());
        let (order, now) = events.last();
        if before.placed(order, now) is Ok {
            let s = before.side(order.spec_side());
            lemma_rank_in_range(s, arrival_key(s, before.next_id(), order, now));
        }
    }
}

/// As long as the count fits 64 bits, the placements that succeed are those
/// of the valid limit orders, and the book stays well formed: the ids that
/// rest in it are below the counter and no two are the same.
pub proof fn lemma_replay_well_formed(events: Seq<(Order, Timestamp)>)
    requires
        accepted(events) <= u64::MAX,
    ensures
        OrderBookView::replay(events).well_formed(),
        OrderBookView::replay(events).id_counter == accepted(events),
        taken(events) == accepted(events),
    decreases events.len(),
{
    if events.len() > 0 {
        let before = OrderBookView::replay(events.drop_last());
        lemma_replay_well_formed(events.drop_last());
        let (order, now) = events.last();
        lemma_placed_iff_valid_limit(before, order, now);
        if before.placed(order, now) is Ok {
            lemma_placed_well_formed(before, order, now);
        }
    }
}

/// The number of valid limit orders does not go down along a sequence.
pub proof fn lemma_accepted_grows(events: Seq<(Order, Timestamp)>, k: int)
    requires
        0 <= k <= events.len(),
    ensures
        accepted(events.take(k)) <= accepted(events),
        k < events.len() && events[k].0.is_valid_limit() ==> accepted(events.take(k)) < accepted(
            events,
        ),
    decreases events.len() - k,
{
    if k < events.len() {
        assert(events.take(k + 1).drop_last() == events.take(k));
        assert(events.take(k + 1).last() == events[k]);
        lemma_accepted_grows(events, k + 1);
    } else {
        assert(events.take(k) == events);
    }
}

/// An order that rests in the book still rests there, under its id, after
/// another order was placed.
pub proof fn lemma_placed_keeps_orders(
    book: OrderBookView,
    order: Order,
    now: Timestamp,
    side: OrderSide,
    order_id: u64,
    held: Order,
)
    requires
        book.well_formed(),
        holds_order(book.side(side), order_id, held),
    ensures
        book.placed(order, now) matches Ok(after) ==> holds_order(after.side(side), order_id, held),
{
    if book.placed(order, now) is Ok {
        let after = book.placed(order, now)->Ok_0;
        if side == order.spec_side() {
            let s = book.side(side);
            lemma_insertion_keeps_arrival_order(s, book.next_id(), order, now);
            let i = choose|i: int|
                0 <= i < s.len() && (#[trigger] s[i]).0.order_id == order_id && s[i].1 == held;
            let pos = rank(s, arrival_key(s, book.next_id(), order, now));
            lemma_rank_parts(s, arrival_key(s, book.next_id(), order, now));
            let j = if i < pos {
                i
            } else {
                i + 1
            };
            assert(after.side(side)[j] == s[i]);
        } else {
            assert(after.side(side) == book.side(side));
        }
    }
}

/// In a well-formed book, of two orders that rest on one side at one price,
/// the one with the smaller id stands first.
pub proof fn lemma_smaller_id_stands_first(book: OrderBookView, side: OrderSide, i: int, j: int)
    requires
        book.well_formed(),
        0 <= i < book.side(side).len(),
        0 <= j < book.side(side).len(),
        book.side(side)[i].0.limit_price == book.side(side)[j].0.limit_price,
        book.side(side)[i].0.order_id < book.side(side)[j].0.order_id,
    ensures
        i < j,
{
}

/// Every valid limit order of a sequence of placements rests in the book
/// afterwards, and its id is the number of orders that were taken in before
/// it.
pub proof fn lemma_replay_holds_placement(events: Seq<(Order, Timestamp)>, k: int)
    requires
        0 <= k < events.len(),
        events[k].0.is_valid_limit(),
        accepted(events) <= u64::MAX,
    ensures
        holds_order(
            OrderBookView::replay(events).side(events[k].0.spec_side()),
            accepted(events.take(k)) as u64,
            events[k].0,
        ),
    decreases events.len(),
{
    let front = events.drop_last();
    let before = OrderBookView::replay(front);
    let (order, now) = events.last();
    lemma_replay_well_formed(front);
    lemma_placed_iff_valid_limit(before, order, now);
    if k == events.len() - 1 {
        assert(events.take(k) == front);
        lemma_placed_well_formed(before, order, now);
    } else {
        assert(front.take(k) == events.take(k));
        assert(front[k] == events[k]);
        lemma_replay_holds_placement(front, k);
        lemma_placed_keeps_orders(
            before,
            order,
            now,
            events[k].0.spec_side(),
            accepted(events.take(k)) as u64,
            events[k].0,
        );
    }
}

/// Price–time priority over any sequence of placements into an empty book:
/// of two valid limit orders of one side and one price, the one placed
/// earlier stands before the other on its side of the book, whatever was
/// placed between them and whatever the clock read.
pub proof fn lemma_replay_first_come_first_served(
    events: Seq<(Order, Timestamp)>,
    first: int,
    second: int,
)
    requires
        0 <= first < second < events.len(),
        events[first].0.is_valid_limit(),
        events[second].0.is_valid_limit(),
        events[first].0.spec_side() == events[second].0.spec_side(),
        events[first].0->limit_price == events[second].0->limit_price,
        accepted(events) <= u64::MAX,
    ensures
        ({
            let queue = OrderBookView::replay(events).side(events[first].0.spec_side());
            exists|i: int, j: int|
                0 <= i < j < queue.len() && (#[trigger] queue[i]).1 == events[first].0
                    && queue[i].0.order_id == accepted(events.take(first)) && (
                #[trigger] queue[j]).1 == events[second].0 && queue[j].0.order_id == accepted(
                    events.take(second),
                )
        }),
{
    let book = OrderBookView::replay(events);
    let side = events[first].0.spec_side();
    let queue = book.side(side);
    let id_first = accepted(events.take(first)) as u64;
    let id_second = accepted(events.take(second)) as u64;
    lemma_replay_well_formed(events);
    lemma_replay_holds_placement(events, first);
    lemma_replay_holds_placement(events, second);
    lemma_accepted_grows(events, second);
    lemma_accepted_grows(events.take(second), first);
    assert(events.take(second).take(first) == events.take(first));
    assert(events.take(second)[first] == events[first]);
    let i = choose|i: int|
        0 <= i < queue.len() && (#[trigger] queue[i]).0.order_id == id_first && queue[i].1
            == events[first].0;
    let j = choose|j: int|
        0 <= j < queue.len() && (#[trigger] queue[j]).0.order_id == id_second && queue[j].1
            == events[second].0;
    assert(queue[i].0.limit_price == events[first].0->limit_price);
    assert(queue[j].0.limit_price == events[second].0->limit_price);
    lemma_smaller_id_stands_first(book, side, i, j);
}

/// Price–time priority: of two valid limit orders of one side and one price,
/// placed one after the other, the first stands before the second on its
/// side of the book, whatever the clock read when each arrived.
pub proof fn lemma_first_come_first_served(
    book: OrderBookView,
    first: Order,
    now_first: Timestamp,
    second: Order,
    now_second: Timestamp,
)
    requires
        book.well_formed(),
        book.id_counter + 1 <= u64::MAX,
        first.is_valid_limit(),
        second.is_valid_limit(),
        first.spec_side() == second.spec_side(),
        first->limit_price == second->limit_price,
    ensures
        book.placed(first, now_first) is Ok,
        book.placed(first, now_first)->Ok_0.placed(second, now_second) is Ok,
        ({
            let queue = book.placed(first, now_first)->Ok_0.placed(second, now_second)->Ok_0.side(
                first.spec_side(),
            );
            exists|i: int, j: int|
                0 <= i < j < queue.len() && (#[trigger] queue[i]).1 == first && queue[i].0.order_id
                    == book.id_counter && (#[trigger] queue[j]).1 == second
                    && queue[j].0.order_id == book.id_counter + 1
        }),
{
    lemma_placed_iff_valid_limit(book, first, now_first);
    lemma_placed_well_formed(book, first, now_first);
    let mid = book.placed(first, now_first)->Ok_0;
    lemma_placed_iff_valid_limit(mid, second, now_second);
    lemma_placed_well_formed(mid, second, now_second);
    let side = first.spec_side();
    let s0 = book.side(side);
    let s1 = mid.side(side);
    let queue = mid.placed(second, now_second)->Ok_0.side(side);
    let key1 = arrival_key(s0, book.next_id(), first, now_first);
    let place_first = rank(s0, key1);
    lemma_rank_parts(s0, key1);
    assert(s1 == s0.insert(place_first, (key1, first)));
    assert(s1[place_first] == (key1, first));
    let key2 = arrival_key(s1, mid.next_id(), second, now_second);
    let place_second = rank(s1, key2);
    lemma_rank_parts(s1, key2);
    lemma_insertion_keeps_arrival_order(s1, mid.next_id(), second, now_second);
    assert(queue == s1.insert(place_second, (key2, second)));
    assert(place_first < place_second);
    assert(queue[place_first] == s1[place_first]);
    assert(queue[place_second] == (key2, second));
}

/// The order book of one instrument.
#[derive(Debug)]
pub struct OrderBook {
    buy_orders: OrderQueue,
    sell_orders: OrderQueue,
    id_counter: u64,
}

impl View for OrderBook {
    type V = OrderBookView;

    closed spec fn view(&self) -> OrderBookView {
        OrderBookView {
            bids: self.buy_orders@,
            asks: self.sell_orders@,
            id_counter: self.id_counter as nat,
        }
    }
}

impl OrderBook {
    #[verifier::type_invariant]
    spec fn inv(&self) -> bool {
        self@.well_formed()
    }

    /// The book without orders; the first order will get id 0.
    pub fn new() -> (book: OrderBook)
        ensures
            book@ == OrderBookView::empty(),
    {
        OrderBook { buy_orders: OrderQueue::new(), sell_orders: OrderQueue::new(), id_counter: 0 }
    }

    /// The resting buy orders.
    pub fn buy_orders(&self) -> (queue: &OrderQueue)
        ensures
            queue@ == self@.bids,
            self@.well_formed(),
    {
        proof {
            use_type_invariant(self);
        }
        &self.buy_orders
    }

    /// The resting sell orders.
    pub fn sell_orders(&self) -> (queue: &OrderQueue)
        ensures
            queue@ == self@.asks,
            self@.well_formed(),
    {
        proof {
            use_type_invariant(self);
        }
        &self.sell_orders
    }

    /// The id the next accepted order gets, which is also the number of
    /// orders taken in so far.
    pub fn id_counter(&self) -> (next: u64)
        ensures
            next == self@.id_counter,
            next == self@.bids.len() + self@.asks.len(),
    {
        proof {
            use_type_invariant(self);
        }
        self.id_counter
    }

    /// Places `order` as `placed` says for a clock that reads `now`. Only a
    /// valid limit order is taken in; a refusal changes nothing.
    pub fn insert_limit_order_at(&mut self, order: Order, now: Timestamp) -> (r: Result<
        (),
        OrderBookError,
    >)
        requires
            old(self)@.id_counter < u64::MAX,
        ensures
            old(self)@.well_formed(),
            final(self)@.well_formed(),
            match old(self)@.placed(order, now) {
                Ok(after) => r == Ok::<(), OrderBookError>(()) && final(self)@ == after,
                Err(e) => r == Err::<(), OrderBookError>(e) && final(self)@ == old(self)@,
            },
            r is Ok <==> order.is_valid_limit(),
    {
        proof {
            use_type_invariant(&*self);
            lemma_placed_iff_valid_limit(self@, order, now);
            if self@.placed(order, now) is Ok {
                lemma_placed_well_formed(self@, order, now);
            }
        }
        match order.validate() {
            Err(e) => {
                return Err(OrderBookError::Invalid(e));
            },
            Ok(()) => {},
        }
        let mut taken = OrderBook::new();
        core::mem::swap(&mut taken, self);
        let OrderBook { buy_orders, sell_orders, id_counter } = taken;
        let mut buy_orders = buy_orders;
        let mut sell_orders = sell_orders;
        let res = match order.side() {
            OrderSide::Buy => buy_orders.insert_at(id_counter, order, now),
            OrderSide::Sell => sell_orders.insert_at(id_counter, order, now),
        };
        match res {
            Ok(()) => {
                *self = OrderBook { buy_orders, sell_orders, id_counter: id_counter + 1 };
                Ok(())
            },
            Err(e) => {
                *self = OrderBook { buy_orders, sell_orders, id_counter };
                Err(OrderBookError::Rejected(e))
            },
        }
    }

    /// Places `order`, stamped with the reading of the system clock, or with
    /// the latest stamp at its price on its side where the clock reads
    /// earlier than that. Only a valid limit order is taken in; a refusal
    /// changes nothing.
    pub fn insert_limit_order(&mut self, order: Order) -> (r: Result<(), OrderBookError>)
        requires
            old(self)@.id_counter < u64::MAX,
        ensures
            final(self)@.well_formed(),
            exists|now: Timestamp|
                match #[trigger] old(self)@.placed(order, now) {
                    Ok(after) => r == Ok::<(), OrderBookError>(()) && final(self)@ == after,
                    Err(e) => r == Err::<(), OrderBookError>(e) && final(self)@ == old(self)@,
                },
            r is Ok <==> order.is_valid_limit(),
            r is Ok ==> final(self)@.id_counter == old(self)@.id_counter + 1,
            order.spec_validate() matches Err(e) ==> r == Err::<(), OrderBookError>(
                OrderBookError::Invalid(e),
            ),
            order.spec_validate() is Ok && order is MarketOrder ==> r == Err::<
                (),
                OrderBookError,
            >(OrderBookError::Rejected(OrderQueueError::NotALimitOrder)),
    {
        let now = utc_now();
        proof {
            use_type_invariant(&*self);
            lemma_placed_iff_valid_limit(self@, order, now);
            if self@.placed(order, now) is Ok {
                lemma_placed_well_formed(self@, order, now);
            }
        }
        self.insert_limit_order_at(order, now)
    }

    /// The highest price among the resting buy orders.
    pub fn best_buy_price(&self) -> (best: Option<u64>)
        ensures
            match best {
                Some(price) => is_highest_price(self@.bids, price),
                None => self@.bids.len() == 0,
            },
    {
        match self.buy_orders.last_key_value() {
            Some((key, _)) => {
                proof {
                    let s = self.buy_orders@;
                    let last = s.len() - 1;
                    assert(s[last].0.limit_price == key.limit_price);
                    assert forall|i: int| 0 <= i < s.len() implies (#[trigger] s[i]).0.limit_price
                        <= key.limit_price by {
                        if i < last {
                            lemma_key_order_by_price(s[i].0, s[last].0);
                        }
                    }
                }
                Some(key.limit_price)
            },
            None => None,
        }
    }

    /// The lowest price among the resting sell orders.
    pub fn best_sell_price(&self) -> (best: Option<u64>)
        ensures
            match best {
                Some(price) => is_lowest_price(self@.asks, price),
                None => self@.asks.len() == 0,
            },
    {
        match self.sell_orders.first_key_value() {
            Some((key, _)) => {
                proof {
                    let s = self.sell_orders@;
                    assert(s[0].0.limit_price == key.limit_price);
                    assert forall|i: int| 0 <= i < s.len() implies (#[trigger] s[i]).0.limit_price
                        >= key.limit_price by {
                        if 0 < i {
                            lemma_key_order_by_price(s[0].0, s[i].0);
                        }
                    }
                }
                Some(key.limit_price)
            },
            None => None,
        }
    }

    /// The best price of the given side itself: the highest bid for `Buy`,
    /// the lowest ask for `Sell`.
    pub fn market_price(&self, side: OrderSide) -> (best: Option<u64>)
        ensures
            match best {
                Some(price) => match side {
                    OrderSide::Buy => is_highest_price(self@.bids, price),
                    OrderSide::Sell => is_lowest_price(self@.asks, price),
                },
                None => self@.side(side).len() == 0,
            },
    {
        match side {
            OrderSide::Buy => self.best_buy_price(),
            OrderSide::Sell => self.best_sell_price(),
        }
    }
}

} // verus!
