//! One side of the book: the resting limit orders of that side, held in
//! ascending order of their keys (price, then arrival stamp, then id).

use crate::ascending::{
    ascending, lemma_rank_in_range, lemma_rank_parts, lower_bound, rank, Key,
};
use crate::order::Order;
use crate::timestamp::{
    lemma_earliest_is_first, lemma_later_bounds, lemma_precedes_total, lemma_precedes_transitive,
    utc_now, Timestamp,
};
use core::cmp::Ordering;
use vstd::prelude::*;
use vstd::std_specs::cmp::PartialOrdSpecImpl;

verus! {

/// The key under which a limit order rests: its price, the stamp it was given
/// on arrival, and its id.
#[derive(Debug, Clone, Copy, PartialEq, Eq, Hash, Ord, Structural)]
pub struct OrderIndex {
    pub limit_price: u64,
    pub timestamp: Timestamp,
    pub order_id: u64,
}

/// Why a queue refused an order.
#[derive(Debug, Clone, Copy, PartialEq, Eq, Structural)]
pub enum OrderQueueError {
    /// The id is already held by an entry of the queue.
    OrderIdExists,
    /// Only limit orders rest in a queue.
    NotALimitOrder,
}

impl OrderIndex {
    /// Strictly smaller: by price, then by stamp, then by id.
    #[verifier::opaque]
    pub open spec fn precedes(&self, other: &OrderIndex) -> bool {
        self.limit_price < other.limit_price || (self.limit_price == other.limit_price && (
        self.timestamp.precedes(&other.timestamp) || (self.timestamp == other.timestamp
            && self.order_id < other.order_id)))
    }

    pub fn new(limit_price: u64, timestamp: Timestamp, order_id: u64) -> (key: OrderIndex)
        ensures
            key == (OrderIndex { limit_price, timestamp, order_id }),
    {
        OrderIndex { limit_price, timestamp, order_id }
    }

    /// Whether `self` is strictly smaller than `other`.
    pub fn is_before(&self, other: &OrderIndex) -> (b: bool)
        ensures
            b == self.precedes(other),
    {
        proof {
            reveal(OrderIndex::precedes);
            lemma_precedes_total(self.timestamp, other.timestamp);
        }
        if self.limit_price != other.limit_price {
            self.limit_price < other.limit_price
        } else if self.timestamp != other.timestamp {
            self.timestamp.is_before(&other.timestamp)
        } else {
            self.order_id < other.order_id
        }
    }
}

impl PartialOrdSpecImpl for OrderIndex {
    open spec fn obeys_partial_cmp_spec() -> bool {
        true
    }

    open spec fn partial_cmp_spec(&self, other: &OrderIndex) -> Option<Ordering> {
        if self.precedes(other) {
            Some(Ordering::Less)
        } else if *self == *other {
            Some(Ordering::Equal)
        } else {
            Some(Ordering::Greater)
        }
    }
}

impl PartialOrd for OrderIndex {
    fn partial_cmp(&self, other: &OrderIndex) -> (r: Option<Ordering>) {
        if self.is_before(other) {
            Some(Ordering::Less)
        } else if *self == *other {
            Some(Ordering::Equal)
        } else {
            Some(Ordering::Greater)
        }
    }
}

impl Key for OrderIndex {
    open spec fn key_precedes(&self, other: &OrderIndex) -> bool {
        self.precedes(other)
    }

    fn key_is_before(&self, other: &OrderIndex) -> (b: bool) {
        self.is_before(other)
    }

    proof fn lemma_key_precedes_transitive(a: OrderIndex, b: OrderIndex, c: OrderIndex) {
        lemma_key_order_transitive(a, b, c);
    }
}

/// No key precedes itself, and of two keys that differ one precedes the other.
pub proof fn lemma_key_order_total(a: OrderIndex, b: OrderIndex)
    ensures
        !a.precedes(&a),
        a.precedes(&b) || b.precedes(&a) || a == b,
        !(a.precedes(&b) && b.precedes(&a)),
{
    reveal(OrderIndex::precedes);
    lemma_precedes_total(a.timestamp, b.timestamp);
}

/// Precedence of keys carries over a key in between.
pub proof fn lemma_key_order_transitive(a: OrderIndex, b: OrderIndex, c: OrderIndex)
    requires
        a.precedes(&b),
        b.precedes(&c),
    ensures
        a.precedes(&c),
{
    reveal(OrderIndex::precedes);
    if a.timestamp.precedes(&b.timestamp) && b.timestamp.precedes(&c.timestamp) {
        lemma_precedes_transitive(a.timestamp, b.timestamp, c.timestamp);
    }
}

/// A key does not precede a key of a lower price.
pub proof fn lemma_key_order_by_price(a: OrderIndex, b: OrderIndex)
    requires
        a.precedes(&b),
    ensures
        a.limit_price <= b.limit_price,
{
    reveal(OrderIndex::precedes);
}

/// Price–time priority: at one price, a key that was stamped no earlier and
/// carries the larger id comes later.
pub proof fn lemma_later_arrival_follows(a: OrderIndex, b: OrderIndex)
    requires
        a.limit_price == b.limit_price,
        !b.timestamp.precedes(&a.timestamp),
        a.order_id < b.order_id,
    ensures
        a.precedes(&b),
{
    reveal(OrderIndex::precedes);
    lemma_precedes_total(a.timestamp, b.timestamp);
}

/// Every entry is a limit order filed under its own price.
pub open spec fn keyed_by_price(s: Seq<(OrderIndex, Order)>) -> bool {
    forall|i: int|
        0 <= i < s.len() ==> match (#[trigger] s[i]).1 {
            Order::LimitOrder { limit_price, .. } => limit_price == s[i].0.limit_price,
            Order::MarketOrder { .. } => false,
        }
}

/// No id is held by two entries.
pub open spec fn ids_distinct(s: Seq<(OrderIndex, Order)>) -> bool {
    forall|i: int, j: int|
        0 <= i < j < s.len() ==> (#[trigger] s[i]).0.order_id != (#[trigger] s[j]).0.order_id
}

/// What holds of the entries of every queue.
pub open spec fn well_formed(s: Seq<(OrderIndex, Order)>) -> bool {
    &&& ascending(s)
    &&& keyed_by_price(s)
    &&& ids_distinct(s)
}

/// Whether some entry carries the id.
pub open spec fn holds_id(s: Seq<(OrderIndex, Order)>, order_id: u64) -> bool {
    exists|i: int| 0 <= i < s.len() && (#[trigger] s[i]).0.order_id == order_id
}

/// The entries at one price, in the order of the sequence.
pub open spec fn level(s: Seq<(OrderIndex, Order)>, limit_price: u64) -> Seq<(OrderIndex, Order)> {
    s.filter(|e: (OrderIndex, Order)| e.0.limit_price == limit_price)
}

/// The latest stamp among the entries; the earliest stamp there is where
/// there are none.
pub open spec fn newest_stamp(s: Seq<(OrderIndex, Order)>) -> Timestamp
    decreases s.len(),
{
    if s.len() == 0 {
        Timestamp::spec_earliest()
    } else {
        newest_stamp(s.drop_last()).spec_later(&s.last().0.timestamp)
    }
}

/// The stamp a queue gives to an order of the given price that arrives when
/// the clock reads `now`: the clock's reading, unless an entry of that price
/// already carries a later stamp, in which case it is that stamp. At a price
/// the stamps therefore never go down, whatever the clock does; the stamps
/// of other prices have no part in it.
pub open spec fn arrival_stamp(
    s: Seq<(OrderIndex, Order)>,
    limit_price: u64,
    now: Timestamp,
) -> Timestamp {
    now.spec_later(&newest_stamp(level(s, limit_price)))
}

/// The key an accepted limit order gets.
pub open spec fn arrival_key(
    s: Seq<(OrderIndex, Order)>,
    order_id: u64,
    order: Order,
    now: Timestamp,
) -> OrderIndex
    recommends
        order is LimitOrder,
{
    OrderIndex {
        limit_price: order->limit_price,
        timestamp: arrival_stamp(s, order->limit_price, now),
        order_id,
    }
}

/// The outcome of offering `order` under `order_id` to a queue that holds `s`
/// while the clock reads `now`: the entries afterwards, or why it was refused.
pub open spec fn insertion(
    s: Seq<(OrderIndex, Order)>,
    order_id: u64,
    order: Order,
    now: Timestamp,
) -> Result<Seq<(OrderIndex, Order)>, OrderQueueError> {
    if holds_id(s, order_id) {
        Err(OrderQueueError::OrderIdExists)
    } else if order is MarketOrder {
        Err(OrderQueueError::NotALimitOrder)
    } else {
        let key = arrival_key(s, order_id, order, now);
        Ok(s.insert(rank(s, key), (key, order)))
    }
}

/// No entry is stamped later than `newest_stamp` says, and where there are
/// entries one of them carries that stamp.
pub proof fn lemma_newest_stamp(s: Seq<(OrderIndex, Order)>)
    ensures
        forall|i: int| 0 <= i < s.len() ==> !newest_stamp(s).precedes(&(#[trigger] s[i]).0.timestamp),
        s.len() > 0 ==> exists|i: int|
            0 <= i < s.len() && (#[trigger] s[i]).0.timestamp == newest_stamp(s),
        s.len() == 0 ==> newest_stamp(s) == Timestamp::spec_earliest(),
    decreases s.len(),
{
    if s.len() > 0 {
        let front = s.drop_last();
        let last = s.last().0.timestamp;
        lemma_newest_stamp(front);
        lemma_later_bounds(newest_stamp(front), last);
        assert forall|i: int| 0 <= i < s.len() implies !newest_stamp(s).precedes(
            &(#[trigger] s[i]).0.timestamp,
        ) by {
            if i < front.len() {
                assert(front[i] == s[i]);
                if newest_stamp(s).precedes(&s[i].0.timestamp) {
                    lemma_precedes_total(newest_stamp(front), newest_stamp(s));
                    if newest_stamp(front).precedes(&newest_stamp(s)) {
                        lemma_precedes_transitive(
                            newest_stamp(front),
                            newest_stamp(s),
                            s[i].0.timestamp,
                        );
                    }
                }
            }
        }
        if newest_stamp(s) == last {
            assert(s[s.len() - 1].0.timestamp == newest_stamp(s));
        } else {
            if front.len() == 0 {
                lemma_earliest_is_first(last);
                lemma_precedes_total(newest_stamp(front), last);
            }
            let i = choose|i: int|
                0 <= i < front.len() && (#[trigger] front[i]).0.timestamp == newest_stamp(front);
            assert(s[i] == front[i]);
        }
    }
}

/// A stamp that no entry exceeds and that some entry carries is the newest.
proof fn lemma_newest_stamp_unique(s: Seq<(OrderIndex, Order)>, t: Timestamp)
    requires
        forall|i: int| 0 <= i < s.len() ==> !t.precedes(&(#[trigger] s[i]).0.timestamp),
        exists|i: int| 0 <= i < s.len() && (#[trigger] s[i]).0.timestamp == t,
    ensures
        newest_stamp(s) == t,
{
    lemma_newest_stamp(s);
    let i = choose|i: int| 0 <= i < s.len() && (#[trigger] s[i]).0.timestamp == t;
    let j = choose|j: int|
        0 <= j < s.len() && (#[trigger] s[j]).0.timestamp == newest_stamp(s);
    assert(!newest_stamp(s).precedes(&s[i].0.timestamp));
    assert(!t.precedes(&s[j].0.timestamp));
    lemma_precedes_total(t, newest_stamp(s));
}

/// At one price, a key that precedes another is stamped no later.
pub proof fn lemma_key_order_by_stamp(a: OrderIndex, b: OrderIndex)
    requires
        a.precedes(&b),
        a.limit_price == b.limit_price,
    ensures
        !b.timestamp.precedes(&a.timestamp),
{
    reveal(OrderIndex::precedes);
    lemma_precedes_total(a.timestamp, b.timestamp);
}

/// An arrival is stamped no earlier than any entry of its price.
pub proof fn lemma_arrival_stamp_is_newest(
    s: Seq<(OrderIndex, Order)>,
    limit_price: u64,
    now: Timestamp,
)
    ensures
        forall|i: int|
            0 <= i < s.len() && (#[trigger] s[i]).0.limit_price == limit_price ==> !arrival_stamp(
                s,
                limit_price,
                now,
            ).precedes(&s[i].0.timestamp),
{
    let at_price = |e: (OrderIndex, Order)| e.0.limit_price == limit_price;
    let held = level(s, limit_price);
    let stamp = arrival_stamp(s, limit_price, now);
    let newest = newest_stamp(held);
    lemma_newest_stamp(held);
    lemma_later_bounds(now, newest);
    assert forall|i: int|
        0 <= i < s.len() && (#[trigger] s[i]).0.limit_price == limit_price implies !stamp.precedes(
        &s[i].0.timestamp,
    ) by {
        let t = s[i].0.timestamp;
        s.lemma_filter_contains(at_price, i);
        let k = choose|k: int| 0 <= k < held.len() && held[k] == s[i];
        assert(!newest.precedes(&held[k].0.timestamp));
        if stamp.precedes(&t) {
            lemma_precedes_total(t, newest);
            if t.precedes(&newest) {
                lemma_precedes_transitive(stamp, t, newest);
            }
        }
    }
}

/// An arrival is stamped with the clock's reading wherever no entry of its
/// price carries a later stamp.
pub proof fn lemma_arrival_stamp_is_clock(
    s: Seq<(OrderIndex, Order)>,
    limit_price: u64,
    now: Timestamp,
)
    requires
        forall|i: int|
            0 <= i < s.len() && (#[trigger] s[i]).0.limit_price == limit_price ==> !now.precedes(
                &s[i].0.timestamp,
            ),
    ensures
        arrival_stamp(s, limit_price, now) == now,
{
    let at_price = |e: (OrderIndex, Order)| e.0.limit_price == limit_price;
    let held = level(s, limit_price);
    lemma_newest_stamp(held);
    if held.len() == 0 {
        lemma_earliest_is_first(now);
    } else {
        let k = choose|k: int|
            0 <= k < held.len() && (#[trigger] held[k]).0.timestamp == newest_stamp(held);
        s.lemma_filter_pred(at_price, k);
        assert(held.contains(held[k]));
        s.lemma_filter_contains_rev(at_price, held[k]);
        let i = choose|i: int| 0 <= i < s.len() && s[i] == held[k];
        assert(!now.precedes(&s[i].0.timestamp));
    }
}

/// Where the entries of prices up to `limit_price` are exactly those before
/// `end`, the newest stamp at that price is that of the entry before `end`,
/// if that entry has the price; else the price has no entry.
proof fn lemma_level_newest(s: Seq<(OrderIndex, Order)>, limit_price: u64, end: int)
    requires
        ascending(s),
        0 <= end <= s.len(),
        forall|i: int| 0 <= i < end ==> (#[trigger] s[i]).0.limit_price <= limit_price,
        forall|i: int| end <= i < s.len() ==> (#[trigger] s[i]).0.limit_price > limit_price,
    ensures
        newest_stamp(level(s, limit_price)) == if end > 0 && s[end - 1].0.limit_price
            == limit_price {
            s[end - 1].0.timestamp
        } else {
            Timestamp::spec_earliest()
        },
{
    let at_price = |e: (OrderIndex, Order)| e.0.limit_price == limit_price;
    let held = level(s, limit_price);
    if end > 0 && s[end - 1].0.limit_price == limit_price {
        let t = s[end - 1].0.timestamp;
        assert forall|k: int| 0 <= k < held.len() implies !t.precedes(
            &(#[trigger] held[k]).0.timestamp,
        ) by {
            s.lemma_filter_pred(at_price, k);
            assert(held.contains(held[k]));
            s.lemma_filter_contains_rev(at_price, held[k]);
            let j = choose|j: int| 0 <= j < s.len() && s[j] == held[k];
            if j < end - 1 {
                assert(s[j].0.precedes(&s[end - 1].0));
                lemma_key_order_by_stamp(s[j].0, s[end - 1].0);
            } else {
                lemma_precedes_total(t, t);
            }
        }
        s.lemma_filter_contains(at_price, end - 1);
        let k = choose|k: int| 0 <= k < held.len() && held[k] == s[end - 1];
        assert(held[k].0.timestamp == t);
        lemma_newest_stamp_unique(held, t);
    } else {
        assert forall|i: int| 0 <= i < s.len() implies (#[trigger] s[i]).0.limit_price
            != limit_price by {
            if i < end - 1 {
                assert(s[i].0.precedes(&s[end - 1].0));
                lemma_key_order_by_price(s[i].0, s[end - 1].0);
            }
        }
        lemma_level_without_price(s, limit_price);
    }
}

/// An accepted order leaves the queue well formed: the keys still ascend, the
/// new entry is filed under its own price, and its id is new.
pub proof fn lemma_insertion_well_formed(
    s: Seq<(OrderIndex, Order)>,
    order_id: u64,
    order: Order,
    now: Timestamp,
)
    requires
        well_formed(s),
        insertion(s, order_id, order, now) is Ok,
    ensures
        well_formed(insertion(s, order_id, order, now)->Ok_0),
        insertion(s, order_id, order, now)->Ok_0.len() == s.len() + 1,
{
    let key = arrival_key(s, order_id, order, now);
    let pos = rank(s, key);
    let after = s.insert(pos, (key, order));
    lemma_rank_parts(s, key);
    assert forall|i: int, j: int| 0 <= i < j < after.len() implies (#[trigger] after[i]).0.precedes(
        &(#[trigger] after[j]).0,
    ) by {
        if j == pos {
            assert(after[i] == s[i]);
        } else if i == pos {
            assert(after[j] == s[j - 1]);
            assert(s[j - 1].0.order_id != order_id);
            lemma_key_order_total(key, s[j - 1].0);
        } else {
            let si = if i < pos { i } else { i - 1 };
            let sj = if j < pos { j } else { j - 1 };
            assert(after[i] == s[si]);
            assert(after[j] == s[sj]);
        }
    }
    assert forall|i: int, j: int| 0 <= i < j < after.len() implies (#[trigger] after[i]).0.order_id
        != (#[trigger] after[j]).0.order_id by {
        let si = if i < pos { i } else { i - 1 };
        let sj = if j < pos { j } else { j - 1 };
        if i != pos {
            assert(after[i] == s[si]);
        }
        if j != pos {
            assert(after[j] == s[sj]);
        }
    }
    assert forall|i: int| 0 <= i < after.len() implies match (#[trigger] after[i]).1 {
        Order::LimitOrder { limit_price, .. } => limit_price == after[i].0.limit_price,
        Order::MarketOrder { .. } => false,
    } by {
        if i != pos {
            let si = if i < pos { i } else { i - 1 };
            assert(after[i] == s[si]);
        }
    }
}

/// First in, first out at a price: an accepted order goes behind every entry
/// of its price that carries a smaller id, and the entries that were there
/// keep their order among themselves.
pub proof fn lemma_insertion_keeps_arrival_order(
    s: Seq<(OrderIndex, Order)>,
    order_id: u64,
    order: Order,
    now: Timestamp,
)
    requires
        well_formed(s),
        insertion(s, order_id, order, now) is Ok,
    ensures
        forall|i: int|
            0 <= i < s.len() && (#[trigger] s[i]).0.limit_price == order->limit_price
                && s[i].0.order_id < order_id ==> i < rank(
                s,
                arrival_key(s, order_id, order, now),
            ),
        forall|i: int|
            0 <= i < s.len() ==> (#[trigger] s[i]) == insertion(s, order_id, order, now)->Ok_0[if i
                < rank(s, arrival_key(s, order_id, order, now)) {
                i
            } else {
                i + 1
            }],
{
    let key = arrival_key(s, order_id, order, now);
    lemma_rank_parts(s, key);
    lemma_arrival_stamp_is_newest(s, order->limit_price, now);
    assert forall|i: int|
        0 <= i < s.len() && (#[trigger] s[i]).0.limit_price == order->limit_price
            && s[i].0.order_id < order_id implies i < rank(s, key) by {
        lemma_later_arrival_follows(s[i].0, key);
    }
}

/// The smallest key of a price parts the keys of lower prices from the rest.
pub proof fn lemma_price_floor(key: OrderIndex, limit_price: u64)
    ensures
        key.precedes(
            &OrderIndex { limit_price, timestamp: Timestamp::spec_earliest(), order_id: 0 },
        ) <==> key.limit_price < limit_price,
{
    reveal(OrderIndex::precedes);
    lemma_earliest_is_first(key.timestamp);
}

/// A sequence without an entry at a price has an empty level there.
pub proof fn lemma_level_without_price(s: Seq<(OrderIndex, Order)>, limit_price: u64)
    requires
        forall|i: int| 0 <= i < s.len() ==> (#[trigger] s[i]).0.limit_price != limit_price,
    ensures
        level(s, limit_price) == Seq::<(OrderIndex, Order)>::empty(),
{
    let at_price = |e: (OrderIndex, Order)| e.0.limit_price == limit_price;
    assert(s.all(|e: (OrderIndex, Order)| !at_price(e)));
    s.lemma_all_neg_filter_empty(at_price);
    assert(level(s, limit_price) =~= Seq::<(OrderIndex, Order)>::empty());
}

/// The resting limit orders of one side of the book.
#[derive(Debug)]
pub struct OrderQueue {
    entries: Vec<(OrderIndex, Order)>,
}

impl View for OrderQueue {
    type V = Seq<(OrderIndex, Order)>;

    /// The entries in ascending order of their keys.
    closed spec fn view(&self) -> Seq<(OrderIndex, Order)> {
        self.entries@
    }
}

impl OrderQueue {
    #[verifier::type_invariant]
    spec fn inv(&self) -> bool {
        well_formed(self.entries@)
    }

    /// The queue without entries.
    pub fn new() -> (queue: OrderQueue)
        ensures
            queue@ == Seq::<(OrderIndex, Order)>::empty(),
    {
        OrderQueue { entries: Vec::new() }
    }

    /// The number of entries.
    pub fn len(&self) -> (n: usize)
        ensures
            n == self@.len(),
    {
        self.entries.len()
    }

    /// Whether the queue has no entry.
    pub fn is_empty(&self) -> (b: bool)
        ensures
            b == (self@.len() == 0),
    {
        self.entries.len() == 0
    }

    /// The entries in ascending order of their keys.
    pub fn entries(&self) -> (all: Vec<(OrderIndex, Order)>)
        ensures
            all@ == self@,
            well_formed(self@),
    {
        proof {
            use_type_invariant(self);
        }
        let mut all: Vec<(OrderIndex, Order)> = Vec::new();
        let mut i: usize = 0;
        while i < self.entries.len()
            invariant
                i <= self.entries.len(),
                all@ == self.entries@.take(i as int),
            decreases self.entries.len() - i,
        {
            all.push(self.entries[i]);
            i += 1;
        }
        all
    }

    /// The place behind the entries of prices up to `limit_price`.
    fn level_end(entries: &Vec<(OrderIndex, Order)>, limit_price: u64) -> (end: usize)
        requires
            ascending(entries@),
        ensures
            end <= entries.len(),
            forall|i: int| 0 <= i < end ==> (#[trigger] entries@[i]).0.limit_price <= limit_price,
            forall|i: int|
                end <= i < entries.len() ==> (#[trigger] entries@[i]).0.limit_price > limit_price,
    {
        if limit_price == u64::MAX {
            entries.len()
        } else {
            let above = OrderIndex::new(limit_price + 1, Timestamp::earliest(), 0);
            let end = lower_bound(entries, &above);
            proof {
                lemma_rank_parts(entries@, above);
                assert forall|i: int| 0 <= i < entries.len() implies ((
                #[trigger] entries@[i]).0.limit_price <= limit_price <==> i < end) by {
                    lemma_price_floor(entries@[i].0, (limit_price + 1) as u64);
                }
            }
            end
        }
    }

    /// Where in `entries` the id is held, if anywhere.
    fn position_of_id(entries: &Vec<(OrderIndex, Order)>, order_id: u64) -> (found: Option<usize>)
        ensures
            match found {
                Some(i) => i < entries.len() && entries@[i as int].0.order_id == order_id,
                None => !holds_id(entries@, order_id),
            },
    {
        let mut i: usize = 0;
        while i < entries.len()
            invariant
                i <= entries.len(),
                forall|j: int| 0 <= j < i ==> (#[trigger] entries@[j]).0.order_id != order_id,
            decreases entries.len() - i,
        {
            if entries[i].0.order_id == order_id {
                return Some(i);
            }
            i += 1;
        }
        None
    }

    /// Takes a limit order in under `order_id`, stamped as `insertion` says
    /// for a clock that reads `now`: with `now`, unless an entry of the
    /// order's price carries a later stamp. An id that is already held is
    /// refused first, then an order that is no limit order; a refusal
    /// changes nothing.
    pub fn insert_at(&mut self, order_id: u64, order: Order, now: Timestamp) -> (r: Result<
        (),
        OrderQueueError,
    >)
        ensures
            well_formed(old(self)@),
            well_formed(final(self)@),
            match insertion(old(self)@, order_id, order, now) {
                Ok(after) => r == Ok::<(), OrderQueueError>(()) && final(self)@ == after,
                Err(e) => r == Err::<(), OrderQueueError>(e) && final(self)@ == old(self)@,
            },
            r is Ok && (forall|i: int|
                0 <= i < old(self)@.len() && (#[trigger] old(self)@[i]).0.limit_price
                    == order->limit_price ==> !now.precedes(&old(self)@[i].0.timestamp))
                ==> final(self)@.contains(
                (OrderIndex { limit_price: order->limit_price, timestamp: now, order_id }, order),
            ),
    {
        proof {
            use_type_invariant(&*self);
            let s = self.entries@;
            if order is LimitOrder && (forall|i: int|
                0 <= i < s.len() && (#[trigger] s[i]).0.limit_price == order->limit_price
                    ==> !now.precedes(&s[i].0.timestamp)) {
                lemma_arrival_stamp_is_clock(s, order->limit_price, now);
                let key = arrival_key(s, order_id, order, now);
                lemma_rank_in_range(s, key);
                assert(s.insert(rank(s, key), (key, order))[rank(s, key)] == (key, order));
            }
        }
        if Self::position_of_id(&self.entries, order_id).is_some() {
            return Err(OrderQueueError::OrderIdExists);
        }
        match order {
            Order::LimitOrder { limit_price, .. } => {
                let end = Self::level_end(&self.entries, limit_price);
                let newest = if end > 0 && self.entries[end - 1].0.limit_price == limit_price {
                    self.entries[end - 1].0.timestamp
                } else {
                    Timestamp::earliest()
                };
                proof {
                    lemma_level_newest(self.entries@, limit_price, end as int);
                }
                let stamp = now.later(&newest);
                let key = OrderIndex::new(limit_price, stamp, order_id);
                let pos = lower_bound(&self.entries, &key);
                proof {
                    lemma_insertion_well_formed(self.entries@, order_id, order, now);
                }
                let mut taken = OrderQueue::new();
                core::mem::swap(&mut taken, self);
                let mut entries = taken.entries;
                entries.insert(pos, (key, order));
                *self = OrderQueue { entries };
                Ok(())
            },
            Order::MarketOrder { .. } => Err(OrderQueueError::NotALimitOrder),
        }
    }

    /// Takes a limit order in under `order_id`, stamped with the reading of
    /// the system clock, or with the latest stamp among the entries of its
    /// price where the clock reads earlier than that.
    pub fn insert(&mut self, order_id: u64, order: Order) -> (r: Result<(), OrderQueueError>)
        ensures
            well_formed(final(self)@),
            exists|now: Timestamp|
                match #[trigger] insertion(old(self)@, order_id, order, now) {
                    Ok(after) => r == Ok::<(), OrderQueueError>(()) && final(self)@ == after,
                    Err(e) => r == Err::<(), OrderQueueError>(e) && final(self)@ == old(self)@,
                },
            r == Err::<(), OrderQueueError>(OrderQueueError::OrderIdExists) <==> holds_id(
                old(self)@,
                order_id,
            ),
            r == Err::<(), OrderQueueError>(OrderQueueError::NotALimitOrder) <==> !holds_id(
                old(self)@,
                order_id,
            ) && order is MarketOrder,
    {
        let now = utc_now();
        self.insert_at(order_id, order, now)
    }

    /// The entry that carries the id. No two entries carry the same.
    pub fn get_by_order_id(&self, order_id: u64) -> (found: Option<(&OrderIndex, &Order)>)
        ensures
            well_formed(self@),
            match found {
                Some((key, order)) => key.order_id == order_id && self@.contains((*key, *order)),
                None => !holds_id(self@, order_id),
            },
    {
        proof {
            use_type_invariant(self);
        }
        match Self::position_of_id(&self.entries, order_id) {
            Some(i) => {
                let entry = &self.entries[i];
                Some((&entry.0, &entry.1))
            },
            None => None,
        }
    }

    /// The entries at one price, earliest arrival first. The level is found
    /// by bisection, so the work grows with the logarithm of the queue's
    /// length and with the length of the level.
    pub fn get_by_limit_price(&self, limit_price: u64) -> (found: Vec<(&OrderIndex, &Order)>)
        ensures
            well_formed(self@),
            found@.len() == level(self@, limit_price).len(),
            forall|i: int|
                0 <= i < found@.len() ==> (*(#[trigger] found@[i]).0, *found@[i].1) == level(
                    self@,
                    limit_price,
                )[i],
    {
        proof {
            use_type_invariant(self);
        }
        let ghost all = self.entries@;
        let floor = OrderIndex::new(limit_price, Timestamp::earliest(), 0);
        let start = lower_bound(&self.entries, &floor);
        let mut found: Vec<(&OrderIndex, &Order)> = Vec::new();
        let mut i: usize = start;
        proof {
            lemma_rank_parts(all, floor);
            assert forall|k: int| 0 <= k < start implies (#[trigger] all.take(
                start as int,
            )[k]).0.limit_price != limit_price by {
                lemma_price_floor(all[k].0, limit_price);
            }
            lemma_level_without_price(all.take(start as int), limit_price);
        }
        while i < self.entries.len() && self.entries[i].0.limit_price == limit_price
            invariant
                start <= i <= self.entries.len(),
                all == self.entries@,
                found@.len() == level(all.take(i as int), limit_price).len(),
                forall|j: int|
                    0 <= j < found@.len() ==> (*(#[trigger] found@[j]).0, *found@[j].1) == level(
                        all.take(i as int),
                        limit_price,
                    )[j],
            decreases self.entries.len() - i,
        {
            let entry = &self.entries[i];
            proof {
                let before = all.take(i as int);
                assert(all.take(i + 1) == before.push(all[i as int]));
                before.lemma_filter_push(
                    all[i as int],
                    |e: (OrderIndex, Order)| e.0.limit_price == limit_price,
                );
            }
            found.push((&entry.0, &entry.1));
            i += 1;
        }
        proof {
            let rest = all.skip(i as int);
            assert forall|k: int| 0 <= k < rest.len() implies (#[trigger] rest[k]).0.limit_price
                != limit_price by {
                assert(rest[k] == all[i + k]);
                lemma_price_floor(all[i as int].0, limit_price);
                if k > 0 {
                    lemma_key_order_by_price(all[i as int].0, all[i + k].0);
                }
            }
            lemma_level_without_price(rest, limit_price);
            assert(all == all.take(i as int) + rest);
            Seq::filter_distributes_over_add(
                all.take(i as int),
                rest,
                |e: (OrderIndex, Order)| e.0.limit_price == limit_price,
            );
        }
        found
    }

    /// The entry with the smallest key.
    pub fn first_key_value(&self) -> (first: Option<(&OrderIndex, &Order)>)
        ensures
            well_formed(self@),
            match first {
                Some((key, order)) => self@.len() > 0 && (*key, *order) == self@[0],
                None => self@.len() == 0,
            },
    {
        proof {
            use_type_invariant(self);
        }
        if self.entries.len() == 0 {
            None
        } else {
            let entry = &self.entries[0];
            Some((&entry.0, &entry.1))
        }
    }

    /// The entry with the largest key.
    pub fn last_key_value(&self) -> (last: Option<(&OrderIndex, &Order)>)
        ensures
            well_formed(self@),
            match last {
                Some((key, order)) => self@.len() > 0 && (*key, *order) == self@[self@.len() - 1],
                None => self@.len() == 0,
            },
    {
        proof {
            use_type_invariant(self);
        }
        let n = self.entries.len();
        if n == 0 {
            None
        } else {
            let entry = &self.entries[n - 1];
            Some((&entry.0, &entry.1))
        }
    }
}

impl Clone for OrderQueue {
    fn clone(&self) -> (copy: OrderQueue)
        ensures
            copy@ == self@,
    {
        proof {
            use_type_invariant(self);
        }
        OrderQueue { entries: self.entries() }
    }
}

} // verus!
