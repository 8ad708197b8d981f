//! Canonical logical state of a book, as exported and restored.

use vstd::prelude::*;

use crate::book::model::{better, BookView, LevelView, OrderView};
use crate::book::sorted::has_priority;
use crate::types::{AccountId, InstrumentId, OrderId, PriceTicks, Quantity, SequenceNumber, Side};

verus! {

#[derive(Clone, Copy, Debug, PartialEq, Eq, Structural)]
pub struct BookOrderState {
    pub order_id: OrderId,
    pub account_id: AccountId,
    pub side: Side,
    pub price: PriceTicks,
    pub quantity: Quantity,
    pub sequence: SequenceNumber,
}

impl BookOrderState {
    pub open spec fn logical(self) -> OrderView {
        OrderView {
            id: self.order_id,
            account_id: self.account_id,
            quantity: self.quantity,
            sequence: self.sequence,
        }
    }

    /// The filler behind the last order of a level.
    pub open spec fn blank() -> BookOrderState {
        BookOrderState {
            order_id: OrderId(0),
            account_id: AccountId(0),
            side: Side::Buy,
            price: PriceTicks(0),
            quantity: Quantity(0),
            sequence: SequenceNumber(0),
        }
    }

    pub fn empty() -> (order: Self)
        ensures
            order == Self::blank(),
    {
        BookOrderState {
            order_id: OrderId(0),
            account_id: AccountId(0),
            side: Side::Buy,
            price: PriceTicks(0),
            quantity: Quantity(0),
            sequence: SequenceNumber(0),
        }
    }
}

/// One level: the first `order_count` of `orders`, oldest first, then filler.
#[derive(Clone, Copy, Debug, PartialEq, Eq)]
pub struct BookLevelState<const ORDERS: usize> {
    pub side: Side,
    pub price: PriceTicks,
    pub order_count: usize,
    pub orders: [BookOrderState; ORDERS],
}

impl<const ORDERS: usize> BookLevelState<ORDERS> {
    /// A level without orders.
    pub open spec fn is_empty_at(self, side: Side, price: PriceTicks) -> bool {
        &&& self.side == side
        &&& self.price == price
        &&& self.order_count == 0
        &&& forall|k: int| 0 <= k < ORDERS ==> #[trigger] self.orders@[k] == BookOrderState::blank()
    }

    /// The filler behind the last level of a side.
    pub open spec fn is_blank(self) -> bool {
        self.is_empty_at(Side::Buy, PriceTicks(0))
    }

    /// The orders that count.
    pub open spec fn active(self) -> Seq<BookOrderState> {
        self.orders@.take(self.order_count as int)
    }

    pub open spec fn logical(self) -> LevelView {
        LevelView {
            price: self.price,
            orders: Seq::new(self.active().len(), |k: int| self.active()[k].logical()),
        }
    }

    #[must_use]
    pub fn empty(side: Side, price: PriceTicks) -> (level: Self)
        ensures
            level.is_empty_at(side, price),
    {
        BookLevelState { side, price, order_count: 0, orders: [BookOrderState::empty(); ORDERS] }
    }
}

/// A book: the first `bid_level_count` of `bids` and the first
/// `ask_level_count` of `asks`, best first, then filler.
#[derive(Clone, Copy, Debug, PartialEq, Eq)]
pub struct BookState<const LEVELS: usize, const ORDERS: usize> {
    pub instrument: InstrumentId,
    pub bid_level_count: usize,
    pub bids: [BookLevelState<ORDERS>; LEVELS],
    pub ask_level_count: usize,
    pub asks: [BookLevelState<ORDERS>; LEVELS],
}

impl<const LEVELS: usize, const ORDERS: usize> BookState<LEVELS, ORDERS> {
    #[must_use]
    pub fn empty(instrument: InstrumentId) -> (state: Self)
        ensures
            state.instrument == instrument,
            state.bid_level_count == 0,
            state.ask_level_count == 0,
            forall|i: int| 0 <= i < LEVELS ==> (#[trigger] state.bids@[i]).is_blank(),
            forall|i: int| 0 <= i < LEVELS ==> (#[trigger] state.asks@[i]).is_blank(),
    {
        let filler: BookLevelState<ORDERS> = BookLevelState::empty(Side::Buy, PriceTicks(0));
        BookState {
            instrument,
            bid_level_count: 0,
            bids: [filler; LEVELS],
            ask_level_count: 0,
            asks: [filler; LEVELS],
        }
    }
}

#[derive(Clone, Copy, Debug, PartialEq, Eq, Structural)]
pub enum BookStateError {
    Instrument,
    LevelCapacity,
    OrderCapacity,
    Side,
    Price,
    Quantity,
    Sequence,
    LevelOrder,
    DuplicateOrderId,
    Crossed,
    NonCanonical,
}

/// What is wrong with one order of a level at `price` on `side`.
pub open spec fn order_fault(order: BookOrderState, side: Side, price: PriceTicks) -> Option<
    BookStateError,
> {
    if order.side != side {
        Some(BookStateError::Side)
    } else if order.price != price {
        Some(BookStateError::Price)
    } else if order.quantity.0 == 0 {
        Some(BookStateError::Quantity)
    } else if order.sequence.0 == 0 {
        Some(BookStateError::Sequence)
    } else {
        None
    }
}

/// What is wrong with the first faulty order.
pub open spec fn orders_fault(
    orders: Seq<BookOrderState>,
    side: Side,
    price: PriceTicks,
) -> Option<BookStateError>
    decreases orders.len(),
{
    if orders.len() == 0 {
        None
    } else {
        match orders_fault(orders.drop_last(), side, price) {
            Some(error) => Some(error),
            None => order_fault(orders.last(), side, price),
        }
    }
}

/// Sequence numbers rise from each order to the next.
pub open spec fn rising(orders: Seq<BookOrderState>) -> bool {
    forall|i: int, j: int|
        0 <= i < j < orders.len() ==> (#[trigger] orders[i]).sequence.0 < (
        #[trigger] orders[j]).sequence.0
}

/// What is wrong with a level behind one at `prior`.
pub open spec fn level_fault<const ORDERS: usize>(
    level: BookLevelState<ORDERS>,
    side: Side,
    prior: Option<PriceTicks>,
) -> Option<BookStateError> {
    if level.side != side {
        Some(BookStateError::Side)
    } else if level.price.0 <= 0 {
        Some(BookStateError::Price)
    } else if level.order_count == 0 || level.order_count > ORDERS {
        Some(BookStateError::OrderCapacity)
    } else if prior is Some && !better(side, prior->0, level.price) {
        Some(BookStateError::LevelOrder)
    } else if orders_fault(level.active(), side, level.price) is Some {
        orders_fault(level.active(), side, level.price)
    } else if !rising(level.active()) {
        Some(BookStateError::Sequence)
    } else if exists|k: int|
        level.order_count <= k < ORDERS && #[trigger] level.orders@[k] != BookOrderState::blank() {
        Some(BookStateError::NonCanonical)
    } else {
        None
    }
}

/// What is wrong with the first faulty one of the first `count` levels.
pub open spec fn side_fault<const ORDERS: usize>(
    levels: Seq<BookLevelState<ORDERS>>,
    count: int,
    side: Side,
) -> Option<BookStateError>
    decreases count,
{
    if count <= 0 {
        None
    } else {
        match side_fault(levels, count - 1, side) {
            Some(error) => Some(error),
            None => level_fault(
                levels[count - 1],
                side,
                if count >= 2 {
                    Some(levels[count - 2].price)
                } else {
                    None
                },
            ),
        }
    }
}

/// The orders of the first `count` levels, in order.
pub open spec fn flat<const ORDERS: usize>(
    levels: Seq<BookLevelState<ORDERS>>,
    count: int,
) -> Seq<BookOrderState>
    decreases count,
{
    if count <= 0 {
        Seq::empty()
    } else {
        flat(levels, count - 1) + levels[count - 1].active()
    }
}

/// Another order has the identifier of order `j`.
pub open spec fn id_repeats(all: Seq<BookOrderState>, j: int) -> bool {
    exists|m: int|
        0 <= m < all.len() && m != j && (#[trigger] all[m]).order_id == all[j].order_id
}

/// Another order has the sequence number of order `j`.
pub open spec fn sequence_repeats(all: Seq<BookOrderState>, j: int) -> bool {
    exists|m: int|
        0 <= m < all.len() && m != j && (#[trigger] all[m]).sequence == all[j].sequence
}

/// What the first of the first `count` orders shares with another one.
pub open spec fn identity_fault(all: Seq<BookOrderState>, count: int) -> Option<BookStateError>
    decreases count,
{
    if count <= 0 {
        None
    } else {
        match identity_fault(all, count - 1) {
            Some(error) => Some(error),
            None => if id_repeats(all, count - 1) {
                Some(BookStateError::DuplicateOrderId)
            } else if sequence_repeats(all, count - 1) {
                Some(BookStateError::Sequence)
            } else {
                None
            },
        }
    }
}

impl<const LEVELS: usize, const ORDERS: usize> BookState<LEVELS, ORDERS> {
    /// Every order of the state, bids first.
    pub open spec fn all_orders(self) -> Seq<BookOrderState> {
        flat(self.bids@, self.bid_level_count as int) + flat(
            self.asks@,
            self.ask_level_count as int,
        )
    }

    /// The first format, ordering, identity or book fault of the state.
    pub open spec fn fault(self) -> Option<BookStateError> {
        let bids = side_fault(self.bids@, self.bid_level_count as int, Side::Buy);
        let asks = side_fault(self.asks@, self.ask_level_count as int, Side::Sell);
        if self.bid_level_count > LEVELS || self.ask_level_count > LEVELS {
            Some(BookStateError::LevelCapacity)
        } else if bids is Some {
            bids
        } else if asks is Some {
            asks
        } else if !padded(self.bids@, self.bid_level_count as int) || !padded(
            self.asks@,
            self.ask_level_count as int,
        ) {
            Some(BookStateError::NonCanonical)
        } else if self.bid_level_count > 0 && self.ask_level_count > 0 && self.bids@[0].price.0
            >= self.asks@[0].price.0 {
            Some(BookStateError::Crossed)
        } else {
            identity_fault(self.all_orders(), self.all_orders().len() as int)
        }
    }

    /// The book that the state describes.
    pub open spec fn logical(self) -> BookView {
        BookView {
            instrument: self.instrument,
            bids: logical_levels(self.bids@, self.bid_level_count as int),
            asks: logical_levels(self.asks@, self.ask_level_count as int),
        }
    }
}

/// Filler alone follows the first `count` levels.
pub open spec fn padded<const ORDERS: usize>(
    levels: Seq<BookLevelState<ORDERS>>,
    count: int,
) -> bool {
    forall|i: int| count <= i < levels.len() ==> (#[trigger] levels[i]).is_blank()
}

/// The first `count` levels as the book sees them.
pub open spec fn logical_levels<const ORDERS: usize>(
    levels: Seq<BookLevelState<ORDERS>>,
    count: int,
) -> Seq<LevelView> {
    Seq::new(count as nat, |i: int| levels[i].logical())
}

/// Level `i` is without fault behind the level before it.
pub open spec fn level_sound<const ORDERS: usize>(
    levels: Seq<BookLevelState<ORDERS>>,
    i: int,
    side: Side,
) -> bool {
    level_fault(
        levels[i],
        side,
        if i >= 1 {
            Some(levels[i - 1].price)
        } else {
            None
        },
    ) is None
}

/// Levels without fault are each without fault.
pub proof fn lemma_side_sound<const ORDERS: usize>(
    levels: Seq<BookLevelState<ORDERS>>,
    count: int,
    side: Side,
)
    requires
        side_fault(levels, count, side) is None,
    ensures
        forall|i: int| 0 <= i < count ==> #[trigger] level_sound(levels, i, side),
        forall|i: int|
            0 <= i < count ==> 0 < (#[trigger] levels[i]).order_count <= ORDERS,
    decreases count,
{
    if count > 0 {
        lemma_side_sound(levels, count - 1, side);
        assert(level_sound(levels, count - 1, side));
    }
}

/// Orders without fault are each without fault.
pub proof fn lemma_orders_sound(orders: Seq<BookOrderState>, side: Side, price: PriceTicks)
    ensures
        orders_fault(orders, side, price) is None <==> forall|k: int|
            0 <= k < orders.len() ==> order_fault(#[trigger] orders[k], side, price) is None,
    decreases orders.len(),
{
    if orders.len() > 0 {
        let init = orders.drop_last();
        lemma_orders_sound(init, side, price);
        if orders_fault(orders, side, price) is None {
            assert forall|k: int| 0 <= k < orders.len() implies order_fault(
                #[trigger] orders[k],
                side,
                price,
            ) is None by {
                if k < init.len() {
                    assert(orders[k] == init[k]);
                }
            }
        }
        if forall|k: int|
            0 <= k < orders.len() ==> order_fault(#[trigger] orders[k], side, price) is None {
            assert forall|k: int| 0 <= k < init.len() implies order_fault(
                #[trigger] init[k],
                side,
                price,
            ) is None by {
                assert(orders[k] == init[k]);
            }
            assert(order_fault(orders[orders.len() - 1], side, price) is None);
        }
    }
}

/// A fault in a prefix is the fault of the whole.
proof fn lemma_orders_prefix(orders: Seq<BookOrderState>, n: int, side: Side, price: PriceTicks)
    requires
        0 <= n <= orders.len(),
        orders_fault(orders.take(n), side, price) is Some,
    ensures
        orders_fault(orders, side, price) == orders_fault(orders.take(n), side, price),
    decreases orders.len() - n,
{
    if n == orders.len() {
        assert(orders.take(n) =~= orders);
    } else {
        assert(orders.take(n + 1).drop_last() =~= orders.take(n));
        lemma_orders_prefix(orders, n + 1, side, price);
    }
}

proof fn lemma_side_prefix<const ORDERS: usize>(
    levels: Seq<BookLevelState<ORDERS>>,
    n: int,
    count: int,
    side: Side,
)
    requires
        0 <= n <= count,
        side_fault(levels, n, side) is Some,
    ensures
        side_fault(levels, count, side) == side_fault(levels, n, side),
    decreases count - n,
{
    if n < count {
        lemma_side_prefix(levels, n, count - 1, side);
    }
}

proof fn lemma_identity_prefix(all: Seq<BookOrderState>, n: int, count: int)
    requires
        0 <= n <= count,
        identity_fault(all, n) is Some,
    ensures
        identity_fault(all, count) == identity_fault(all, n),
    decreases count - n,
{
    if n < count {
        lemma_identity_prefix(all, n, count - 1);
    }
}

/// Orders without identity fault share neither identifier nor sequence number.
pub proof fn lemma_identity_sound(all: Seq<BookOrderState>, count: int, j: int)
    requires
        identity_fault(all, count) is None,
        0 <= j < count,
    ensures
        !id_repeats(all, j),
        !sequence_repeats(all, j),
    decreases count,
{
    if j < count - 1 {
        lemma_identity_sound(all, count - 1, j);
    }
}

fn check_order(order: &BookOrderState, side: Side, price: PriceTicks) -> (fault: Option<
    BookStateError,
>)
    ensures
        fault == order_fault(*order, side, price),
{
    if order.side != side {
        Some(BookStateError::Side)
    } else if order.price.0 != price.0 {
        Some(BookStateError::Price)
    } else if order.quantity.0 == 0 {
        Some(BookStateError::Quantity)
    } else if order.sequence.0 == 0 {
        Some(BookStateError::Sequence)
    } else {
        None
    }
}

fn check_orders<const ORDERS: usize>(level: &BookLevelState<ORDERS>) -> (fault: Option<
    BookStateError,
>)
    requires
        level.order_count <= ORDERS,
    ensures
        fault == orders_fault(level.active(), level.side, level.price),
{
    let ghost active = level.active();
    let count: usize = level.order_count;
    let mut k: usize = 0;
    assert(active.take(0) =~= Seq::empty());
    while k < count
        invariant
            k <= count,
            count == level.order_count,
            count <= ORDERS,
            active == level.active(),
            active.len() == count,
            orders_fault(active.take(k as int), level.side, level.price) is None,
        decreases count - k,
    {
        let order = level.orders[k];
        assert(order == active[k as int]);
        assert(active.take(k + 1).drop_last() =~= active.take(k as int));
        assert(active.take(k + 1).last() == order);
        if let Some(error) = check_order(&order, level.side, level.price) {
            proof {
                lemma_orders_prefix(active, k + 1, level.side, level.price);
            }
            return Some(error);
        }
        k = k + 1;
    }
    assert(active.take(k as int) =~= active);
    None
}

fn check_rising<const ORDERS: usize>(level: &BookLevelState<ORDERS>) -> (ascending: bool)
    requires
        0 < level.order_count <= ORDERS,
    ensures
        ascending == rising(level.active()),
{
    let ghost active = level.active();
    let count: usize = level.order_count;
    let mut k: usize = 1;
    while k < count
        invariant
            1 <= k,
            count == level.order_count,
            0 < count <= ORDERS,
            k <= count,
            active == level.active(),
            active.len() == count,
            rising(active.take(k as int)),
        decreases count - k,
    {
        let earlier = level.orders[k - 1];
        let later = level.orders[k];
        assert(earlier == active[k - 1] && later == active[k as int]);
        if earlier.sequence.0 >= later.sequence.0 {
            assert(!rising(active));
            return false;
        }
        proof {
            let next = active.take(k + 1);
            let now = active.take(k as int);
            assert forall|i: int, j: int| 0 <= i < j < next.len() implies (
            #[trigger] next[i]).sequence.0 < (#[trigger] next[j]).sequence.0 by {
                if j < k {
                    assert(now[i] == next[i] && now[j] == next[j]);
                } else {
                    assert(now[i] == next[i]);
                    assert(now[k - 1] == next[k - 1]);
                }
            }
        }
        k = k + 1;
    }
    assert(active.take(count as int) =~= active);
    true
}

/// Whether filler alone follows the orders of the level.
fn check_filler<const ORDERS: usize>(level: &BookLevelState<ORDERS>) -> (blank: bool)
    ensures
        blank == forall|k: int|
            level.order_count <= k < ORDERS ==> #[trigger] level.orders@[k]
                == BookOrderState::blank(),
{
    let mut k: usize = level.order_count;
    while k < ORDERS
        invariant
            level.order_count <= k,
            forall|m: int|
                level.order_count <= m < k && m < ORDERS ==> #[trigger] level.orders@[m]
                    == BookOrderState::blank(),
        decreases ORDERS - k,
    {
        if level.orders[k] != BookOrderState::empty() {
            assert(level.orders@[k as int] != BookOrderState::blank());
            return false;
        }
        k = k + 1;
    }
    true
}

fn check_level<const ORDERS: usize>(
    level: &BookLevelState<ORDERS>,
    side: Side,
    prior: Option<PriceTicks>,
) -> (fault: Option<BookStateError>)
    ensures
        fault == level_fault(*level, side, prior),
{
    if level.side != side {
        return Some(BookStateError::Side);
    }
    if level.price.0 <= 0 {
        return Some(BookStateError::Price);
    }
    if level.order_count == 0 || level.order_count > ORDERS {
        return Some(BookStateError::OrderCapacity);
    }
    if let Some(prior) = prior {
        if !has_priority(side, prior, level.price) {
            return Some(BookStateError::LevelOrder);
        }
    }
    if let Some(error) = check_orders(level) {
        return Some(error);
    }
    if !check_rising(level) {
        return Some(BookStateError::Sequence);
    }
    if !check_filler(level) {
        return Some(BookStateError::NonCanonical);
    }
    None
}

fn check_blank<const ORDERS: usize>(level: &BookLevelState<ORDERS>) -> (blank: bool)
    ensures
        blank == level.is_blank(),
{
    level.side == Side::Buy && level.price.0 == 0 && level.order_count == 0 && check_filler(level)
}

fn check_padding<const LEVELS: usize, const ORDERS: usize>(
    levels: &[BookLevelState<ORDERS>; LEVELS],
    count: usize,
) -> (blank: bool)
    requires
        count <= LEVELS,
    ensures
        blank == padded(levels@, count as int),
{
    let mut i: usize = count;
    while i < LEVELS
        invariant
            count <= i <= LEVELS,
            forall|m: int| count <= m < i ==> (#[trigger] levels@[m]).is_blank(),
        decreases LEVELS - i,
    {
        if !check_blank(&levels[i]) {
            assert(!levels@[i as int].is_blank());
            return false;
        }
        i = i + 1;
    }
    true
}

impl<const LEVELS: usize, const ORDERS: usize> BookState<LEVELS, ORDERS> {
    fn check_side(
        levels: &[BookLevelState<ORDERS>; LEVELS],
        level_count: usize,
        side: Side,
    ) -> (fault: Option<BookStateError>)
        requires
            level_count <= LEVELS,
        ensures
            fault == side_fault(levels@, level_count as int, side),
    {
        let mut prior: Option<PriceTicks> = None;
        let mut i: usize = 0;
        while i < level_count
            invariant
                i <= level_count <= LEVELS,
                side_fault(levels@, i as int, side) is None,
                prior == if i >= 1 {
                    Some(levels@[i - 1].price)
                } else {
                    None
                },
            decreases level_count - i,
        {
            let level = &levels[i];
            if let Some(error) = check_level(level, side, prior) {
                proof {
                    lemma_side_prefix(levels@, i + 1, level_count as int, side);
                }
                return Some(error);
            }
            prior = Some(level.price);
            i = i + 1;
        }
        None
    }

    /// Appends the orders of the first `level_count` levels.
    fn push_active(
        all: &mut Vec<BookOrderState>,
        levels: &[BookLevelState<ORDERS>; LEVELS],
        level_count: usize,
    )
        requires
            level_count <= LEVELS,
            forall|i: int| 0 <= i < level_count ==> (#[trigger] levels@[i]).order_count <= ORDERS,
        ensures
            final(all)@ == old(all)@ + flat(levels@, level_count as int),
    {
        let mut i: usize = 0;
        assert(all@ =~= old(all)@ + flat(levels@, 0));
        while i < level_count
            invariant
                i <= level_count <= LEVELS,
                forall|m: int|
                    0 <= m < level_count ==> (#[trigger] levels@[m]).order_count <= ORDERS,
                all@ == old(all)@ + flat(levels@, i as int),
            decreases level_count - i,
        {
            let level = &levels[i];
            let ghost active = level.active();
            let ghost start = all@;
            let mut k: usize = 0;
            assert(start + active.take(0) =~= start);
            while k < level.order_count
                invariant
                    k <= level.order_count <= ORDERS,
                    active == level.active(),
                    all@ == start + active.take(k as int),
                decreases level.order_count - k,
            {
                let order = level.orders[k];
                all.push(order);
                assert(active.take(k + 1) =~= active.take(k as int).push(order));
                assert(all@ =~= start + active.take(k + 1));
                k = k + 1;
            }
            assert(active.take(k as int) =~= active);
            assert(all@ =~= old(all)@ + flat(levels@, i + 1));
            i = i + 1;
        }
    }

    /// Finds the first order that shares its identifier or its sequence number
    /// with another one.
    fn check_identity(all: &Vec<BookOrderState>) -> (fault: Option<BookStateError>)
        ensures
            fault == identity_fault(all@, all@.len() as int),
    {
        let mut j: usize = 0;
        while j < all.len()
            invariant
                j <= all@.len(),
                identity_fault(all@, j as int) is None,
            decreases all.len() - j,
        {
            let order = all[j];
            let mut same_id = false;
            let mut same_sequence = false;
            let mut m: usize = 0;
            while m < all.len()
                invariant
                    m <= all@.len(),
                    j < all@.len(),
                    order == all@[j as int],
                    same_id == exists|x: int|
                        0 <= x < m && x != j && (#[trigger] all@[x]).order_id == order.order_id,
                    same_sequence == exists|x: int|
                        0 <= x < m && x != j && (#[trigger] all@[x]).sequence == order.sequence,
                decreases all.len() - m,
            {
                if m != j {
                    let other = all[m];
                    if other.order_id.0 == order.order_id.0 {
                        assert(all@[m as int].order_id == order.order_id);
                        same_id = true;
                    }
                    if other.sequence.0 == order.sequence.0 {
                        assert(all@[m as int].sequence == order.sequence);
                        same_sequence = true;
                    }
                }
                m = m + 1;
            }
            if same_id {
                proof {
                    lemma_identity_prefix(all@, j + 1, all@.len() as int);
                }
                return Some(BookStateError::DuplicateOrderId);
            }
            if same_sequence {
                proof {
                    lemma_identity_prefix(all@, j + 1, all@.len() as int);
                }
                return Some(BookStateError::Sequence);
            }
            j = j + 1;
        }
        None
    }

    /// The first format, ordering, identity or book fault of the state.
    pub fn validate(&self) -> (fault: Option<BookStateError>)
        ensures
            fault == self.fault(),
    {
        if self.bid_level_count > LEVELS || self.ask_level_count > LEVELS {
            return Some(BookStateError::LevelCapacity);
        }
        if let Some(error) = Self::check_side(&self.bids, self.bid_level_count, Side::Buy) {
            return Some(error);
        }
        if let Some(error) = Self::check_side(&self.asks, self.ask_level_count, Side::Sell) {
            return Some(error);
        }
        if !check_padding(&self.bids, self.bid_level_count) || !check_padding(
            &self.asks,
            self.ask_level_count,
        ) {
            return Some(BookStateError::NonCanonical);
        }
        if self.bid_level_count > 0 && self.ask_level_count > 0 && self.bids[0].price.0
            >= self.asks[0].price.0 {
            return Some(BookStateError::Crossed);
        }
        proof {
            lemma_side_sound(self.bids@, self.bid_level_count as int, Side::Buy);
            lemma_side_sound(self.asks@, self.ask_level_count as int, Side::Sell);
        }
        let mut all: Vec<BookOrderState> = Vec::new();
        Self::push_active(&mut all, &self.bids, self.bid_level_count);
        Self::push_active(&mut all, &self.asks, self.ask_level_count);
        assert(all@ =~= self.all_orders());
        Self::check_identity(&all)
    }
}

} // verus!
