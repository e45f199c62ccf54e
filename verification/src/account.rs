//! The account of the simulated brokerage: cash, orders and positions.
use crate::decimal::{unit, Decimal, Overflow};
use crate::order::Order;
use crate::position::{add_lot_spec, total_quantity, Lot, Position};
use vstd::prelude::*;

verus! {

/// A symbol and the lots held in it.
pub type Holding = (Seq<char>, Seq<Lot>);

/// The positions as symbols with their lots, in the order in which they were
/// opened.
pub open spec fn book(positions: Seq<Position>) -> Seq<Holding> {
    Seq::new(positions.len(), |i: int| (positions[i].spec_ticker(), positions[i]@))
}

/// Whether `i` is the place of the first holding in `ticker`.
pub open spec fn is_first(holdings: Seq<Holding>, ticker: Seq<char>, i: int) -> bool {
    &&& 0 <= i < holdings.len()
    &&& holdings[i].0 == ticker
    &&& forall|j: int| 0 <= j < i ==> (#[trigger] holdings[j]).0 != ticker
}

/// Place of the first holding in `ticker`, if there is one.
pub open spec fn holding_index(holdings: Seq<Holding>, ticker: Seq<char>) -> Option<int> {
    if exists|i: int| is_first(holdings, ticker, i) {
        Some(choose|i: int| is_first(holdings, ticker, i))
    } else {
        None
    }
}

/// Net number of shares held in `ticker`, in units of 10^-28; zero where
/// nothing is held.
pub open spec fn held_quantity(holdings: Seq<Holding>, ticker: Seq<char>) -> int {
    match holding_index(holdings, ticker) {
        Some(i) => total_quantity(holdings[i].1),
        None => 0,
    }
}

/// The holdings after a lot in `ticker`: added to the holding in `ticker`, or
/// opening one at the end. `None` where the position cannot take the lot.
pub open spec fn holdings_after(holdings: Seq<Holding>, ticker: Seq<char>, lot: Lot) -> Option<
    Seq<Holding>,
> {
    match holding_index(holdings, ticker) {
        Some(i) => match add_lot_spec(holdings[i].1, lot) {
            Some(lots) => Some(holdings.update(i, (ticker, lots))),
            None => None,
        },
        None => Some(holdings.push((ticker, seq![lot]))),
    }
}

/// There is at most one first holding in a symbol.
pub proof fn lemma_first_is_unique(holdings: Seq<Holding>, ticker: Seq<char>, i: int)
    requires
        is_first(holdings, ticker, i),
    ensures
        holding_index(holdings, ticker) == Some(i),
{
    let c = choose|c: int| is_first(holdings, ticker, c);
    if c < i {
        assert(holdings[c].0 != ticker);
    }
    if i < c {
        assert(holdings[i].0 != ticker);
    }
}

/// Nothing is held in a symbol that no holding names.
pub proof fn lemma_not_held(holdings: Seq<Holding>, ticker: Seq<char>)
    requires
        forall|j: int| 0 <= j < holdings.len() ==> (#[trigger] holdings[j]).0 != ticker,
    ensures
        holding_index(holdings, ticker) is None,
{
    if exists|i: int| is_first(holdings, ticker, i) {
        let c = choose|c: int| is_first(holdings, ticker, c);
        assert(holdings[c].0 != ticker);
    }
}

/// No symbol is held twice.
pub open spec fn distinct_symbols(holdings: Seq<Holding>) -> bool {
    forall|i: int, j: int|
        0 <= i < j < holdings.len() ==> (#[trigger] holdings[i]).0 != (#[trigger] holdings[j]).0
}

/// A lot never opens a second holding in a symbol: the holdings stay a
/// mapping from symbols to lots.
pub proof fn lemma_holdings_stay_distinct(holdings: Seq<Holding>, ticker: Seq<char>, lot: Lot)
    requires
        distinct_symbols(holdings),
        holdings_after(holdings, ticker, lot) is Some,
    ensures
        distinct_symbols(holdings_after(holdings, ticker, lot).unwrap()),
{
    let after = holdings_after(holdings, ticker, lot).unwrap();
    match holding_index(holdings, ticker) {
        Some(i) => {
            assert(is_first(holdings, ticker, i));
            assert forall|a: int, b: int| 0 <= a < b < after.len() implies (#[trigger] after[a]).0 != (
            #[trigger] after[b]).0 by {
                assert(after[a].0 == holdings[a].0);
                assert(after[b].0 == holdings[b].0);
            }
        },
        None => {
            assert forall|a: int, b: int| 0 <= a < b < after.len() implies (#[trigger] after[a]).0 != (
            #[trigger] after[b]).0 by {
                assert(after[a] == holdings[a]);
                if b < holdings.len() {
                    assert(after[b] == holdings[b]);
                } else {
                    if holdings[a].0 == ticker {
                        // the least such place would be the first holding in the symbol
                        lemma_some_first(holdings, ticker, a);
                    }
                }
            }
        },
    }
}

/// Where a holding names a symbol, some holding is the first to name it.
proof fn lemma_some_first(holdings: Seq<Holding>, ticker: Seq<char>, at: int)
    requires
        0 <= at < holdings.len(),
        holdings[at].0 == ticker,
    ensures
        holding_index(holdings, ticker) is Some,
    decreases at,
{
    if forall|j: int| 0 <= j < at ==> (#[trigger] holdings[j]).0 != ticker {
        assert(is_first(holdings, ticker, at));
    } else {
        let j = choose|j: int| 0 <= j < at && (#[trigger] holdings[j]).0 == ticker;
        lemma_some_first(holdings, ticker, j);
    }
}

/// Cash, orders and positions of one trader.
pub struct Account {
    pub active_orders: Vec<Order>,
    pub inactive_orders: Vec<Order>,
    pub positions: Vec<Position>,
    pub cash: Decimal,
    pub starting_cash: Decimal,
}

impl Account {
    pub open spec fn spec_starting_cash(&self) -> Decimal {
        self.starting_cash
    }

    /// The positions as symbols with their lots.
    pub open spec fn holdings(&self) -> Seq<Holding> {
        book(self.positions@)
    }

    /// An account that holds `cash` and nothing else.
    pub fn new(cash: Decimal) -> (r: Account)
        ensures
            r.active_orders@.len() == 0,
            r.inactive_orders@.len() == 0,
            r.positions@.len() == 0,
            r.cash == cash,
            r.spec_starting_cash() == cash,
    {
        Account {
            active_orders: Vec::new(),
            inactive_orders: Vec::new(),
            positions: Vec::new(),
            cash,
            starting_cash: cash,
        }
    }

    pub fn starting_cash(&self) -> (r: Decimal)
        ensures
            r == self.spec_starting_cash(),
    {
        self.starting_cash
    }

    /// Back to the starting cash, with no orders and no positions.
    pub fn reset(&mut self)
        ensures
            final(self).cash == old(self).spec_starting_cash(),
            final(self).spec_starting_cash() == old(self).spec_starting_cash(),
            final(self).active_orders@.len() == 0,
            final(self).inactive_orders@.len() == 0,
            final(self).positions@.len() == 0,
    {
        self.cash = self.starting_cash;
        self.active_orders.clear();
        self.inactive_orders.clear();
        self.positions.clear();
    }

    /// Place of the position in `ticker`.
    pub fn position_index(&self, ticker: &str) -> (r: Option<usize>)
        ensures
            match r {
                Some(i) => holding_index(self.holdings(), ticker@) == Some(i as int) && i
                    < self.positions@.len(),
                None => holding_index(self.holdings(), ticker@) is None,
            },
    {
        let wanted: String = ticker.to_owned();
        let mut i: usize = 0;
        while i < self.positions.len()
            invariant
                i <= self.positions@.len(),
                wanted@ == ticker@,
                forall|j: int| 0 <= j < i ==> (#[trigger] self.holdings()[j]).0 != ticker@,
            decreases self.positions.len() - i,
        {
            if *self.positions[i].ticker() == wanted {
                proof {
                    lemma_first_is_unique(self.holdings(), ticker@, i as int);
                }
                return Some(i);
            }
            i = i + 1;
        }
        proof {
            lemma_not_held(self.holdings(), ticker@);
        }
        None
    }

    /// The position in `ticker`, if there is one.
    pub fn position(&self, ticker: &str) -> (r: Option<&Position>)
        ensures
            match r {
                Some(p) => holding_index(self.holdings(), ticker@) matches Some(i)
                    && self.holdings()[i] == (p.spec_ticker(), p@),
                None => holding_index(self.holdings(), ticker@) is None,
            },
    {
        match self.position_index(ticker) {
            Some(i) => Some(&self.positions[i]),
            None => None,
        }
    }

    /// Net number of shares held in `ticker`; zero where nothing is held.
    pub fn quantity(&self, ticker: &str) -> (r: Decimal)
        ensures
            r@ == held_quantity(self.holdings(), ticker@),
            r.wf(),
    {
        match self.position(ticker) {
            Some(p) => p.quantity(),
            None => Decimal::zero(),
        }
    }

    /// Worth at `price` of what is held in `ticker`: zero where nothing is
    /// held, `None` where the product does not fit.
    pub fn market_value(&self, ticker: &str, price: Decimal) -> (r: Option<Decimal>)
        ensures
            r == Decimal::of_value(held_quantity(self.holdings(), ticker@)).spec_checked_mul(price),
            r matches Some(v) ==> v.wf() && v@ * unit(0) == held_quantity(
                self.holdings(),
                ticker@,
            ) * price@,
    {
        let quantity = self.quantity(ticker);
        proof {
            Decimal::lemma_of_value(quantity);
        }
        quantity.checked_mul(price)
    }

    /// Books a fill: the cash goes down by price times quantity, and the lot
    /// joins the position in `ticker`, which is opened where there is none. On
    /// `Err` a result did not fit and the account is as it was.
    pub fn add_lot(&mut self, ticker: String, lot: Lot) -> (r: Result<(), Overflow>)
        ensures
            final(self).active_orders == old(self).active_orders,
            final(self).inactive_orders == old(self).inactive_orders,
            final(self).spec_starting_cash() == old(self).spec_starting_cash(),
            match r {
                Ok(_) => {
                    &&& lot.price.spec_checked_mul(lot.quantity) matches Some(cost) && Some(
                        final(self).cash,
                    ) == old(self).cash.spec_checked_sub(cost)
                    &&& final(self).cash@ * unit(0) == old(self).cash@ * unit(0) - lot.price@
                        * lot.quantity@
                    &&& Some(final(self).holdings()) == holdings_after(
                        old(self).holdings(),
                        ticker@,
                        lot,
                    )
                },
                Err(_) => {
                    &&& final(self).cash == old(self).cash
                    &&& final(self).holdings() == old(self).holdings()
                    &&& (lot.price.spec_checked_mul(lot.quantity) matches Some(cost) ==> old(
                        self,
                    ).cash.spec_checked_sub(cost) is None || holdings_after(
                        old(self).holdings(),
                        ticker@,
                        lot,
                    ) is None)
                },
            },
    {
        let cost = match lot.price.checked_mul(lot.quantity) {
            Some(c) => c,
            None => {
                return Err(Overflow);
            },
        };
        let cash = match self.cash.checked_sub(cost) {
            Some(c) => c,
            None => {
                return Err(Overflow);
            },
        };
        proof {
            let u = unit(0);
            let a = self.cash@;
            let b = cost@;
            assert((a - b) * u == a * u - b * u) by (nonlinear_arith);
        }
        let ghost before = self.holdings();
        match self.position_index(ticker.as_str()) {
            Some(i) => {
                let mut position = self.positions.remove(i);
                let outcome = position.add_lot(lot);
                self.positions.insert(i, position);
                proof {
                    let after = self.holdings();
                    match outcome {
                        Ok(_) => {
                            assert(after =~= before.update(
                                i as int,
                                (ticker@, add_lot_spec(before[i as int].1, lot).unwrap()),
                            ));
                        },
                        Err(_) => {
                            assert(after =~= before);
                        },
                    }
                }
                match outcome {
                    Ok(_) => {},
                    Err(e) => {
                        return Err(e);
                    },
                }
            },
            None => {
                let position = Position::new(ticker, lot);
                self.positions.push(position);
                proof {
                    assert(self.holdings() =~= before.push((ticker@, seq![lot])));
                }
            },
        }
        self.cash = cash;
        Ok(())
    }
}

} // verus!
