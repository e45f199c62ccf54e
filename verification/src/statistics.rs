//! What a simulation is summed up in: order counts, commissions, the equity
//! curve and the log of events.
use crate::brokerage::Event;
use crate::decimal::{unit, Decimal, Overflow};
use crate::order::OrderStatus;
use crate::time::DateTime;
use vstd::prelude::*;

verus! {

/// How many order updates of each status have been recorded.
#[derive(Clone, Copy, Debug, PartialEq, Eq, Structural)]
pub struct OrderCounts {
    pub submitted: usize,
    pub cancelled: usize,
    pub filled: usize,
    pub rejected: usize,
    pub expired: usize,
}

impl OrderCounts {
    pub open spec fn total(self) -> int {
        self.submitted + self.cancelled + self.filled + self.rejected + self.expired
    }

    /// The counts with one more update of `status`; a partial fill is not
    /// counted.
    pub open spec fn counted(self, status: OrderStatus) -> OrderCounts {
        match status {
            OrderStatus::Submitted => OrderCounts {
                submitted: (self.submitted + 1) as usize,
                ..self
            },
            OrderStatus::Cancelled => OrderCounts {
                cancelled: (self.cancelled + 1) as usize,
                ..self
            },
            OrderStatus::Filled { .. } => OrderCounts { filled: (self.filled + 1) as usize, ..self },
            OrderStatus::Rejected => OrderCounts { rejected: (self.rejected + 1) as usize, ..self },
            OrderStatus::Expired => OrderCounts { expired: (self.expired + 1) as usize, ..self },
            OrderStatus::PartiallyFilled => self,
        }
    }

    pub fn new() -> (r: OrderCounts)
        ensures
            r.total() == 0,
    {
        OrderCounts { submitted: 0, cancelled: 0, filled: 0, rejected: 0, expired: 0 }
    }

    /// Counts one update of `status`.
    pub fn handle_order(&mut self, status: &OrderStatus)
        requires
            old(self).total() < usize::MAX,
        ensures
            *final(self) == old(self).counted(*status),
            final(self).total() <= old(self).total() + 1,
    {
        match status {
            OrderStatus::Submitted => {
                self.submitted = self.submitted + 1;
            },
            OrderStatus::Cancelled => {
                self.cancelled = self.cancelled + 1;
            },
            OrderStatus::Filled { .. } => {
                self.filled = self.filled + 1;
            },
            OrderStatus::Rejected => {
                self.rejected = self.rejected + 1;
            },
            OrderStatus::Expired => {
                self.expired = self.expired + 1;
            },
            OrderStatus::PartiallyFilled => {},
        }
    }
}

/// Running peak and deepest drawdown of an equity curve.
pub struct Drawdown {
    pub peak: Decimal,
    pub deepest: Decimal,
}

/// Peak and deepest drawdown after one more value: the peak rises to the
/// value where that is higher, and the drawdown of the value against the peak,
/// value over peak less one, replaces the deepest where it is deeper. `None`
/// where the quotient is not defined or the difference does not fit.
pub open spec fn drawdown_step(state: Drawdown, value: Decimal) -> Option<Drawdown> {
    let peak = if value@ > state.peak@ {
        value
    } else {
        state.peak
    };
    match value.spec_checked_div(peak) {
        Some(ratio) => match ratio.spec_checked_sub(Decimal::of_value(unit(0))) {
            Some(drawdown) => Some(
                Drawdown {
                    peak,
                    deepest: if drawdown@ < state.deepest@ {
                        drawdown
                    } else {
                        state.deepest
                    },
                },
            ),
            None => None,
        },
        None => None,
    }
}

/// Peak and deepest drawdown of a curve that is walked from its start, both
/// zero before the first value.
pub open spec fn drawdown_of(curve: Seq<(DateTime, Decimal)>) -> Option<Drawdown>
    decreases curve.len(),
{
    if curve.len() == 0 {
        Some(Drawdown { peak: Decimal::spec_zero(), deepest: Decimal::spec_zero() })
    } else {
        match drawdown_of(curve.drop_last()) {
            Some(state) => drawdown_step(state, curve.last().1),
            None => None,
        }
    }
}

/// Last value over first value, less one. `None` for an empty curve and where
/// the quotient is not defined or the difference does not fit.
pub open spec fn total_return_of(curve: Seq<(DateTime, Decimal)>) -> Option<Decimal> {
    if curve.len() == 0 {
        None
    } else {
        match curve.last().1.spec_checked_div(curve[0].1) {
            Some(ratio) => ratio.spec_checked_sub(Decimal::of_value(unit(0))),
            None => None,
        }
    }
}

/// The counts after the events have been recorded, one after the other: an
/// order update is counted by its status, a commission is not counted.
pub open spec fn counts_after(counts: OrderCounts, events: Seq<Event>) -> OrderCounts
    decreases events.len(),
{
    if events.len() == 0 {
        counts
    } else {
        let before = counts_after(counts, events.drop_last());
        match events.last() {
            Event::OrderUpdate { status, .. } => before.counted(status),
            Event::Commission { .. } => before,
        }
    }
}

/// The commissions paid after the events have been recorded, one after the
/// other: every commission is added. `None` where a sum does not fit.
pub open spec fn paid_after(paid: Decimal, events: Seq<Event>) -> Option<Decimal>
    decreases events.len(),
{
    if events.len() == 0 {
        Some(paid)
    } else {
        match paid_after(paid, events.drop_last()) {
            Some(before) => match events.last() {
                Event::Commission { amount } => before.spec_checked_add(amount),
                Event::OrderUpdate { .. } => Some(before),
            },
            None => None,
        }
    }
}

proof fn lemma_drawdown_fails(curve: Seq<(DateTime, Decimal)>, k: int)
    requires
        0 <= k <= curve.len(),
        drawdown_of(curve.take(k)) is None,
    ensures
        drawdown_of(curve) is None,
    decreases curve.len() - k,
{
    if k < curve.len() {
        assert(curve.take(k + 1).drop_last() == curve.take(k));
        lemma_drawdown_fails(curve, k + 1);
    } else {
        assert(curve.take(k) == curve);
    }
}

/// The record of a simulation.
pub struct Statistics {
    order_counts: OrderCounts,
    commission_paid: Decimal,
    equity: Vec<(DateTime, Decimal)>,
    event_log: Vec<Event>,
}

impl Statistics {
    /// No more order updates are counted than events are logged.
    #[verifier::type_invariant]
    pub closed spec fn wf(&self) -> bool {
        self.order_counts.total() <= self.event_log@.len()
    }

    pub closed spec fn spec_order_counts(&self) -> OrderCounts {
        self.order_counts
    }

    pub closed spec fn spec_commission_paid(&self) -> Decimal {
        self.commission_paid
    }

    pub closed spec fn spec_equity(&self) -> Seq<(DateTime, Decimal)> {
        self.equity@
    }

    pub closed spec fn spec_event_log(&self) -> Seq<Event> {
        self.event_log@
    }

    /// An empty record.
    pub fn new() -> (r: Statistics)
        ensures
            r.spec_order_counts().total() == 0,
            r.spec_commission_paid() == Decimal::spec_zero(),
            r.spec_equity().len() == 0,
            r.spec_event_log().len() == 0,
    {
        Statistics {
            order_counts: OrderCounts::new(),
            commission_paid: Decimal::zero(),
            equity: Vec::new(),
            event_log: Vec::new(),
        }
    }

    pub fn order_counts(&self) -> (r: OrderCounts)
        ensures
            r == self.spec_order_counts(),
    {
        self.order_counts
    }

    pub fn commission_paid(&self) -> (r: Decimal)
        ensures
            r == self.spec_commission_paid(),
    {
        self.commission_paid
    }

    pub fn equity(&self) -> (r: &Vec<(DateTime, Decimal)>)
        ensures
            r@ == self.spec_equity(),
    {
        &self.equity
    }

    pub fn event_log(&self) -> (r: &Vec<Event>)
        ensures
            r@ == self.spec_event_log(),
    {
        &self.event_log
    }

    /// Takes an event in: it joins the log, an order update is counted by its
    /// status, and a commission is added to the commissions paid. On `Err` the
    /// commissions paid do not fit and nothing has changed.
    pub fn record(&mut self, event: Event) -> (r: Result<(), Overflow>)
        ensures
            final(self).spec_equity() == old(self).spec_equity(),
            r is Ok ==> final(self).spec_order_counts() == counts_after(
                old(self).spec_order_counts(),
                seq![event],
            ),
            paid_after(old(self).spec_commission_paid(), seq![event]) == if r is Ok {
                Some(final(self).spec_commission_paid())
            } else {
                None
            },
            match r {
                Ok(_) => {
                    &&& final(self).spec_event_log() == old(self).spec_event_log().push(event)
                    &&& match event {
                        Event::OrderUpdate { status, .. } => {
                            &&& final(self).spec_order_counts() == old(
                                self,
                            ).spec_order_counts().counted(status)
                            &&& final(self).spec_commission_paid() == old(
                                self,
                            ).spec_commission_paid()
                        },
                        Event::Commission { amount } => {
                            &&& final(self).spec_order_counts() == old(self).spec_order_counts()
                            &&& Some(final(self).spec_commission_paid()) == old(
                                self,
                            ).spec_commission_paid().spec_checked_add(amount)
                        },
                    }
                },
                Err(_) => {
                    &&& final(self).spec_event_log() == old(self).spec_event_log()
                    &&& final(self).spec_order_counts() == old(self).spec_order_counts()
                    &&& final(self).spec_commission_paid() == old(self).spec_commission_paid()
                    &&& event matches Event::Commission { amount } && old(
                        self,
                    ).spec_commission_paid().spec_checked_add(amount) is None
                },
            },
    {
        proof {
            use_type_invariant(&*self);
            assert(seq![event].drop_last() =~= Seq::<Event>::empty());
            assert(seq![event].last() == event);
            reveal_with_fuel(counts_after, 2);
            reveal_with_fuel(paid_after, 2);
        }
        match &event {
            Event::OrderUpdate { status, .. } => {
                let status = *status;
                self.record_event(event);
                self.handle_order(&status);
                Ok(())
            },
            Event::Commission { amount } => {
                match self.increase_commission(*amount) {
                    Ok(_) => {
                        self.record_event(event);
                        Ok(())
                    },
                    Err(e) => Err(e),
                }
            },
        }
    }

    /// Adds an event to the log.
    pub fn record_event(&mut self, event: Event)
        ensures
            final(self).spec_event_log() == old(self).spec_event_log().push(event),
            final(self).spec_order_counts() == old(self).spec_order_counts(),
            final(self).spec_commission_paid() == old(self).spec_commission_paid(),
            final(self).spec_equity() == old(self).spec_equity(),
    {
        proof {
            use_type_invariant(&*self);
        }
        let counts = self.order_counts;
        let mut log: Vec<Event> = Vec::new();
        self.order_counts = OrderCounts::new();
        core::mem::swap(&mut log, &mut self.event_log);
        log.push(event);
        self.event_log = log;
        self.order_counts = counts;
    }

    /// Counts an order update by its status. The update must have been logged
    /// before: fewer updates are counted than events are logged.
    pub fn handle_order(&mut self, status: &OrderStatus)
        requires
            old(self).spec_order_counts().total() < old(self).spec_event_log().len(),
        ensures
            final(self).spec_order_counts() == old(self).spec_order_counts().counted(*status),
            final(self).spec_event_log() == old(self).spec_event_log(),
            final(self).spec_commission_paid() == old(self).spec_commission_paid(),
            final(self).spec_equity() == old(self).spec_equity(),
    {
        let logged: usize = self.event_log.len();
        let mut counts = self.order_counts;
        counts.handle_order(status);
        self.order_counts = counts;
    }

    /// Adds a commission to the commissions paid. On `Err` the sum does not
    /// fit and nothing has changed.
    pub fn increase_commission(&mut self, amount: Decimal) -> (r: Result<(), Overflow>)
        ensures
            final(self).spec_event_log() == old(self).spec_event_log(),
            final(self).spec_order_counts() == old(self).spec_order_counts(),
            final(self).spec_equity() == old(self).spec_equity(),
            match r {
                Ok(_) => Some(final(self).spec_commission_paid()) == old(
                    self,
                ).spec_commission_paid().spec_checked_add(amount),
                Err(_) => final(self).spec_commission_paid() == old(self).spec_commission_paid()
                    && old(self).spec_commission_paid().spec_checked_add(amount) is None,
            },
    {
        proof {
            use_type_invariant(&*self);
        }
        match self.commission_paid.checked_add(amount) {
            Some(paid) => {
                self.commission_paid = paid;
                Ok(())
            },
            None => Err(Overflow),
        }
    }

    /// Adds a sample to the equity curve.
    pub fn record_equity(&mut self, datetime: DateTime, equity: Decimal)
        ensures
            final(self).spec_equity() == old(self).spec_equity().push((datetime, equity)),
            final(self).spec_event_log() == old(self).spec_event_log(),
            final(self).spec_order_counts() == old(self).spec_order_counts(),
            final(self).spec_commission_paid() == old(self).spec_commission_paid(),
    {
        proof {
            use_type_invariant(&*self);
        }
        let mut curve: Vec<(DateTime, Decimal)> = Vec::new();
        core::mem::swap(&mut curve, &mut self.equity);
        curve.push((datetime, equity));
        self.equity = curve;
    }

    /// The deepest drawdown of the equity curve: the least of value over
    /// running peak less one, and of zero. `None` where a quotient is not
    /// defined or a result does not fit.
    pub fn max_drawdown(&self) -> (r: Option<Decimal>)
        ensures
            r == match drawdown_of(self.spec_equity()) {
                Some(state) => Some(state.deepest),
                None => None,
            },
    {
        let mut peak = Decimal::zero();
        let mut deepest = Decimal::zero();
        let one = Decimal::one();
        proof {
            use_type_invariant(&one);
            Decimal::lemma_of_value(one);
        }
        let mut i: usize = 0;
        while i < self.equity.len()
            invariant
                i <= self.equity@.len(),
                one == Decimal::of_value(unit(0)),
                drawdown_of(self.equity@.take(i as int)) == Some(Drawdown { peak, deepest }),
            decreases self.equity.len() - i,
        {
            let value = self.equity[i].1;
            proof {
                assert(self.equity@.take(i + 1).drop_last() == self.equity@.take(i as int));
                assert(self.equity@.take(i + 1).last() == self.equity@[i as int]);
            }
            if value.gt(&peak) {
                peak = value;
            }
            let ratio = match value.checked_div(peak) {
                Some(q) => q,
                None => {
                    proof {
                        lemma_drawdown_fails(self.equity@, i + 1);
                    }
                    return None;
                },
            };
            let drawdown = match ratio.checked_sub(one) {
                Some(d) => d,
                None => {
                    proof {
                        lemma_drawdown_fails(self.equity@, i + 1);
                    }
                    return None;
                },
            };
            if drawdown.lt(&deepest) {
                deepest = drawdown;
            }
            i = i + 1;
        }
        proof {
            assert(self.equity@.take(i as int) == self.equity@);
        }
        Some(deepest)
    }

    /// Last value of the equity curve over its first, less one.
    pub fn total_return(&self) -> (r: Option<Decimal>)
        ensures
            r == total_return_of(self.spec_equity()),
    {
        let n = self.equity.len();
        if n == 0 {
            return None;
        }
        let one = Decimal::one();
        proof {
            use_type_invariant(&one);
            Decimal::lemma_of_value(one);
        }
        match self.equity[n - 1].1.checked_div(self.equity[0].1) {
            Some(ratio) => ratio.checked_sub(one),
            None => None,
        }
    }
}

} // verus!
