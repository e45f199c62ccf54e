//! Positions: per-symbol books of lots with first-in, first-out disposal.
//!
//! A lot that has the sign of the position, or meets an empty one, is appended.
//! A lot of the opposite sign consumes the oldest lots first; what is left of it
//! once the book is empty opens a position on the other side.
use crate::decimal::{magnitude, unit, Decimal, Overflow};
use crate::time::DateTime;
use std::collections::VecDeque;
use vstd::prelude::*;

verus! {

/// One fill: when, at what price, and for how many shares (negative for a
/// sale).
#[derive(Clone, Copy, Debug, PartialEq, Eq, Structural)]
pub struct Lot {
    pub fill_time: DateTime,
    pub price: Decimal,
    pub quantity: Decimal,
}

impl Lot {
    pub open spec fn wf(self) -> bool {
        self.price.wf() && self.quantity.wf()
    }
}

/// Every lot holds decimals.
pub open spec fn lots_wf(lots: Seq<Lot>) -> bool {
    forall|i: int| 0 <= i < lots.len() ==> (#[trigger] lots[i]).wf()
}

/// Sum of the quantities, in units of 10^-28.
pub open spec fn total_quantity(lots: Seq<Lot>) -> int
    decreases lots.len(),
{
    if lots.len() == 0 {
        0
    } else {
        total_quantity(lots.drop_last()) + lots.last().quantity@
    }
}

/// Sum of quantity times price, in units of 10^-56.
pub open spec fn total_cost(lots: Seq<Lot>) -> int
    decreases lots.len(),
{
    if lots.len() == 0 {
        0
    } else {
        total_cost(lots.drop_last()) + lots.last().quantity@ * lots.last().price@
    }
}

/// The quantities added up from the oldest lot on, or `None` where a sum does
/// not fit.
pub open spec fn sum_quantity(lots: Seq<Lot>) -> Option<Decimal>
    decreases lots.len(),
{
    if lots.len() == 0 {
        Some(Decimal::spec_zero())
    } else {
        match sum_quantity(lots.drop_last()) {
            Some(acc) => acc.spec_checked_add(lots.last().quantity),
            None => None,
        }
    }
}

/// Quantity times price added up from the oldest lot on, or `None` where a
/// product or a sum does not fit.
pub open spec fn sum_cost(lots: Seq<Lot>) -> Option<Decimal>
    decreases lots.len(),
{
    if lots.len() == 0 {
        Some(Decimal::spec_zero())
    } else {
        match (
            sum_cost(lots.drop_last()),
            lots.last().quantity.spec_checked_mul(lots.last().price),
        ) {
            (Some(acc), Some(cost)) => acc.spec_checked_add(cost),
            _ => None,
        }
    }
}

pub open spec fn all_nonnegative(lots: Seq<Lot>) -> bool {
    forall|i: int| 0 <= i < lots.len() ==> (#[trigger] lots[i]).quantity@ >= 0
}

pub open spec fn all_nonpositive(lots: Seq<Lot>) -> bool {
    forall|i: int| 0 <= i < lots.len() ==> (#[trigger] lots[i]).quantity@ <= 0
}

/// No two lots lie on opposite sides.
pub open spec fn same_sign(lots: Seq<Lot>) -> bool {
    all_nonnegative(lots) || all_nonpositive(lots)
}

/// Whether two quantities lie on opposite sides of zero.
pub open spec fn opposing(a: int, b: int) -> bool {
    (a > 0 && b < 0) || (a < 0 && b > 0)
}

/// What is left of a book once `unaccounted` has consumed its oldest lots. A
/// lot larger than what is unaccounted for is reduced and stays at the front;
/// a lot that is not is removed and reduces what is unaccounted for. What is
/// left over of `unaccounted` when the book is empty becomes the only lot, at
/// the price and time of `new_lot`. `None` where a sum does not fit.
pub open spec fn dispose(lots: Seq<Lot>, unaccounted: Decimal, new_lot: Lot) -> Option<Seq<Lot>>
    decreases lots.len(),
{
    if unaccounted@ == 0 {
        Some(lots)
    } else if lots.len() == 0 {
        Some(seq![Lot { quantity: unaccounted, ..new_lot }])
    } else if magnitude(lots[0].quantity@) > magnitude(unaccounted@) {
        match lots[0].quantity.spec_checked_add(unaccounted) {
            Some(q) => Some(seq![Lot { quantity: q, ..lots[0] }] + lots.drop_first()),
            None => None,
        }
    } else {
        match unaccounted.spec_checked_add(lots[0].quantity) {
            Some(u) => dispose(lots.drop_first(), u, new_lot),
            None => None,
        }
    }
}

/// The book after `new_lot` has been added: appended where it does not oppose
/// the position, else disposed of first-in, first-out. `None` where a sum does
/// not fit.
pub open spec fn add_lot_spec(lots: Seq<Lot>, new_lot: Lot) -> Option<Seq<Lot>> {
    match sum_quantity(lots) {
        Some(q) => {
            let next = if opposing(q@, new_lot.quantity@) {
                dispose(lots, new_lot.quantity, new_lot)
            } else {
                Some(lots.push(new_lot))
            };
            match next {
                Some(l) => if sum_quantity(l) is Some {
                    Some(l)
                } else {
                    None
                },
                None => None,
            }
        },
        None => None,
    }
}

/// The average price of a book: cost basis over quantity, rounded to eight
/// fractional digits. `None` for a flat book and where a step does not fit.
pub open spec fn average_price_spec(lots: Seq<Lot>) -> Option<Decimal> {
    match (sum_quantity(lots), sum_cost(lots)) {
        (Some(q), Some(c)) => if q@ == 0 {
            None
        } else {
            match c.spec_checked_div(q) {
                Some(a) => Some(a.spec_round_dp(8)),
                None => None,
            }
        },
        _ => None,
    }
}

/// Where the quantities of a book can be added up, so can those of its
/// oldest lots.
pub proof fn lemma_sum_quantity_prefix(lots: Seq<Lot>, k: int)
    requires
        sum_quantity(lots) is Some,
        0 <= k <= lots.len(),
    ensures
        sum_quantity(lots.take(k)) is Some,
    decreases lots.len(),
{
    if k == lots.len() {
        assert(lots.take(k) == lots);
    } else {
        lemma_sum_quantity_prefix(lots.drop_last(), k);
        assert(lots.drop_last().take(k) == lots.take(k));
    }
}

/// Where the costs of a book can be added up, so can those of its oldest
/// lots.
pub proof fn lemma_sum_cost_prefix(lots: Seq<Lot>, k: int)
    requires
        sum_cost(lots) is Some,
        0 <= k <= lots.len(),
    ensures
        sum_cost(lots.take(k)) is Some,
    decreases lots.len(),
{
    if k == lots.len() {
        assert(lots.take(k) == lots);
    } else {
        lemma_sum_cost_prefix(lots.drop_last(), k);
        assert(lots.drop_last().take(k) == lots.take(k));
    }
}

/// Where the quantities can be added up, the sum is their exact total.
pub proof fn lemma_sum_quantity_exact(lots: Seq<Lot>)
    requires
        lots_wf(lots),
    ensures
        sum_quantity(lots) matches Some(q) ==> q.wf() && q@ == total_quantity(lots),
    decreases lots.len(),
{
    if lots.len() == 0 {
        Decimal::lemma_spec_zero();
    } else {
        lemma_sum_quantity_exact(lots.drop_last());
        match sum_quantity(lots.drop_last()) {
            Some(acc) => {
                acc.lemma_checked_add(lots.last().quantity);
            },
            None => {},
        }
    }
}

/// Where the costs can be added up, the sum is their exact total.
pub proof fn lemma_sum_cost_exact(lots: Seq<Lot>)
    requires
        lots_wf(lots),
    ensures
        sum_cost(lots) matches Some(c) ==> c.wf() && c@ * unit(0) == total_cost(lots),
    decreases lots.len(),
{
    if lots.len() == 0 {
        Decimal::lemma_spec_zero();
        assert(0 * unit(0) == 0);
    } else {
        lemma_sum_cost_exact(lots.drop_last());
        let last = lots.last();
        last.quantity.lemma_checked_mul(last.price);
        match (sum_cost(lots.drop_last()), last.quantity.spec_checked_mul(last.price)) {
            (Some(acc), Some(cost)) => {
                acc.lemma_checked_add(cost);
                let u = unit(0);
                let a = acc@;
                let b = cost@;
                assert((a + b) * u == a * u + b * u) by (nonlinear_arith);
            },
            _ => {},
        }
    }
}

proof fn lemma_total_nonnegative(lots: Seq<Lot>)
    requires
        all_nonnegative(lots),
    ensures
        total_quantity(lots) >= 0,
        total_quantity(lots) == 0 ==> forall|i: int|
            0 <= i < lots.len() ==> (#[trigger] lots[i]).quantity@ == 0,
    decreases lots.len(),
{
    if lots.len() > 0 {
        let front = lots.drop_last();
        assert forall|i: int| 0 <= i < front.len() implies (#[trigger] front[i]).quantity@
            >= 0 by {
            assert(front[i] == lots[i]);
        }
        lemma_total_nonnegative(front);
        if total_quantity(lots) == 0 {
            assert forall|i: int| 0 <= i < lots.len() implies (#[trigger] lots[i]).quantity@
                == 0 by {
                if i < front.len() {
                    assert(front[i] == lots[i]);
                }
            }
        }
    }
}

proof fn lemma_total_nonpositive(lots: Seq<Lot>)
    requires
        all_nonpositive(lots),
    ensures
        total_quantity(lots) <= 0,
        total_quantity(lots) == 0 ==> forall|i: int|
            0 <= i < lots.len() ==> (#[trigger] lots[i]).quantity@ == 0,
    decreases lots.len(),
{
    if lots.len() > 0 {
        let front = lots.drop_last();
        assert forall|i: int| 0 <= i < front.len() implies (#[trigger] front[i]).quantity@
            <= 0 by {
            assert(front[i] == lots[i]);
        }
        lemma_total_nonpositive(front);
        if total_quantity(lots) == 0 {
            assert forall|i: int| 0 <= i < lots.len() implies (#[trigger] lots[i]).quantity@
                == 0 by {
                if i < front.len() {
                    assert(front[i] == lots[i]);
                }
            }
        }
    }
}

/// Appending a lot that does not oppose the position keeps all lots on one
/// side.
proof fn lemma_append_same_sign(lots: Seq<Lot>, new_lot: Lot)
    requires
        same_sign(lots),
        !opposing(total_quantity(lots), new_lot.quantity@),
    ensures
        same_sign(lots.push(new_lot)),
{
    let next = lots.push(new_lot);
    if all_nonnegative(lots) {
        lemma_total_nonnegative(lots);
    }
    if all_nonpositive(lots) {
        lemma_total_nonpositive(lots);
    }
    if new_lot.quantity@ >= 0 {
        if all_nonnegative(lots) || total_quantity(lots) == 0 {
            assert forall|i: int| 0 <= i < next.len() implies (#[trigger] next[i]).quantity@
                >= 0 by {
                if i < lots.len() {
                    assert(next[i] == lots[i]);
                }
            }
        } else {
            assert forall|i: int| 0 <= i < next.len() implies (#[trigger] next[i]).quantity@
                <= 0 by {
                if i < lots.len() {
                    assert(next[i] == lots[i]);
                }
            }
        }
    } else {
        if all_nonpositive(lots) || total_quantity(lots) == 0 {
            assert forall|i: int| 0 <= i < next.len() implies (#[trigger] next[i]).quantity@
                <= 0 by {
                if i < lots.len() {
                    assert(next[i] == lots[i]);
                }
            }
        } else {
            assert(false);
        }
    }
}

/// Disposal leaves all lots on one side, and decimals in every lot.
proof fn lemma_dispose_keeps(lots: Seq<Lot>, unaccounted: Decimal, new_lot: Lot)
    requires
        same_sign(lots),
        lots_wf(lots),
        unaccounted.wf(),
        new_lot.wf(),
    ensures
        dispose(lots, unaccounted, new_lot) matches Some(l) ==> same_sign(l) && lots_wf(l),
    decreases lots.len(),
{
    if unaccounted@ == 0 {
    } else if lots.len() == 0 {
    } else if magnitude(lots[0].quantity@) > magnitude(unaccounted@) {
        lots[0].quantity.lemma_checked_add(unaccounted);
        match lots[0].quantity.spec_checked_add(unaccounted) {
            Some(q) => {
                let l = seq![Lot { quantity: q, ..lots[0] }] + lots.drop_first();
                assert forall|i: int| 0 <= i < l.len() implies (#[trigger] l[i]).wf() by {
                    if i > 0 {
                        assert(l[i] == lots[i]);
                    }
                }
                if all_nonnegative(lots) {
                    assert forall|i: int| 0 <= i < l.len() implies (#[trigger] l[i]).quantity@
                        >= 0 by {
                        if i > 0 {
                            assert(l[i] == lots[i]);
                        }
                    }
                } else {
                    assert forall|i: int| 0 <= i < l.len() implies (#[trigger] l[i]).quantity@
                        <= 0 by {
                        if i > 0 {
                            assert(l[i] == lots[i]);
                        }
                    }
                }
            },
            None => {},
        }
    } else {
        unaccounted.lemma_checked_add(lots[0].quantity);
        match unaccounted.spec_checked_add(lots[0].quantity) {
            Some(u) => {
                let rest = lots.drop_first();
                assert forall|i: int| 0 <= i < rest.len() implies (#[trigger] rest[i]).wf() by {
                    assert(rest[i] == lots[i + 1]);
                }
                if all_nonnegative(lots) {
                    assert forall|i: int| 0 <= i < rest.len() implies (
                    #[trigger] rest[i]).quantity@ >= 0 by {
                        assert(rest[i] == lots[i + 1]);
                    }
                } else {
                    assert forall|i: int| 0 <= i < rest.len() implies (
                    #[trigger] rest[i]).quantity@ <= 0 by {
                        assert(rest[i] == lots[i + 1]);
                    }
                }
                lemma_dispose_keeps(rest, u, new_lot);
            },
            None => {},
        }
    }
}

proof fn lemma_total_front(lots: Seq<Lot>)
    requires
        lots.len() > 0,
    ensures
        total_quantity(lots) == lots[0].quantity@ + total_quantity(lots.drop_first()),
    decreases lots.len(),
{
    if lots.len() == 1 {
        assert(lots.drop_last() == Seq::<Lot>::empty());
        assert(lots.drop_first() == Seq::<Lot>::empty());
        reveal_with_fuel(total_quantity, 2);
    } else {
        lemma_total_front(lots.drop_last());
        assert(lots.drop_first().drop_last() == lots.drop_last().drop_first());
        assert(lots.drop_first().last() == lots.last());
        assert(lots.drop_last()[0] == lots[0]);
    }
}

proof fn lemma_zero_cost(lots: Seq<Lot>)
    requires
        forall|i: int| 0 <= i < lots.len() ==> (#[trigger] lots[i]).quantity@ == 0,
    ensures
        total_cost(lots) == 0,
    decreases lots.len(),
{
    if lots.len() > 0 {
        let front = lots.drop_last();
        assert forall|i: int| 0 <= i < front.len() implies (#[trigger] front[i]).quantity@
            == 0 by {
            assert(front[i] == lots[i]);
        }
        lemma_zero_cost(front);
        let q = lots.last().quantity@;
        let p = lots.last().price@;
        assert(lots[lots.len() - 1].quantity@ == 0);
        assert(q * p == 0) by (nonlinear_arith)
            requires
                q == 0,
        ;
    }
}

/// The cost of lots of no shares adds up to zero.
proof fn lemma_zero_book(lots: Seq<Lot>)
    requires
        lots_wf(lots),
        forall|i: int| 0 <= i < lots.len() ==> (#[trigger] lots[i]).quantity@ == 0,
    ensures
        sum_cost(lots) == Some(Decimal::spec_zero()),
    decreases lots.len(),
{
    if lots.len() > 0 {
        let front = lots.drop_last();
        let last = lots.last();
        assert(last == lots[lots.len() - 1]);
        assert forall|i: int| 0 <= i < front.len() implies (#[trigger] front[i]).quantity@ == 0
            && front[i].wf() by {
            assert(front[i] == lots[i]);
        }
        lemma_zero_book(front);
        crate::decimal::lemma_pow10_positive(28);
        let p = last.price@;
        let q = last.quantity@;
        let u = unit(0);
        assert((q * p) / u == 0) by (nonlinear_arith)
            requires
                q == 0,
                u >= 1,
        ;
        Decimal::lemma_spec_zero();
        Decimal::lemma_zero(Decimal::spec_zero());
    }
}

/// A book whose quantities add up to zero costs nothing and has no average
/// price.
pub proof fn lemma_flat_book(lots: Seq<Lot>)
    requires
        lots_wf(lots),
        same_sign(lots),
        total_quantity(lots) == 0,
    ensures
        total_cost(lots) == 0,
        sum_cost(lots) == Some(Decimal::spec_zero()),
        average_price_spec(lots) is None,
{
    if all_nonnegative(lots) {
        lemma_total_nonnegative(lots);
    } else {
        lemma_total_nonpositive(lots);
    }
    lemma_zero_cost(lots);
    lemma_zero_book(lots);
    lemma_sum_quantity_exact(lots);
}

/// Whether `result` is what first-in, first-out disposal may leave of `lots`:
/// the `k` oldest lots are gone, the lot that was at `k` leads with its price
/// and time and no more than its quantity, and the younger lots follow as they
/// were.
pub open spec fn is_fifo_remainder(lots: Seq<Lot>, result: Seq<Lot>, k: int) -> bool {
    &&& 0 <= k <= lots.len()
    &&& result.len() == lots.len() - k
    &&& forall|j: int| 1 <= j < result.len() ==> #[trigger] result[j] == lots[k + j]
    &&& result.len() > 0 ==> {
        &&& result[0].price == lots[k].price
        &&& result[0].fill_time == lots[k].fill_time
        &&& magnitude(result[0].quantity@) <= magnitude(lots[k].quantity@)
        &&& !opposing(result[0].quantity@, lots[k].quantity@)
    }
}

/// First-in, first-out disposal: a lot that opposes the position and is no
/// larger than it removes or reduces the oldest lots and no others, and the
/// position changes by exactly the lot's quantity.
pub proof fn lemma_fifo_disposal(lots: Seq<Lot>, unaccounted: Decimal, new_lot: Lot)
    requires
        lots_wf(lots),
        unaccounted.wf(),
        same_sign(lots),
        unaccounted@ == 0 || opposing(total_quantity(lots), unaccounted@),
        magnitude(unaccounted@) <= magnitude(total_quantity(lots)),
        dispose(lots, unaccounted, new_lot) is Some,
    ensures
        exists|k: int| is_fifo_remainder(lots, dispose(lots, unaccounted, new_lot).unwrap(), k),
        total_quantity(dispose(lots, unaccounted, new_lot).unwrap()) == total_quantity(lots)
            + unaccounted@,
    decreases lots.len(),
{
    let result = dispose(lots, unaccounted, new_lot).unwrap();
    if all_nonnegative(lots) {
        lemma_total_nonnegative(lots);
    }
    if all_nonpositive(lots) {
        lemma_total_nonpositive(lots);
    }
    if unaccounted@ == 0 {
        assert(is_fifo_remainder(lots, result, 0));
    } else if lots.len() == 0 {
        assert(false);
    } else {
        lemma_total_front(lots);
        let first = lots[0];
        let rest = lots.drop_first();
        assert(first.wf());
        if magnitude(first.quantity@) > magnitude(unaccounted@) {
            first.quantity.lemma_checked_add(unaccounted);
            let q = first.quantity.spec_checked_add(unaccounted).unwrap();
            assert(result == seq![Lot { quantity: q, ..first }] + rest);
            assert(result.len() > 0);
            lemma_total_front(result);
            assert(result.drop_first() == rest);
            assert forall|j: int| 1 <= j < result.len() implies #[trigger] result[j] == lots[0
                + j] by {
                assert(result[j] == rest[j - 1]);
            }
            assert(is_fifo_remainder(lots, result, 0));
        } else {
            unaccounted.lemma_checked_add(first.quantity);
            let u = unaccounted.spec_checked_add(first.quantity).unwrap();
            assert forall|i: int| 0 <= i < rest.len() implies (#[trigger] rest[i]).wf() by {
                assert(rest[i] == lots[i + 1]);
            }
            if all_nonnegative(lots) {
                assert forall|i: int| 0 <= i < rest.len() implies (#[trigger] rest[i]).quantity@
                    >= 0 by {
                    assert(rest[i] == lots[i + 1]);
                }
                lemma_total_nonnegative(rest);
            } else {
                assert forall|i: int| 0 <= i < rest.len() implies (#[trigger] rest[i]).quantity@
                    <= 0 by {
                    assert(rest[i] == lots[i + 1]);
                }
                lemma_total_nonpositive(rest);
            }
            lemma_fifo_disposal(rest, u, new_lot);
            let k = choose|k: int| is_fifo_remainder(rest, result, k);
            assert forall|j: int| 1 <= j < result.len() implies #[trigger] result[j] == lots[k + 1
                + j] by {
                assert(result[j] == rest[k + j]);
            }
            if result.len() > 0 {
                assert(rest[k] == lots[k + 1]);
            }
            assert(is_fifo_remainder(lots, result, k + 1));
        }
    }
}

/// Adding a lot keeps the book in order: every lot holds decimals, and no two
/// lots lie on opposite sides.
pub proof fn lemma_add_lot_keeps(lots: Seq<Lot>, new_lot: Lot)
    requires
        lots_wf(lots),
        same_sign(lots),
        new_lot.wf(),
    ensures
        add_lot_spec(lots, new_lot) matches Some(l) ==> lots_wf(l) && same_sign(l),
{
    lemma_sum_quantity_exact(lots);
    match sum_quantity(lots) {
        Some(q) => {
            if opposing(q@, new_lot.quantity@) {
                lemma_dispose_keeps(lots, new_lot.quantity, new_lot);
            } else {
                lemma_append_same_sign(lots, new_lot);
                let l = lots.push(new_lot);
                assert forall|i: int| 0 <= i < l.len() implies (#[trigger] l[i]).wf() by {
                    if i < lots.len() {
                        assert(l[i] == lots[i]);
                    }
                }
            }
        },
        None => {},
    }
}

/// The quantities of a book added up, with what the sum then denotes.
fn checked_total(lots: &VecDeque<Lot>) -> (r: Option<Decimal>)
    ensures
        r == sum_quantity(lots@),
        r matches Some(q) ==> q.wf() && q@ == total_quantity(lots@),
{
    let mut acc = Decimal::zero();
    let mut i: usize = 0;
    while i < lots.len()
        invariant
            i <= lots.len(),
            Some(acc) == sum_quantity(lots@.take(i as int)),
            acc.wf(),
            acc@ == total_quantity(lots@.take(i as int)),
        decreases lots.len() - i,
    {
        let lot = lots[i];
        proof {
            assert(lots@.take(i + 1).drop_last() == lots@.take(i as int));
            assert(lots@.take(i + 1).last() == lots@[i as int]);
        }
        match acc.checked_add(lot.quantity) {
            Some(next) => {
                acc = next;
            },
            None => {
                proof {
                    if sum_quantity(lots@) is Some {
                        lemma_sum_quantity_prefix(lots@, i + 1);
                    }
                }
                return None;
            },
        }
        i = i + 1;
    }
    proof {
        assert(lots@.take(i as int) == lots@);
    }
    Some(acc)
}

/// Quantity times price of a book added up, with what the sum then denotes.
fn checked_cost(lots: &VecDeque<Lot>) -> (r: Option<Decimal>)
    ensures
        r == sum_cost(lots@),
        r matches Some(c) ==> c.wf() && c@ * unit(0) == total_cost(lots@),
{
    let mut acc = Decimal::zero();
    let mut i: usize = 0;
    proof {
        assert(0 * unit(0) == 0);
    }
    while i < lots.len()
        invariant
            i <= lots.len(),
            Some(acc) == sum_cost(lots@.take(i as int)),
            acc.wf(),
            acc@ * unit(0) == total_cost(lots@.take(i as int)),
        decreases lots.len() - i,
    {
        let lot = lots[i];
        proof {
            assert(lots@.take(i + 1).drop_last() == lots@.take(i as int));
            assert(lots@.take(i + 1).last() == lots@[i as int]);
            if sum_cost(lots@) is Some {
                lemma_sum_cost_prefix(lots@, i + 1);
            }
        }
        let cost = match lot.quantity.checked_mul(lot.price) {
            Some(c) => c,
            None => {
                return None;
            },
        };
        match acc.checked_add(cost) {
            Some(next) => {
                proof {
                    let u = unit(0);
                    let a = acc@;
                    let b = cost@;
                    assert((a + b) * u == a * u + b * u) by (nonlinear_arith);
                }
                acc = next;
            },
            None => {
                return None;
            },
        }
        i = i + 1;
    }
    proof {
        assert(lots@.take(i as int) == lots@);
    }
    Some(acc)
}

/// `onto` followed by the lots of `lots` from index `from` on.
fn copy_onto(onto: VecDeque<Lot>, lots: &VecDeque<Lot>, from: usize) -> (r: VecDeque<Lot>)
    requires
        from <= lots.len(),
    ensures
        r@ == onto@ + lots@.skip(from as int),
{
    let mut out = onto;
    let mut i: usize = from;
    while i < lots.len()
        invariant
            from <= i <= lots.len(),
            out@ == onto@ + lots@.subrange(from as int, i as int),
        decreases lots.len() - i,
    {
        out.push_back(lots[i]);
        proof {
            assert(lots@.subrange(from as int, i + 1) == lots@.subrange(from as int, i as int).push(
                lots@[i as int],
            ));
        }
        i = i + 1;
    }
    proof {
        assert(lots@.subrange(from as int, i as int) == lots@.skip(from as int));
    }
    out
}

/// First-in, first-out disposal of `new_lot` against `lots`.
fn dispose_lots(lots: &VecDeque<Lot>, new_lot: Lot) -> (r: Option<VecDeque<Lot>>)
    ensures
        r is Some == dispose(lots@, new_lot.quantity, new_lot) is Some,
        r matches Some(l) ==> Some(l@) == dispose(lots@, new_lot.quantity, new_lot),
{
    let mut unaccounted = new_lot.quantity;
    let mut i: usize = 0;
    proof {
        assert(lots@.skip(0) == lots@);
    }
    while i < lots.len() && !unaccounted.is_zero()
        invariant
            i <= lots.len(),
            dispose(lots@, new_lot.quantity, new_lot) == dispose(
                lots@.skip(i as int),
                unaccounted,
                new_lot,
            ),
        decreases lots.len() - i,
    {
        let first = lots[i];
        proof {
            assert(lots@.skip(i as int)[0] == lots@[i as int]);
            assert(lots@.skip(i as int).drop_first() == lots@.skip(i + 1));
        }
        if first.quantity.abs().gt(&unaccounted.abs()) {
            match first.quantity.checked_add(unaccounted) {
                Some(q) => {
                    let mut front: VecDeque<Lot> = VecDeque::new();
                    front.push_back(Lot { quantity: q, ..first });
                    proof {
                        assert(front@ == seq![Lot { quantity: q, ..first }]);
                    }
                    return Some(copy_onto(front, lots, i + 1));
                },
                None => {
                    return None;
                },
            }
        } else {
            match unaccounted.checked_add(first.quantity) {
                Some(u) => {
                    unaccounted = u;
                    i = i + 1;
                },
                None => {
                    return None;
                },
            }
        }
    }
    if unaccounted.is_zero() {
        let empty: VecDeque<Lot> = VecDeque::new();
        let out = copy_onto(empty, lots, i);
        proof {
            assert(out@ == lots@.skip(i as int));
        }
        Some(out)
    } else {
        let mut out: VecDeque<Lot> = VecDeque::new();
        out.push_back(Lot { quantity: unaccounted, ..new_lot });
        proof {
            assert(out@ == seq![Lot { quantity: unaccounted, ..new_lot }]);
            assert(lots@.skip(i as int).len() == 0);
        }
        Some(out)
    }
}

/// The lots held in one symbol, oldest first.
pub struct Position {
    ticker: String,
    lots: VecDeque<Lot>,
}

impl View for Position {
    type V = Seq<Lot>;

    /// The lots, oldest first.
    closed spec fn view(&self) -> Seq<Lot> {
        self.lots@
    }
}

impl Clone for Position {
    fn clone(&self) -> (r: Position)
        ensures
            r@ == self@,
            r.spec_ticker() == self.spec_ticker(),
    {
        proof {
            use_type_invariant(self);
        }
        let empty: VecDeque<Lot> = VecDeque::new();
        let lots = copy_onto(empty, &self.lots, 0);
        proof {
            assert(self.lots@.skip(0) == self.lots@);
            assert(lots@ == self.lots@);
        }
        Position { ticker: self.ticker.clone(), lots }
    }
}

impl Position {
    /// The quantities can be added up, every lot holds decimals, and no two
    /// lots lie on opposite sides.
    #[verifier::type_invariant]
    pub closed spec fn wf(&self) -> bool {
        sum_quantity(self.lots@) is Some && lots_wf(self.lots@) && same_sign(self.lots@)
    }

    pub closed spec fn spec_ticker(&self) -> Seq<char> {
        self.ticker@
    }

    pub open spec fn spec_quantity(&self) -> int {
        total_quantity(self@)
    }

    /// What the invariant says of the view.
    pub proof fn lemma_wf(&self)
        requires
            self.wf(),
        ensures
            sum_quantity(self@) is Some,
            lots_wf(self@),
            same_sign(self@),
    {
    }

    /// A position of one lot.
    pub fn new(ticker: String, lot: Lot) -> (r: Position)
        ensures
            r@ == seq![lot],
            r.spec_ticker() == ticker@,
    {
        let mut lots: VecDeque<Lot> = VecDeque::new();
        lots.push_back(lot);
        proof {
            use_type_invariant(&lot.price);
            use_type_invariant(&lot.quantity);
            assert(lots@ == seq![lot]);
            assert(lots@.drop_last() == Seq::<Lot>::empty());
            Decimal::lemma_zero(lot.quantity);
            reveal_with_fuel(sum_quantity, 2);
            assert(sum_quantity(lots@) == Some(lot.quantity));
            assert(lots@[0] == lot);
            assert(lots_wf(lots@));
            assert(same_sign(lots@));
        }
        Position { ticker, lots }
    }

    pub fn ticker(&self) -> (r: &String)
        ensures
            r@ == self.spec_ticker(),
    {
        &self.ticker
    }

    pub fn num_lots(&self) -> (r: usize)
        ensures
            r == self@.len(),
    {
        self.lots.len()
    }

    /// The `index`-th oldest lot.
    pub fn lot(&self, index: usize) -> (r: Lot)
        requires
            index < self@.len(),
        ensures
            r == self@[index as int],
    {
        self.lots[index]
    }

    /// Adds a lot to the book. On `Err` a sum did not fit and the book is as
    /// it was.
    pub fn add_lot(&mut self, new_lot: Lot) -> (r: Result<(), Overflow>)
        ensures
            final(self).spec_ticker() == old(self).spec_ticker(),
            match r {
                Ok(_) => Some(final(self)@) == add_lot_spec(old(self)@, new_lot),
                Err(_) => add_lot_spec(old(self)@, new_lot) is None && final(self)@ == old(self)@,
            },
    {
        proof {
            use_type_invariant(&*self);
            use_type_invariant(&new_lot.price);
            use_type_invariant(&new_lot.quantity);
            lemma_sum_quantity_exact(self.lots@);
        }
        let current = checked_total(&self.lots).unwrap();
        let against = (current.is_sign_positive() && !current.is_zero()
            && new_lot.quantity.is_sign_negative()) || (current.is_sign_negative()
            && new_lot.quantity.is_sign_positive() && !new_lot.quantity.is_zero());
        let candidate = if against {
            proof {
                lemma_dispose_keeps(self.lots@, new_lot.quantity, new_lot);
            }
            match dispose_lots(&self.lots, new_lot) {
                Some(l) => l,
                None => {
                    return Err(Overflow);
                },
            }
        } else {
            let empty: VecDeque<Lot> = VecDeque::new();
            let mut l = copy_onto(empty, &self.lots, 0);
            l.push_back(new_lot);
            proof {
                assert(self.lots@.skip(0) == self.lots@);
                assert(l@ == self.lots@.push(new_lot));
                lemma_append_same_sign(self.lots@, new_lot);
                assert forall|i: int| 0 <= i < l@.len() implies (#[trigger] l@[i]).wf() by {
                    if i < self.lots@.len() {
                        assert(l@[i] == self.lots@[i]);
                    }
                }
            }
            l
        };
        match checked_total(&candidate) {
            Some(_) => {
                self.lots = candidate;
                Ok(())
            },
            None => Err(Overflow),
        }
    }

    /// Net number of shares held.
    pub fn quantity(&self) -> (r: Decimal)
        ensures
            Some(r) == sum_quantity(self@),
            r@ == total_quantity(self@),
            r.wf(),
    {
        proof {
            use_type_invariant(self);
        }
        checked_total(&self.lots).unwrap()
    }

    /// What the lots cost: the sum of quantity times price. `None` where it
    /// does not fit.
    pub fn cost_basis(&self) -> (r: Option<Decimal>)
        ensures
            r == sum_cost(self@),
            r matches Some(c) ==> c.wf() && c@ * unit(0) == total_cost(self@),
            total_quantity(self@) == 0 ==> r == Some(Decimal::spec_zero()),
    {
        proof {
            use_type_invariant(self);
            if total_quantity(self.lots@) == 0 {
                lemma_flat_book(self.lots@);
            }
        }
        checked_cost(&self.lots)
    }

    /// Cost basis over quantity, rounded to eight fractional digits. `None`
    /// for a flat position and where a step does not fit.
    pub fn average_price(&self) -> (r: Option<Decimal>)
        ensures
            r == average_price_spec(self@),
            total_quantity(self@) == 0 ==> r is None,
    {
        let quantity = self.quantity();
        if quantity.is_zero() {
            None
        } else {
            match self.cost_basis() {
                Some(cost) => match cost.checked_div(quantity) {
                    Some(average) => Some(average.round_dp(8)),
                    None => None,
                },
                None => None,
            }
        }
    }

    /// Worth of the position at `price`. `None` where it does not fit.
    pub fn market_value(&self, price: Decimal) -> (r: Option<Decimal>)
        ensures
            sum_quantity(self@) matches Some(q) && r == q.spec_checked_mul(price),
            r matches Some(v) ==> v.wf() && v@ * unit(0) == total_quantity(self@) * price@,
    {
        self.quantity().checked_mul(price)
    }

    /// Market value less cost basis. `None` where a step does not fit.
    pub fn unrealized_profit(&self, price: Decimal) -> (r: Option<Decimal>)
        ensures
            r == match (sum_quantity(self@), sum_cost(self@)) {
                (Some(q), Some(c)) => match q.spec_checked_mul(price) {
                    Some(v) => v.spec_checked_sub(c),
                    None => None,
                },
                _ => None,
            },
            r matches Some(p) ==> p.wf() && p@ * unit(0) == total_quantity(self@) * price@
                - total_cost(self@),
    {
        match (self.market_value(price), self.cost_basis()) {
            (Some(value), Some(cost)) => {
                let r = value.checked_sub(cost);
                proof {
                    let u = unit(0);
                    let a = value@;
                    let b = cost@;
                    assert((a - b) * u == a * u - b * u) by (nonlinear_arith);
                }
                r
            },
            _ => None,
        }
    }
}

} // verus!
