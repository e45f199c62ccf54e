use backtester::commission::{
    Commission, NoCommission, PerDollarCommission, PerLotCommission, PerShareCommission,
};
use backtester::decimal::Decimal;
use backtester::position::Lot;
use backtester::time::Date;

fn lot(quantity: i64, price: i64) -> Lot {
    Lot {
        fill_time: Date::from_ymd(2021, 1, 4).unwrap().and_hm(12, 0),
        quantity: Decimal::new(quantity, 0),
        price: Decimal::new(price, 0),
    }
}

#[test]
fn commission_it_calculates_the_correct_commission_amount() {
    let no_commission = NoCommission;
    let per_share_commission = PerShareCommission::new(Decimal::new(1, 0));
    let per_lot_commission = PerLotCommission::new(Decimal::new(2, 0));
    let per_dollar_commission = PerDollarCommission::new(Decimal::new(3, 0));

    let lot = lot(4, 5);

    assert_eq!(no_commission.calculate(&lot), Some(Decimal::new(0, 0)));
    assert_eq!(per_share_commission.calculate(&lot), Some(Decimal::new(4, 0)));
    assert_eq!(per_lot_commission.calculate(&lot), Some(Decimal::new(2, 0)));
    assert_eq!(per_dollar_commission.calculate(&lot), Some(Decimal::new(60, 0)));
}

#[test]
fn commission_it_respects_commission_minimums() {
    let per_share_commission =
        PerShareCommission::new(Decimal::new(1, 0)).min_lot_cost(Decimal::new(5, 0));
    let per_dollar_commission =
        PerDollarCommission::new(Decimal::new(3, 0)).min_lot_cost(Decimal::new(100, 0));

    let lot = lot(4, 5);

    assert_eq!(per_share_commission.calculate(&lot), Some(Decimal::new(5, 0)));
    assert_eq!(per_dollar_commission.calculate(&lot), Some(Decimal::new(100, 0)));
}

#[test]
fn sales_are_charged_like_purchases() {
    let sale = lot(-4, 5);
    assert_eq!(
        PerShareCommission::new(Decimal::new(1, 0)).calculate(&sale),
        Some(Decimal::new(4, 0))
    );
    assert_eq!(
        PerDollarCommission::new(Decimal::new(3, 0)).calculate(&sale),
        Some(Decimal::new(60, 0))
    );
    assert_eq!(
        PerShareCommission::new(Decimal::new(1, 2))
            .min_lot_cost(Decimal::new(1, 0))
            .calculate(&lot(-250, 5)),
        Some(Decimal::new(25, 1))
    );
}

#[test]
fn a_charge_is_never_below_zero_without_a_minimum() {
    assert_eq!(
        PerShareCommission::new(Decimal::new(-1, 0)).calculate(&lot(4, 5)),
        Some(Decimal::zero())
    );
}

#[test]
fn a_charge_that_does_not_fit_is_none() {
    let big = Decimal::from_parts(79228162514264337593543950335, 0).unwrap();
    assert_eq!(PerShareCommission::new(big).calculate(&lot(2, 5)), None);
    assert_eq!(PerDollarCommission::new(big).calculate(&lot(1, 5)), None);
}
