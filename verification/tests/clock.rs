use backtester::clock::{Clock, MarketState};
use backtester::options::Resolution;
use backtester::time::{Date, Duration};

fn ymd(y: i32, m: u32, d: u32) -> Date {
    Date::from_ymd(y, m, d).unwrap()
}

#[test]
fn it_can_tell_and_update_time() {
    let mut clock =
        Clock::new(ymd(2021, 1, 1), ymd(2021, 12, 31), Duration::zero(), Resolution::Day).unwrap();
    assert_eq!(clock.datetime(), ymd(2021, 1, 4).and_hm(9, 30));
    assert_eq!(clock.next_datetime(), Some(ymd(2021, 1, 5).and_hm(9, 30)));

    assert_eq!(clock.state(), MarketState::PreOpen);
    assert!(!clock.is_open());

    clock.tick();
    assert_eq!(clock.state(), MarketState::Opening);
    assert!(clock.is_open());

    clock.tick();
    assert_eq!(clock.state(), MarketState::Open);
    assert!(clock.is_open());

    clock.tick();
    assert_eq!(clock.state(), MarketState::Closing);
    assert!(clock.is_open());

    clock.tick();
    assert_eq!(clock.state(), MarketState::Closed);
    assert!(!clock.is_open());

    clock.tick();
    assert_eq!(clock.state(), MarketState::PreOpen);
}

#[test]
fn it_works_for_intraday_data() {
    let mut clock =
        Clock::new(ymd(2021, 1, 1), ymd(2021, 12, 31), Duration::zero(), Resolution::Minute)
            .unwrap();
    assert_eq!(clock.datetime(), ymd(2021, 1, 4).and_hm(9, 30));
    assert_eq!(clock.next_datetime(), Some(ymd(2021, 1, 4).and_hm(9, 31)));

    assert_eq!(clock.state(), MarketState::PreOpen);
    assert!(!clock.is_open());

    clock.tick();
    assert_eq!(clock.state(), MarketState::Opening);
    assert!(clock.is_open());

    for _ in 0..389 {
        clock.tick();
        assert_eq!(clock.state(), MarketState::Open);
        assert!(clock.is_open());
    }

    clock.tick();
    assert_eq!(clock.state(), MarketState::Closing);
    assert!(clock.is_open());

    clock.tick();
    assert_eq!(clock.state(), MarketState::Closed);
    assert!(!clock.is_open());

    clock.tick();
    assert_eq!(clock.state(), MarketState::PreOpen);
    assert!(!clock.is_open());

    clock.tick();
    assert_eq!(clock.state(), MarketState::Opening);
    assert!(clock.is_open());

    clock.tick();
    assert_eq!(clock.state(), MarketState::Open);
    assert!(clock.is_open());
}

#[test]
fn states_follow_each_other_in_a_cycle() {
    assert_eq!(MarketState::PreOpen.next(), MarketState::Opening);
    assert_eq!(MarketState::Opening.next(), MarketState::Open);
    assert_eq!(MarketState::Open.next(), MarketState::Closing);
    assert_eq!(MarketState::Closing.next(), MarketState::Closed);
    assert_eq!(MarketState::Closed.next(), MarketState::PreOpen);
}

#[test]
fn minute_bars_walk_the_session_minute_by_minute() {
    let day = ymd(2021, 1, 4);
    let mut clock = Clock::new(day, day, Duration::zero(), Resolution::Minute).unwrap();
    assert_eq!((clock.state(), clock.datetime()), (MarketState::PreOpen, day.and_hm(9, 30)));
    clock.tick();
    assert_eq!((clock.state(), clock.datetime()), (MarketState::Opening, day.and_hm(9, 30)));
    clock.tick();
    assert_eq!((clock.state(), clock.datetime()), (MarketState::Open, day.and_hm(9, 31)));
    assert_eq!(clock.previous_datetime(), Some(day.and_hm(9, 30)));
    assert_eq!(clock.next_datetime(), Some(day.and_hm(9, 32)));
    for _ in 0..388 {
        clock.tick();
    }
    assert_eq!((clock.state(), clock.datetime()), (MarketState::Open, day.and_hm(15, 59)));
    clock.tick();
    assert_eq!((clock.state(), clock.datetime()), (MarketState::Closing, day.and_hm(16, 0)));
    assert!(clock.is_end_of_day());
    assert_eq!(clock.next_datetime(), Some(ymd(2021, 1, 5).and_hm(9, 30)));
    clock.tick();
    assert_eq!((clock.state(), clock.datetime()), (MarketState::Closed, day.and_hm(16, 0)));
    assert!(clock.is_done());
}

#[test]
fn the_clock_is_done_at_the_close_of_the_end_date() {
    let mut clock =
        Clock::new(ymd(2021, 1, 1), ymd(2021, 1, 5), Duration::zero(), Resolution::Day).unwrap();
    let mut visited = vec![(clock.state(), clock.datetime().get_date())];
    let mut ticks = 0;
    while !clock.is_done() {
        clock.tick();
        ticks += 1;
        visited.push((clock.state(), clock.datetime().get_date()));
        assert!(ticks < 100);
    }
    assert_eq!(ticks, 9);
    assert_eq!(visited.len(), 2 * 5);
    assert_eq!(visited[0], (MarketState::PreOpen, ymd(2021, 1, 4)));
    assert_eq!(visited[4], (MarketState::Closed, ymd(2021, 1, 4)));
    assert_eq!(visited[5], (MarketState::PreOpen, ymd(2021, 1, 5)));
    assert_eq!(visited[9], (MarketState::Closed, ymd(2021, 1, 5)));
    // done stays done as long as nobody ticks
    assert!(clock.is_done());
    assert!(clock.is_done());
    assert_eq!(clock.state(), MarketState::Closed);
}

#[test]
fn a_session_past_the_end_date_still_runs_to_its_close() {
    // the end date is a Sunday
    let mut clock =
        Clock::new(ymd(2021, 1, 8), ymd(2021, 1, 10), Duration::zero(), Resolution::Day).unwrap();
    for _ in 0..4 {
        clock.tick();
    }
    assert_eq!(clock.state(), MarketState::Closed);
    assert!(!clock.is_done());
    clock.tick();
    assert_eq!((clock.state(), clock.datetime()), (MarketState::PreOpen, ymd(2021, 1, 11).and_hm(9, 30)));
    for _ in 0..4 {
        assert!(!clock.is_done());
        clock.tick();
    }
    assert!(clock.is_done());
}

#[test]
fn daily_bars_look_back_to_the_last_close() {
    let clock =
        Clock::new(ymd(2021, 1, 4), ymd(2021, 1, 8), Duration::zero(), Resolution::Day).unwrap();
    assert!(clock.is_start_of_day());
    assert!(clock.is_end_of_day());
    assert_eq!(clock.previous_datetime(), Some(ymd(2020, 12, 31).and_hm(16, 0)));
    assert_eq!(clock.next_datetime(), Some(ymd(2021, 1, 5).and_hm(9, 30)));
    assert_eq!(clock.resolution(), Resolution::Day);
    assert_eq!(clock.end(), ymd(2021, 1, 8));
}

#[test]
fn the_warmup_moves_the_start() {
    let clock = Clock::new(ymd(2021, 1, 4), ymd(2021, 1, 8), Duration::minutes(30), Resolution::Minute)
        .unwrap();
    assert_eq!(clock.datetime(), ymd(2021, 1, 4).and_hm(10, 0));
    assert!(!clock.is_start_of_day());
    assert_eq!(clock.previous_datetime(), Some(ymd(2021, 1, 4).and_hm(9, 59)));
    // five days on is a Saturday: the start rolls to the Monday
    let clock =
        Clock::new(ymd(2021, 1, 4), ymd(2021, 1, 29), Duration::days(5), Resolution::Day).unwrap();
    assert_eq!(clock.datetime(), ymd(2021, 1, 11).and_hm(9, 30));
    assert_eq!(clock.state(), MarketState::PreOpen);
}

#[test]
fn a_clock_needs_a_day_to_start_on() {
    let last = ymd(262142, 12, 31);
    assert!(Clock::new(last, last, Duration::days(1), Resolution::Day).is_none());
}

#[test]
fn periods_are_business_days_times_ticks() {
    let clock =
        Clock::new(ymd(2021, 1, 4), ymd(2021, 1, 8), Duration::zero(), Resolution::Day).unwrap();
    assert_eq!(clock.simulation_periods(), Some(4 * 5));
    let clock =
        Clock::new(ymd(2021, 1, 4), ymd(2021, 1, 8), Duration::zero(), Resolution::Minute).unwrap();
    assert_eq!(clock.simulation_periods(), Some(4 * 393));
}
