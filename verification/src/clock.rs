//! The simulation clock and the session state machine.
//!
//! Every business day runs through the five session states in order. With
//! daily bars each state is visited once and the cursor rests at the day's
//! start. With minute bars the session opens at the opening minute, stays open
//! for every minute up to the one before the close, closes at the closing
//! minute, and the cursor then moves to the opening of the next business day.
use crate::calendar::{first_business_day_from, last_business_day_until, NyseCalendar};
use crate::options::Resolution;
use crate::time::{
    Date, DateTime, Duration, CLOSING_MINUTE, MAX_DAY, MINUTES_PER_DAY, MIN_DAY, OPENING_MINUTE,
};
use vstd::prelude::*;

verus! {

/// Number of clock ticks that a full session takes with daily bars.
pub const DAY_TICKS: i32 = 5;

/// Number of clock ticks that a full session takes with minute bars.
pub const MINUTE_TICKS: i32 = 393;

/// Phase of a trading session.
#[derive(Clone, Copy, Debug, PartialEq, Eq, Hash, Structural)]
pub enum MarketState {
    PreOpen,
    Opening,
    Open,
    Closing,
    Closed,
}

impl MarketState {
    /// The state that follows in the cycle.
    pub open spec fn spec_next(self) -> MarketState {
        match self {
            MarketState::PreOpen => MarketState::Opening,
            MarketState::Opening => MarketState::Open,
            MarketState::Open => MarketState::Closing,
            MarketState::Closing => MarketState::Closed,
            MarketState::Closed => MarketState::PreOpen,
        }
    }

    /// Place of the state in the cycle, from 0 for `PreOpen`.
    pub open spec fn index(self) -> int {
        match self {
            MarketState::PreOpen => 0,
            MarketState::Opening => 1,
            MarketState::Open => 2,
            MarketState::Closing => 3,
            MarketState::Closed => 4,
        }
    }

    pub open spec fn spec_is_open(self) -> bool {
        self == MarketState::Opening || self == MarketState::Open || self == MarketState::Closing
    }

    pub fn next(&self) -> (r: MarketState)
        ensures
            r == self.spec_next(),
            r.index() == (self.index() + 1) % 5,
    {
        match self {
            MarketState::PreOpen => MarketState::Opening,
            MarketState::Opening => MarketState::Open,
            MarketState::Open => MarketState::Closing,
            MarketState::Closing => MarketState::Closed,
            MarketState::Closed => MarketState::PreOpen,
        }
    }
}

/// What a clock shows: the cursor's day number and minute of the day, and the
/// session state.
pub struct ClockState {
    pub day: int,
    pub minute: int,
    pub state: MarketState,
}

/// The clock one minute bar later.
pub open spec fn minute_tick(s: ClockState) -> ClockState {
    if s.minute + 1 < CLOSING_MINUTE {
        ClockState { day: s.day, minute: s.minute + 1, state: MarketState::Open }
    } else {
        ClockState {
            day: s.day,
            minute: if s.minute < CLOSING_MINUTE {
                CLOSING_MINUTE as int
            } else {
                s.minute
            },
            state: MarketState::Closing,
        }
    }
}

/// The clock after one tick. Out of `Closed` the cursor moves to the opening
/// of the next business day; where the calendar holds none, it moves to the day
/// `end` and the state stays `Closed`.
pub open spec fn tick_state(s: ClockState, resolution: Resolution, end: int) -> ClockState {
    match s.state {
        MarketState::PreOpen => ClockState { state: MarketState::Opening, ..s },
        MarketState::Opening | MarketState::Open => match resolution {
            Resolution::Day => ClockState { state: s.state.spec_next(), ..s },
            Resolution::Minute => minute_tick(s),
        },
        MarketState::Closing => ClockState { state: MarketState::Closed, ..s },
        MarketState::Closed => match first_business_day_from(s.day + 1) {
            Some(d) => ClockState {
                day: d,
                minute: OPENING_MINUTE as int,
                state: MarketState::PreOpen,
            },
            None => ClockState { day: end, ..s },
        },
    }
}

/// The clock after `n` ticks.
pub open spec fn tick_states(s: ClockState, resolution: Resolution, end: int, n: nat) -> ClockState
    decreases n,
{
    if n == 0 {
        s
    } else {
        tick_state(tick_states(s, resolution, end, (n - 1) as nat), resolution, end)
    }
}

/// The cursor has reached the end date and the session is closed.
pub open spec fn is_done_state(s: ClockState, end: int) -> bool {
    s.day >= end && s.state == MarketState::Closed
}

/// A bound on the ticks that are left; every tick lowers it.
pub open spec fn clock_measure(s: ClockState) -> int {
    ((MAX_DAY - s.day) * 5 + (4 - s.state.index())) * 1440 + (1439 - s.minute)
}

/// With daily bars a session that starts in `PreOpen` visits `Opening`,
/// `Open`, `Closing` and `Closed` once each, in this order, the cursor at
/// rest.
pub proof fn lemma_day_session(s: ClockState, end: int)
    requires
        s.state == MarketState::PreOpen,
    ensures
        tick_states(s, Resolution::Day, end, 1) == (ClockState { state: MarketState::Opening, ..s }),
        tick_states(s, Resolution::Day, end, 2) == (ClockState { state: MarketState::Open, ..s }),
        tick_states(s, Resolution::Day, end, 3) == (ClockState { state: MarketState::Closing, ..s }),
        tick_states(s, Resolution::Day, end, 4) == (ClockState { state: MarketState::Closed, ..s }),
{
    reveal_with_fuel(tick_states, 5);
}

/// With minute bars, `k` ticks after the session opened at the opening minute
/// the clock is in `Open` at `k` minutes past the opening, for every `k` from
/// 1 up to the minute before the close.
pub proof fn lemma_minute_session_open(s: ClockState, end: int, k: nat)
    requires
        s.state == MarketState::PreOpen,
        s.minute == OPENING_MINUTE,
        1 <= k < CLOSING_MINUTE - OPENING_MINUTE,
    ensures
        tick_states(s, Resolution::Minute, end, 1 + k) == (ClockState {
            day: s.day,
            minute: OPENING_MINUTE + k,
            state: MarketState::Open,
        }),
    decreases k,
{
    reveal_with_fuel(tick_states, 3);
    if k > 1 {
        lemma_minute_session_open(s, end, (k - 1) as nat);
    }
}

/// With minute bars a session that starts in `PreOpen` at the opening minute
/// takes one tick to `Opening`, is in `Open` for the next
/// `CLOSING_MINUTE - OPENING_MINUTE - 1` ticks and in no other, then reaches
/// `Closing` at the closing minute and `Closed` one tick later.
pub proof fn lemma_minute_session(s: ClockState, end: int)
    requires
        s.state == MarketState::PreOpen,
        s.minute == OPENING_MINUTE,
    ensures
        tick_states(s, Resolution::Minute, end, 1) == (ClockState {
            state: MarketState::Opening,
            ..s
        }),
        forall|k: nat|
            1 <= k < CLOSING_MINUTE - OPENING_MINUTE ==> (#[trigger] tick_states(
                s,
                Resolution::Minute,
                end,
                1 + k,
            )).state == MarketState::Open,
        tick_states(s, Resolution::Minute, end, 391) == (ClockState {
            day: s.day,
            minute: CLOSING_MINUTE as int,
            state: MarketState::Closing,
        }),
        tick_states(s, Resolution::Minute, end, 392) == (ClockState {
            day: s.day,
            minute: CLOSING_MINUTE as int,
            state: MarketState::Closed,
        }),
{
    reveal_with_fuel(tick_states, 3);
    assert forall|k: nat| 1 <= k < CLOSING_MINUTE - OPENING_MINUTE implies (#[trigger] tick_states(
        s,
        Resolution::Minute,
        end,
        1 + k,
    )).state == MarketState::Open by {
        lemma_minute_session_open(s, end, k);
    }
    lemma_minute_session_open(s, end, 389);
    assert(tick_states(s, Resolution::Minute, end, 391) == tick_state(
        tick_states(s, Resolution::Minute, end, 390),
        Resolution::Minute,
        end,
    ));
}

/// Out of `Closed` the next tick opens the following business day in
/// `PreOpen`, which closes the cycle.
pub proof fn lemma_next_session(s: ClockState, resolution: Resolution, end: int)
    requires
        s.state == MarketState::Closed,
        first_business_day_from(s.day + 1) is Some,
    ensures
        tick_state(s, resolution, end).state == MarketState::PreOpen,
        tick_state(s, resolution, end).minute == OPENING_MINUTE,
        Some(tick_state(s, resolution, end).day) == first_business_day_from(s.day + 1),
{
}

/// Every tick of a clock that is not done lowers the measure, so a clock can
/// only be ticked finitely often.
pub proof fn lemma_tick_lowers_measure(s: ClockState, resolution: Resolution, end: int)
    requires
        !is_done_state(s, end),
        MIN_DAY <= s.day <= MAX_DAY,
        end <= MAX_DAY,
        0 <= s.minute < MINUTES_PER_DAY,
    ensures
        clock_measure(tick_state(s, resolution, end)) < clock_measure(s),
        clock_measure(tick_state(s, resolution, end)) >= 0,
        MIN_DAY <= tick_state(s, resolution, end).day <= MAX_DAY,
        0 <= tick_state(s, resolution, end).minute < MINUTES_PER_DAY,
{
    if s.state == MarketState::Closed {
        crate::calendar::lemma_first_business_day_from(s.day + 1);
    }
}

/// The clock after as many of `n` ticks as it may take: a clock that is done
/// takes no tick.
pub open spec fn ticked(s: ClockState, resolution: Resolution, end: int, n: nat) -> ClockState
    decreases n,
{
    if n == 0 || is_done_state(s, end) {
        s
    } else {
        ticked(tick_state(s, resolution, end), resolution, end, (n - 1) as nat)
    }
}

/// Once a clock is done it stays done: whatever ticks are asked of it after
/// that, it takes none of them and stands where it stood.
pub proof fn lemma_done_is_stable(
    s: ClockState,
    resolution: Resolution,
    end: int,
    n: nat,
    more: nat,
)
    requires
        is_done_state(ticked(s, resolution, end, n), end),
    ensures
        ticked(s, resolution, end, n + more) == ticked(s, resolution, end, n),
        is_done_state(ticked(s, resolution, end, n + more), end),
    decreases n,
{
    if n == 0 || is_done_state(s, end) {
        assert(ticked(s, resolution, end, n) == s);
        assert(ticked(s, resolution, end, n + more) == s);
    } else {
        lemma_done_is_stable(
            tick_state(s, resolution, end),
            resolution,
            end,
            (n - 1) as nat,
            more,
        );
        assert(ticked(s, resolution, end, n + more) == ticked(
            tick_state(s, resolution, end),
            resolution,
            end,
            (n + more - 1) as nat,
        ));
    }
}

/// As long as a clock is not done, the ticks that it may take are the ticks
/// that it is asked to take.
pub proof fn lemma_ticked_until_done(s: ClockState, resolution: Resolution, end: int, n: nat)
    requires
        forall|k: nat| k < n ==> !is_done_state(#[trigger] tick_states(s, resolution, end, k), end),
    ensures
        ticked(s, resolution, end, n) == tick_states(s, resolution, end, n),
    decreases n,
{
    if n > 0 {
        assert(tick_states(s, resolution, end, 0) == s);
        lemma_tick_states_shift(s, resolution, end, (n - 1) as nat);
        assert forall|k: nat| k < n - 1 implies !is_done_state(
            #[trigger] tick_states(tick_state(s, resolution, end), resolution, end, k),
            end,
        ) by {
            lemma_tick_states_shift(s, resolution, end, k);
            assert(!is_done_state(tick_states(s, resolution, end, k + 1), end));
        }
        lemma_ticked_until_done(tick_state(s, resolution, end), resolution, end, (n - 1) as nat);
    }
}

/// Ticking first and then `n` times is ticking `n + 1` times.
proof fn lemma_tick_states_shift(s: ClockState, resolution: Resolution, end: int, n: nat)
    ensures
        tick_states(tick_state(s, resolution, end), resolution, end, n) == tick_states(
            s,
            resolution,
            end,
            n + 1,
        ),
    decreases n,
{
    reveal_with_fuel(tick_states, 2);
    if n > 0 {
        lemma_tick_states_shift(s, resolution, end, (n - 1) as nat);
    }
}

/// Day and minute at which a simulation starts: the opening of day `start`
/// moved on by `warmup` minutes, the day then rolled forward to a business
/// day where it is none. `None` where that leaves the calendar.
pub open spec fn starting_cursor(start: int, warmup: int) -> Option<(int, int)> {
    let cursor = start * 1440 + OPENING_MINUTE + warmup;
    if cursor < (MAX_DAY + 1) * 1440 {
        match first_business_day_from(cursor / 1440) {
            Some(day) => Some((day, cursor % 1440)),
            None => None,
        }
    } else {
        None
    }
}

/// The clock of a simulation.
pub struct Clock {
    datetime: DateTime,
    market_state: MarketState,
    calendar: NyseCalendar,
    end: Date,
    resolution: Resolution,
}

impl View for Clock {
    type V = ClockState;

    closed spec fn view(&self) -> ClockState {
        ClockState {
            day: self.datetime.date()@,
            minute: self.datetime.minute_of_day(),
            state: self.market_state,
        }
    }
}

impl Clock {
    /// The cursor and the end date are dates of the calendar.
    #[verifier::type_invariant]
    pub closed spec fn wf(&self) -> bool {
        self.datetime.wf() && self.end.wf()
    }

    pub closed spec fn spec_datetime(&self) -> DateTime {
        self.datetime
    }

    pub closed spec fn spec_end(&self) -> Date {
        self.end
    }

    pub closed spec fn spec_resolution(&self) -> Resolution {
        self.resolution
    }

    pub open spec fn spec_is_done(&self) -> bool {
        is_done_state(self@, self.spec_end()@)
    }

    /// A bound on the ticks that are left.
    pub open spec fn measure(&self) -> int {
        clock_measure(self@)
    }

    /// What the view is made of.
    pub proof fn lemma_view(&self)
        requires
            self.wf(),
        ensures
            self@.day == self.spec_datetime().date()@,
            self@.minute == self.spec_datetime().minute_of_day(),
            self.spec_datetime()@ == self@.day * 1440 + self@.minute,
            self.spec_datetime().wf(),
            MIN_DAY <= self@.day <= MAX_DAY,
            0 <= self@.minute < MINUTES_PER_DAY,
            MIN_DAY <= self.spec_end()@ <= MAX_DAY,
            self.measure() >= 0,
    {
        self.datetime.lemma_view();
        self.datetime.date().lemma_view();
        self.end.lemma_view();
    }

    /// A clock in `PreOpen` whose cursor is the opening of `start` moved on by
    /// `warmup`, its day rolled forward to a business day where it is none.
    /// `None` where that leaves the calendar.
    pub fn new(start: Date, end: Date, warmup: Duration, resolution: Resolution) -> (r: Option<
        Clock,
    >)
        ensures
            r is Some == starting_cursor(start@, warmup@) is Some,
            r matches Some(c) ==> {
                &&& c.wf()
                &&& Some((c@.day, c@.minute)) == starting_cursor(start@, warmup@)
                &&& c@.state == MarketState::PreOpen
                &&& c.spec_end() == end
                &&& c.spec_resolution() == resolution
            },
    {
        let calendar = NyseCalendar;
        proof {
            use_type_invariant(&start);
            use_type_invariant(&end);
            start.lemma_view();
        }
        let opening = start.at_minute(OPENING_MINUTE);
        proof {
            opening.lemma_view();
        }
        let cursor = match opening.checked_add(warmup) {
            Some(t) => t,
            None => {
                return None;
            },
        };
        proof {
            cursor.lemma_view();
        }
        let day = match calendar.to_business_day(cursor.get_date(), true) {
            Some(d) => d,
            None => {
                return None;
            },
        };
        let datetime = day.at_minute(cursor.get_minute_of_day());
        Some(
            Clock {
                datetime,
                market_state: MarketState::PreOpen,
                calendar,
                end,
                resolution,
            },
        )
    }

    pub fn datetime(&self) -> (r: DateTime)
        ensures
            r == self.spec_datetime(),
    {
        self.datetime
    }

    pub fn state(&self) -> (r: MarketState)
        ensures
            r == self@.state,
    {
        self.market_state
    }

    pub fn resolution(&self) -> (r: Resolution)
        ensures
            r == self.spec_resolution(),
    {
        self.resolution
    }

    pub fn end(&self) -> (r: Date)
        ensures
            r == self.spec_end(),
    {
        self.end
    }

    /// True in `Opening`, `Open` and `Closing`.
    pub fn is_open(&self) -> (r: bool)
        ensures
            r == self@.state.spec_is_open(),
    {
        match self.market_state {
            MarketState::Opening | MarketState::Open | MarketState::Closing => true,
            MarketState::PreOpen | MarketState::Closed => false,
        }
    }

    /// True once the cursor's date has reached the end date and the session
    /// is closed.
    pub fn is_done(&self) -> (r: bool)
        ensures
            r == self.spec_is_done(),
    {
        let closed = match self.market_state {
            MarketState::Closed => true,
            _ => false,
        };
        self.end.le(&self.datetime.get_date()) && closed
    }

    /// With minute bars, whether the cursor is at the opening minute; always
    /// true with daily bars.
    pub fn is_start_of_day(&self) -> (r: bool)
        ensures
            r == (self.spec_resolution() == Resolution::Day || self@.minute == OPENING_MINUTE),
    {
        match self.resolution {
            Resolution::Minute => self.datetime.get_minute_of_day() == OPENING_MINUTE,
            Resolution::Day => true,
        }
    }

    /// With minute bars, whether the cursor is at the closing minute; always
    /// true with daily bars.
    pub fn is_end_of_day(&self) -> (r: bool)
        ensures
            r == (self.spec_resolution() == Resolution::Day || self@.minute == CLOSING_MINUTE),
    {
        match self.resolution {
            Resolution::Minute => self.datetime.get_minute_of_day() == CLOSING_MINUTE,
            Resolution::Day => true,
        }
    }

    /// Timestamp of the bar before the cursor.
    pub open spec fn spec_previous_datetime(&self) -> Option<DateTime> {
        if self.spec_resolution() == Resolution::Day || self@.minute == OPENING_MINUTE {
            match last_business_day_until(self@.day - 1) {
                Some(d) => Some(DateTime::at(d, CLOSING_MINUTE as int)),
                None => None,
            }
        } else if self.spec_datetime()@ - 1 >= MIN_DAY * 1440 {
            Some(DateTime::of_minutes(self.spec_datetime()@ - 1))
        } else {
            None
        }
    }

    /// Timestamp of the bar after the cursor.
    pub open spec fn spec_next_datetime(&self) -> Option<DateTime> {
        if self.spec_resolution() == Resolution::Day || self@.minute == CLOSING_MINUTE {
            match first_business_day_from(self@.day + 1) {
                Some(d) => Some(DateTime::at(d, OPENING_MINUTE as int)),
                None => None,
            }
        } else if self.spec_datetime()@ + 1 < (MAX_DAY + 1) * 1440 {
            Some(DateTime::of_minutes(self.spec_datetime()@ + 1))
        } else {
            None
        }
    }

    /// Timestamp of the bar before the cursor: the close of the business day
    /// before at the start of a day, else the minute before. `None` where the
    /// calendar holds no such day.
    pub fn previous_datetime(&self) -> (r: Option<DateTime>)
        ensures
            r == self.spec_previous_datetime(),
            match r {
                Some(t) => if self.spec_resolution() == Resolution::Day || self@.minute
                    == OPENING_MINUTE {
                    &&& Some(t.date()@) == last_business_day_until(self@.day - 1)
                    &&& t.minute_of_day() == CLOSING_MINUTE
                } else {
                    t@ == self.spec_datetime()@ - 1
                },
                None => if self.spec_resolution() == Resolution::Day || self@.minute
                    == OPENING_MINUTE {
                    last_business_day_until(self@.day - 1) is None
                } else {
                    self.spec_datetime()@ - 1 < MIN_DAY * 1440
                },
            },
    {
        proof {
            use_type_invariant(&*self);
            self.lemma_view();
        }
        let date = self.datetime.get_date();
        let minute: u32 = self.datetime.get_minute_of_day();
        if self.is_start_of_day() {
            match self.calendar.adjacent_business_day(date, false) {
                Some(d) => Some(d.at_minute(CLOSING_MINUTE)),
                None => None,
            }
        } else if minute > 0 {
            let t = date.at_minute(minute - 1);
            proof {
                t.lemma_view();
            }
            Some(t)
        } else {
            match date.pred() {
                Some(d) => {
                    let t = d.at_minute(MINUTES_PER_DAY - 1);
                    proof {
                        t.lemma_view();
                    }
                    Some(t)
                },
                None => None,
            }
        }
    }

    /// Timestamp of the bar after the cursor: the opening of the next
    /// business day at the end of a day, else the minute after. `None` where
    /// the calendar holds no such day.
    pub fn next_datetime(&self) -> (r: Option<DateTime>)
        ensures
            r == self.spec_next_datetime(),
            match r {
                Some(t) => if self.spec_resolution() == Resolution::Day || self@.minute
                    == CLOSING_MINUTE {
                    &&& Some(t.date()@) == first_business_day_from(self@.day + 1)
                    &&& t.minute_of_day() == OPENING_MINUTE
                } else {
                    t@ == self.spec_datetime()@ + 1
                },
                None => if self.spec_resolution() == Resolution::Day || self@.minute
                    == CLOSING_MINUTE {
                    first_business_day_from(self@.day + 1) is None
                } else {
                    self.spec_datetime()@ + 1 >= (MAX_DAY + 1) * 1440
                },
            },
    {
        proof {
            use_type_invariant(&*self);
            self.lemma_view();
        }
        let date = self.datetime.get_date();
        let minute: u32 = self.datetime.get_minute_of_day();
        if self.is_end_of_day() {
            match self.calendar.adjacent_business_day(date, true) {
                Some(d) => Some(d.at_minute(OPENING_MINUTE)),
                None => None,
            }
        } else if minute + 1 < MINUTES_PER_DAY {
            let t = date.at_minute(minute + 1);
            proof {
                t.lemma_view();
            }
            Some(t)
        } else {
            match date.succ() {
                Some(d) => {
                    let t = d.at_minute(0);
                    proof {
                        t.lemma_view();
                    }
                    Some(t)
                },
                None => None,
            }
        }
    }

    /// Number of ticks from the cursor's day to the end date: the business
    /// days between them times the ticks of a full session. `None` where the
    /// calendar ends first or the number does not fit.
    pub fn simulation_periods(&self) -> (r: Option<i32>)
        ensures
            match crate::calendar::business_days_between_at(self@.day, self.spec_end()@) {
                Some(days) => {
                    let ticks = days * if self.spec_resolution() == Resolution::Day {
                        DAY_TICKS as int
                    } else {
                        MINUTE_TICKS as int
                    };
                    if i32::MIN <= ticks <= i32::MAX {
                        r == Some(ticks as i32)
                    } else {
                        r is None
                    }
                },
                None => r is None,
            },
    {
        proof {
            use_type_invariant(&*self);
            self.lemma_view();
        }
        let per_day: i32 = match self.resolution {
            Resolution::Day => DAY_TICKS,
            Resolution::Minute => MINUTE_TICKS,
        };
        match self.calendar.business_days_between(self.datetime.get_date(), self.end) {
            Some(days) => days.checked_mul(per_day),
            None => None,
        }
    }

    /// Moves the clock on by one tick. Forbidden once the clock is done.
    pub fn tick(&mut self)
        requires
            !old(self).spec_is_done(),
        ensures
            final(self).wf(),
            final(self)@ == tick_state(
                old(self)@,
                old(self).spec_resolution(),
                old(self).spec_end()@,
            ),
            final(self).spec_end() == old(self).spec_end(),
            final(self).spec_resolution() == old(self).spec_resolution(),
            final(self).measure() < old(self).measure(),
    {
        proof {
            use_type_invariant(&*self);
            self.lemma_view();
            lemma_tick_lowers_measure(self@, self.resolution, self.end@);
        }
        let date = self.datetime.get_date();
        let minute: u32 = self.datetime.get_minute_of_day();
        match self.market_state {
            MarketState::PreOpen => {
                self.market_state = MarketState::Opening;
            },
            MarketState::Opening | MarketState::Open => {
                match self.resolution {
                    Resolution::Day => {
                        self.market_state = self.market_state.next();
                    },
                    Resolution::Minute => {
                        if minute + 1 < CLOSING_MINUTE {
                            self.datetime = date.at_minute(minute + 1);
                            self.market_state = MarketState::Open;
                        } else {
                            let at: u32 = if minute < CLOSING_MINUTE {
                                CLOSING_MINUTE
                            } else {
                                minute
                            };
                            self.datetime = date.at_minute(at);
                            self.market_state = MarketState::Closing;
                        }
                    },
                }
            },
            MarketState::Closing => {
                self.market_state = MarketState::Closed;
            },
            MarketState::Closed => {
                match self.calendar.adjacent_business_day(date, true) {
                    Some(d) => {
                        self.datetime = d.at_minute(OPENING_MINUTE);
                        self.market_state = MarketState::PreOpen;
                    },
                    None => {
                        self.datetime = self.end.at_minute(minute);
                    },
                }
            },
        }
    }
}

} // verus!
