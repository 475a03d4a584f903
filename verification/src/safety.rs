//! How long an action settles, and how many injections are let through.

use vstd::prelude::*;
use vstd::string::*;

use crate::text::{decimal, push_decimal};
use crate::time::Duration;

verus! {

pub const DEFAULT_MAX_CONSECUTIVE_INJECTIONS: u32 = 200;

pub const DEFAULT_MIN_INJECTION_INTERVAL_MS: u64 = 20;

pub const DEFAULT_SETTLE_MS: i64 = 150;

pub const MAX_SETTLE_MS: i64 = 10_000;

/// The milliseconds asked for, or the default where none are.
pub open spec fn settle_millis(value: Option<i64>) -> i64 {
    match value {
        Some(millis) => millis,
        None => DEFAULT_SETTLE_MS,
    }
}

pub open spec fn settle_error() -> Seq<char> {
    "settle_ms must be between 0 and "@ + decimal(MAX_SETTLE_MS as int) + " milliseconds"@
}

/// What asking for this settle time comes to: the span, or the refusal of one
/// that is negative or too long.
pub open spec fn settled(value: Option<i64>) -> Result<Duration, Seq<char>> {
    let millis = settle_millis(value);
    if 0 <= millis <= MAX_SETTLE_MS {
        Ok(Duration::of_millis(millis as u64))
    } else {
        Err(settle_error())
    }
}

pub fn settle_duration(value: Option<i64>) -> (span: Result<Duration, String>)
    ensures
        match span {
            Ok(span) => settled(value) == Ok::<Duration, Seq<char>>(span),
            Err(error) => settled(value) == Err::<Duration, Seq<char>>(error@),
        },
{
    let millis: i64 = match value {
        Some(millis) => millis,
        None => DEFAULT_SETTLE_MS,
    };
    if millis < 0 || millis > MAX_SETTLE_MS {
        let mut error = "settle_ms must be between 0 and ".to_owned();
        push_decimal(&mut error, MAX_SETTLE_MS);
        error.append(" milliseconds");
        return Err(error);
    }
    Ok(Duration::from_millis(millis as u64))
}

#[derive(Debug, Clone, Copy, PartialEq, Eq, Structural)]
pub enum BudgetError {
    CircuitBreakerTripped { limit: u32 },
    Stopped,
}

impl BudgetError {
    pub open spec fn text(self) -> Seq<char> {
        match self {
            BudgetError::CircuitBreakerTripped { limit } => "input injection circuit breaker tripped after "@
                + decimal(limit as int)
                + " injections without a successful screenshot; call screenshot before injecting again"@,
            BudgetError::Stopped => "input injection stopped after SIGINT"@,
        }
    }

    pub fn message(&self) -> (message: String)
        ensures
            message@ == self.text(),
    {
        match self {
            BudgetError::CircuitBreakerTripped { limit } => {
                let mut message = "input injection circuit breaker tripped after ".to_owned();
                push_decimal(&mut message, *limit as i64);
                message.append(
                    " injections without a successful screenshot; call screenshot before injecting again",
                );
                message
            },
            BudgetError::Stopped => "input injection stopped after SIGINT".to_owned(),
        }
    }
}

/// An injection may go ahead now, or has to wait and ask again.
#[derive(Debug, Clone, Copy, PartialEq, Eq, Structural)]
pub enum Admission {
    Granted,
    Wait(Duration),
}

/// Counts injections between screenshots and keeps them apart in time.
#[derive(Debug, Clone, Copy, PartialEq, Eq, Structural)]
pub struct Budget {
    /// Injections that succeeded since the last screenshot.
    pub consecutive_injections: u32,
    /// The instant of the last injection that succeeded.
    pub last_injection: Option<Duration>,
    pub stopped: bool,
    pub max_consecutive_injections: u32,
    pub min_interval: Duration,
}

/// The time from `earlier` to `later`, nothing where they are out of order.
pub open spec fn elapsed(earlier: Duration, later: Duration) -> int {
    if later.nanos >= earlier.nanos {
        later.nanos - earlier.nanos
    } else {
        0
    }
}

impl Budget {
    pub fn new() -> (budget: Budget)
        ensures
            budget == (Budget {
                consecutive_injections: 0,
                last_injection: None,
                stopped: false,
                max_consecutive_injections: DEFAULT_MAX_CONSECUTIVE_INJECTIONS,
                min_interval: Duration::of_millis(DEFAULT_MIN_INJECTION_INTERVAL_MS),
            }),
            budget.max_consecutive_injections == 200,
            budget.min_interval.nanos == 20_000_000,
    {
        Budget::with_config(
            DEFAULT_MAX_CONSECUTIVE_INJECTIONS,
            Duration::from_millis(DEFAULT_MIN_INJECTION_INTERVAL_MS),
        )
    }

    pub fn with_config(max_consecutive_injections: u32, min_interval: Duration) -> (budget: Budget)
        ensures
            budget == (Budget {
                consecutive_injections: 0,
                last_injection: None,
                stopped: false,
                max_consecutive_injections,
                min_interval,
            }),
    {
        Budget {
            consecutive_injections: 0,
            last_injection: None,
            stopped: false,
            max_consecutive_injections,
            min_interval,
        }
    }

    /// What a request to inject at `now` is answered: refused for good after a
    /// stop, refused until the next screenshot once the limit is reached, put
    /// off while the last injection is too recent, granted otherwise.
    pub open spec fn answer(self, now: Duration) -> Result<Admission, BudgetError> {
        if self.stopped {
            Err(BudgetError::Stopped)
        } else if self.consecutive_injections >= self.max_consecutive_injections {
            Err(BudgetError::CircuitBreakerTripped { limit: self.max_consecutive_injections })
        } else {
            match self.last_injection {
                Some(last) if elapsed(last, now) < self.min_interval.nanos => Ok(
                    Admission::Wait(
                        Duration { nanos: (self.min_interval.nanos - elapsed(last, now)) as u128 },
                    ),
                ),
                _ => Ok(Admission::Granted),
            }
        }
    }

    pub fn before_injection(&self, now: Duration) -> (answer: Result<Admission, BudgetError>)
        ensures
            answer == self.answer(now),
    {
        if self.stopped {
            return Err(BudgetError::Stopped);
        }
        if self.consecutive_injections >= self.max_consecutive_injections {
            return Err(
                BudgetError::CircuitBreakerTripped { limit: self.max_consecutive_injections },
            );
        }
        if let Some(last) = self.last_injection {
            let elapsed: u128 = if now.nanos >= last.nanos { now.nanos - last.nanos } else { 0 };
            if elapsed < self.min_interval.nanos {
                return Ok(Admission::Wait(Duration { nanos: self.min_interval.nanos - elapsed }));
            }
        }
        Ok(Admission::Granted)
    }

    pub open spec fn after_injection(self, now: Duration) -> Budget {
        Budget {
            consecutive_injections: if self.consecutive_injections < u32::MAX {
                (self.consecutive_injections + 1) as u32
            } else {
                u32::MAX
            },
            last_injection: Some(now),
            ..self
        }
    }

    pub fn injection_succeeded(&mut self, now: Duration)
        ensures
            *final(self) == old(self).after_injection(now),
    {
        self.consecutive_injections = self.consecutive_injections.saturating_add(1);
        self.last_injection = Some(now);
    }

    pub open spec fn after_screenshot(self) -> Budget {
        Budget { consecutive_injections: 0, ..self }
    }

    pub fn screenshot_completed(&mut self)
        ensures
            *final(self) == old(self).after_screenshot(),
    {
        self.consecutive_injections = 0;
    }

    pub open spec fn after_stop(self) -> Budget {
        Budget { stopped: true, ..self }
    }

    pub fn stop(&mut self)
        ensures
            *final(self) == old(self).after_stop(),
    {
        self.stopped = true;
    }

    pub fn is_stopped(&self) -> (stopped: bool)
        ensures
            stopped == self.stopped,
    {
        self.stopped
    }

    pub fn consecutive_injections(&self) -> (count: u32)
        ensures
            count == self.consecutive_injections,
    {
        self.consecutive_injections
    }

    /// The budget after injections that succeeded one after another at `times`.
    pub open spec fn after_injections(self, times: Seq<Duration>) -> Budget
        decreases times.len(),
    {
        if times.len() == 0 {
            self
        } else {
            self.after_injections(times.drop_last()).after_injection(times.last())
        }
    }

    /// Each of the injections at `times` was granted when its turn came.
    pub open spec fn grants(self, times: Seq<Duration>) -> bool
        decreases times.len(),
    {
        times.len() == 0 || (self.grants(times.drop_last()) && self.after_injections(
            times.drop_last(),
        ).answer(times.last()) == Ok::<Admission, BudgetError>(Admission::Granted))
    }
}

proof fn lemma_injections_are_counted(budget: Budget, times: Seq<Duration>)
    requires
        budget.consecutive_injections + times.len() <= u32::MAX,
    ensures
        budget.after_injections(times) == (Budget {
            consecutive_injections: (budget.consecutive_injections + times.len()) as u32,
            last_injection: if times.len() == 0 {
                budget.last_injection
            } else {
                Some(times.last())
            },
            ..budget
        }),
    decreases times.len(),
{
    if times.len() > 0 {
        lemma_injections_are_counted(budget, times.drop_last());
    }
}

/// Once as many injections as the limit allows have succeeded since the last
/// screenshot, every request is refused, whatever the time, until a screenshot
/// is taken.
pub proof fn lemma_breaker_trips_at_limit(budget: Budget, times: Seq<Duration>, now: Duration)
    requires
        !budget.stopped,
        times.len() == budget.max_consecutive_injections,
    ensures
        budget.after_screenshot().after_injections(times).answer(now) == Err::<
            Admission,
            BudgetError,
        >(BudgetError::CircuitBreakerTripped { limit: budget.max_consecutive_injections }),
{
    lemma_injections_are_counted(budget.after_screenshot(), times);
}

/// A screenshot opens a tripped breaker again: the next request is granted or
/// put off, never refused, unless the limit is zero or injection was stopped.
pub proof fn lemma_screenshot_resets_breaker(budget: Budget, now: Duration)
    requires
        !budget.stopped,
        budget.max_consecutive_injections > 0,
    ensures
        budget.after_screenshot().answer(now) is Ok,
{
}

/// Fewer injections than the limit since the last screenshot never trip it.
pub proof fn lemma_breaker_stays_closed_below_limit(
    budget: Budget,
    times: Seq<Duration>,
    now: Duration,
)
    requires
        !budget.stopped,
        times.len() < budget.max_consecutive_injections,
    ensures
        budget.after_screenshot().after_injections(times).answer(now) is Ok,
{
    lemma_injections_are_counted(budget.after_screenshot(), times);
}

/// After a stop every request is refused, whatever happens afterwards.
pub proof fn lemma_stop_is_final(budget: Budget, times: Seq<Duration>, now: Duration)
    ensures
        budget.after_stop().answer(now) == Err::<Admission, BudgetError>(BudgetError::Stopped),
        budget.after_stop().after_screenshot().stopped,
        budget.after_stop().after_injections(times).stopped,
    decreases times.len(),
{
    if times.len() > 0 {
        lemma_stop_is_final(budget, times.drop_last(), now);
    }
}

/// Granted injections are never closer together than the minimum interval,
/// and a request that was put off is granted once it has waited as told.
pub proof fn lemma_injections_are_spaced(budget: Budget, last: Duration, now: Duration)
    requires
        budget.last_injection == Some(last),
        last.nanos <= now.nanos,
    ensures
        budget.answer(now) == Ok::<Admission, BudgetError>(Admission::Granted) ==> now.nanos
            - last.nanos >= budget.min_interval.nanos,
        budget.answer(now) matches Ok(Admission::Wait(wait)) ==> wait.nanos > 0 && now.nanos
            + wait.nanos == last.nanos + budget.min_interval.nanos && (now.nanos + wait.nanos
            <= u128::MAX ==> budget.answer(Duration { nanos: (now.nanos + wait.nanos) as u128 })
            == Ok::<Admission, BudgetError>(Admission::Granted)),
{
}

/// Between two screenshots no more injections go through than the limit
/// allows, and any two that follow each other are the minimum interval apart.
pub proof fn lemma_granted_injections_are_few_and_spaced(budget: Budget, times: Seq<Duration>)
    requires
        budget.after_screenshot().grants(times),
    ensures
        times.len() <= budget.max_consecutive_injections,
        forall|i: int, j: int|
            0 <= i && j == i + 1 && j < times.len() ==> elapsed(
                #[trigger] times[i],
                #[trigger] times[j],
            ) >= budget.min_interval.nanos,
    decreases times.len(),
{
    if times.len() > 0 {
        let before = times.drop_last();
        lemma_granted_injections_are_few_and_spaced(budget, before);
        lemma_injections_are_counted(budget.after_screenshot(), before);
        assert forall|i: int, j: int| 0 <= i && j == i + 1 && j < times.len() implies elapsed(
            #[trigger] times[i],
            #[trigger] times[j],
        ) >= budget.min_interval.nanos by {
            if j < before.len() {
                assert(before[i] == times[i] && before[j] == times[j]);
            } else {
                assert(before.last() == times[i]);
            }
        }
    }
}

/// Settle times are accepted from nothing to ten seconds and taken as they
/// are; where none is asked for, it is 150 ms.
pub proof fn lemma_settle_times(value: Option<i64>)
    ensures
        settled(value) is Ok <==> (value matches Some(millis) ==> 0 <= millis <= 10_000),
        settled(value) matches Ok(span) ==> span.nanos == match value {
            Some(millis) => millis * 1_000_000,
            None => 150_000_000,
        },
{
}

/// A request is granted exactly where nothing stands against it: no stop,
/// fewer injections than the limit, and the last one at least the minimum
/// interval ago.
pub proof fn lemma_what_is_granted(budget: Budget, now: Duration)
    ensures
        budget.answer(now) == Ok::<Admission, BudgetError>(Admission::Granted) <==> !budget.stopped
            && budget.consecutive_injections < budget.max_consecutive_injections && (
        budget.last_injection matches Some(last) ==> last.nanos + budget.min_interval.nanos
            <= now.nanos || budget.min_interval.nanos == 0),
        budget.answer(now) matches Err(error) ==> error == if budget.stopped {
            BudgetError::Stopped
        } else {
            BudgetError::CircuitBreakerTripped { limit: budget.max_consecutive_injections }
        },
        budget.answer(now) is Err <==> budget.stopped || budget.consecutive_injections
            >= budget.max_consecutive_injections,
{
}

/// Each injection counts once and is remembered as the last; a screenshot
/// starts the count anew, forgets nothing else and brings no injection
/// closer; a stop changes nothing but that.
pub proof fn lemma_what_is_counted(budget: Budget, now: Duration, later: Duration)
    ensures
        budget.consecutive_injections < u32::MAX ==> budget.after_injection(
            now,
        ).consecutive_injections == budget.consecutive_injections + 1,
        budget.after_injection(now).last_injection == Some(now),
        budget.after_injection(now).stopped == budget.stopped,
        budget.after_injection(now).max_consecutive_injections
            == budget.max_consecutive_injections,
        budget.after_injection(now).min_interval == budget.min_interval,
        budget.after_screenshot().consecutive_injections == 0,
        budget.after_injection(now).after_screenshot().answer(later) == Ok::<
            Admission,
            BudgetError,
        >(Admission::Granted) ==> elapsed(now, later) >= budget.min_interval.nanos,
        budget.after_screenshot().max_consecutive_injections == budget.max_consecutive_injections,
        budget.after_stop().consecutive_injections == budget.consecutive_injections,
        budget.after_stop().last_injection == budget.last_injection,
{
}

} // verus!
