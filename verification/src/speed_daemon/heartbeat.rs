//! The heartbeat of one connection: whether the client asked for one, and
//! how often it is due.

use vstd::prelude::*;

verus! {

/// Milliseconds in one tenth of a second, the unit in which a client asks.
pub const MILLIS_PER_DECISECOND: u64 = 100;

/// The time between two heartbeats, in milliseconds, for an interval in
/// tenths of a second.
pub open spec fn spec_period(interval: u32) -> u64 {
    (interval * 100) as u64
}

/// The time between two heartbeats, in milliseconds, for an interval in
/// tenths of a second.
pub fn period_of(interval: u32) -> (millis: u64)
    ensures
        millis == spec_period(interval),
{
    interval as u64 * MILLIS_PER_DECISECOND
}

/// What a connection knows of its heartbeat.
#[derive(Debug, Clone, Copy, PartialEq, Eq, Structural)]
pub struct Heartbeat {
    period: Option<u64>,
}

impl Heartbeat {
    /// The period that was set, in milliseconds.
    pub closed spec fn period(&self) -> Option<u64> {
        self.period
    }

    /// A heartbeat with the given period, or one that is not set.
    pub fn new(period: Option<u64>) -> (heartbeat: Heartbeat)
        ensures
            heartbeat.period() == period,
    {
        Heartbeat { period }
    }

    /// Sets the period, in milliseconds. A period of 0 means that no
    /// heartbeat is sent.
    pub fn set_period(&mut self, period: u64)
        ensures
            final(self).period() == Some(period),
    {
        self.period = Some(period);
    }

    /// Tells whether heartbeats are due: a period is set, and it is not 0.
    pub fn is_valid(&self) -> (valid: bool)
        ensures
            valid == (self.period() matches Some(period) && period != 0),
    {
        match self.period {
            Some(period) => period != 0,
            None => false,
        }
    }

    /// Tells whether the client has asked, be it for no heartbeat.
    pub fn is_setted(&self) -> (setted: bool)
        ensures
            setted == self.period() is Some,
    {
        self.period.is_some()
    }

    /// The time between two heartbeats, in milliseconds, where they are
    /// due.
    pub fn due_every(&self) -> (millis: Option<u64>)
        ensures
            millis == match self.period() {
                Some(period) if period != 0 => Some(period),
                _ => None,
            },
    {
        match self.period {
            Some(period) => if period != 0 {
                Some(period)
            } else {
                None
            },
            None => None,
        }
    }
}

impl Default for Heartbeat {
    fn default() -> (heartbeat: Heartbeat)
        ensures
            heartbeat.period() is None,
    {
        Heartbeat { period: None }
    }
}

} // verus!
