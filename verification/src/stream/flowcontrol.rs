//! The flow control window that a receiver grants.
use vstd::prelude::*;

verus! {

/// What the state of a [`FlowControl`] means.
pub struct FlowState {
    /// Bytes handed to the application.
    pub consumed: u64,
    /// The highest offset that the sender may use.
    pub max_data: u64,
    /// How far above the consumed bytes the limit is set.
    pub window: u64,
    /// The largest window that autotuning may reach.
    pub max_window: u64,
    /// When the limit was last raised, in nanoseconds of the caller's clock.
    pub last_update: Option<u128>,
}

impl FlowState {
    /// The limit that is granted next.
    pub open spec fn next_limit(self) -> u64 {
        if self.consumed + self.window <= u64::MAX {
            (self.consumed + self.window) as u64
        } else {
            u64::MAX
        }
    }

    /// Less than half of the window is left to the sender.
    pub open spec fn low(self) -> bool {
        if self.consumed < self.max_data {
            self.max_data - self.consumed < self.window as int / 2
        } else {
            0 < self.window as int / 2
        }
    }

    /// The state after the next limit was granted at `now`.
    pub open spec fn granted(self, now: u128) -> FlowState {
        FlowState { max_data: self.next_limit(), last_update: Some(now), ..self }
    }

    /// Whether the limit was raised less than two round trips before `now`.
    pub open spec fn recently_granted(self, now: u128, rtt: u128) -> bool {
        self.last_update matches Some(last) && (if last <= now {
            now - last
        } else {
            0
        }) < 2 * rtt
    }

    /// The state after the window was tuned at `now`.
    pub open spec fn tuned(self, now: u128, rtt: u128) -> FlowState {
        if self.recently_granted(now, rtt) {
            FlowState {
                window: if 2 * self.window <= self.max_window {
                    (2 * self.window) as u64
                } else {
                    self.max_window
                },
                ..self
            }
        } else {
            self
        }
    }
}

/// Receiver flow controller.
#[derive(Debug)]
pub struct FlowControl {
    consumed: u64,
    max_data: u64,
    window: u64,
    max_window: u64,
    last_update: Option<u128>,
}

impl View for FlowControl {
    type V = FlowState;

    closed spec fn view(&self) -> FlowState {
        FlowState {
            consumed: self.consumed,
            max_data: self.max_data,
            window: self.window,
            max_window: self.max_window,
            last_update: self.last_update,
        }
    }
}

impl FlowControl {
    /// Creates a flow controller with nothing consumed yet.
    pub fn new(max_data: u64, window: u64, max_window: u64) -> (r: FlowControl)
        ensures
            r@ == (FlowState { consumed: 0, max_data, window, max_window, last_update: None }),
    {
        FlowControl { consumed: 0, max_data, window, max_window, last_update: None }
    }

    /// Returns the current window.
    pub fn window(&self) -> (r: u64)
        ensures
            r == self@.window,
    {
        self.window
    }

    /// Returns the current flow control limit.
    pub fn max_data(&self) -> (r: u64)
        ensures
            r == self@.max_data,
    {
        self.max_data
    }

    /// Adds to the consumed bytes.
    pub fn add_consumed(&mut self, consumed: u64)
        requires
            old(self)@.consumed + consumed <= u64::MAX,
        ensures
            final(self)@ == (FlowState {
                consumed: (old(self)@.consumed + consumed) as u64,
                ..old(self)@
            }),
    {
        self.consumed = self.consumed + consumed;
    }

    /// Returns true if the limit should be raised: the sender has less than
    /// half of the window left.
    pub fn should_update_max_data(&self) -> (r: bool)
        ensures
            r == self@.low(),
    {
        self.max_data.saturating_sub(self.consumed) < self.window / 2
    }

    /// Returns the limit that is granted next.
    pub fn max_data_next(&self) -> (r: u64)
        ensures
            r == self@.next_limit(),
    {
        self.consumed.saturating_add(self.window)
    }

    /// Commits the next limit.
    pub fn update_max_data(&mut self, now: u128)
        ensures
            final(self)@ == old(self)@.granted(now),
    {
        self.max_data = self.max_data_next();
        self.last_update = Some(now);
    }

    /// Doubles the window, up to its maximum, when the limit was raised less
    /// than two round trips ago.
    pub fn autotune_window(&mut self, now: u128, rtt: u128)
        ensures
            final(self)@ == old(self)@.tuned(now, rtt),
    {
        if let Some(last_update) = self.last_update {
            if now.saturating_sub(last_update) / 2 < rtt {
                self.window = if self.window <= self.max_window / 2 {
                    self.window * 2
                } else {
                    self.max_window
                };
            }
        }
    }
}

/// The limit has to be raised exactly when what the sender has left is less than
/// half of the window, whatever was granted before and whenever that was.
pub proof fn law_low_below_half(flow: FlowState, left: int)
    requires
        left == flow.max_data - flow.consumed || left == 0 && flow.max_data < flow.consumed,
        0 <= left,
    ensures
        flow.low() <==> 2 * left + 2 <= flow.window,
{
}

/// A sender that has used up its limit gets a new one: the limit is low then, and
/// it is low again when the one granted next is used up, and so on.
pub proof fn law_used_up_is_low(flow: FlowState, now: u128, used: FlowState)
    requires
        flow.window >= 2,
        flow.consumed >= flow.max_data,
        used.consumed >= flow.next_limit(),
        used.max_data == flow.granted(now).max_data,
        used.window == flow.granted(now).window,
        used.last_update == flow.granted(now).last_update,
    ensures
        flow.low(),
        used.low(),
{
}

/// A grant lets the sender go one window beyond what was consumed, or as far as
/// offsets go, and changes nothing else. What is granted is what was told, and
/// the limit is not low right after it.
pub proof fn law_grant(flow: FlowState, now: u128)
    ensures
        flow.granted(now).max_data == flow.next_limit(),
        flow.consumed + flow.window <= u64::MAX ==> flow.next_limit() - flow.consumed
            == flow.window && !flow.granted(now).low(),
        flow.consumed + flow.window > u64::MAX ==> flow.next_limit() == u64::MAX,
        flow.granted(now).last_update == Some(now),
        flow.granted(now).consumed == flow.consumed,
        flow.granted(now).window == flow.window,
        flow.granted(now).max_window == flow.max_window,
        flow.granted(now).next_limit() == flow.next_limit(),
{
}

/// Granting a new limit when it is low raises it.
pub proof fn law_low_limit_is_raised(flow: FlowState, now: u128)
    requires
        flow.low(),
        flow.max_data < u64::MAX,
    ensures
        flow.max_data < flow.granted(now).max_data,
{
}

/// The window is doubled, but not beyond its maximum, when less than two round
/// trips have passed since the last grant. Else, and but for the window, nothing
/// changes.
pub proof fn law_tuned(flow: FlowState, now: u128, rtt: u128)
    ensures
        ({
            let next = flow.tuned(now, rtt);
            let soon = flow.last_update matches Some(last) && 0 < rtt && now < last + 2 * rtt;
            &&& soon ==> next.window <= 2 * flow.window && next.window <= flow.max_window && (
            next.window == 2 * flow.window || next.window == flow.max_window)
            &&& !soon ==> next.window == flow.window
            &&& next.consumed == flow.consumed
            &&& next.max_data == flow.max_data
            &&& next.max_window == flow.max_window
            &&& next.last_update == flow.last_update
        }),
{
}

} // verus!
