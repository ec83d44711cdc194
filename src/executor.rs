use vstd::prelude::*;
use crate::algos::AlgoStatus;
use crate::search::{Search, stepped};

verus! {

/// The keys the executor reacts to.
#[derive(Debug, Clone, Copy, PartialEq, Eq, Structural)]
pub enum Key {
    /// Switches automatic stepping on or off.
    Pause,
    /// Switches to manual stepping and asks for one step.
    Step,
    /// Shortens the interval between automatic steps.
    Faster,
    /// Lengthens the interval between automatic steps.
    Slower,
    /// Any other key.
    Other,
}

/// The interval between automatic steps when an executor starts, in milliseconds.
pub const START_INTERVAL_MS: u64 = 200;

/// How much `Faster` and `Slower` change the interval, in milliseconds.
pub const INTERVAL_STEP_MS: u64 = 50;

/// Drives a search: steps it automatically at an interval, or one step per request,
/// and counts the steps after which the search was still running.
pub struct Executor {
    search: Search,
    algo_name: String,
    auto_advance: bool,
    advance: bool,
    update_speed_ms: u64,
    last_update_ms: u64,
    ticks: usize,
}

impl Executor {
    pub closed spec fn search_spec(&self) -> Search {
        self.search
    }

    pub closed spec fn auto_spec(&self) -> bool {
        self.auto_advance
    }

    pub closed spec fn step_requested(&self) -> bool {
        self.advance
    }

    pub closed spec fn interval_spec(&self) -> u64 {
        self.update_speed_ms
    }

    pub closed spec fn last_update_spec(&self) -> u64 {
        self.last_update_ms
    }

    pub closed spec fn ticks_spec(&self) -> usize {
        self.ticks
    }

    pub closed spec fn name_spec(&self) -> Seq<char> {
        self.algo_name@
    }

    /// An executor in automatic mode that has taken no step.
    pub fn new(search: Search, algo_name: String) -> (r: Executor)
        ensures
            r.search_spec() == search,
            r.name_spec() == algo_name@,
            r.auto_spec(),
            !r.step_requested(),
            r.interval_spec() == START_INTERVAL_MS,
            r.last_update_spec() == 0,
            r.ticks_spec() == 0,
    {
        Executor {
            search,
            algo_name,
            auto_advance: true,
            advance: false,
            update_speed_ms: START_INTERVAL_MS,
            last_update_ms: 0,
            ticks: 0,
        }
    }

    /// Whether `update` at time `now_ms` steps the search: in automatic mode or on
    /// request, once more than the interval has passed since the last step.
    pub open spec fn due(&self, now_ms: u64) -> bool {
        (self.auto_spec() || self.step_requested()) && self.last_update_spec() + self.interval_spec() < now_ms
    }

    /// Steps the search if it is due at time `now_ms`, and counts the step if the
    /// search is still running after it. A pending request is used up either way.
    pub fn update(&mut self, now_ms: u64)
        requires
            old(self).search_spec().inv(),
        ensures
            final(self).search_spec().inv(),
            !final(self).step_requested(),
            final(self).auto_spec() == old(self).auto_spec(),
            final(self).interval_spec() == old(self).interval_spec(),
            final(self).name_spec() == old(self).name_spec(),
            !old(self).due(now_ms) ==> final(self).search_spec() == old(self).search_spec()
                && final(self).ticks_spec() == old(self).ticks_spec()
                && final(self).last_update_spec() == old(self).last_update_spec(),
            old(self).due(now_ms) ==> {
                &&& final(self).last_update_spec() == now_ms
                &&& stepped(old(self).search_spec(), final(self).search_spec())
                &&& final(self).ticks_spec() == if final(self).search_spec().status_spec() is InProgress
                    && old(self).ticks_spec() < usize::MAX {
                    old(self).ticks_spec() + 1
                } else {
                    old(self).ticks_spec() as int
                }
            },
    {
        if !self.auto_advance && !self.advance {
            return;
        }
        self.advance = false;
        if (self.last_update_ms as u128) + (self.update_speed_ms as u128) < now_ms as u128 {
            self.last_update_ms = now_ms;
            self.search.advance();
            let running = match self.search.status() {
                AlgoStatus::InProgress(_) => true,
                _ => false,
            };
            if running && self.ticks < usize::MAX {
                self.ticks = self.ticks + 1;
            }
        }
    }

    /// Reacts to a key.
    pub fn on_button_press(&mut self, key: Key)
        ensures
            final(self).search_spec() == old(self).search_spec(),
            final(self).ticks_spec() == old(self).ticks_spec(),
            final(self).last_update_spec() == old(self).last_update_spec(),
            final(self).name_spec() == old(self).name_spec(),
            final(self).auto_spec() == match key {
                Key::Pause => !old(self).auto_spec(),
                Key::Step => false,
                _ => old(self).auto_spec(),
            },
            final(self).step_requested() == (key == Key::Step || old(self).step_requested()),
            final(self).interval_spec() == match key {
                Key::Faster => if old(self).interval_spec() >= INTERVAL_STEP_MS {
                    (old(self).interval_spec() - INTERVAL_STEP_MS) as u64
                } else {
                    0
                },
                Key::Slower => if old(self).interval_spec() + INTERVAL_STEP_MS > u64::MAX {
                    u64::MAX
                } else {
                    (old(self).interval_spec() + INTERVAL_STEP_MS) as u64
                },
                _ => old(self).interval_spec(),
            },
    {
        match key {
            Key::Pause => {
                self.auto_advance = !self.auto_advance;
            },
            Key::Step => {
                self.auto_advance = false;
                self.advance = true;
            },
            Key::Faster => {
                self.update_speed_ms = self.update_speed_ms.saturating_sub(INTERVAL_STEP_MS);
            },
            Key::Slower => {
                self.update_speed_ms = self.update_speed_ms.saturating_add(INTERVAL_STEP_MS);
            },
            Key::Other => {},
        }
    }

    /// An executor never ends on its own.
    pub fn is_complete(&self) -> (r: bool)
        ensures
            !r,
    {
        false
    }

    pub fn search(&self) -> (r: &Search)
        ensures
            *r == self.search_spec(),
    {
        &self.search
    }

    pub fn algo_name(&self) -> (r: &String)
        ensures
            r@ == self.name_spec(),
    {
        &self.algo_name
    }

    pub fn is_auto(&self) -> (r: bool)
        ensures
            r == self.auto_spec(),
    {
        self.auto_advance
    }

    /// The interval between automatic steps, in milliseconds.
    pub fn interval_ms(&self) -> (r: u64)
        ensures
            r == self.interval_spec(),
    {
        self.update_speed_ms
    }

    /// The number of steps after which the search was still running.
    pub fn ticks(&self) -> (r: usize)
        ensures
            r == self.ticks_spec(),
    {
        self.ticks
    }
}

} // verus!
