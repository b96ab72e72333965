//! How often the tunnels are looked at. What can be read off this machine is
//! looked at every second; measuring a path costs a round trip, so that is done on
//! the dashboard alone, less often.

use vstd::prelude::*;
use crate::state::Screen;

verus! {

/// Milliseconds between two looks at the processes and the local sockets.
pub const LOOK_EVERY: u64 = 1000;

/// Milliseconds between two measurements of the paths.
pub const MEASURE_EVERY: u64 = 10000;

/// What is due.
#[derive(Debug, Clone, Copy, PartialEq, Eq, Structural)]
pub struct Poll {
    /// Look for the processes.
    pub scan: bool,
    /// Look at the local ports of the rules that have one.
    pub observe: bool,
    /// Measure their paths.
    pub check: bool,
}

/// It is time again, or for the first time.
pub open spec fn due(last: Option<u64>, every: u64, now: u64) -> bool {
    match last {
        None => true,
        Some(at) => now - at >= every,
    }
}

/// What is due on a screen, given when it was last done.
pub open spec fn polled(
    screen: Screen,
    scanned: Option<u64>,
    measured: Option<u64>,
    now: u64,
) -> Poll {
    Poll {
        scan: due(scanned, LOOK_EVERY, now),
        observe: due(scanned, LOOK_EVERY, now),
        check: screen == Screen::Dashboard && due(measured, MEASURE_EVERY, now),
    }
}

fn is_due(last: Option<u64>, every: u64, now: u64) -> (r: bool)
    ensures
        r == due(last, every, now),
{
    match last {
        None => true,
        Some(at) => now >= at && now - at >= every,
    }
}

/// What is due on a screen, given when the processes and sockets were last looked
/// at and the paths last measured.
pub fn poll(screen: Screen, scanned: Option<u64>, measured: Option<u64>, now: u64) -> (r: Poll)
    ensures
        r == polled(screen, scanned, measured, now),
        screen == Screen::Menu ==> !r.check,
{
    let look: bool = is_due(scanned, LOOK_EVERY, now);
    Poll {
        scan: look,
        observe: look,
        check: screen == Screen::Dashboard && is_due(measured, MEASURE_EVERY, now),
    }
}

/// When the tunnels were last looked at, and on which screen.
#[derive(Debug, Clone, Copy, PartialEq, Eq, Structural)]
pub struct Rhythm {
    pub screen: Screen,
    pub scanned: Option<u64>,
    pub measured: Option<u64>,
}

impl Rhythm {
    /// When the paths were last measured, as far as that counts on `screen`: one
    /// that was just entered is measured anew.
    pub open spec fn counting(self, screen: Screen) -> Option<u64> {
        if screen == self.screen {
            self.measured
        } else {
            None
        }
    }

    /// What is due on `screen`.
    pub open spec fn due_on(self, screen: Screen, now: u64) -> Poll {
        polled(screen, self.scanned, self.counting(screen), now)
    }

    /// With what is due on `screen` done.
    pub open spec fn ticked(self, screen: Screen, now: u64) -> Rhythm {
        let p = self.due_on(screen, now);
        Rhythm {
            screen,
            scanned: if p.scan {
                Some(now)
            } else {
                self.scanned
            },
            measured: if p.check {
                Some(now)
            } else {
                self.counting(screen)
            },
        }
    }

    /// Nothing was looked at yet.
    pub fn new() -> (r: Rhythm)
        ensures
            r == (Rhythm { screen: Screen::Menu, scanned: None, measured: None }),
    {
        Rhythm { screen: Screen::Menu, scanned: None, measured: None }
    }

    /// What is due now, which the caller goes on to do.
    pub fn tick(&mut self, screen: Screen, now: u64) -> (r: Poll)
        ensures
            r == old(self).due_on(screen, now),
            *final(self) == old(self).ticked(screen, now),
    {
        if screen != self.screen {
            self.screen = screen;
            self.measured = None;
        }
        let p: Poll = poll(screen, self.scanned, self.measured, now);
        if p.scan {
            self.scanned = Some(now);
        }
        if p.check {
            self.measured = Some(now);
        }
        p
    }

    /// Have everything looked at anew.
    pub fn again(&mut self)
        ensures
            *final(self) == (Rhythm { scanned: None, measured: None, ..*old(self) }),
    {
        self.scanned = None;
        self.measured = None;
    }
}

impl Default for Rhythm {
    fn default() -> (r: Rhythm)
        ensures
            r == (Rhythm { screen: Screen::Menu, scanned: None, measured: None }),
    {
        Rhythm::new()
    }
}

/// No path is measured but on the dashboard.
pub proof fn law_only_the_dashboard_measures(r: Rhythm, screen: Screen, now: u64)
    ensures
        r.due_on(screen, now).check ==> screen == Screen::Dashboard,
{
}

/// The paths are measured when the dashboard is entered, and when everything is to
/// be looked at anew.
pub proof fn law_entering_measures(r: Rhythm, now: u64)
    requires
        r.screen != Screen::Dashboard || r.measured is None,
    ensures
        r.due_on(Screen::Dashboard, now).check,
{
}

/// On a screen that stays, the paths are measured again once the time is up and
/// not before, and so are processes and sockets looked at.
pub proof fn law_time_between(r: Rhythm, screen: Screen, then: u64, now: u64)
    requires
        r.due_on(screen, then).scan,
    ensures
        ({
            let after = r.ticked(screen, then);
            &&& after.due_on(screen, now).scan <==> now - then >= LOOK_EVERY
            &&& after.due_on(screen, now).observe <==> now - then >= LOOK_EVERY
            &&& r.due_on(screen, then).check ==> (after.due_on(screen, now).check <==> now - then
                >= MEASURE_EVERY)
        }),
{
}

} // verus!
