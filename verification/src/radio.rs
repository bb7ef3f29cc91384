//! Holding the radio: whether the AWDL link is wanted, and telling the link daemon so.
//!
//! The foreground flag flaps, so the decision is made in one place, on a timer, with a
//! hold-off. Rising edges apply at once; falling ones linger.

use vstd::prelude::*;
use crate::clock;
use crate::link;
use crate::text;
use crate::transfers;

verus! {

/// How long the link stays up after nothing wants it any more.
pub const LINGER: u64 = 30_000;

/// How often this is looked at.
pub const LOOK: u64 = 500;

/// How much longer each failed write keeps the next one away, and the longest that gets.
pub const BACK_OFF: u64 = 10_000;

pub const BACK_OFF_MAX: u64 = 60_000;

/// What there is to see at a look.
#[derive(Debug, Clone, Copy, PartialEq, Eq, Structural)]
pub struct Inputs {
    /// The policy allows AirDrop, which is the only thing the link serves.
    pub permitted: bool,
    /// A client is in the foreground.
    pub active: bool,
    /// A transfer rides the link.
    pub transfer: bool,
    /// AirDrop is active or has an offer on screen.
    pub airdrop: bool,
    /// This device is advertising itself.
    pub discoverable: bool,
    /// A Wi-Fi Direct group needs the link down.
    pub yielded: bool,
    /// What the property says now.
    pub live: Option<bool>,
}

impl Inputs {
    pub open spec fn busy(self) -> bool {
        self.active || self.transfer || self.airdrop || self.discoverable
    }
}

pub open spec fn live_in(prop: Option<String>) -> Option<bool> {
    match prop {
        Some(v) => Some(text::trim_text(v@) != "0"@),
        None => None::<bool>,
    }
}

/// What the property says of the link being wanted.
pub fn live_value(prop: &Option<String>) -> (r: Option<bool>)
    ensures
        r == live_in(*prop),
{
    match prop {
        Some(v) => Some(!text::same(text::trim(v.as_str()).as_str(), "0")),
        None => None,
    }
}

#[derive(Debug, Clone, Copy, PartialEq, Eq, Structural)]
pub struct Radio {
    /// What was written last.
    pub applied: Option<bool>,
    pub idle_since: Option<u64>,
    /// The linger is for coming down from busy. At boot nothing has asked yet.
    pub ever_busy: bool,
    pub next_try: Option<u64>,
    pub failures: u32,
}

impl Radio {
    /// Since when nothing wants the link, given that nothing does now.
    pub open spec fn idle_from(self, now: u64) -> u64 {
        match self.idle_since {
            Some(t) => t,
            None => now,
        }
    }

    /// Whether activity wants the link: now, or not long ago.
    pub open spec fn lingers(self, i: Inputs, now: u64) -> bool {
        i.busy() || self.ever_busy && clock::since(now, self.idle_from(now)) < LINGER
    }

    /// Whether the link is wanted.
    pub open spec fn want(self, i: Inputs, now: u64) -> bool {
        i.permitted && self.lingers(i, now) && !i.yielded
    }

    /// What is to be written, if anything: when the property or our own last write says
    /// something else, and not while a failed write keeps us away.
    pub open spec fn writes(self, i: Inputs, now: u64) -> Option<bool> {
        let want = self.want(i, now);
        if (i.live != Some(want) || self.applied != Some(want)) && (self.next_try is None || now
            >= self.next_try->0) {
            Some(want)
        } else {
            None
        }
    }

    pub open spec fn looked(self, i: Inputs, now: u64) -> Radio {
        Radio {
            ever_busy: self.ever_busy || i.busy(),
            idle_since: if i.busy() {
                None
            } else if self.ever_busy {
                Some(self.idle_from(now))
            } else {
                self.idle_since
            },
            ..self
        }
    }

    pub fn new() -> (r: Self)
        ensures
            r == (Radio {
                applied: None,
                idle_since: None,
                ever_busy: false,
                next_try: None,
                failures: 0,
            }),
    {
        Radio { applied: None, idle_since: None, ever_busy: false, next_try: None, failures: 0 }
    }

    /// One look. What is to be written to the property, if anything.
    pub fn look(&mut self, i: Inputs, now: u64) -> (r: Option<bool>)
        ensures
            r == old(self).writes(i, now),
            *final(self) == old(self).looked(i, now),
    {
        let busy: bool = i.active || i.transfer || i.airdrop || i.discoverable;
        let by_activity: bool = if busy {
            self.ever_busy = true;
            self.idle_since = None;
            true
        } else if !self.ever_busy {
            false
        } else {
            let since: u64 = match self.idle_since {
                Some(t) => t,
                None => now,
            };
            self.idle_since = Some(since);
            clock::elapsed(now, since) < LINGER
        };
        let want: bool = i.permitted && by_activity && !i.yielded;
        let agrees: bool = match i.live {
            Some(l) => l == want,
            None => false,
        };
        let applied: bool = match self.applied {
            Some(a) => a == want,
            None => false,
        };
        let due: bool = match self.next_try {
            Some(t) => now >= t,
            None => true,
        };
        if (!agrees || !applied) && due {
            Some(want)
        } else {
            None
        }
    }

    /// After a write went through.
    pub open spec fn written(self, want: bool) -> Radio {
        Radio { applied: Some(want), next_try: None, failures: 0, ..self }
    }

    /// The write went through.
    pub fn wrote(&mut self, want: bool)
        ensures
            *final(self) == old(self).written(want),
    {
        self.applied = Some(want);
        self.next_try = None;
        self.failures = 0;
    }

    /// How long a number of failures in a row keeps the next write away.
    pub open spec fn back_off(failures: u32) -> int {
        if failures >= 6 {
            BACK_OFF_MAX as int
        } else {
            BACK_OFF * failures
        }
    }

    /// After a write failed.
    pub open spec fn refused(self, now: u64) -> Radio {
        let failures = if self.failures == u32::MAX {
            u32::MAX
        } else {
            (self.failures + 1) as u32
        };
        Radio { failures, next_try: Some((now + Self::back_off(failures)) as u64), ..self }
    }

    /// It did not. Keep trying, but slowly: the usual cause is a missing rule, which no
    /// number of attempts will mend.
    pub fn failed(&mut self, now: u64)
        requires
            now <= u64::MAX - BACK_OFF_MAX,
        ensures
            *final(self) == old(self).refused(now),
    {
        if self.failures < u32::MAX {
            self.failures = self.failures + 1;
        }
        let wait: u64 = if self.failures >= 6 {
            BACK_OFF_MAX
        } else {
            BACK_OFF * self.failures as u64
        };
        self.next_try = Some(now + wait);
    }
}

/// The link is never wanted against the policy, nor while a Wi-Fi Direct group needs it down,
/// and both take effect at the next look, whatever lingers.
pub proof fn law_prohibition_does_not_linger(g: Radio, i: Inputs, now: u64)
    ensures
        !i.permitted ==> !g.want(i, now),
        i.yielded ==> !g.want(i, now),
        (!i.permitted || i.yielded) && i.live == Some(true) && g.next_try is None ==> g.writes(
            i,
            now,
        ) == Some(false),
{
}

/// What is permitted and in use is wanted at once; after that it is wanted for as long as the
/// linger lasts and no longer; and before anything was ever in use it is not wanted.
pub proof fn law_want_follows_use(g: Radio, i: Inputs, now: u64)
    ensures
        i.permitted && i.busy() && !i.yielded ==> g.want(i, now),
        !i.busy() && !g.ever_busy ==> !g.want(i, now),
        !i.busy() && clock::since(now, g.idle_from(now)) >= LINGER ==> !g.want(i, now),
        i.permitted && !i.yielded && !i.busy() && g.looked(i, now).ever_busy && clock::since(
            now,
            g.idle_from(now),
        ) < LINGER ==> g.want(i, now),
{
}

/// A look at the same things twice in a row lingers from the first of the two on: idling is
/// not counted anew at each look.
pub proof fn law_idling_is_counted_once(g: Radio, i: Inputs, now: u64, later: u64)
    requires
        !i.busy(),
        g.ever_busy,
    ensures
        g.looked(i, now).idle_from(later) == g.idle_from(now),
        g.looked(i, now).looked(i, later).idle_since == g.looked(i, now).idle_since,
{
}

/// Once a write went through, nothing more is written until something changes.
pub proof fn law_once_settled_it_is_quiet(g: Radio, i: Inputs, now: u64)
    requires
        g.applied == Some(g.want(i, now)),
        i.live == Some(g.want(i, now)),
    ensures
        g.writes(i, now) is None,
{
}

/// Each use wants the link for itself: a client in the foreground, a transfer that rides it, an
/// offer of AirDrop, or being visible. It was in use once any of them has been.
pub proof fn law_each_use_wants_the_link(g: Radio, i: Inputs, now: u64)
    requires
        i.permitted,
        !i.yielded,
    ensures
        i.active ==> g.want(i, now),
        i.transfer ==> g.want(i, now),
        i.airdrop ==> g.want(i, now),
        i.discoverable ==> g.want(i, now),
        !i.active && !i.transfer && !i.airdrop && !i.discoverable ==> (g.want(i, now)
            <==> g.ever_busy && (g.idle_since matches Some(t) ==> clock::since(now, t) < LINGER)),
{
}

/// A look remembers what it saw and forgets nothing: that the link was in use, and since when it
/// is not. It does not touch what was written.
pub proof fn law_look_remembers(g: Radio, i: Inputs, now: u64)
    ensures
        ({
            let used = i.active || i.transfer || i.airdrop || i.discoverable;
            let after = g.looked(i, now);
            &&& after.ever_busy <==> g.ever_busy || used
            &&& used ==> after.idle_since is None
            &&& !used && g.ever_busy && g.idle_since is None ==> after.idle_since == Some(now)
            &&& !used && g.idle_since is Some ==> after.idle_since == g.idle_since
            &&& after.applied == g.applied && after.next_try == g.next_try && after.failures
                == g.failures
        }),
{
}

/// What is written is what is wanted, and it is written whenever the property or our own last
/// word is something else, unless a failed write keeps us away; then it is written once that is
/// over.
pub proof fn law_wanted_is_written(g: Radio, i: Inputs, now: u64)
    ensures
        g.writes(i, now) matches Some(w) ==> w == g.want(i, now),
        g.writes(i, now) is Some <==> (i.live != Some(g.want(i, now)) || g.applied != Some(
            g.want(i, now),
        )) && (g.next_try matches Some(t) ==> t <= now),
{
}

/// A write that went through is done with: nothing keeps the next away, and the same is not
/// written again. A write that failed is tried again, after ten seconds for each failure in a row
/// up to a minute, and not before.
pub proof fn law_failed_write_is_tried_again(g: Radio, i: Inputs, now: u64, then: u64)
    requires
        now <= u64::MAX - BACK_OFF_MAX,
    ensures
        ({
            let ok = g.written(g.want(i, now));
            &&& ok.failures == 0 && ok.next_try is None
            &&& i.live == Some(g.want(i, now)) ==> ok.writes(i, now) is None
        }),
        ({
            let bad = g.refused(now);
            &&& bad.applied == g.applied
            &&& bad.failures > 0
            &&& g.failures == 0 ==> bad.next_try == Some((now + 10_000) as u64)
            &&& g.failures < 6 ==> bad.next_try == Some((now + 10_000 * (g.failures + 1)) as u64)
            &&& g.failures >= 5 ==> bad.next_try == Some((now + 60_000) as u64)
            &&& then < now + 10_000 ==> bad.writes(i, then) is None
            &&& then >= now + 60_000 && g.applied is None ==> bad.writes(i, then) is Some
        }),
{
}

/// Both daemons read the property alike: what is live here is what the other holds the radio for,
/// and what was let go is what is not wanted. Where nothing is said the other goes by yes.
pub proof fn law_property_is_read_alike(prop: Option<String>)
    ensures
        live_in(prop) matches Some(l) ==> l == link::wanted(prop),
        live_in(prop) is None <==> prop is None,
        prop is None ==> link::wanted(prop),
        prop is Some ==> (transfers::released(prop) <==> !link::wanted(prop)),
        transfers::released(None),
{
}

} // verus!
