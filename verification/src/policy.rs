//! What this device is permitted to do, and the state a client steers: visibility, the
//! foreground, and the Wi-Fi band.
//!
//! A daemon that has never heard from the app shares nothing.

use vstd::prelude::*;
use crate::naming;
use crate::text;

verus! {

pub const MODE_OFF: i32 = 0;

pub const MODE_RECEIVE: i32 = 1;

pub const MODE_SEND: i32 = 2;

pub const MODE_BOTH: i32 = 3;

pub open spec fn may_receive(mode: i32) -> bool {
    mode == MODE_RECEIVE || mode == MODE_BOTH
}

pub open spec fn may_send(mode: i32) -> bool {
    mode == MODE_SEND || mode == MODE_BOTH
}

pub fn allows_receive(mode: i32) -> (r: bool)
    ensures
        r == may_receive(mode),
{
    mode == MODE_RECEIVE || mode == MODE_BOTH
}

pub fn allows_send(mode: i32) -> (r: bool)
    ensures
        r == may_send(mode),
{
    mode == MODE_SEND || mode == MODE_BOTH
}

/// Why a request is turned away.
#[derive(Debug, Clone, Copy, PartialEq, Eq, Structural)]
pub enum Refusal {
    PermissionDenied,
    IllegalArgument,
    BadValue,
    /// Busy with another transfer.
    WouldBlock,
}

/// What this device may do, and which of it an administrator decided.
#[derive(Debug)]
pub struct Policy {
    pub airdrop: i32,
    pub quickshare: i32,
    pub require_confirmation: bool,
    pub device_name: String,
    pub airdrop_managed: bool,
    pub quickshare_managed: bool,
    pub require_confirmation_managed: bool,
    pub device_name_managed: bool,
    pub require_pin: bool,
    pub require_pin_managed: bool,
}

impl Policy {
    pub fn duplicate(&self) -> (r: Policy)
        ensures
            r == *self,
    {
        Policy {
            airdrop: self.airdrop,
            quickshare: self.quickshare,
            require_confirmation: self.require_confirmation,
            device_name: self.device_name.clone(),
            airdrop_managed: self.airdrop_managed,
            quickshare_managed: self.quickshare_managed,
            require_confirmation_managed: self.require_confirmation_managed,
            device_name_managed: self.device_name_managed,
            require_pin: self.require_pin,
            require_pin_managed: self.require_pin_managed,
        }
    }
}

/// Deny everything, with the strict end of every switch.
pub fn denied_policy() -> (r: Policy)
    ensures
        r.airdrop == MODE_OFF,
        r.quickshare == MODE_OFF,
        r.require_confirmation,
        r.device_name@.len() == 0,
        !r.airdrop_managed,
        !r.quickshare_managed,
        !r.require_confirmation_managed,
        !r.device_name_managed,
        r.require_pin,
        !r.require_pin_managed,
{
    Policy {
        airdrop: MODE_OFF,
        quickshare: MODE_OFF,
        require_confirmation: true,
        device_name: String::new(),
        airdrop_managed: false,
        quickshare_managed: false,
        require_confirmation_managed: false,
        device_name_managed: false,
        require_pin: true,
        require_pin_managed: false,
    }
}

/// Whether a device advertises itself before any client asked: only where a property says so.
pub open spec fn visible_at_start(prop: Option<String>) -> bool {
    prop matches Some(v) && (v@ == "1"@ || text::ascii_lower_text(v@) == text::ascii_lower_text(
        "true"@,
    ))
}

pub fn initial_visibility(prop: &Option<String>) -> (r: bool)
    ensures
        r == visible_at_start(*prop),
{
    match prop {
        Some(v) => text::same(v.as_str(), "1") || text::same_ignoring_case(v.as_str(), "true"),
        None => false,
    }
}

/// A timer that ends visibility, unless something newer was asked for since.
#[derive(Debug, Clone, Copy, PartialEq, Eq, Structural)]
pub struct Expiry {
    pub generation: u64,
    pub seconds: u64,
}

/// The state a client steers. It outlives the client: closing the app must not make the
/// device vanish.
pub struct Service {
    pub policy: Policy,
    pub discoverable: bool,
    /// Counts the requests for visibility, so that an older timer knows it was superseded.
    pub generation: u64,
    /// Whether a client is in the foreground. Governs the radio, not visibility.
    pub active: bool,
    /// The Wi-Fi frequency that was last published. -1 is Wi-Fi switched off.
    pub sta_freq: i32,
    /// Whether offers are accepted without asking.
    pub auto_accept: bool,
    pub require_pin: bool,
}

/// What a client's report of the Wi-Fi frequency says: a frequency, -1 for an adapter that is
/// switched off, or 0 for no news.
pub open spec fn reported(mhz: i32) -> i32 {
    if 2000 <= mhz <= 7200 {
        mhz
    } else if mhz < 0 {
        (-1) as i32
    } else {
        0
    }
}

/// The frequency to go by. No news keeps the one that is known: losing the association is not
/// learning a new band, and bringing the link up is what loses it.
pub open spec fn remembered(known: i32, mhz: i32) -> i32 {
    if reported(mhz) == 0 && known > 0 {
        known
    } else {
        reported(mhz)
    }
}

impl Service {
    /// Visible only as far as the policy permits.
    pub open spec fn permitted(self) -> bool {
        self.discoverable ==> may_receive(self.policy.airdrop)
    }

    pub fn new(discoverable: bool) -> (r: Self)
        ensures
            r.discoverable == discoverable,
            r.policy.airdrop == MODE_OFF,
            r.policy.quickshare == MODE_OFF,
            r.policy.require_confirmation,
            r.policy.device_name@.len() == 0,
            !r.policy.airdrop_managed,
            !r.policy.quickshare_managed,
            !r.policy.require_confirmation_managed,
            !r.policy.device_name_managed,
            r.policy.require_pin,
            !r.policy.require_pin_managed,
            r.generation == 0,
            !r.active,
            r.sta_freq == i32::MIN,
            !r.auto_accept,
            r.require_pin,
            !discoverable ==> r.permitted(),
    {
        Service {
            policy: denied_policy(),
            discoverable,
            generation: 0,
            active: false,
            sta_freq: i32::MIN,
            auto_accept: false,
            require_pin: true,
        }
    }

    /// After a request for visibility that was granted.
    pub open spec fn shown(self, on: bool) -> Service {
        Service { discoverable: on, generation: (self.generation + 1) as u64, ..self }
    }

    /// What comes of a request for visibility, and the state afterwards.
    pub open spec fn asked_to_show(self, on: bool, seconds: i32) -> (
        Result<Option<Expiry>, Refusal>,
        Service,
    ) {
        if on && !may_receive(self.policy.airdrop) {
            (Err(Refusal::PermissionDenied), self)
        } else {
            (
                Ok(
                    if on && seconds > 0 {
                        Some(
                            Expiry {
                                generation: (self.generation + 1) as u64,
                                seconds: seconds as u64,
                            },
                        )
                    } else {
                        None
                    },
                ),
                self.shown(on),
            )
        }
    }

    /// Become visible, for some seconds or until told otherwise, or stop. Becoming visible is
    /// refused unless receiving is permitted, which covers the whole receiving direction;
    /// stopping never is.
    pub fn set_discoverable(&mut self, on: bool, seconds: i32) -> (r: Result<
        Option<Expiry>,
        Refusal,
    >)
        requires
            old(self).generation < u64::MAX,
        ensures
            (r, *final(self)) == old(self).asked_to_show(on, seconds),
            old(self).permitted() ==> final(self).permitted(),
    {
        if on && !allows_receive(self.policy.airdrop) {
            return Err(Refusal::PermissionDenied);
        }
        self.generation = self.generation + 1;
        self.discoverable = on;
        if on && seconds > 0 {
            Ok(Some(Expiry { generation: self.generation, seconds: seconds as u64 }))
        } else {
            Ok(None)
        }
    }

    /// After a timer of visibility went off.
    pub open spec fn expired(self, generation: u64) -> Service {
        Service { discoverable: self.discoverable && self.generation != generation, ..self }
    }

    /// A timer of visibility went off. Whether it still had anything to say.
    pub fn visibility_expired(&mut self, generation: u64) -> (r: bool)
        ensures
            r == (old(self).generation == generation),
            *final(self) == old(self).expired(generation),
            old(self).permitted() ==> final(self).permitted(),
    {
        if self.generation == generation {
            self.discoverable = false;
            true
        } else {
            false
        }
    }

    /// After a client said where Wi-Fi is.
    pub open spec fn informed(self, mhz: i32) -> Service {
        Service { sta_freq: remembered(self.sta_freq, mhz), ..self }
    }

    /// What is to be published of a report.
    pub open spec fn news(self, mhz: i32) -> Option<i32> {
        if remembered(self.sta_freq, mhz) != self.sta_freq {
            Some(remembered(self.sta_freq, mhz))
        } else {
            None
        }
    }

    /// A client that comes to the foreground or leaves it says where Wi-Fi is. What to publish
    /// of that, if it changed. This comes before `set_active`: the radio must not be asked for
    /// while the band is still unknown.
    pub fn learn_band(&mut self, mhz: i32) -> (r: Option<i32>)
        ensures
            *final(self) == old(self).informed(mhz),
            r == old(self).news(mhz),
    {
        let news: i32 = if 2000 <= mhz && mhz <= 7200 {
            mhz
        } else if mhz < 0 {
            -1
        } else {
            0
        };
        let known: i32 = self.sta_freq;
        let f: i32 = if news == 0 && known > 0 {
            known
        } else {
            news
        };
        self.sta_freq = f;
        if f != known {
            Some(f)
        } else {
            None
        }
    }

    /// After a client came to the foreground or left it.
    pub open spec fn in_use(self, active: bool) -> Service {
        Service { active, ..self }
    }

    /// A client came to the foreground or left it, and the band it told is published.
    pub fn set_active(&mut self, active: bool)
        ensures
            *final(self) == old(self).in_use(active),
    {
        self.active = active;
    }

    /// After a policy took effect.
    pub open spec fn governed(self, p: Policy) -> Service {
        Service {
            policy: p,
            auto_accept: !p.require_confirmation,
            require_pin: p.require_pin,
            discoverable: self.discoverable && may_receive(p.airdrop),
            ..self
        }
    }

    /// A policy arrives. It takes effect at once: a device that may no longer receive goes
    /// invisible now. The name to write, if the policy gives one.
    pub fn set_policy(&mut self, p: Policy) -> (r: Option<String>)
        ensures
            *final(self) == old(self).governed(p),
            match r {
                Some(n) => p.device_name@.len() > 0 && n@ == naming::cleaned(p.device_name@),
                None => p.device_name@.len() == 0,
            },
            final(self).permitted(),
    {
        let c = text::chars_of(p.device_name.as_str());
        let name: Option<String> = if c.len() > 0 {
            Some(naming::clean_name(p.device_name.as_str()))
        } else {
            None
        };
        self.auto_accept = !p.require_confirmation;
        self.require_pin = p.require_pin;
        if !allows_receive(p.airdrop) {
            self.discoverable = false;
        }
        self.policy = p;
        name
    }

    pub fn get_policy(&self) -> (r: Policy)
        ensures
            r == self.policy,
    {
        self.policy.duplicate()
    }

    /// A person names the device. Refused where an administrator did; the name to write
    /// otherwise, which is empty to fall back to the model.
    pub fn set_device_name(&self, name: &str) -> (r: Result<String, Refusal>)
        ensures
            match r {
                Ok(n) => !self.policy.device_name_managed && n@ == naming::cleaned(name@),
                Err(e) => self.policy.device_name_managed && e == Refusal::PermissionDenied,
            },
    {
        if self.policy.device_name_managed {
            return Err(Refusal::PermissionDenied);
        }
        Ok(naming::clean_name(name))
    }

    pub fn airdrop_mode(&self) -> (r: i32)
        ensures
            r == self.policy.airdrop,
    {
        self.policy.airdrop
    }

    pub fn quickshare_mode(&self) -> (r: i32)
        ensures
            r == self.policy.quickshare,
    {
        self.policy.quickshare
    }
}

/// The device is never visible against the policy: once that holds, no request, no timer and
/// no policy undoes it. (One that was made visible by a property at start is so until the
/// first policy arrives.)
pub proof fn law_visible_only_as_permitted(s: Service, on: bool, generation: u64, p: Policy)
    ensures
        s.governed(p).permitted(),
        s.permitted() ==> s.expired(generation).permitted(),
        s.permitted() && (on ==> may_receive(s.policy.airdrop)) ==> s.shown(on).permitted(),
{
}

/// A timer of an older request does not end the visibility of a newer one; that of the newest
/// does.
pub proof fn law_newest_request_counts(s: Service, on: bool)
    requires
        s.generation < u64::MAX - 1,
    ensures
        s.shown(true).shown(on).expired(s.shown(true).generation) == s.shown(true).shown(on),
        !s.shown(true).expired(s.shown(true).generation).discoverable,
{
}

/// The band comes first: to learn it does not ask for the radio, and by the time a client is
/// counted as active, what it said of the band is known.
pub proof fn law_band_before_use(s: Service, active: bool, mhz: i32)
    ensures
        s.informed(mhz).active == s.active,
        s.informed(mhz).in_use(active).sta_freq == remembered(s.sta_freq, mhz),
        s.informed(mhz).in_use(active).active == active,
        s.informed(mhz).sta_freq == s.informed(mhz).in_use(active).sta_freq,
{
}

/// The band is remembered through the loss of the association, replaced by a new one, and
/// forgotten only when the adapter is switched off.
pub proof fn law_band_is_remembered(known: i32, mhz: i32)
    ensures
        known > 0 && mhz >= 0 && reported(mhz) == 0 ==> remembered(known, mhz) == known,
        2000 <= mhz <= 7200 ==> remembered(known, mhz) == mhz,
        mhz < 0 ==> remembered(known, mhz) == -1,
{
}

/// The modes are what they are called: one that sends and one that receives, one that does both
/// and one that does neither; and a number that is no mode permits nothing.
pub proof fn law_modes_are_what_they_are_called(mode: i32)
    ensures
        may_receive(mode) && may_send(mode) <==> mode == MODE_BOTH,
        may_receive(mode) && !may_send(mode) <==> mode == MODE_RECEIVE,
        may_send(mode) && !may_receive(mode) <==> mode == MODE_SEND,
        !may_receive(MODE_OFF) && !may_send(MODE_OFF),
{
}

/// A policy takes effect at once and in full: no offer is accepted unasked where confirmation is
/// required, a PIN is required exactly where it says so, and what may not receive is not
/// visible. It makes nobody visible, and what it does not speak of stays.
pub proof fn law_policy_takes_effect(s: Service, p: Policy)
    ensures
        s.governed(p).policy == p,
        s.governed(p).auto_accept <==> !p.require_confirmation,
        s.governed(p).require_pin <==> p.require_pin,
        s.governed(p).discoverable <==> s.discoverable && (p.airdrop == MODE_RECEIVE || p.airdrop
            == MODE_BOTH),
        s.governed(p).generation == s.generation,
        s.governed(p).active == s.active,
        s.governed(p).sta_freq == s.sta_freq,
{
}

/// A request for visibility is followed unless it may not be: to become visible is refused
/// exactly where receiving is not permitted, and then changes nothing; to stop never is. A timer
/// comes with it exactly where a time was given, and ends this visibility and no later one.
pub proof fn law_visibility_is_as_asked(s: Service, on: bool, seconds: i32, again: bool)
    requires
        s.generation < u64::MAX - 1,
    ensures
        ({
            let (r, after) = s.asked_to_show(on, seconds);
            &&& r is Err <==> on && !may_receive(s.policy.airdrop)
            &&& r is Err ==> after == s && r->Err_0 == Refusal::PermissionDenied
            &&& r is Ok ==> after.discoverable == on && after.policy == s.policy
            &&& r is Ok ==> (r->Ok_0 is Some <==> on && seconds > 0)
            &&& r is Ok && r->Ok_0 is Some ==> {
                &&& r->Ok_0->0.seconds == seconds
                &&& !after.expired(r->Ok_0->0.generation).discoverable
                &&& after.shown(again).expired(r->Ok_0->0.generation).discoverable == again
                &&& s.expired(r->Ok_0->0.generation) == s
            }
        }),
{
}

/// What a report of the band says: a frequency that Wi-Fi has is one, anything below zero is an
/// adapter that is off, and anything else is no news.
pub proof fn law_band_is_reported(mhz: i32)
    ensures
        reported(mhz) > 0 <==> 2000 <= mhz <= 7200,
        reported(mhz) > 0 ==> reported(mhz) == mhz,
        reported(mhz) == -1 <==> mhz < 0,
        reported(mhz) >= -1,
{
}

/// A device is visible at the start only where the property says so, in one of the ways there are
/// to say it.
pub proof fn law_invisible_unless_told(v: String)
    ensures
        !visible_at_start(None),
        v@ == seq!['1'] ==> visible_at_start(Some(v)),
        v@ == seq!['t', 'r', 'u', 'e'] || v@ == seq!['T', 'R', 'U', 'E'] || v@ == seq![
            'T',
            'r',
            'u',
            'e',
        ] ==> visible_at_start(Some(v)),
        visible_at_start(Some(v)) ==> v@.len() == 1 || v@.len() == 4,
        v@ == seq!['0'] ==> !visible_at_start(Some(v)),
{
    reveal_strlit("1");
    reveal_strlit("true");
    assert("1"@ =~= seq!['1']);
    assert("true"@ =~= seq!['t', 'r', 'u', 'e']);
    let low = text::ascii_lower_text("true"@);
    assert(low =~= seq!['t', 'r', 'u', 'e']);
    if v@.len() == 4 {
        let w = text::ascii_lower_text(v@);
        assert(text::ascii_lower('T') == 't' && text::ascii_lower('R') == 'r'
            && text::ascii_lower('U') == 'u' && text::ascii_lower('E') == 'e');
        assert(w =~= seq![
            text::ascii_lower(v@[0]),
            text::ascii_lower(v@[1]),
            text::ascii_lower(v@[2]),
            text::ascii_lower(v@[3]),
        ]);
    }
    if visible_at_start(Some(v)) && v@ != "1"@ {
        assert(text::ascii_lower_text(v@).len() == low.len());
    }
    if v@ == seq!['0'] {
        assert(v@[0] == '0' && "1"@[0] == '1');
    }
}

/// What is published is what is known from then on, and it is published exactly when it changes:
/// the same report twice is published once.
pub proof fn law_news_is_published_once(s: Service, mhz: i32)
    ensures
        s.news(mhz) matches Some(f) ==> s.informed(mhz).sta_freq == f && f != s.sta_freq,
        s.news(mhz) is None ==> s.informed(mhz) == s,
        s.informed(mhz).news(mhz) is None,
{
}

} // verus!
