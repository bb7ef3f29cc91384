//! The loops that keep this device looking and being seen: which step comes next, given what
//! came of the last one.
//!
//! Interfaces come and go with the radio, and a socket bound to one that is gone is deaf for
//! good, so a loop binds anew whenever the index or the address changes.

use vstd::prelude::*;
use crate::address;
use crate::mdns;
use crate::mdns::Peer;
use crate::policy;
use crate::text;

verus! {

/// How long a pass sleeps, and how long it does when there is nothing to browse.
pub const PASS: u64 = 500;

pub const GONE_WAIT: u64 = 2_000;

/// Longer than any interval: what is due at once.
pub const LONG_AGO: u64 = 99_000;

pub const ANNOUNCE_EVERY: u64 = 1_000;

pub const QUERY_EVERY: u64 = 4_000;

/// Long enough to ride out a rotation and a missed announcement, short enough that a device
/// which has gone away stops being offered.
pub const PEER_TTL: u64 = 45_000;

/// How many failed queries in a row make a socket stale.
pub const STALE_AFTER: u32 = 3;

pub open spec fn later(t: u64) -> u64 {
    if t > u64::MAX - PASS {
        u64::MAX
    } else {
        (t + PASS) as u64
    }
}

fn pass_time(t: u64) -> (r: u64)
    ensures
        r == later(t),
{
    if t > u64::MAX - PASS {
        u64::MAX
    } else {
        t + PASS
    }
}

// ------------------------------------------------------------- AirDrop discovery ---

/// Where a pass stands.
#[derive(Debug, Clone, Copy, PartialEq, Eq, Structural)]
pub enum Phase {
    Begin,
    /// A browser is being opened on an interface with this index.
    Opening(u32),
    Address,
    Reopening,
    Table,
    Flags,
    /// The first announcement is being made; whether a refresh and a query were asked for.
    Advertising(bool, bool),
    Querying,
    Rebinding,
}

/// What came of the last step.
pub enum Event {
    /// A pass begins; the interface's index, 0 without one.
    Start(u32),
    /// A browser was opened, and the interface's link-local address then.
    Opened(Option<[u8; 16]>),
    NotOpened,
    Addressed(Option<[u8; 16]>),
    Reopened(bool),
    /// The published table.
    Peers(Vec<Peer>),
    /// What was asked for: a new identity, to be visible, to forget everything, to look now.
    Asked { reset: bool, want: bool, refresh: bool, query: bool },
    Advertised(bool),
    Queried(bool),
    /// A stale socket was bound anew, on an interface with this index.
    Rebound(u32),
    NotRebound,
}

/// What is to be done.
pub enum Action {
    /// Nothing that was found is reachable any more.
    ClearPeers,
    Sleep(u64),
    Open,
    ReadAddress,
    Reopen,
    ReadTable,
    /// Ask a peer what it is called.
    Probe { instance: String, addr: [u8; 16], port: u16 },
    ReadFlags,
    /// Say goodbye, which is what removes us from a peer's list.
    Withdraw,
    NewIdentity,
    Advertise,
    Announce,
    /// Drop everything we think we know.
    Forget,
    Query,
    Rebind,
    Poll,
    Expire(u64),
    Publish,
}

/// The state of the loop.
#[verifier::ext_equal]
pub struct Browsing {
    pub phase: Phase,
    pub bound_idx: u32,
    pub bound_addr: Option<Seq<u8>>,
    /// The address a browser is being opened for.
    pub pending: Option<Seq<u8>>,
    pub failures: u32,
    pub since_query: u64,
    pub since_announce: u64,
    pub advertising: bool,
    /// The instances that were asked for their name.
    pub probed: Seq<Seq<char>>,
}

/// Whom to ask for a name: each reachable peer once.
pub open spec fn probing(peers: Seq<Peer>, probed: Seq<Seq<char>>) -> (
    Seq<Action>,
    Seq<Seq<char>>,
)
    decreases peers.len(),
{
    if peers.len() == 0 {
        (seq![], probed)
    } else {
        let (acts, seen) = probing(peers.drop_last(), probed);
        let p = peers.last();
        if p.port != 0 && !seen.contains(p.instance@) && p.addr is Some {
            (
                acts.push(Action::Probe { instance: p.instance, addr: p.addr->0, port: p.port }),
                seen.push(p.instance@),
            )
        } else {
            (acts, seen)
        }
    }
}

impl Browsing {
    /// The end of a pass.
    pub open spec fn close(self) -> (Browsing, Seq<Action>) {
        (
            Browsing {
                phase: Phase::Begin,
                since_query: later(self.since_query),
                since_announce: later(self.since_announce),
                ..self
            },
            seq![Action::Poll, Action::Expire(PEER_TTL), Action::Publish, Action::Sleep(PASS)],
        )
    }

    /// A socket on which every query fails is bound anew.
    pub open spec fn check(self) -> (Browsing, Seq<Action>) {
        if self.failures >= STALE_AFTER {
            (Browsing { phase: Phase::Rebinding, ..self }, seq![Action::Rebind])
        } else {
            self.close()
        }
    }

    /// Announce, forget and query, as far as each is due.
    pub open spec fn inquire(self, refresh: bool, query: bool) -> (Browsing, Seq<Action>) {
        let due = self.advertising && self.since_announce >= ANNOUNCE_EVERY;
        let s = Browsing {
            since_announce: if due {
                0
            } else {
                self.since_announce
            },
            probed: if refresh {
                seq![]
            } else {
                self.probed
            },
            ..self
        };
        let said = (if due {
            seq![Action::Announce]
        } else {
            seq![]
        }) + (if refresh {
            seq![Action::Forget]
        } else {
            seq![]
        });
        if query || self.since_query >= QUERY_EVERY {
            (
                Browsing { since_query: 0, phase: Phase::Querying, ..s },
                said + seq![Action::Query],
            )
        } else {
            (s.check().0, said + s.check().1)
        }
    }

    /// Advertising follows the wish.
    pub open spec fn present(self, want: bool, refresh: bool, query: bool) -> (
        Browsing,
        Seq<Action>,
    ) {
        if want && !self.advertising {
            (
                Browsing { phase: Phase::Advertising(refresh, query), ..self },
                seq![Action::Advertise],
            )
        } else if !want && self.advertising {
            let next = Browsing { advertising: false, ..self }.inquire(refresh, query);
            (next.0, seq![Action::Withdraw] + next.1)
        } else {
            self.inquire(refresh, query)
        }
    }

    /// A new identity withdraws the old one first.
    pub open spec fn asked(self, reset: bool, want: bool, refresh: bool, query: bool) -> (
        Browsing,
        Seq<Action>,
    ) {
        if reset {
            let next = Browsing { advertising: false, ..self }.present(want, refresh, query);
            let bye = if self.advertising {
                seq![Action::Withdraw, Action::NewIdentity]
            } else {
                seq![Action::NewIdentity]
            };
            (next.0, bye + next.1)
        } else {
            self.present(want, refresh, query)
        }
    }

    /// The next step, given what came of the last one.
    pub open spec fn after(self, ev: Event) -> (Browsing, Seq<Action>) {
        match (self.phase, ev) {
            (Phase::Begin, Event::Start(idx)) => if idx == 0 {
                if self.bound_idx != 0 {
                    (
                        Browsing { bound_idx: 0, advertising: false, ..self },
                        seq![Action::ClearPeers, Action::Sleep(GONE_WAIT)],
                    )
                } else {
                    (self, seq![Action::Sleep(GONE_WAIT)])
                }
            } else if idx != self.bound_idx {
                (Browsing { phase: Phase::Opening(idx), ..self }, seq![Action::Open])
            } else {
                (Browsing { phase: Phase::Address, ..self }, seq![Action::ReadAddress])
            },
            (Phase::Opening(idx), Event::Opened(addr)) => (
                Browsing {
                    phase: Phase::Address,
                    bound_idx: idx,
                    bound_addr: mdns::addr_view(addr),
                    failures: 0,
                    advertising: false,
                    since_query: LONG_AGO,
                    ..self
                },
                seq![Action::ReadAddress],
            ),
            (Phase::Opening(_), Event::NotOpened) => (
                Browsing { phase: Phase::Begin, ..self },
                seq![Action::Sleep(PASS)],
            ),
            (Phase::Address, Event::Addressed(addr)) => if addr is Some && mdns::addr_view(addr)
                != self.bound_addr {
                (
                    Browsing { phase: Phase::Reopening, pending: mdns::addr_view(addr), ..self },
                    seq![Action::Reopen],
                )
            } else {
                (Browsing { phase: Phase::Table, ..self }, seq![Action::ReadTable])
            },
            (Phase::Reopening, Event::Reopened(ok)) => if ok {
                (
                    Browsing {
                        phase: Phase::Table,
                        bound_addr: self.pending,
                        advertising: false,
                        ..self
                    },
                    seq![Action::ReadTable],
                )
            } else {
                (Browsing { phase: Phase::Table, ..self }, seq![Action::ReadTable])
            },
            (Phase::Table, Event::Peers(peers)) => {
                let (acts, probed) = probing(peers@, self.probed);
                (
                    Browsing { phase: Phase::Flags, probed, ..self },
                    acts.push(Action::ReadFlags),
                )
            },
            (Phase::Flags, Event::Asked { reset, want, refresh, query }) => self.asked(
                reset,
                want,
                refresh,
                query,
            ),
            (Phase::Advertising(refresh, query), Event::Advertised(ok)) => if ok {
                Browsing { advertising: true, since_announce: 0, ..self }.inquire(refresh, query)
            } else {
                self.inquire(refresh, query)
            },
            (Phase::Querying, Event::Queried(ok)) => if ok {
                Browsing { failures: 0, ..self }.check()
            } else {
                Browsing {
                    failures: if self.failures == u32::MAX {
                        u32::MAX
                    } else {
                        (self.failures + 1) as u32
                    },
                    ..self
                }.check()
            },
            (Phase::Rebinding, Event::Rebound(idx)) => Browsing {
                bound_idx: idx,
                failures: 0,
                advertising: false,
                since_query: LONG_AGO,
                ..self
            }.close(),
            (Phase::Rebinding, Event::NotRebound) => self.close(),
            _ => (self, seq![]),
        }
    }
}

/// The loop that browses for AirDrop peers.
pub struct Discovery {
    pub phase: Phase,
    pub bound_idx: u32,
    pub bound_addr: Option<[u8; 16]>,
    pub pending: Option<[u8; 16]>,
    pub failures: u32,
    pub since_query: u64,
    pub since_announce: u64,
    pub advertising: bool,
    pub probed: Vec<String>,
}

impl View for Discovery {
    type V = Browsing;

    open spec fn view(&self) -> Browsing {
        Browsing {
            phase: self.phase,
            bound_idx: self.bound_idx,
            bound_addr: mdns::addr_view(self.bound_addr),
            pending: mdns::addr_view(self.pending),
            failures: self.failures,
            since_query: self.since_query,
            since_announce: self.since_announce,
            advertising: self.advertising,
            probed: text::texts(self.probed@),
        }
    }
}

fn same_address(a: &Option<[u8; 16]>, b: &Option<[u8; 16]>) -> (r: bool)
    ensures
        r == (mdns::addr_view(*a) == mdns::addr_view(*b)),
{
    match (a, b) {
        (Some(x), Some(y)) => address::same_bytes(x, y),
        (None, None) => true,
        _ => false,
    }
}

fn holds(v: &Vec<String>, s: &String) -> (r: bool)
    ensures
        r == text::texts(v@).contains(s@),
{
    let ghost all = text::texts(v@);
    let n: usize = v.len();
    let mut i: usize = 0;
    while i < n
        invariant
            n == v@.len(),
            i <= n,
            all == text::texts(v@),
            forall|k: int| 0 <= k < i ==> #[trigger] all[k] != s@,
        decreases n - i,
    {
        if text::same(v[i].as_str(), s.as_str()) {
            assert(all[i as int] == s@);
            return true;
        }
        assert(all[i as int] != s@);
        i = i + 1;
    }
    false
}

impl Discovery {
    /// A browser was opened on an interface with this index and this address.
    pub fn new(idx: u32, addr: Option<[u8; 16]>) -> (r: Self)
        ensures
            r@ == (Browsing {
                phase: Phase::Begin,
                bound_idx: idx,
                bound_addr: mdns::addr_view(addr),
                pending: None,
                failures: 0,
                since_query: LONG_AGO,
                since_announce: 0,
                advertising: false,
                probed: seq![],
            }),
    {
        let r = Discovery {
            phase: Phase::Begin,
            bound_idx: idx,
            bound_addr: addr,
            pending: None,
            failures: 0,
            since_query: LONG_AGO,
            since_announce: 0,
            advertising: false,
            probed: Vec::new(),
        };
        assert(r@.probed =~= seq![]);
        r
    }

    fn close(&mut self, out: &mut Vec<Action>)
        ensures
            final(self)@ == old(self)@.close().0,
            final(out)@ == old(out)@ + old(self)@.close().1,
    {
        let ghost was = out@;
        out.push(Action::Poll);
        out.push(Action::Expire(PEER_TTL));
        out.push(Action::Publish);
        out.push(Action::Sleep(PASS));
        self.phase = Phase::Begin;
        self.since_query = pass_time(self.since_query);
        self.since_announce = pass_time(self.since_announce);
        assert(out@ =~= was + old(self)@.close().1);
    }

    fn check(&mut self, out: &mut Vec<Action>)
        ensures
            final(self)@ == old(self)@.check().0,
            final(out)@ == old(out)@ + old(self)@.check().1,
    {
        if self.failures >= STALE_AFTER {
            let ghost was = out@;
            self.phase = Phase::Rebinding;
            out.push(Action::Rebind);
            assert(out@ =~= was + old(self)@.check().1);
        } else {
            self.close(out);
        }
    }

    fn inquire(&mut self, refresh: bool, query: bool, out: &mut Vec<Action>)
        ensures
            final(self)@ == old(self)@.inquire(refresh, query).0,
            final(out)@ == old(out)@ + old(self)@.inquire(refresh, query).1,
    {
        let ghost was = out@;
        let ghost first = self@;
        let ghost due = first.advertising && first.since_announce >= ANNOUNCE_EVERY;
        let ghost said = (if due {
            seq![Action::Announce]
        } else {
            seq![]
        }) + (if refresh {
            seq![Action::Forget]
        } else {
            seq![]
        });
        let ghost mid = Browsing {
            since_announce: if due {
                0
            } else {
                first.since_announce
            },
            probed: if refresh {
                seq![]
            } else {
                first.probed
            },
            ..first
        };
        if self.advertising && self.since_announce >= ANNOUNCE_EVERY {
            out.push(Action::Announce);
            self.since_announce = 0;
        }
        if refresh {
            out.push(Action::Forget);
            self.probed = Vec::new();
            assert(self@.probed =~= seq![]);
        }
        assert(out@ =~= was + said);
        assert(self@ =~= mid);
        if query || self.since_query >= QUERY_EVERY {
            out.push(Action::Query);
            self.since_query = 0;
            self.phase = Phase::Querying;
            assert(out@ =~= was + (said + seq![Action::Query]));
        } else {
            self.check(out);
            assert(was + said + mid.check().1 =~= was + (said + mid.check().1));
        }
    }

    fn present(&mut self, want: bool, refresh: bool, query: bool, out: &mut Vec<Action>)
        ensures
            final(self)@ == old(self)@.present(want, refresh, query).0,
            final(out)@ == old(out)@ + old(self)@.present(want, refresh, query).1,
    {
        let ghost was = out@;
        let ghost first = self@;
        if want && !self.advertising {
            out.push(Action::Advertise);
            self.phase = Phase::Advertising(refresh, query);
            assert(out@ =~= was + seq![Action::Advertise]);
        } else if !want && self.advertising {
            out.push(Action::Withdraw);
            self.advertising = false;
            let ghost mid = Browsing { advertising: false, ..first };
            assert(self@ =~= mid);
            assert(out@ =~= was + seq![Action::Withdraw]);
            self.inquire(refresh, query, out);
            proof {
                let more = mid.inquire(refresh, query).1;
                assert(was + seq![Action::Withdraw] + more =~= was + (seq![Action::Withdraw]
                    + more));
            }
        } else {
            self.inquire(refresh, query, out);
        }
    }

    fn asked(&mut self, reset: bool, want: bool, refresh: bool, query: bool, out: &mut Vec<Action>)
        ensures
            final(self)@ == old(self)@.asked(reset, want, refresh, query).0,
            final(out)@ == old(out)@ + old(self)@.asked(reset, want, refresh, query).1,
    {
        let ghost was = out@;
        let ghost first = self@;
        if reset {
            let ghost bye = if first.advertising {
                seq![Action::Withdraw, Action::NewIdentity]
            } else {
                seq![Action::NewIdentity]
            };
            if self.advertising {
                out.push(Action::Withdraw);
            }
            out.push(Action::NewIdentity);
            self.advertising = false;
            let ghost mid = Browsing { advertising: false, ..first };
            assert(self@ =~= mid);
            assert(out@ =~= was + bye);
            self.present(want, refresh, query, out);
            proof {
                let more = mid.present(want, refresh, query).1;
                assert(was + bye + more =~= was + (bye + more));
            }
        } else {
            self.present(want, refresh, query, out);
        }
    }

    fn probe(&mut self, peers: &Vec<Peer>, out: &mut Vec<Action>)
        ensures
            final(self)@ == (Browsing { probed: probing(peers@, old(self)@.probed).1, ..old(self)@
            }),
            final(out)@ == old(out)@ + probing(peers@, old(self)@.probed).0,
    {
        let ghost first = self@;
        let ghost was = out@;
        let n: usize = peers.len();
        let mut i: usize = 0;
        assert(peers@.take(0) =~= seq![]);
        assert(was + probing(peers@.take(0), first.probed).0 =~= was);
        while i < n
            invariant
                n == peers@.len(),
                i <= n,
                self@ == (Browsing {
                    probed: probing(peers@.take(i as int), first.probed).1,
                    ..first
                }),
                out@ == was + probing(peers@.take(i as int), first.probed).0,
            decreases n - i,
        {
            let ghost acts = probing(peers@.take(i as int), first.probed).0;
            let ghost seen = probing(peers@.take(i as int), first.probed).1;
            proof {
                assert(peers@.take(i + 1).drop_last() =~= peers@.take(i as int));
                assert(peers@.take(i + 1).last() == peers@[i as int]);
            }
            let p = &peers[i];
            if p.port != 0 && !holds(&self.probed, &p.instance) {
                match p.addr {
                    Some(addr) => {
                        self.probed.push(p.instance.clone());
                        out.push(
                            Action::Probe { instance: p.instance.clone(), addr, port: p.port },
                        );
                        proof {
                            assert(self@.probed =~= seen.push(p.instance@));
                            let one = Action::Probe { instance: p.instance, addr, port: p.port };
                            assert(out@ =~= was + acts.push(one));
                        }
                    },
                    None => {},
                }
            }
            i = i + 1;
        }
        assert(peers@.take(n as int) =~= peers@);
    }

    /// The next step.
    pub fn step(&mut self, ev: Event) -> (r: Vec<Action>)
        ensures
            (final(self)@, r@) == old(self)@.after(ev),
    {
        let ghost first = self@;
        let mut out: Vec<Action> = Vec::new();
        let ghost none = Seq::<Action>::empty();
        match (self.phase, ev) {
            (Phase::Begin, Event::Start(idx)) => {
                if idx == 0 {
                    if self.bound_idx != 0 {
                        self.bound_idx = 0;
                        self.advertising = false;
                        out.push(Action::ClearPeers);
                    }
                    out.push(Action::Sleep(GONE_WAIT));
                } else if idx != self.bound_idx {
                    self.phase = Phase::Opening(idx);
                    out.push(Action::Open);
                } else {
                    self.phase = Phase::Address;
                    out.push(Action::ReadAddress);
                }
            },
            (Phase::Opening(idx), Event::Opened(addr)) => {
                self.phase = Phase::Address;
                self.bound_idx = idx;
                self.bound_addr = addr;
                self.failures = 0;
                self.advertising = false;
                self.since_query = LONG_AGO;
                out.push(Action::ReadAddress);
            },
            (Phase::Opening(_), Event::NotOpened) => {
                self.phase = Phase::Begin;
                out.push(Action::Sleep(PASS));
            },
            (Phase::Address, Event::Addressed(addr)) => {
                if addr.is_some() && !same_address(&addr, &self.bound_addr) {
                    self.phase = Phase::Reopening;
                    self.pending = addr;
                    out.push(Action::Reopen);
                } else {
                    self.phase = Phase::Table;
                    out.push(Action::ReadTable);
                }
            },
            (Phase::Reopening, Event::Reopened(ok)) => {
                if ok {
                    self.bound_addr = self.pending;
                    self.advertising = false;
                }
                self.phase = Phase::Table;
                out.push(Action::ReadTable);
            },
            (Phase::Table, Event::Peers(peers)) => {
                self.probe(&peers, &mut out);
                proof {
                    assert(none + probing(peers@, first.probed).0 =~= probing(
                        peers@,
                        first.probed,
                    ).0);
                }
                self.phase = Phase::Flags;
                out.push(Action::ReadFlags);
            },
            (Phase::Flags, Event::Asked { reset, want, refresh, query }) => {
                self.asked(reset, want, refresh, query, &mut out);
                proof {
                    let acts = first.asked(reset, want, refresh, query).1;
                    assert(none + acts =~= acts);
                }
            },
            (Phase::Advertising(refresh, query), Event::Advertised(ok)) => {
                if ok {
                    self.advertising = true;
                    self.since_announce = 0;
                }
                let ghost mid = self@;
                self.inquire(refresh, query, &mut out);
                proof {
                    let acts = mid.inquire(refresh, query).1;
                    assert(none + acts =~= acts);
                    assert(ok ==> mid =~= Browsing {
                        advertising: true,
                        since_announce: 0,
                        ..first
                    });
                }
            },
            (Phase::Querying, Event::Queried(ok)) => {
                if ok {
                    self.failures = 0;
                } else if self.failures < u32::MAX {
                    self.failures = self.failures + 1;
                }
                let ghost mid = self@;
                self.check(&mut out);
                proof {
                    assert(none + mid.check().1 =~= mid.check().1);
                }
            },
            (Phase::Rebinding, Event::Rebound(idx)) => {
                self.bound_idx = idx;
                self.failures = 0;
                self.advertising = false;
                self.since_query = LONG_AGO;
                let ghost mid = self@;
                self.close(&mut out);
                proof {
                    assert(none + mid.close().1 =~= mid.close().1);
                }
            },
            (Phase::Rebinding, Event::NotRebound) => {
                self.close(&mut out);
                proof {
                    assert(none + first.close().1 =~= first.close().1);
                }
            },
            _ => {},
        }
        proof {
            let want = first.after(ev);
            assert(self@ =~= want.0);
            assert(out@ =~= want.1);
        }
        out
    }
}

// ------------------------------------------------------------------------- laws ---

/// With no interface nothing is sent and nothing is read: the loop forgets what it published
/// and sleeps.
pub proof fn law_idle_without_a_link(b: Browsing)
    requires
        b.phase == Phase::Begin,
    ensures
        b.after(Event::Start(0)).1 == (if b.bound_idx != 0 {
            seq![Action::ClearPeers, Action::Sleep(GONE_WAIT)]
        } else {
            seq![Action::Sleep(GONE_WAIT)]
        }),
        b.after(Event::Start(0)).0.bound_idx == 0,
        b.after(Event::Start(0)).0.phase == Phase::Begin,
{
}

/// Being listed follows the wish: one who no longer wants to be visible says goodbye in the
/// same pass, and nobody who does not want to be is announced.
pub proof fn law_goodbye_is_said(b: Browsing, reset: bool, refresh: bool, query: bool)
    requires
        b.phase == Phase::Flags,
    ensures
        ({
            let (next, acts) = b.after(Event::Asked { reset, want: false, refresh, query });
            &&& !next.advertising
            &&& b.advertising ==> acts.len() > 0 && acts[0] == Action::Withdraw
            &&& forall|i: int|
                0 <= i < acts.len() ==> #[trigger] acts[i] != Action::Announce && acts[i]
                    != Action::Advertise
        }),
{
    let gone = Browsing { advertising: false, ..b };
    let said = if refresh {
        seq![Action::Forget]
    } else {
        seq![]
    };
    assert(gone.inquire(refresh, query).1 =~= said + (if query || b.since_query >= QUERY_EVERY {
        seq![Action::Query]
    } else if b.failures >= STALE_AFTER {
        seq![Action::Rebind]
    } else {
        seq![Action::Poll, Action::Expire(PEER_TTL), Action::Publish, Action::Sleep(PASS)]
    }));
    assert(b.present(false, refresh, query).1 =~= (if b.advertising {
        seq![Action::Withdraw] + gone.inquire(refresh, query).1
    } else {
        gone.inquire(refresh, query).1
    })) by {
        assert(!b.advertising ==> b =~= gone);
    }
}

/// One who wants to be visible is advertising when the flags were looked at, or about to be.
pub proof fn law_wish_is_followed(b: Browsing, reset: bool, refresh: bool, query: bool)
    requires
        b.phase == Phase::Flags,
    ensures
        ({
            let (next, acts) = b.after(Event::Asked { reset, want: true, refresh, query });
            next.advertising || next.phase == Phase::Advertising(refresh, query)
        }),
{
}

/// Each instance is asked for its name once: who is probed was not before, and is remembered.
pub proof fn law_probed_once(peers: Seq<Peer>, probed: Seq<Seq<char>>)
    ensures
        ({
            let (acts, seen) = probing(peers, probed);
            &&& seen.len() == probed.len() + acts.len()
            &&& seen.take(probed.len() as int) == probed
            &&& forall|i: int|
                0 <= i < acts.len() ==> (#[trigger] acts[i]) is Probe && acts[i]->instance@
                    == seen[probed.len() + i] && acts[i]->port != 0
            &&& forall|i: int, j: int|
                probed.len() <= j < seen.len() && 0 <= i < j ==> #[trigger] seen[i]
                    != #[trigger] seen[j]
        }),
    decreases peers.len(),
{
    if peers.len() > 0 {
        law_probed_once(peers.drop_last(), probed);
        let (acts, seen) = probing(peers.drop_last(), probed);
        let p = peers.last();
        if p.port != 0 && !seen.contains(p.instance@) && p.addr is Some {
            let more = seen.push(p.instance@);
            assert(more.take(probed.len() as int) =~= seen.take(probed.len() as int));
            assert forall|i: int, j: int|
                probed.len() <= j < more.len() && 0 <= i < j implies #[trigger] more[i]
                != #[trigger] more[j] by {
                if j == seen.len() {
                    assert(seen.contains(seen[i]));
                }
            }
        }
    } else {
        assert(probed.take(probed.len() as int) =~= probed);
    }
}

proof fn lemma_in_either<A>(a: Seq<A>, b: Seq<A>)
    ensures
        forall|x: A| #[trigger] (a + b).contains(x) <==> a.contains(x) || b.contains(x),
{
    assert forall|x: A| #[trigger] (a + b).contains(x) <==> a.contains(x) || b.contains(x) by {
        if a.contains(x) {
            let k = choose|k: int| 0 <= k < a.len() && a[k] == x;
            assert((a + b)[k] == x);
        }
        if b.contains(x) {
            let k = choose|k: int| 0 <= k < b.len() && b[k] == x;
            assert((a + b)[a.len() + k] == x);
        }
        if (a + b).contains(x) {
            let k = choose|k: int| 0 <= k < (a + b).len() && (a + b)[k] == x;
            if k < a.len() {
                assert(a[k] == x);
            } else {
                assert(b[k - a.len()] == x);
            }
        }
    }
}

proof fn lemma_only_one<A>(a: A)
    ensures
        forall|x: A| #[trigger] seq![a].contains(x) <==> x == a,
        forall|x: A| !(#[trigger] Seq::<A>::empty().contains(x)),
{
    assert forall|x: A| #[trigger] seq![a].contains(x) <==> x == a by {
        assert(seq![a][0] == a);
    }
}

/// Announcing, forgetting and asking, each exactly when it is due.
proof fn lemma_inquire(b: Browsing, refresh: bool, query: bool)
    ensures
        ({
            let (next, acts) = b.inquire(refresh, query);
            let asks = query || b.since_query >= QUERY_EVERY;
            &&& acts.contains(Action::Announce) <==> b.advertising && b.since_announce
                >= ANNOUNCE_EVERY
            &&& acts.contains(Action::Forget) <==> refresh
            &&& acts.contains(Action::Query) <==> asks
            &&& acts.contains(Action::Rebind) <==> !asks && b.failures >= STALE_AFTER
            &&& acts.contains(Action::Poll) <==> !asks && b.failures < STALE_AFTER
            &&& !acts.contains(Action::Withdraw) && !acts.contains(Action::Advertise)
            &&& !acts.contains(Action::NewIdentity)
            &&& next.advertising == b.advertising
            &&& asks <==> next.phase == Phase::Querying
        }),
{
    let due = b.advertising && b.since_announce >= ANNOUNCE_EVERY;
    let announced = if due {
        seq![Action::Announce]
    } else {
        seq![]
    };
    let forgot = if refresh {
        seq![Action::Forget]
    } else {
        seq![]
    };
    let said = announced + forgot;
    let (next, acts) = b.inquire(refresh, query);
    lemma_only_one(Action::Announce);
    lemma_only_one(Action::Forget);
    lemma_in_either(announced, forgot);
    let s = Browsing {
        since_announce: if due {
            0
        } else {
            b.since_announce
        },
        probed: if refresh {
            seq![]
        } else {
            b.probed
        },
        ..b
    };
    let rest = if query || b.since_query >= QUERY_EVERY {
        seq![Action::Query]
    } else {
        s.check().1
    };
    assert(acts == said + rest);
    lemma_in_either(said, rest);
    lemma_only_one(Action::Query);
    lemma_only_one(Action::Rebind);
    let closing = seq![Action::Poll, Action::Expire(PEER_TTL), Action::Publish, Action::Sleep(PASS)];
    assert(closing[0] == Action::Poll);
    assert(closing.contains(Action::Poll));
}

/// What is asked for is done in the same pass, and nothing else is. Goodbye is said exactly when
/// one who was visible no longer wants to be, or gets a new identity, and before that; a first
/// announcement is made exactly when one wants to be visible and is not under this identity. The
/// rest waits for that one: an announcement is repeated exactly when it is due, what was known is
/// forgotten exactly when that is asked for, and peers are asked for when that is, or when it is
/// time.
#[verifier::rlimit(40)]
pub proof fn law_flags_are_followed(
    b: Browsing,
    reset: bool,
    want: bool,
    refresh: bool,
    query: bool,
)
    requires
        b.phase == Phase::Flags,
    ensures
        ({
            let (next, acts) = b.after(Event::Asked { reset, want, refresh, query });
            let first = want && (reset || !b.advertising);
            &&& acts.contains(Action::Withdraw) <==> b.advertising && (reset || !want)
            &&& acts.contains(Action::Withdraw) ==> acts[0] == Action::Withdraw
            &&& acts.contains(Action::NewIdentity) <==> reset
            &&& acts.contains(Action::Advertise) <==> first
            &&& first ==> next.phase == Phase::Advertising(refresh, query)
            &&& !first ==> {
                &&& next.advertising == want
                &&& acts.contains(Action::Announce) <==> want && b.since_announce
                    >= ANNOUNCE_EVERY
                &&& acts.contains(Action::Forget) <==> refresh
                &&& acts.contains(Action::Query) <==> query || b.since_query >= QUERY_EVERY
            }
        }),
{
    let (next, acts) = b.after(Event::Asked { reset, want, refresh, query });
    let gone = Browsing { advertising: false, ..b };
    lemma_inquire(b, refresh, query);
    lemma_inquire(gone, refresh, query);
    lemma_only_one(Action::Withdraw);
    lemma_only_one(Action::NewIdentity);
    lemma_only_one(Action::Advertise);
    lemma_in_either(seq![Action::Withdraw], gone.inquire(refresh, query).1);
    lemma_in_either(seq![Action::Withdraw], seq![Action::NewIdentity]);
    assert(seq![Action::Withdraw] + seq![Action::NewIdentity] =~= seq![
        Action::Withdraw,
        Action::NewIdentity,
    ]);
    let bye = if b.advertising {
        seq![Action::Withdraw, Action::NewIdentity]
    } else {
        seq![Action::NewIdentity]
    };
    lemma_in_either(bye, gone.present(want, refresh, query).1);
}

/// What was asked for is not lost on the first announcement: whether it could be made or not, the
/// pass goes on with it, and one is visible exactly from a first announcement on that was made.
pub proof fn law_pass_goes_on_after_advertising(
    b: Browsing,
    refresh: bool,
    query: bool,
    ok: bool,
)
    requires
        b.phase == Phase::Advertising(refresh, query),
        !b.advertising,
    ensures
        ({
            let (next, acts) = b.after(Event::Advertised(ok));
            &&& next.advertising == ok
            &&& acts.contains(Action::Forget) <==> refresh
            &&& acts.contains(Action::Query) <==> query || b.since_query >= QUERY_EVERY
            &&& !acts.contains(Action::Announce)
        }),
{
    lemma_inquire(b, refresh, query);
    lemma_inquire(Browsing { advertising: true, since_announce: 0, ..b }, refresh, query);
}

/// A browser is bound to the interface that is there: a new index has one opened, and a new
/// address has it opened again. Whenever that was done one has to be announced anew, and peers
/// are asked for at once.
pub proof fn law_browser_follows_the_interface(b: Browsing, idx: u32, addr: Option<[u8; 16]>)
    requires
        idx != 0,
    ensures
        ({
            let begin = Browsing { phase: Phase::Begin, ..b }.after(Event::Start(idx));
            let opened = Browsing { phase: Phase::Opening(idx), ..b }.after(Event::Opened(addr));
            let there = Browsing { phase: Phase::Address, ..b }.after(Event::Addressed(addr));
            let again = there.0.after(Event::Reopened(true));
            let not = there.0.after(Event::Reopened(false));
            let moved = addr is Some && mdns::addr_view(addr) != b.bound_addr;
            &&& begin.1 == (if idx != b.bound_idx {
                seq![Action::Open]
            } else {
                seq![Action::ReadAddress]
            })
            &&& idx != b.bound_idx ==> begin.0.phase == Phase::Opening(idx)
            &&& opened.1 == seq![Action::ReadAddress]
            &&& opened.0.bound_idx == idx && opened.0.bound_addr == mdns::addr_view(addr)
            &&& !opened.0.advertising && opened.0.failures == 0 && opened.0.since_query
                >= QUERY_EVERY
            &&& opened.0.after(Event::Addressed(addr)).1 == seq![Action::ReadTable]
            &&& there.1 == (if moved {
                seq![Action::Reopen]
            } else {
                seq![Action::ReadTable]
            })
            &&& moved ==> again.1 == seq![Action::ReadTable] && !again.0.advertising
                && again.0.bound_addr == mdns::addr_view(addr)
            &&& moved ==> not.1 == seq![Action::ReadTable] && not.0.bound_addr == b.bound_addr
                && not.0.advertising == b.advertising
        }),
{
}

/// A socket on which three queries in a row fail is bound anew, and no other is; one query that
/// gets out begins the count again.
pub proof fn law_deaf_socket_is_rebound(b: Browsing, ok: bool, idx: u32)
    requires
        b.phase == Phase::Querying,
    ensures
        ({
            let (next, acts) = b.after(Event::Queried(ok));
            &&& ok ==> next.failures == 0 && next.phase == Phase::Begin
            &&& !ok && b.failures < 2 ==> next.failures == b.failures + 1 && next.phase
                == Phase::Begin
            &&& !ok && b.failures >= 2 ==> acts == seq![Action::Rebind] && next.phase
                == Phase::Rebinding
            &&& next.advertising == b.advertising
        }),
        ({
            let stale = Browsing { phase: Phase::Rebinding, ..b };
            let (done, _) = stale.after(Event::Rebound(idx));
            let (not, _) = stale.after(Event::NotRebound);
            &&& done.bound_idx == idx && done.failures == 0 && !done.advertising
            &&& done.since_query >= QUERY_EVERY
            &&& not.failures == b.failures && not.bound_idx == b.bound_idx
            &&& done.phase == Phase::Begin && not.phase == Phase::Begin
        }),
{
}

/// However a pass ends, what has come is read, what is old dropped and the rest published, in
/// this order, and time goes on for what is due later.
pub proof fn law_pass_is_completed(b: Browsing, ev: Event)
    requires
        b.phase != Phase::Begin,
        !(b.phase is Opening),
        b.after(ev).0.phase == Phase::Begin,
    ensures
        ({
            let (next, acts) = b.after(ev);
            let n = acts.len() as int;
            &&& n >= 4
            &&& acts[n - 4] == Action::Poll
            &&& acts[n - 3] == Action::Expire(PEER_TTL)
            &&& acts[n - 2] == Action::Publish
            &&& acts[n - 1] == Action::Sleep(PASS)
            &&& next.since_query >= PASS
            &&& next.since_announce >= PASS
            &&& ev == Event::Queried(true) && b.since_query <= u64::MAX - PASS && b.since_announce
                <= u64::MAX - PASS ==> next.since_query == b.since_query + PASS
                && next.since_announce == b.since_announce + PASS
        }),
{
    let (next, acts) = b.after(ev);
    match (b.phase, ev) {
        (Phase::Flags, Event::Asked { reset, want, refresh, query }) => {
            lemma_closing(b, refresh, query);
            lemma_closing(Browsing { advertising: false, ..b }, refresh, query);
        },
        (Phase::Advertising(refresh, query), Event::Advertised(ok)) => {
            lemma_closing(b, refresh, query);
            lemma_closing(
                Browsing { advertising: true, since_announce: 0, ..b },
                refresh,
                query,
            );
        },
        _ => {},
    }
}

proof fn lemma_closing(b: Browsing, refresh: bool, query: bool)
    ensures
        b.inquire(refresh, query).0.phase == Phase::Begin ==> {
            let (next, acts) = b.inquire(refresh, query);
            let n = acts.len() as int;
            &&& n >= 4
            &&& acts[n - 4] == Action::Poll
            &&& acts[n - 3] == Action::Expire(PEER_TTL)
            &&& acts[n - 2] == Action::Publish
            &&& acts[n - 1] == Action::Sleep(PASS)
            &&& next.since_query >= PASS
            &&& next.since_announce >= PASS
        },
{
}

/// Every peer that can be reached is asked for its name sooner or later, at the place where it
/// is, and no other is.
pub proof fn law_reachable_peers_are_probed(peers: Seq<Peer>, probed: Seq<Seq<char>>)
    ensures
        ({
            let (acts, seen) = probing(peers, probed);
            &&& forall|i: int|
                0 <= i < peers.len() && (#[trigger] peers[i]).port != 0 && peers[i].addr is Some
                    ==> seen.contains(peers[i].instance@)
            &&& forall|k: int|
                0 <= k < acts.len() ==> (#[trigger] acts[k]) is Probe && exists|i: int|
                    0 <= i < peers.len() && (#[trigger] peers[i]).addr == Some(acts[k]->addr)
                        && peers[i].port == acts[k]->port && peers[i].instance
                        == acts[k]->instance
            &&& forall|x: Seq<char>| #[trigger] probed.contains(x) ==> seen.contains(x)
        }),
    decreases peers.len(),
{
    if peers.len() > 0 {
        let front = peers.drop_last();
        law_reachable_peers_are_probed(front, probed);
        let (before, known) = probing(front, probed);
        let (acts, seen) = probing(peers, probed);
        let p = peers.last();
        let new = p.port != 0 && !known.contains(p.instance@) && p.addr is Some;
        assert forall|x: Seq<char>| #[trigger] known.contains(x) implies seen.contains(x) by {
            let k = choose|k: int| 0 <= k < known.len() && known[k] == x;
            assert(seen[k] == x);
        }
        assert forall|i: int|
            0 <= i < peers.len() && (#[trigger] peers[i]).port != 0
                && peers[i].addr is Some implies seen.contains(peers[i].instance@) by {
            if i < front.len() {
                assert(front[i] == peers[i]);
            } else if new {
                assert(seen[seen.len() - 1] == p.instance@);
            }
        }
        assert forall|k: int| 0 <= k < acts.len() implies (#[trigger] acts[k]) is Probe && exists|
            i: int,
        |
            0 <= i < peers.len() && (#[trigger] peers[i]).addr == Some(acts[k]->addr)
                && peers[i].port == acts[k]->port && peers[i].instance == acts[k]->instance by {
            if k < before.len() {
                assert(acts[k] == before[k]);
                let i = choose|i: int|
                    0 <= i < front.len() && (#[trigger] front[i]).addr == Some(before[k]->addr)
                        && front[i].port == before[k]->port && front[i].instance
                        == before[k]->instance;
                assert(peers[i] == front[i]);
            } else {
                assert(peers[peers.len() - 1] == p);
            }
        }
    }
}

// --------------------------------------------------------- Quick Share discovery ---

/// How long the loop waits before it opens its sockets again.
pub const REOPEN_WAIT: u64 = 10_000;

pub const QS_ANNOUNCE_EVERY: u64 = 30_000;

pub const QS_QUERY_EVERY: u64 = 10_000;

pub const QS_PEER_TTL: u64 = 60_000;

#[derive(Debug, Clone, Copy, PartialEq, Eq, Structural)]
pub enum QsPhase {
    Closed,
    Port,
    Responding,
    Querying,
}

#[derive(Debug, Clone, Copy, PartialEq, Eq, Structural)]
pub enum QsEvent {
    /// A browser was opened, or not.
    Opened(bool),
    /// The port the listener is bound to, 0 while there is none.
    Listening(u16),
    /// A responder was opened, or not.
    Responder(bool),
    Queried(bool),
}

#[derive(Debug, Clone, Copy, PartialEq, Eq, Structural)]
pub enum QsAction {
    OpenBrowser,
    Sleep(u64),
    ReadPort,
    /// Advertise that port.
    OpenResponder(u16),
    Answer,
    Announce,
    Query,
    Poll,
    Expire(u64),
    Publish,
}

/// The loop that browses for Quick Share peers on the LAN, and advertises from the same
/// interface. Both have to be torn down and rebuilt when it goes away.
#[derive(Debug, Clone, Copy, PartialEq, Eq, Structural)]
pub struct QsDiscovery {
    pub phase: QsPhase,
    /// Whether a responder is up.
    pub responder: bool,
    pub since_query: u64,
    pub since_announce: u64,
}

impl QsDiscovery {
    pub open spec fn browse(self) -> (QsDiscovery, Seq<QsAction>) {
        (
            QsDiscovery {
                phase: QsPhase::Port,
                since_query: later(self.since_query),
                since_announce: later(self.since_announce),
                ..self
            },
            seq![
                QsAction::Poll,
                QsAction::Expire(QS_PEER_TTL),
                QsAction::Publish,
                QsAction::Sleep(PASS),
                QsAction::ReadPort,
            ],
        )
    }

    /// Answer what was asked and announce when it is due: a sender that is browsing already
    /// will not ask again because we appeared.
    pub open spec fn respond(self) -> (QsDiscovery, Seq<QsAction>) {
        let due = self.responder && self.since_announce >= QS_ANNOUNCE_EVERY;
        let s = QsDiscovery {
            since_announce: if due {
                0
            } else {
                self.since_announce
            },
            ..self
        };
        let said = if due {
            seq![QsAction::Answer, QsAction::Announce]
        } else if self.responder {
            seq![QsAction::Answer]
        } else {
            seq![]
        };
        if self.since_query >= QS_QUERY_EVERY {
            (QsDiscovery { phase: QsPhase::Querying, ..s }, said + seq![QsAction::Query])
        } else {
            (s.browse().0, said + s.browse().1)
        }
    }

    /// The next step, given what came of the last one.
    pub open spec fn after(self, ev: QsEvent) -> (QsDiscovery, Seq<QsAction>) {
        match (self.phase, ev) {
            (QsPhase::Closed, QsEvent::Opened(true)) => (
                QsDiscovery {
                    phase: QsPhase::Port,
                    responder: false,
                    since_query: LONG_AGO,
                    since_announce: LONG_AGO,
                },
                seq![QsAction::ReadPort],
            ),
            (QsPhase::Closed, QsEvent::Opened(false)) => (
                self,
                seq![QsAction::Sleep(REOPEN_WAIT), QsAction::OpenBrowser],
            ),
            (QsPhase::Port, QsEvent::Listening(port)) => if !self.responder && port != 0 {
                (
                    QsDiscovery { phase: QsPhase::Responding, ..self },
                    seq![QsAction::OpenResponder(port)],
                )
            } else {
                self.respond()
            },
            (QsPhase::Responding, QsEvent::Responder(ok)) => QsDiscovery {
                responder: ok,
                ..self
            }.respond(),
            (QsPhase::Querying, QsEvent::Queried(true)) => QsDiscovery {
                since_query: 0,
                ..self
            }.browse(),
            (QsPhase::Querying, QsEvent::Queried(false)) => (
                QsDiscovery { phase: QsPhase::Closed, responder: false, ..self },
                seq![QsAction::Sleep(REOPEN_WAIT), QsAction::OpenBrowser],
            ),
            _ => (self, seq![]),
        }
    }

    /// Before the first browser is opened.
    pub fn new() -> (r: Self)
        ensures
            r.phase == QsPhase::Closed,
            !r.responder,
            r.since_query == LONG_AGO,
            r.since_announce == LONG_AGO,
    {
        QsDiscovery {
            phase: QsPhase::Closed,
            responder: false,
            since_query: LONG_AGO,
            since_announce: LONG_AGO,
        }
    }

    fn look(&mut self, out: &mut Vec<QsAction>)
        ensures
            *final(self) == old(self).browse().0,
            final(out)@ == old(out)@ + old(self).browse().1,
    {
        let ghost was = out@;
        out.push(QsAction::Poll);
        out.push(QsAction::Expire(QS_PEER_TTL));
        out.push(QsAction::Publish);
        out.push(QsAction::Sleep(PASS));
        out.push(QsAction::ReadPort);
        self.phase = QsPhase::Port;
        self.since_query = pass_time(self.since_query);
        self.since_announce = pass_time(self.since_announce);
        assert(out@ =~= was + old(self).browse().1);
    }

    fn open_up(&mut self, out: &mut Vec<QsAction>)
        ensures
            *final(self) == old(self).respond().0,
            final(out)@ == old(out)@ + old(self).respond().1,
    {
        let ghost was = out@;
        let ghost first = *self;
        if self.responder {
            out.push(QsAction::Answer);
            if self.since_announce >= QS_ANNOUNCE_EVERY {
                out.push(QsAction::Announce);
                self.since_announce = 0;
            }
        }
        let ghost mid = *self;
        let ghost said = if first.responder && first.since_announce >= QS_ANNOUNCE_EVERY {
            seq![QsAction::Answer, QsAction::Announce]
        } else if first.responder {
            seq![QsAction::Answer]
        } else {
            seq![]
        };
        assert(out@ =~= was + said);
        if self.since_query >= QS_QUERY_EVERY {
            self.phase = QsPhase::Querying;
            out.push(QsAction::Query);
            assert(out@ =~= was + (said + seq![QsAction::Query]));
        } else {
            self.look(out);
            assert(was + said + mid.browse().1 =~= was + (said + mid.browse().1));
        }
    }

    pub fn step(&mut self, ev: QsEvent) -> (r: Vec<QsAction>)
        ensures
            (*final(self), r@) == old(self).after(ev),
    {
        let ghost first = *self;
        let mut out: Vec<QsAction> = Vec::new();
        let ghost none = Seq::<QsAction>::empty();
        match (self.phase, ev) {
            (QsPhase::Closed, QsEvent::Opened(ok)) => {
                if ok {
                    self.phase = QsPhase::Port;
                    self.responder = false;
                    self.since_query = LONG_AGO;
                    self.since_announce = LONG_AGO;
                    out.push(QsAction::ReadPort);
                } else {
                    out.push(QsAction::Sleep(REOPEN_WAIT));
                    out.push(QsAction::OpenBrowser);
                }
            },
            (QsPhase::Port, QsEvent::Listening(port)) => {
                if !self.responder && port != 0 {
                    self.phase = QsPhase::Responding;
                    out.push(QsAction::OpenResponder(port));
                } else {
                    self.open_up(&mut out);
                    assert(none + first.respond().1 =~= first.respond().1);
                }
            },
            (QsPhase::Responding, QsEvent::Responder(ok)) => {
                self.responder = ok;
                let ghost mid = *self;
                self.open_up(&mut out);
                assert(none + mid.respond().1 =~= mid.respond().1);
            },
            (QsPhase::Querying, QsEvent::Queried(ok)) => {
                if ok {
                    self.since_query = 0;
                    let ghost mid = *self;
                    self.look(&mut out);
                    assert(none + mid.browse().1 =~= mid.browse().1);
                } else {
                    self.phase = QsPhase::Closed;
                    self.responder = false;
                    out.push(QsAction::Sleep(REOPEN_WAIT));
                    out.push(QsAction::OpenBrowser);
                }
            },
            _ => {},
        }
        assert(out@ =~= first.after(ev).1);
        out
    }
}

/// A port is advertised only once something listens on it, and nothing is answered or announced
/// before that.
pub proof fn law_no_port_without_a_listener(q: QsDiscovery, ev: QsEvent)
    ensures
        forall|i: int|
            0 <= i < q.after(ev).1.len() ==> (#[trigger] q.after(ev).1[i]) is OpenResponder
                ==> q.after(ev).1[i]->OpenResponder_0 != 0 && ev == QsEvent::Listening(
                q.after(ev).1[i]->OpenResponder_0,
            ),
        forall|i: int|
            0 <= i < q.after(ev).1.len() && ((#[trigger] q.after(ev).1[i]) == QsAction::Answer
                || q.after(ev).1[i] == QsAction::Announce) ==> q.responder || ev
                == QsEvent::Responder(true),
{
}

/// While a responder is up, what was asked is answered in every pass, and an announcement is made
/// exactly when it is due. A responder is opened as soon as something listens, and peers are
/// asked for exactly when it is time.
pub proof fn law_lan_peers_are_answered(q: QsDiscovery, port: u16)
    requires
        q.phase == QsPhase::Port,
    ensures
        ({
            let (next, acts) = q.after(QsEvent::Listening(port));
            let opens = port != 0 && !q.responder;
            &&& opens ==> acts == seq![QsAction::OpenResponder(port)]
            &&& !opens ==> {
                &&& acts.contains(QsAction::Answer) <==> q.responder
                &&& acts.contains(QsAction::Announce) <==> q.responder && q.since_announce
                    >= QS_ANNOUNCE_EVERY
                &&& acts.contains(QsAction::Query) <==> q.since_query >= QS_QUERY_EVERY
                &&& acts.contains(QsAction::Poll) <==> q.since_query < QS_QUERY_EVERY
                &&& next.responder == q.responder
            }
        }),
{
    lemma_respond(q);
}

proof fn lemma_respond(q: QsDiscovery)
    ensures
        ({
            let (next, acts) = q.respond();
            &&& acts.contains(QsAction::Answer) <==> q.responder
            &&& acts.contains(QsAction::Announce) <==> q.responder && q.since_announce
                >= QS_ANNOUNCE_EVERY
            &&& acts.contains(QsAction::Query) <==> q.since_query >= QS_QUERY_EVERY
            &&& acts.contains(QsAction::Poll) <==> q.since_query < QS_QUERY_EVERY
            &&& next.responder == q.responder
        }),
{
    let due = q.responder && q.since_announce >= QS_ANNOUNCE_EVERY;
    let said = if due {
        seq![QsAction::Answer, QsAction::Announce]
    } else if q.responder {
        seq![QsAction::Answer]
    } else {
        seq![]
    };
    let s = QsDiscovery {
        since_announce: if due {
            0
        } else {
            q.since_announce
        },
        ..q
    };
    let rest = if q.since_query >= QS_QUERY_EVERY {
        seq![QsAction::Query]
    } else {
        s.browse().1
    };
    assert(q.respond().1 == said + rest);
    lemma_in_either(said, rest);
    assert(said.len() > 0 ==> said[0] == QsAction::Answer);
    assert(said.len() > 1 ==> said[1] == QsAction::Announce);
    assert(rest[0] == (if q.since_query >= QS_QUERY_EVERY {
        QsAction::Query
    } else {
        QsAction::Poll
    }));
    assert(rest.contains(rest[0]));
}

/// A responder counts as up exactly when it could be opened, and the pass goes on either way. A
/// query that gets out starts the time to the next one; one that does not closes the sockets, to
/// open them again after a while; and a browser that was just opened has all it does due at once.
pub proof fn law_lan_sockets_are_rebuilt(q: QsDiscovery, ok: bool)
    ensures
        ({
            let (next, acts) = QsDiscovery { phase: QsPhase::Responding, ..q }.after(
                QsEvent::Responder(ok),
            );
            &&& next.responder == ok
            &&& acts.contains(QsAction::Answer) <==> ok
        }),
        ({
            let (next, acts) = QsDiscovery { phase: QsPhase::Querying, ..q }.after(
                QsEvent::Queried(ok),
            );
            &&& ok ==> next.since_query == PASS && next.phase == QsPhase::Port
            &&& ok ==> next.responder == q.responder
            &&& ok ==> acts == seq![
                QsAction::Poll,
                QsAction::Expire(QS_PEER_TTL),
                QsAction::Publish,
                QsAction::Sleep(PASS),
                QsAction::ReadPort,
            ]
            &&& !ok ==> next.phase == QsPhase::Closed && !next.responder && acts == seq![
                QsAction::Sleep(REOPEN_WAIT),
                QsAction::OpenBrowser,
            ]
        }),
        ({
            let (next, acts) = QsDiscovery { phase: QsPhase::Closed, ..q }.after(
                QsEvent::Opened(ok),
            );
            &&& ok ==> next.phase == QsPhase::Port && !next.responder && next.since_query
                >= QS_QUERY_EVERY && next.since_announce >= QS_ANNOUNCE_EVERY && acts == seq![
                QsAction::ReadPort,
            ]
            &&& !ok ==> next.phase == QsPhase::Closed && acts == seq![
                QsAction::Sleep(REOPEN_WAIT),
                QsAction::OpenBrowser,
            ]
        }),
{
    lemma_respond(QsDiscovery { phase: QsPhase::Responding, responder: ok, ..q });
}

/// Time goes on by one pass with each, and stands still at its end.
pub proof fn law_time_goes_on(t: u64)
    ensures
        t <= u64::MAX - PASS ==> later(t) == t + PASS,
        later(t) >= t,
{
}

// ------------------------------------------------------------------- the listeners ---

#[derive(Debug, Clone, Copy, PartialEq, Eq, Structural)]
pub enum ListenEvent {
    /// The port that was bound, if any was.
    Bound(Option<u16>),
    /// A peer connected, under this mode of the policy.
    Accepted(i32),
    AcceptFailed,
}

#[derive(Debug, Clone, Copy, PartialEq, Eq, Structural)]
pub enum ListenAction {
    Bind,
    Sleep(u64),
    /// Let the responder advertise the port.
    PublishPort(u16),
    Accept,
    Refuse,
    Serve,
}

/// The listener for Quick Share transfers over the LAN.
#[derive(Debug, Clone, Copy, PartialEq, Eq, Structural)]
pub struct Listener {
    pub bound: bool,
}

impl Listener {
    /// The next step. The policy is asked for each connection: who turns receiving off closes
    /// the door on the next peer to knock.
    pub open spec fn after(self, ev: ListenEvent) -> (Listener, Seq<ListenAction>) {
        match (self.bound, ev) {
            (false, ListenEvent::Bound(Some(port))) => (
                Listener { bound: true },
                seq![ListenAction::PublishPort(port), ListenAction::Accept],
            ),
            (false, ListenEvent::Bound(None)) => (
                self,
                seq![ListenAction::Sleep(REOPEN_WAIT), ListenAction::Bind],
            ),
            (true, ListenEvent::Accepted(mode)) => (
                self,
                if policy::may_receive(mode) {
                    seq![ListenAction::Serve, ListenAction::Accept]
                } else {
                    seq![ListenAction::Refuse, ListenAction::Accept]
                },
            ),
            (true, ListenEvent::AcceptFailed) => (
                Listener { bound: false },
                seq![ListenAction::Bind],
            ),
            _ => (self, seq![]),
        }
    }

    pub fn new() -> (r: Self)
        ensures
            !r.bound,
    {
        Listener { bound: false }
    }

    pub fn step(&mut self, ev: ListenEvent) -> (r: Vec<ListenAction>)
        ensures
            (*final(self), r@) == old(self).after(ev),
    {
        let ghost first = *self;
        let mut out: Vec<ListenAction> = Vec::new();
        match (self.bound, ev) {
            (false, ListenEvent::Bound(port)) => {
                match port {
                    Some(p) => {
                        self.bound = true;
                        out.push(ListenAction::PublishPort(p));
                        out.push(ListenAction::Accept);
                    },
                    None => {
                        out.push(ListenAction::Sleep(REOPEN_WAIT));
                        out.push(ListenAction::Bind);
                    },
                }
            },
            (true, ListenEvent::Accepted(mode)) => {
                if policy::allows_receive(mode) {
                    out.push(ListenAction::Serve);
                } else {
                    out.push(ListenAction::Refuse);
                }
                out.push(ListenAction::Accept);
            },
            (true, ListenEvent::AcceptFailed) => {
                self.bound = false;
                out.push(ListenAction::Bind);
            },
            _ => {},
        }
        assert(out@ =~= first.after(ev).1);
        out
    }
}

/// A connection is served only if the policy permits receiving at that moment.
pub proof fn law_served_only_as_permitted(l: Listener, ev: ListenEvent)
    ensures
        l.after(ev).1.contains(ListenAction::Serve) ==> (ev matches ListenEvent::Accepted(mode)
            && policy::may_receive(mode)),
{
}

pub open spec fn rebind_after(interface_is_there: bool) -> u64 {
    if interface_is_there {
        500
    } else {
        5_000
    }
}

/// A server waits ten times as long for an interface that is gone.
pub proof fn law_gone_interface_is_waited_for()
    ensures
        rebind_after(true) == PASS,
        rebind_after(false) == 10 * rebind_after(true),
{
}

/// How long the AirDrop server waits before it binds again: a moment while the interface is
/// there, since its address is about to come; longer while the radio is released.
pub fn rebind_wait(interface_is_there: bool) -> (r: u64)
    ensures
        r == rebind_after(interface_is_there),
{
    if interface_is_there {
        500
    } else {
        5_000
    }
}

/// The door stays open: who may be served is served and who may not is refused, one of the two
/// for each, and the next is waited for. The port that is published is the one that was bound,
/// and a listener that fails is bound anew.
pub proof fn law_everybody_is_let_in_or_not(l: Listener, mode: i32, port: u16)
    ensures
        ({
            let (next, acts) = (Listener { bound: true }).after(ListenEvent::Accepted(mode));
            &&& next.bound
            &&& acts.len() == 2 && acts[1] == ListenAction::Accept
            &&& acts[0] == ListenAction::Serve <==> mode == policy::MODE_RECEIVE || mode
                == policy::MODE_BOTH
            &&& acts[0] == ListenAction::Serve || acts[0] == ListenAction::Refuse
        }),
        (Listener { bound: false }).after(ListenEvent::Bound(Some(port))) == (
            Listener { bound: true },
            seq![ListenAction::PublishPort(port), ListenAction::Accept],
        ),
        (Listener { bound: false }).after(ListenEvent::Bound(None)) == (
            Listener { bound: false },
            seq![ListenAction::Sleep(REOPEN_WAIT), ListenAction::Bind],
        ),
        (Listener { bound: true }).after(ListenEvent::AcceptFailed) == (
            Listener { bound: false },
            seq![ListenAction::Bind],
        ),
{
}

} // verus!
