//! The shell client's command line.

use vstd::prelude::*;
use crate::policy::Policy;
use crate::text;

verus! {

/// One change to the policy. Everything else is carried forward.
#[derive(Debug, Clone, Copy, PartialEq, Eq, Structural)]
pub enum Change {
    Pin(bool),
    Confirm(bool),
    /// Both protocols.
    Mode(i32),
    Airdrop(i32),
    Quickshare(i32),
}

/// What the command line asks for.
#[derive(Debug)]
pub enum Command {
    Peers,
    GetName,
    SetName(String),
    Discoverable { on: bool, seconds: i32 },
    Send { lan: bool, peer: String, paths: Vec<String> },
    Respond { id: i64, accept: bool },
    Pin { id: i64, code: String },
    Cancel(i64),
    Received,
    Refresh,
    /// A line for the app.
    App(String),
    ShowPolicy,
    ChangePolicy(Change),
}

/// Why it asks for nothing.
#[derive(Debug, Clone, Copy, PartialEq, Eq, Structural)]
pub enum CtlError {
    Usage,
    SendNeedsPeer,
    SendNeedsFile,
    NeedsTransferId,
    BadId,
    NeedsPin,
    AppUsage,
    BadMode,
}

/// A mode: off, receive, send or both.
pub open spec fn mode_in(v: Seq<char>) -> Result<i32, CtlError> {
    match text::parsed_int(v, i32::MIN as int, i32::MAX as int) {
        Some(m) => if 0 <= m <= 3 {
            Ok(m as i32)
        } else {
            Err(CtlError::BadMode)
        },
        None => Err(CtlError::BadMode),
    }
}

fn mode_of(v: &str) -> (r: Result<i32, CtlError>)
    ensures
        r == mode_in(v@),
{
    match text::parse_int(v, i32::MIN as i64, i32::MAX as i64) {
        Some(m) => if 0 <= m && m <= 3 {
            Ok(m as i32)
        } else {
            Err(CtlError::BadMode)
        },
        None => Err(CtlError::BadMode),
    }
}

/// A change to the policy, by what is changed and to what.
pub open spec fn change_in(what: Seq<char>, v: Seq<char>) -> Result<Change, CtlError> {
    if what == "pin"@ {
        Ok(Change::Pin(v == "on"@))
    } else if what == "confirm"@ {
        Ok(Change::Confirm(v == "on"@))
    } else if what == "mode"@ {
        match mode_in(v) {
            Ok(m) => Ok(Change::Mode(m)),
            Err(e) => Err(e),
        }
    } else if what == "airdrop"@ {
        match mode_in(v) {
            Ok(m) => Ok(Change::Airdrop(m)),
            Err(e) => Err(e),
        }
    } else if what == "quickshare"@ {
        match mode_in(v) {
            Ok(m) => Ok(Change::Quickshare(m)),
            Err(e) => Err(e),
        }
    } else {
        Err(CtlError::Usage)
    }
}

fn change_of(what: &str, v: &str) -> (r: Result<Change, CtlError>)
    ensures
        r == change_in(what@, v@),
{
    if text::same(what, "pin") {
        Ok(Change::Pin(text::same(v, "on")))
    } else if text::same(what, "confirm") {
        Ok(Change::Confirm(text::same(v, "on")))
    } else if text::same(what, "mode") {
        match mode_of(v) {
            Ok(m) => Ok(Change::Mode(m)),
            Err(e) => Err(e),
        }
    } else if text::same(what, "airdrop") {
        match mode_of(v) {
            Ok(m) => Ok(Change::Airdrop(m)),
            Err(e) => Err(e),
        }
    } else if text::same(what, "quickshare") {
        match mode_of(v) {
            Ok(m) => Ok(Change::Quickshare(m)),
            Err(e) => Err(e),
        }
    } else {
        Err(CtlError::Usage)
    }
}

/// The policy after a change.
pub open spec fn changed(p: Policy, c: Change) -> Policy {
    match c {
        Change::Pin(on) => Policy { require_pin: on, ..p },
        Change::Confirm(on) => Policy { require_confirmation: on, ..p },
        Change::Mode(m) => Policy { airdrop: m, quickshare: m, ..p },
        Change::Airdrop(m) => Policy { airdrop: m, ..p },
        Change::Quickshare(m) => Policy { quickshare: m, ..p },
    }
}

/// Change one thing about a policy that was read, to write it back whole.
pub fn change_policy(p: Policy, c: Change) -> (r: Policy)
    ensures
        r == changed(p, c),
{
    let mut q = p;
    match c {
        Change::Pin(on) => {
            q.require_pin = on;
        },
        Change::Confirm(on) => {
            q.require_confirmation = on;
        },
        Change::Mode(m) => {
            q.airdrop = m;
            q.quickshare = m;
        },
        Change::Airdrop(m) => {
            q.airdrop = m;
        },
        Change::Quickshare(m) => {
            q.quickshare = m;
        },
    }
    q
}

/// A change leaves alone whatever it does not name: the PIN switch turns no protocol on, and
/// none of them touches the device's name or what an administrator decided.
pub proof fn law_a_change_changes_one_thing(p: Policy, c: Change)
    ensures
        changed(p, c).device_name == p.device_name,
        changed(p, c).airdrop_managed == p.airdrop_managed,
        changed(p, c).quickshare_managed == p.quickshare_managed,
        changed(p, c).require_confirmation_managed == p.require_confirmation_managed,
        changed(p, c).device_name_managed == p.device_name_managed,
        changed(p, c).require_pin_managed == p.require_pin_managed,
        c is Pin || c is Confirm ==> changed(p, c).airdrop == p.airdrop && changed(p, c).quickshare
            == p.quickshare,
        c is Airdrop ==> changed(p, c).quickshare == p.quickshare,
        c is Quickshare ==> changed(p, c).airdrop == p.airdrop,
        !(c is Pin) ==> changed(p, c).require_pin == p.require_pin,
        !(c is Confirm) ==> changed(p, c).require_confirmation == p.require_confirmation,
        changed(changed(p, c), c) == changed(p, c),
{
}

/// A change makes the policy say what was asked for.
pub proof fn law_a_change_is_made(p: Policy, on: bool, m: i32)
    ensures
        changed(p, Change::Pin(on)).require_pin == on,
        changed(p, Change::Confirm(on)).require_confirmation == on,
        changed(p, Change::Mode(m)).airdrop == m,
        changed(p, Change::Mode(m)).quickshare == m,
        changed(p, Change::Airdrop(m)).airdrop == m,
        changed(p, Change::Quickshare(m)).quickshare == m,
{
}

// --------------------------------------------------------------------- the command ---

/// A command, told by its contents.
#[verifier::ext_equal]
pub enum Asked {
    Peers,
    GetName,
    SetName(Seq<char>),
    Discoverable(bool, i32),
    Send(bool, Seq<char>, Seq<Seq<char>>),
    Respond(i64, bool),
    Pin(i64, Seq<char>),
    Cancel(i64),
    Received,
    Refresh,
    App(Seq<char>),
    ShowPolicy,
    ChangePolicy(Change),
}

impl Command {
    pub open spec fn says(&self) -> Asked {
        match self {
            Command::Peers => Asked::Peers,
            Command::GetName => Asked::GetName,
            Command::SetName(n) => Asked::SetName(n@),
            Command::Discoverable { on, seconds } => Asked::Discoverable(*on, *seconds),
            Command::Send { lan, peer, paths } => Asked::Send(*lan, peer@, text::texts(paths@)),
            Command::Respond { id, accept } => Asked::Respond(*id, *accept),
            Command::Pin { id, code } => Asked::Pin(*id, code@),
            Command::Cancel(id) => Asked::Cancel(*id),
            Command::Received => Asked::Received,
            Command::Refresh => Asked::Refresh,
            Command::App(line) => Asked::App(line@),
            Command::ShowPolicy => Asked::ShowPolicy,
            Command::ChangePolicy(c) => Asked::ChangePolicy(*c),
        }
    }
}

/// A transfer's id as the second argument.
pub open spec fn id_in(args: Seq<Seq<char>>) -> Result<i64, CtlError> {
    if args.len() < 2 {
        Err(CtlError::NeedsTransferId)
    } else {
        match text::parsed_int(args[1], i64::MIN as int, i64::MAX as int) {
            Some(i) => Ok(i as i64),
            None => Err(CtlError::BadId),
        }
    }
}

/// What a command line asks for.
pub open spec fn command_in(args: Seq<Seq<char>>) -> Result<Asked, CtlError> {
    if args.len() == 0 {
        Err(CtlError::Usage)
    } else if args[0] == "peers"@ {
        Ok(Asked::Peers)
    } else if args[0] == "name"@ {
        if args.len() > 1 {
            Ok(Asked::SetName(args[1]))
        } else {
            Ok(Asked::GetName)
        }
    } else if args[0] == "discoverable"@ {
        Ok(
            Asked::Discoverable(
                args.len() > 1 && args[1] == "on"@,
                if args.len() > 2 {
                    match text::parsed_int(args[2], i32::MIN as int, i32::MAX as int) {
                        Some(s) => s as i32,
                        None => 0,
                    }
                } else {
                    0
                },
            ),
        )
    } else if args[0] == "send"@ || args[0] == "send-lan"@ {
        if args.len() < 2 {
            Err(CtlError::SendNeedsPeer)
        } else if args.len() < 3 {
            Err(CtlError::SendNeedsFile)
        } else {
            Ok(Asked::Send(args[0] == "send-lan"@, args[1], args.skip(2)))
        }
    } else if args[0] == "accept"@ || args[0] == "decline"@ {
        match id_in(args) {
            Ok(id) => Ok(Asked::Respond(id, args[0] == "accept"@)),
            Err(e) => Err(e),
        }
    } else if args[0] == "pin"@ {
        match id_in(args) {
            Ok(id) => if args.len() > 2 {
                Ok(Asked::Pin(id, args[2]))
            } else {
                Err(CtlError::NeedsPin)
            },
            Err(e) => Err(e),
        }
    } else if args[0] == "cancel"@ {
        match id_in(args) {
            Ok(id) => Ok(Asked::Cancel(id)),
            Err(e) => Err(e),
        }
    } else if args[0] == "received"@ {
        Ok(Asked::Received)
    } else if args[0] == "refresh"@ {
        Ok(Asked::Refresh)
    } else if args[0] == "app"@ {
        if args.len() < 2 {
            Err(CtlError::AppUsage)
        } else {
            Ok(Asked::App(text::joined(args.skip(1))))
        }
    } else if args[0] == "policy"@ {
        if args.len() < 2 {
            Ok(Asked::ShowPolicy)
        } else if args.len() < 3 {
            Err(CtlError::Usage)
        } else {
            match change_in(args[1], args[2]) {
                Ok(c) => Ok(Asked::ChangePolicy(c)),
                Err(e) => Err(e),
            }
        }
    } else {
        Err(CtlError::Usage)
    }
}

pub open spec fn answers(r: Result<Command, CtlError>) -> Result<Asked, CtlError> {
    match r {
        Ok(c) => Ok(c.says()),
        Err(e) => Err(e),
    }
}

fn id_of(args: &Vec<String>) -> (r: Result<i64, CtlError>)
    ensures
        r == id_in(text::texts(args@)),
{
    if args.len() < 2 {
        return Err(CtlError::NeedsTransferId);
    }
    assert(text::texts(args@)[1] == args@[1]@);
    match text::parse_int(args[1].as_str(), i64::MIN, i64::MAX) {
        Some(i) => Ok(i),
        None => Err(CtlError::BadId),
    }
}

fn tail(args: &Vec<String>, from: usize) -> (r: Vec<String>)
    requires
        from <= args@.len(),
    ensures
        text::texts(r@) == text::texts(args@).skip(from as int),
{
    let ghost all = text::texts(args@);
    let mut out: Vec<String> = Vec::new();
    let n: usize = args.len();
    let mut i: usize = from;
    assert(text::texts(out@) =~= all.subrange(from as int, from as int));
    while i < n
        invariant
            n == args@.len(),
            from <= i <= n,
            all == text::texts(args@),
            text::texts(out@) == all.subrange(from as int, i as int),
        decreases n - i,
    {
        let ghost was = text::texts(out@);
        out.push(args[i].clone());
        proof {
            assert(text::texts(out@) =~= was.push(args@[i as int]@));
            assert(all.subrange(from as int, i + 1) =~= was.push(all[i as int]));
        }
        i = i + 1;
    }
    assert(all.subrange(from as int, n as int) =~= all.skip(from as int));
    out
}

/// Read the command line.
pub fn parse_args(args: &Vec<String>) -> (r: Result<Command, CtlError>)
    ensures
        answers(r) == command_in(text::texts(args@)),
{
    let ghost all = text::texts(args@);
    let n: usize = args.len();
    if n == 0 {
        return Err(CtlError::Usage);
    }
    assert(all[0] == args@[0]@);
    assert(n > 1 ==> all[1] == args@[1]@);
    assert(n > 2 ==> all[2] == args@[2]@);
    let a = args[0].as_str();
    if text::same(a, "peers") {
        Ok(Command::Peers)
    } else if text::same(a, "name") {
        if n > 1 {
            Ok(Command::SetName(args[1].clone()))
        } else {
            Ok(Command::GetName)
        }
    } else if text::same(a, "discoverable") {
        let on: bool = n > 1 && text::same(args[1].as_str(), "on");
        let seconds: i32 = if n > 2 {
            match text::parse_int(args[2].as_str(), i32::MIN as i64, i32::MAX as i64) {
                Some(s) => s as i32,
                None => 0,
            }
        } else {
            0
        };
        Ok(Command::Discoverable { on, seconds })
    } else if text::same(a, "send") || text::same(a, "send-lan") {
        if n < 2 {
            Err(CtlError::SendNeedsPeer)
        } else if n < 3 {
            Err(CtlError::SendNeedsFile)
        } else {
            Ok(
                Command::Send {
                    lan: text::same(a, "send-lan"),
                    peer: args[1].clone(),
                    paths: tail(args, 2),
                },
            )
        }
    } else if text::same(a, "accept") || text::same(a, "decline") {
        match id_of(args) {
            Ok(id) => Ok(Command::Respond { id, accept: text::same(a, "accept") }),
            Err(e) => Err(e),
        }
    } else if text::same(a, "pin") {
        match id_of(args) {
            Ok(id) => if n > 2 {
                Ok(Command::Pin { id, code: args[2].clone() })
            } else {
                Err(CtlError::NeedsPin)
            },
            Err(e) => Err(e),
        }
    } else if text::same(a, "cancel") {
        match id_of(args) {
            Ok(id) => Ok(Command::Cancel(id)),
            Err(e) => Err(e),
        }
    } else if text::same(a, "received") {
        Ok(Command::Received)
    } else if text::same(a, "refresh") {
        Ok(Command::Refresh)
    } else if text::same(a, "app") {
        if n < 2 {
            Err(CtlError::AppUsage)
        } else {
            Ok(Command::App(text::join(&tail(args, 1))))
        }
    } else if text::same(a, "policy") {
        if n < 2 {
            Ok(Command::ShowPolicy)
        } else if n < 3 {
            Err(CtlError::Usage)
        } else {
            match change_of(args[1].as_str(), args[2].as_str()) {
                Ok(c) => Ok(Command::ChangePolicy(c)),
                Err(e) => Err(e),
            }
        }
    } else {
        Err(CtlError::Usage)
    }
}

/// What the client says when it cannot do what it was asked.
pub fn message(e: CtlError) -> (r: &'static str)
    ensures
        r@ == (match e {
            CtlError::Usage => "usage"@,
            CtlError::SendNeedsPeer => "send needs a peer id"@,
            CtlError::SendNeedsFile => "send needs at least one file"@,
            CtlError::NeedsTransferId => "needs a transfer id"@,
            CtlError::BadId => "bad id"@,
            CtlError::NeedsPin => "needs a pin"@,
            CtlError::AppUsage => "usage: app <ping|peers|send <peer-id> <path>>"@,
            CtlError::BadMode => "mode takes 0 (off), 1 (receive), 2 (send) or 3 (both)"@,
        }),
{
    match e {
        CtlError::Usage => "usage",
        CtlError::SendNeedsPeer => "send needs a peer id",
        CtlError::SendNeedsFile => "send needs at least one file",
        CtlError::NeedsTransferId => "needs a transfer id",
        CtlError::BadId => "bad id",
        CtlError::NeedsPin => "needs a pin",
        CtlError::AppUsage => "usage: app <ping|peers|send <peer-id> <path>>",
        CtlError::BadMode => "mode takes 0 (off), 1 (receive), 2 (send) or 3 (both)",
    }
}

proof fn lemma_verbs()
    ensures
        "peers"@.len() == 5,
        "name"@.len() == 4 && "name"@[0] == 'n',
        "discoverable"@.len() == 12,
        "send"@.len() == 4 && "send"@[0] == 's',
        "send-lan"@.len() == 8 && "send-lan"@[0] == 's',
        "accept"@.len() == 6 && "accept"@[0] == 'a',
        "decline"@.len() == 7 && "decline"@[0] == 'd',
        "pin"@.len() == 3 && "pin"@[0] == 'p',
        "cancel"@.len() == 6 && "cancel"@[0] == 'c',
        "received"@.len() == 8 && "received"@[0] == 'r',
        "refresh"@.len() == 7 && "refresh"@[0] == 'r',
        "app"@.len() == 3 && "app"@[0] == 'a',
        "policy"@.len() == 6 && "policy"@[0] == 'p',
{
    reveal_strlit("peers");
    reveal_strlit("name");
    reveal_strlit("discoverable");
    reveal_strlit("send");
    reveal_strlit("send-lan");
    reveal_strlit("accept");
    reveal_strlit("decline");
    reveal_strlit("pin");
    reveal_strlit("cancel");
    reveal_strlit("received");
    reveal_strlit("refresh");
    reveal_strlit("app");
    reveal_strlit("policy");
}

/// A transfer is answered, confirmed or cancelled by its number, whatever that is, and as the
/// word says: a yes accepts and a no declines.
pub proof fn law_transfer_is_named(id: nat, code: Seq<char>)
    requires
        id <= i64::MAX,
    ensures
        command_in(seq!["accept"@, text::decimal(id)]) == Ok::<Asked, CtlError>(
            Asked::Respond(id as i64, true),
        ),
        command_in(seq!["decline"@, text::decimal(id)]) == Ok::<Asked, CtlError>(
            Asked::Respond(id as i64, false),
        ),
        command_in(seq!["cancel"@, text::decimal(id)]) == Ok::<Asked, CtlError>(
            Asked::Cancel(id as i64),
        ),
        command_in(seq!["pin"@, text::decimal(id), code]) == Ok::<Asked, CtlError>(
            Asked::Pin(id as i64, code),
        ),
        command_in(seq!["pin"@, text::decimal(id)]) == Err::<Asked, CtlError>(CtlError::NeedsPin),
        command_in(seq!["accept"@]) == Err::<Asked, CtlError>(CtlError::NeedsTransferId),
        command_in(seq!["decline"@]) == Err::<Asked, CtlError>(CtlError::NeedsTransferId),
        command_in(seq!["cancel"@]) == Err::<Asked, CtlError>(CtlError::NeedsTransferId),
{
    lemma_verbs();
    text::law_negative_parses(id, -(id as int), i64::MAX as int);
    text::law_decimal_parses(id, i64::MAX as nat);
    assert(text::parsed_int(text::decimal(id), i64::MIN as int, i64::MAX as int) == Some(
        id as int,
    ));
}

/// What is sent is every file that is named behind the peer, in order; and the word says whether
/// it goes over the LAN.
pub proof fn law_files_are_sent_as_named(peer: Seq<char>, paths: Seq<Seq<char>>)
    ensures
        paths.len() > 0 ==> command_in(seq!["send"@, peer] + paths) == Ok::<Asked, CtlError>(
            Asked::Send(false, peer, paths),
        ),
        paths.len() > 0 ==> command_in(seq!["send-lan"@, peer] + paths) == Ok::<Asked, CtlError>(
            Asked::Send(true, peer, paths),
        ),
        command_in(seq!["send"@, peer]) == Err::<Asked, CtlError>(CtlError::SendNeedsFile),
        command_in(seq!["send"@]) == Err::<Asked, CtlError>(CtlError::SendNeedsPeer),
        command_in(seq!["send-lan"@, peer]) == Err::<Asked, CtlError>(CtlError::SendNeedsFile),
        command_in(seq!["send-lan"@]) == Err::<Asked, CtlError>(CtlError::SendNeedsPeer),
{
    lemma_verbs();
    let a = seq!["send"@, peer] + paths;
    let b = seq!["send-lan"@, peer] + paths;
    assert(a[0] == "send"@ && a.skip(2) =~= paths);
    assert(b[0] == "send-lan"@ && b.skip(2) =~= paths);
    assert(paths.len() > 0 ==> a[1] == peer && b[1] == peer);
}

/// Visibility is turned on by that word and by no other, for as long as is said, or without end.
pub proof fn law_visibility_is_asked_for(word: Seq<char>, seconds: nat)
    requires
        seconds <= i32::MAX,
    ensures
        command_in(seq!["discoverable"@, word, text::decimal(seconds)]) == Ok::<Asked, CtlError>(
            Asked::Discoverable(word == seq!['o', 'n'], seconds as i32),
        ),
        command_in(seq!["discoverable"@, word]) == Ok::<Asked, CtlError>(
            Asked::Discoverable(word == seq!['o', 'n'], 0),
        ),
        command_in(seq!["name"@, word]) == Ok::<Asked, CtlError>(Asked::SetName(word)),
        command_in(seq!["name"@]) == Ok::<Asked, CtlError>(Asked::GetName),
{
    lemma_verbs();
    reveal_strlit("on");
    assert("on"@ =~= seq!['o', 'n']);
    text::law_negative_parses(seconds, -(seconds as int), i32::MAX as int);
    text::law_decimal_parses(seconds, i32::MAX as nat);
    assert(text::parsed_int(text::decimal(seconds), i32::MIN as int, i32::MAX as int) == Some(
        seconds as int,
    ));
}

/// A policy is changed in what is named, to what is said; a mode is one of the four there are.
pub proof fn law_policy_is_changed_as_said(word: Seq<char>, m: nat)
    ensures
        ({
            let mode = text::decimal(m);
            let on = word == seq!['o', 'n'];
            let bad = Err::<Asked, CtlError>(CtlError::BadMode);
            &&& command_in(seq!["policy"@, "pin"@, word]) == Ok::<Asked, CtlError>(
                Asked::ChangePolicy(Change::Pin(on)),
            )
            &&& command_in(seq!["policy"@, "confirm"@, word]) == Ok::<Asked, CtlError>(
                Asked::ChangePolicy(Change::Confirm(on)),
            )
            &&& command_in(seq!["policy"@, "mode"@, mode]) == (if m <= 3 {
                Ok::<Asked, CtlError>(Asked::ChangePolicy(Change::Mode(m as i32)))
            } else {
                bad
            })
            &&& command_in(seq!["policy"@, "airdrop"@, mode]) == (if m <= 3 {
                Ok::<Asked, CtlError>(Asked::ChangePolicy(Change::Airdrop(m as i32)))
            } else {
                bad
            })
            &&& command_in(seq!["policy"@, "quickshare"@, mode]) == (if m <= 3 {
                Ok::<Asked, CtlError>(Asked::ChangePolicy(Change::Quickshare(m as i32)))
            } else {
                bad
            })
            &&& command_in(seq!["policy"@]) == Ok::<Asked, CtlError>(Asked::ShowPolicy)
            &&& command_in(seq!["policy"@, word]) == Err::<Asked, CtlError>(CtlError::Usage)
        }),
{
    lemma_verbs();
    reveal_strlit("on");
    reveal_strlit("confirm");
    reveal_strlit("mode");
    reveal_strlit("airdrop");
    reveal_strlit("quickshare");
    assert("on"@ =~= seq!['o', 'n']);
    assert("confirm"@.len() == 7 && "confirm"@[0] == 'c');
    assert("mode"@.len() == 4);
    assert("airdrop"@.len() == 7 && "airdrop"@[0] == 'a');
    assert("quickshare"@.len() == 10);
    text::law_decimal_parses(m, m);
    if m <= i32::MAX {
        text::law_decimal_parses(m, i32::MAX as nat);
        text::law_negative_parses(m, -(m as int), i32::MAX as int);
    } else {
        text::law_negative_parses(m, -(m as int), m as int);
    }
    assert(text::decimal(m)[0] != '-') by {
        text::law_negative_parses(m, -(m as int), m as int);
    }
    assert(mode_in(text::decimal(m)) == (if m <= 3 {
        Ok::<i32, CtlError>(m as i32)
    } else {
        Err(CtlError::BadMode)
    }));
}

/// The other words stand for themselves, and no words for nothing.
pub proof fn law_other_words_are_understood(line: Seq<Seq<char>>)
    ensures
        command_in(seq!["peers"@] + line) == Ok::<Asked, CtlError>(Asked::Peers),
        command_in(seq!["received"@] + line) == Ok::<Asked, CtlError>(Asked::Received),
        command_in(seq!["refresh"@] + line) == Ok::<Asked, CtlError>(Asked::Refresh),
        line.len() > 0 ==> command_in(seq!["app"@] + line) == Ok::<Asked, CtlError>(
            Asked::App(text::joined(line)),
        ),
        command_in(seq!["app"@]) == Err::<Asked, CtlError>(CtlError::AppUsage),
        command_in(seq![]) == Err::<Asked, CtlError>(CtlError::Usage),
{
    lemma_verbs();
    let a = seq!["peers"@] + line;
    let b = seq!["received"@] + line;
    let c = seq!["refresh"@] + line;
    let d = seq!["app"@] + line;
    assert(a[0] == "peers"@ && b[0] == "received"@ && c[0] == "refresh"@ && d[0] == "app"@);
    assert(d.skip(1) =~= line);
}

} // verus!
