//! Per-connection request tracker: follows the client-to-edge byte stream,
//! holds the request head until it is complete, applies the request-level
//! policy to it and counts the body that follows.
//!
//! The tracker decides; the caller moves the bytes. Every chunk read from the
//! client is forwarded to the edge and shown to the tracker, which says
//! whether the connection goes on or is dropped. `RequestTracker::on_event`
//! is the whole relay loop seen from the side of the decisions: the caller
//! waits for the next event on either stream, hands it in, and does what the
//! answer says.

use vstd::prelude::*;
use crate::configdb::{
    Edge, GenericRuleGress, General, IpRule, IpRuleView, LocationRuleView, RuleGress,
};
use crate::edge_server::{find_edge_server, first_least, least_index, select, EdgeServers};
use crate::http1::{parse, parse_head, ParseError};
use crate::location_rule::{get_location_rule, location_rule_of, LocationRules};
use crate::policy::{
    admit_connection, admit_ip_location, admit_location, admits, ip_admits_location, ip_ingress,
    ip_rule_view, location_admits,
};
use crate::text::{parse_unsigned, unsigned_decimal};

verus! {

/// Most bytes of an unfinished request head that a connection may hold.
pub const HEADER_LIMIT: usize = 131072;

/// Where in a request the client-to-edge stream stands.
#[derive(Debug, Clone, Copy, PartialEq, Eq, Structural)]
pub enum Phase {
    ReadingHead,
    ReadingBody,
}

/// Why a connection is dropped.
#[derive(Debug, Clone, Copy, PartialEq, Eq, Structural)]
pub enum DropReason {
    HeaderTooLarge,
    MalformedRequest,
    UnsupportedVersion,
    PolicyDeny,
}

/// What the caller does after it has forwarded a chunk.
#[derive(Debug, Clone, Copy, PartialEq, Eq, Structural)]
pub enum Action {
    /// Keep relaying.
    Forward,
    /// Close both sides.
    Drop(DropReason),
}

/// What the relay loop meets on a connection.
pub enum Event<'a> {
    /// The client sent these bytes.
    ClientBytes(&'a [u8]),
    /// The client closed its side.
    ClientClosed,
    /// Reading from the client failed.
    ClientFailed,
    /// The edge sent bytes.
    EdgeBytes,
    /// The edge closed its side.
    EdgeClosed,
    /// Reading from the edge failed.
    EdgeFailed,
    /// Writing to either side failed.
    WriteFailed,
}

/// What the relay loop does next.
#[derive(Debug, Clone, Copy, PartialEq, Eq, Structural)]
pub enum Step {
    /// Write the client's bytes to the edge and go on.
    ToEdge,
    /// Write the client's bytes to the edge, then close both sides.
    ToEdgeThenClose(DropReason),
    /// Write the edge's bytes to the client and go on.
    ToClient,
    /// Close both sides.
    Close,
    /// Close both sides, with a warning.
    CloseWithWarning,
}

/// Why a connection is turned away before an edge is dialled.
#[derive(Debug, Clone, Copy, PartialEq, Eq, Structural)]
pub enum Refusal {
    /// The per-IP rule or the global default refuses the client.
    PolicyDeny,
    /// The registry holds no edge.
    NoEdgeAvailable,
}

/// Entry of a connection: the client is held against the connection-level
/// gate, and an admitted client gets the least-loaded edge. A refused client
/// leaves the registry as it is. The caller dials the edge, relays, and
/// releases the edge when the connection ends, however it ends.
pub fn assign_edge(ip_rule: &Option<IpRule>, general: &General, servers: &mut EdgeServers) -> (res:
    Result<Edge, Refusal>)
    requires
        old(servers)@.len() > 0 ==> old(servers)@[least_index(old(servers)@)].assigned < u64::MAX,
    ensures
        match res {
            Err(Refusal::PolicyDeny) => !admits(
                ip_ingress(ip_rule_view(*ip_rule)),
                general.ingress,
            ) && final(servers)@ == old(servers)@,
            Err(Refusal::NoEdgeAvailable) => admits(
                ip_ingress(ip_rule_view(*ip_rule)),
                general.ingress,
            ) && old(servers)@.len() == 0 && final(servers)@ == old(servers)@,
            Ok(edge) => admits(ip_ingress(ip_rule_view(*ip_rule)), general.ingress)
                && first_least(old(servers)@, least_index(old(servers)@)) && edge@ == old(
                servers,
            )@[least_index(old(servers)@)].edge && final(servers)@ == select(old(servers)@),
        },
{
    if !admit_connection(ip_rule, general) {
        return Err(Refusal::PolicyDeny);
    }
    match find_edge_server(servers) {
        Some(edge) => Ok(edge),
        None => Err(Refusal::NoEdgeAvailable),
    }
}

/// State of the tracker as plain values.
pub struct TrackerView {
    pub storage: Seq<u8>,
    pub phase: Phase,
    pub remaining: nat,
    pub bypass: bool,
}

/// The policy that a request is held against.
pub struct PolicyView {
    pub ip_rule: Option<IpRuleView>,
    pub rules: Seq<LocationRuleView>,
    pub default_ingress: GenericRuleGress,
}

/// Whether the blank line that ends a head starts at `i` in `s`.
pub open spec fn terminator_at(s: Seq<u8>, i: int) -> bool {
    0 <= i && i + 4 <= s.len() && s[i] == 13 && s[i + 1] == 10 && s[i + 2] == 13 && s[i + 3]
        == 10
}

/// Index of the first head terminator in `s`, or `s.len()` when there is
/// none.
pub open spec fn terminator_position(s: Seq<u8>) -> int
    decreases s.len(),
{
    if s.len() < 4 {
        s.len() as int
    } else if terminator_at(s, 0) {
        0
    } else {
        1 + terminator_position(s.drop_first())
    }
}

/// Length of the head in `s`: the index of the first terminator, if there is
/// one.
pub open spec fn header_end(s: Seq<u8>) -> Option<int> {
    let i = terminator_position(s);
    if terminator_at(s, i) {
        Some(i)
    } else {
        None
    }
}

/// `terminator_position` is the least index of a terminator, or the length.
pub proof fn lemma_terminator_position(s: Seq<u8>)
    ensures
        0 <= terminator_position(s) <= s.len(),
        forall|j: int| 0 <= j < terminator_position(s) ==> !terminator_at(s, j),
        terminator_position(s) < s.len() ==> terminator_at(s, terminator_position(s)),
    decreases s.len(),
{
    if s.len() >= 4 && !terminator_at(s, 0) {
        let t = s.drop_first();
        lemma_terminator_position(t);
        assert forall|j: int| 0 <= j < terminator_position(s) implies !terminator_at(s, j) by {
            if j > 0 {
                assert(!terminator_at(t, j - 1));
            }
        }
    }
}

/// A terminator with none before it is the first one; if no index holds a
/// terminator, the position is the length.
pub proof fn lemma_terminator_position_is(s: Seq<u8>, i: int)
    requires
        0 <= i <= s.len(),
        forall|j: int| 0 <= j < i ==> !terminator_at(s, j),
        i < s.len() ==> terminator_at(s, i),
    ensures
        terminator_position(s) == i,
{
    lemma_terminator_position(s);
}

/// Length of the head in `buf`, if `buf` holds a complete one.
pub fn find_header_end(buf: &Vec<u8>) -> (r: Option<usize>)
    ensures
        match r {
            Some(h) => header_end(buf@) == Some(h as int),
            None => header_end(buf@) is None,
        },
{
    let n = buf.len();
    let mut i: usize = 0;
    while i < n && n - i >= 4
        invariant
            i <= n == buf.len(),
            forall|j: int| 0 <= j < i ==> !terminator_at(buf@, j),
        decreases n - i,
    {
        if buf[i] == 13 && buf[i + 1] == 10 && buf[i + 2] == 13 && buf[i + 3] == 10 {
            proof {
                lemma_terminator_position_is(buf@, i as int);
            }
            return Some(i);
        }
        i += 1;
    }
    None
}

/// The state between requests.
pub open spec fn idle(bypass: bool) -> TrackerView {
    TrackerView { storage: Seq::empty(), phase: Phase::ReadingHead, remaining: 0, bypass }
}

/// The state after `n` more body bytes: the count goes down, and when it
/// reaches zero the tracker is idle again with the bypass flag cleared.
pub open spec fn after_body_bytes(remaining: nat, bypass: bool, n: nat) -> TrackerView {
    if n >= remaining {
        idle(false)
    } else {
        TrackerView {
            storage: Seq::empty(),
            phase: Phase::ReadingBody,
            remaining: (remaining - n) as nat,
            bypass,
        }
    }
}

/// Name of the one header field that the tracker reads.
pub open spec fn content_length_name() -> Seq<char> {
    "Content-Length"@
}

/// The verdict of the rule that `rule` stands for, if it is there.
pub open spec fn rule_ingress(rule: Option<LocationRuleView>) -> Option<RuleGress> {
    match rule {
        Some(r) => Some(r.ingress),
        None => None,
    }
}

/// The state after a complete head, or the reason to drop. `extra` is the
/// number of bytes that were read behind the terminator; they count as body.
/// The per-IP location gates come first, then the per-location rule, which
/// also sets the bypass flag, then the declared body length.
pub open spec fn after_head(head: Seq<u8>, extra: nat, bypass: bool, policy: PolicyView) -> Result<
    TrackerView,
    DropReason,
> {
    match parse_head(head) {
        Err(ParseError::MalformedRequest) => Err(DropReason::MalformedRequest),
        Err(ParseError::UnsupportedVersion) => Err(DropReason::UnsupportedVersion),
        Ok(http) => {
            let rule = location_rule_of(policy.rules, http.method, http.location);
            let bypass = match rule {
                Some(r) => r.bypass,
                None => bypass,
            };
            if !ip_admits_location(policy.ip_rule, http.location) {
                Err(DropReason::PolicyDeny)
            } else if !location_admits(rule_ingress(rule), policy.default_ingress) {
                Err(DropReason::PolicyDeny)
            } else if !http.properties.contains_key(content_length_name()) {
                Ok(idle(bypass))
            } else {
                match unsigned_decimal(http.properties[content_length_name()]) {
                    None => Err(DropReason::MalformedRequest),
                    Some(length) => Ok(after_body_bytes(length as nat, bypass, extra)),
                }
            }
        },
    }
}

/// One step of the tracker: the state after `chunk` and what the caller does.
/// A dropped connection leaves the tracker idle.
pub open spec fn step(s: TrackerView, chunk: Seq<u8>, policy: PolicyView) -> (TrackerView, Action) {
    match s.phase {
        Phase::ReadingBody => (after_body_bytes(s.remaining, s.bypass, chunk.len()), Action::Forward),
        Phase::ReadingHead => {
            let buffer = s.storage + chunk;
            if buffer.len() > HEADER_LIMIT {
                (idle(false), Action::Drop(DropReason::HeaderTooLarge))
            } else {
                match header_end(buffer) {
                    None => (
                        TrackerView {
                            storage: buffer,
                            phase: Phase::ReadingHead,
                            remaining: 0,
                            bypass: s.bypass,
                        },
                        Action::Forward,
                    ),
                    Some(h) => match after_head(
                        buffer.subrange(0, h),
                        (buffer.len() - h - 4) as nat,
                        s.bypass,
                        policy,
                    ) {
                        Ok(next) => (next, Action::Forward),
                        Err(reason) => (idle(false), Action::Drop(reason)),
                    },
                }
            }
        },
    }
}

/// The state after the chunks of `chunks`, one step each.
pub open spec fn run(s: TrackerView, chunks: Seq<Seq<u8>>, policy: PolicyView) -> TrackerView
    decreases chunks.len(),
{
    if chunks.len() == 0 {
        s
    } else {
        step(run(s, chunks.drop_last(), policy), chunks.last(), policy).0
    }
}

/// Number of bytes in `chunks`.
pub open spec fn total_len(chunks: Seq<Seq<u8>>) -> nat
    decreases chunks.len(),
{
    if chunks.len() == 0 {
        0
    } else {
        total_len(chunks.drop_last()) + chunks.last().len()
    }
}

/// One turn of the relay loop. Bytes from the client go to the edge and
/// through a step of the tracker; bytes from the edge go to the client
/// unseen; a closed side ends the connection, and a failed read or write
/// ends it with a warning. Only the client's bytes change the state.
pub open spec fn relay(s: TrackerView, event: Event, policy: PolicyView) -> (TrackerView, Step) {
    match event {
        Event::ClientBytes(chunk) => match step(s, chunk@, policy).1 {
            Action::Forward => (step(s, chunk@, policy).0, Step::ToEdge),
            Action::Drop(reason) => (step(s, chunk@, policy).0, Step::ToEdgeThenClose(reason)),
        },
        Event::EdgeBytes => (s, Step::ToClient),
        Event::ClientClosed => (s, Step::Close),
        Event::EdgeClosed => (s, Step::Close),
        Event::ClientFailed => (s, Step::CloseWithWarning),
        Event::EdgeFailed => (s, Step::CloseWithWarning),
        Event::WriteFailed => (s, Step::CloseWithWarning),
    }
}

/// The policy as the tracker's step sees it.
pub open spec fn policy_view(
    ip_rule: Option<IpRule>,
    rules: LocationRules,
    general: General,
) -> PolicyView {
    PolicyView {
        ip_rule: ip_rule_view(ip_rule),
        rules: rules@,
        default_ingress: general.ingress,
    }
}

/// Request state of one client connection.
pub struct RequestTracker {
    storage: Vec<u8>,
    phase: Phase,
    remaining: u64,
    bypass: bool,
}

impl View for RequestTracker {
    type V = TrackerView;

    closed spec fn view(&self) -> TrackerView {
        TrackerView {
            storage: self.storage@,
            phase: self.phase,
            remaining: self.remaining as nat,
            bypass: self.bypass,
        }
    }
}

/// The states that a tracker can be in: while a head is read, at most
/// `HEADER_LIMIT` bytes are held, none of them ends a head, and no body is
/// expected; while a body is read, nothing is held and some body is expected.
pub open spec fn valid(s: TrackerView) -> bool {
    &&& s.remaining <= u64::MAX
    &&& match s.phase {
        Phase::ReadingHead => s.storage.len() <= HEADER_LIMIT && header_end(s.storage) is None
            && s.remaining == 0,
        Phase::ReadingBody => s.storage.len() == 0 && s.remaining > 0,
    }
}

impl RequestTracker {
    /// Whether the tracker is in one of its states.
    pub open spec fn wf(&self) -> bool {
        valid(self@)
    }

    /// A tracker for a new connection.
    pub fn new() -> (t: Self)
        ensures
            t.wf(),
            t@ == idle(false),
    {
        let t = RequestTracker {
            storage: Vec::new(),
            phase: Phase::ReadingHead,
            remaining: 0,
            bypass: false,
        };
        t
    }

    /// Whether a head or a body is being read.
    pub fn phase(&self) -> (p: Phase)
        ensures
            p == self@.phase,
    {
        self.phase
    }

    /// Number of head bytes that are held.
    pub fn buffered(&self) -> (n: usize)
        ensures
            n == self@.storage.len(),
    {
        self.storage.len()
    }

    /// Number of body bytes that are still expected.
    pub fn body_remaining(&self) -> (n: u64)
        ensures
            n == self@.remaining,
    {
        self.remaining
    }

    /// The bypass flag of the current request.
    pub fn bypass(&self) -> (b: bool)
        ensures
            b == self@.bypass,
    {
        self.bypass
    }

    /// Back to the state of a new connection.
    fn reset(&mut self)
        ensures
            final(self)@ == idle(false),
            final(self).wf(),
    {
        self.storage = Vec::new();
        self.phase = Phase::ReadingHead;
        self.remaining = 0;
        self.bypass = false;
    }

    /// Counts `n` body bytes off.
    fn count_body(&mut self, n: usize)
        requires
            old(self)@.storage.len() == 0,
            old(self)@.phase == Phase::ReadingHead || old(self)@.phase == Phase::ReadingBody,
        ensures
            final(self)@ == after_body_bytes(old(self)@.remaining, old(self)@.bypass, n as nat),
            final(self).wf(),
    {
        if n as u64 >= self.remaining {
            self.reset();
        } else {
            self.phase = Phase::ReadingBody;
            self.remaining = self.remaining - n as u64;
            assert(self@.storage =~= Seq::empty());
        }
    }

    /// Takes note of a chunk that was read from the client and forwarded to
    /// the edge.
    pub fn on_client_bytes(
        &mut self,
        chunk: &[u8],
        ip_rule: &Option<IpRule>,
        rules: &LocationRules,
        general: &General,
    ) -> (action: Action)
        requires
            old(self).wf(),
        ensures
            final(self).wf(),
            (final(self)@, action) == step(old(self)@, chunk@, policy_view(*ip_rule, *rules, *general)),
    {
        match self.phase {
            Phase::ReadingBody => {
                self.count_body(chunk.len());
                Action::Forward
            },
            Phase::ReadingHead => {
                if chunk.len() > HEADER_LIMIT - self.storage.len() {
                    self.reset();
                    return Action::Drop(DropReason::HeaderTooLarge);
                }
                let ghost before = self.storage@;
                self.storage.extend_from_slice(chunk);
                assert(self.storage@ =~= before + chunk@);
                match find_header_end(&self.storage) {
                    None => Action::Forward,
                    Some(h) => {
                        let extra = self.storage.len() - h - 4;
                        let mut head: Vec<u8> = Vec::new();
                        core::mem::swap(&mut head, &mut self.storage);
                        head.truncate(h);
                        match self.on_head(head, extra, ip_rule, rules, general) {
                            Ok(()) => Action::Forward,
                            Err(reason) => {
                                self.reset();
                                Action::Drop(reason)
                            },
                        }
                    },
                }
            },
        }
    }

    /// Answers one event of the relay loop.
    pub fn on_event(
        &mut self,
        event: Event,
        ip_rule: &Option<IpRule>,
        rules: &LocationRules,
        general: &General,
    ) -> (next: Step)
        requires
            old(self).wf(),
        ensures
            final(self).wf(),
            (final(self)@, next) == relay(
                old(self)@,
                event,
                policy_view(*ip_rule, *rules, *general),
            ),
    {
        match event {
            Event::ClientBytes(chunk) => match self.on_client_bytes(
                chunk,
                ip_rule,
                rules,
                general,
            ) {
                Action::Forward => Step::ToEdge,
                Action::Drop(reason) => Step::ToEdgeThenClose(reason),
            },
            Event::EdgeBytes => Step::ToClient,
            Event::ClientClosed => Step::Close,
            Event::EdgeClosed => Step::Close,
            Event::ClientFailed => Step::CloseWithWarning,
            Event::EdgeFailed => Step::CloseWithWarning,
            Event::WriteFailed => Step::CloseWithWarning,
        }
    }

    /// Holds a complete head against the policy and starts counting its body.
    fn on_head(
        &mut self,
        head: Vec<u8>,
        extra: usize,
        ip_rule: &Option<IpRule>,
        rules: &LocationRules,
        general: &General,
    ) -> (res: Result<(), DropReason>)
        requires
            old(self)@.storage.len() == 0,
            old(self)@.phase == Phase::ReadingHead,
        ensures
            match res {
                Ok(()) => after_head(
                    head@,
                    extra as nat,
                    old(self)@.bypass,
                    policy_view(*ip_rule, *rules, *general),
                ) == Ok::<TrackerView, DropReason>(final(self)@) && final(self).wf(),
                Err(reason) => after_head(
                    head@,
                    extra as nat,
                    old(self)@.bypass,
                    policy_view(*ip_rule, *rules, *general),
                ) == Err::<TrackerView, DropReason>(reason),
            },
    {
        let http = match parse(head) {
            Ok(http) => http,
            Err(ParseError::MalformedRequest) => {
                return Err(DropReason::MalformedRequest);
            },
            Err(ParseError::UnsupportedVersion) => {
                return Err(DropReason::UnsupportedVersion);
            },
        };
        let rule = get_location_rule(rules, http.method.as_str(), http.location.as_str());
        let ingress = match &rule {
            Some(r) => Some(r.ingress),
            None => None,
        };
        if !admit_ip_location(ip_rule, http.location.as_str()) {
            return Err(DropReason::PolicyDeny);
        }
        if let Some(r) = &rule {
            self.bypass = r.bypass;
        }
        if !admit_location(ingress, general.ingress) {
            return Err(DropReason::PolicyDeny);
        }
        match http.properties.get("Content-Length") {
            None => {
                self.remaining = 0;
                proof {
                    assert(self@.storage =~= Seq::empty());
                }
                Ok(())
            },
            Some(value) => match parse_unsigned(value.as_str()) {
                None => Err(DropReason::MalformedRequest),
                Some(length) => {
                    self.remaining = length;
                    self.count_body(extra);
                    Ok(())
                },
            },
        }
    }
}

/// A step leads from a state of the tracker to a state of the tracker.
pub proof fn lemma_step_valid(s: TrackerView, chunk: Seq<u8>, policy: PolicyView)
    requires
        valid(s),
    ensures
        valid(step(s, chunk, policy).0),
{
}

/// Header bound: whatever a connection sends, its tracker never holds more
/// than `HEADER_LIMIT` bytes of an unfinished head.
pub proof fn lemma_header_bound(s: TrackerView, chunks: Seq<Seq<u8>>, policy: PolicyView)
    requires
        valid(s),
    ensures
        valid(run(s, chunks, policy)),
        run(s, chunks, policy).storage.len() <= HEADER_LIMIT,
    decreases chunks.len(),
{
    if chunks.len() > 0 {
        lemma_header_bound(s, chunks.drop_last(), policy);
        lemma_step_valid(run(s, chunks.drop_last(), policy), chunks.last(), policy);
    }
}

/// While a body is read, what is still expected is what was expected less
/// what has come.
pub proof fn lemma_body_progress(s: TrackerView, chunks: Seq<Seq<u8>>, policy: PolicyView)
    requires
        valid(s),
        s.phase == Phase::ReadingBody,
        forall|k: int|
            0 <= k <= chunks.len() ==> (#[trigger] run(s, chunks.subrange(0, k), policy)).phase
                == Phase::ReadingBody,
    ensures
        total_len(chunks) < s.remaining,
        run(s, chunks, policy).remaining == s.remaining - total_len(chunks),
        run(s, chunks, policy).bypass == s.bypass,
    decreases chunks.len(),
{
    if chunks.len() > 0 {
        let rest = chunks.drop_last();
        assert forall|k: int| 0 <= k <= rest.len() implies (#[trigger] run(
            s,
            rest.subrange(0, k),
            policy,
        )).phase == Phase::ReadingBody by {
            assert(rest.subrange(0, k) =~= chunks.subrange(0, k));
        }
        lemma_body_progress(s, rest, policy);
        assert(chunks =~= chunks.subrange(0, chunks.len() as int));
    }
}

/// Body accounting: when the chunks of `chunks` take a tracker that reads a
/// body back to reading a head, and none before the last does, then they
/// hold at least the bytes that were expected, and without the last chunk
/// fewer. The tracker is then idle with the bypass flag cleared.
pub proof fn lemma_body_accounting(s: TrackerView, chunks: Seq<Seq<u8>>, policy: PolicyView)
    requires
        valid(s),
        s.phase == Phase::ReadingBody,
        chunks.len() > 0,
        forall|k: int|
            0 <= k < chunks.len() ==> (#[trigger] run(s, chunks.subrange(0, k), policy)).phase
                == Phase::ReadingBody,
        run(s, chunks, policy).phase == Phase::ReadingHead,
    ensures
        total_len(chunks.drop_last()) < s.remaining <= total_len(chunks),
        run(s, chunks, policy) == idle(false),
{
    let rest = chunks.drop_last();
    assert forall|k: int| 0 <= k <= rest.len() implies (#[trigger] run(
        s,
        rest.subrange(0, k),
        policy,
    )).phase == Phase::ReadingBody by {
        assert(rest.subrange(0, k) =~= chunks.subrange(0, k));
    }
    lemma_body_progress(s, rest, policy);
}

} // verus!
