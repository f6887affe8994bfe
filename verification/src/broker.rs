//! The broker's decisions: which clients are registered, which one holds the
//! managed session, how physical edges become numbered events and where they
//! are routed, and when a session is revoked. The runtime around it performs
//! the returned effects (sending, pausing capture) and reports back what it
//! could not deliver.
use std::collections::HashSet;
use vstd::prelude::*;

use crate::config::Mapping;
use crate::protocol::{
    valid_app_id, validate_confidence, validated, Action, Confidence, Handshake,
    HandshakeRejectionReason, HandshakeResponse, Hello, MessageView, RequestedMode, ServerMessage,
    SessionRevocationReason, SessionRevoked, SnapshotView, SwitchEvent, SwitchSnapshot,
    PROTOCOL_VERSION, is_valid_app_id,
};
use crate::state::{
    is_pressed, last_wins, lemma_last_wins, transition_is, reports, StepOutcome,
    SwitchModel, SwitchStateMachine,
};
use crate::text::same_text;
use vstd::utf8::encode_utf8;

verus! {

broadcast use vstd::std_specs::hash::group_hash_axioms;

/// Interval at which a managed client must send heartbeats.
pub const HEARTBEAT_INTERVAL_MS: u32 = 500;

/// Heartbeats that may be missed before the session is revoked.
pub const MISSED_HEARTBEAT_LIMIT: u32 = 3;

/// A switch held this long during a session revokes it (the escape hatch),
/// so that the user is never trapped.
pub const ESCAPE_HOLD_MS: u64 = 4000;

/// Microseconds without a heartbeat after which a session times out.
pub open spec fn heartbeat_timeout_us() -> int {
    HEARTBEAT_INTERVAL_MS * MISSED_HEARTBEAT_LIMIT * 1000
}

/// Microseconds of continuous hold that trigger the escape hatch.
pub open spec fn escape_hold_us() -> int {
    ESCAPE_HOLD_MS * 1000
}

/// One physical edge from a capture backend or the simulator.
#[derive(Debug, Clone, PartialEq)]
pub struct PhysicalEvent {
    pub mapping_id: String,
    pub action: Action,
    pub confidence: Option<Confidence>,
}

/// What a failed delivery of a message costs its client.
#[derive(Debug, Clone, Copy, PartialEq, Eq, Structural)]
pub enum OnFailure {
    /// The client is disconnected.
    Disconnect,
    /// The client is disconnected and the managed session revoked.
    RevokeSession,
}

/// Work the runtime performs for the broker, in order.
#[derive(Debug, Clone, PartialEq)]
pub enum Effect {
    /// Queue a message for one client, if it is still connected.
    Send { client_id: u64, message: ServerMessage, on_failure: OnFailure },
    /// Queue a message for every connected client; a client whose queue
    /// cannot take it is disconnected.
    Broadcast(ServerMessage),
    /// Stop capture: physical input passes to the operating system.
    PauseCapture,
}

pub enum EffectView {
    Send { client_id: u64, message: MessageView, on_failure: OnFailure },
    Broadcast(MessageView),
    PauseCapture,
}

impl View for Effect {
    type V = EffectView;

    open spec fn view(&self) -> EffectView {
        match self {
            Effect::Send { client_id, message, on_failure } => EffectView::Send {
                client_id: *client_id,
                message: message@,
                on_failure: *on_failure,
            },
            Effect::Broadcast(m) => EffectView::Broadcast(m@),
            Effect::PauseCapture => EffectView::PauseCapture,
        }
    }
}

pub open spec fn effect_views(e: Seq<Effect>) -> Seq<EffectView> {
    e.map_values(|x: Effect| x@)
}

/// The first half of a handshake.
#[derive(Debug)]
pub enum HandshakePlan {
    /// The handshake is answered: perform these effects.
    Done(Vec<Effect>),
    /// Capture is paused: reacquire it, then call
    /// [`Broker::handshake_resumed`] with the outcome.
    Resume,
    /// Broadcast these releases of legacy held state, then call
    /// [`Broker::handshake_released`].
    Release(Vec<Effect>),
}

pub enum PlanView {
    Done(Seq<EffectView>),
    Resume,
    Release(Seq<EffectView>),
}

impl View for HandshakePlan {
    type V = PlanView;

    open spec fn view(&self) -> PlanView {
        match self {
            HandshakePlan::Done(e) => PlanView::Done(effect_views(e@)),
            HandshakePlan::Resume => PlanView::Resume,
            HandshakePlan::Release(e) => PlanView::Release(effect_views(e@)),
        }
    }
}

/// The managed session.
#[verifier::ext_equal]
pub struct SessionView {
    pub client_id: u64,
    pub session_id: Seq<char>,
    pub pid: Option<u32>,
    pub last_heartbeat_us: u64,
}

/// The broker's abstract state. Times are microseconds since the broker
/// started.
#[verifier::ext_equal]
pub struct BrokerModel {
    pub switches: SwitchModel,
    /// Number of the last event sent; events are numbered from 1.
    pub sequence: u64,
    pub next_client: u64,
    pub clients: Set<u64>,
    pub session: Option<SessionView>,
    /// Capture was released by a revocation and not reacquired yet.
    pub paused: bool,
    /// When each logical switch currently held was pressed.
    pub escape: Map<Seq<char>, u64>,
}

pub open spec fn version() -> Seq<char> {
    PROTOCOL_VERSION@
}

pub open spec fn event_view(
    sequence: u64,
    now: u64,
    switch_id: Seq<char>,
    action: Action,
    confidence: Option<Confidence>,
) -> MessageView {
    MessageView::SwitchEvent {
        version: version(),
        sequence,
        monotonic_us: now,
        switch_id,
        action,
        confidence,
    }
}

pub open spec fn send_view(client: u64, message: MessageView, on_failure: OnFailure) -> EffectView {
    EffectView::Send { client_id: client, message, on_failure }
}

pub open spec fn rejected_view(client: u64, reason: HandshakeRejectionReason) -> EffectView {
    send_view(client, MessageView::Rejected { version: version(), reason }, OnFailure::Disconnect)
}

/// The rejection a handshake receives, checked in this order.
pub open spec fn rejection(
    handshake: Handshake,
    session_active: bool,
) -> Option<HandshakeRejectionReason> {
    if handshake.protocol_version@ != version() {
        Some(HandshakeRejectionReason::ProtocolMismatch)
    } else if !is_valid_app_id(encode_utf8(handshake.app_id@)) {
        Some(HandshakeRejectionReason::InvalidAppId)
    } else if !(handshake.requested_mode is ExclusiveForeground) {
        Some(HandshakeRejectionReason::UnsupportedMode)
    } else if session_active {
        Some(HandshakeRejectionReason::SessionBusy)
    } else {
        None
    }
}

impl BrokerModel {
    pub open spec fn wf(self) -> bool {
        self.switches.wf()
    }

    /// Room to number every event one call can emit without overflow.
    pub open spec fn has_room(self) -> bool {
        self.sequence + self.switches.switches.len() + 1 <= u64::MAX
    }

    /// Room to number a release of every switch.
    pub open spec fn has_release_room(self) -> bool {
        self.sequence + self.switches.switches.len() <= u64::MAX
    }

    /// The releases of every pressed switch, numbered after the last event.
    pub open spec fn release_events(self, now: u64) -> Seq<MessageView> {
        let p = self.switches.pressed_switches();
        Seq::new(
            p.len(),
            |i: int| event_view((self.sequence + 1 + i) as u64, now, p[i], Action::Released, None),
        )
    }

    /// Every switch released, the releases numbered.
    pub open spec fn released(self) -> BrokerModel {
        BrokerModel {
            switches: self.switches.all_released(),
            sequence: (self.sequence + self.switches.pressed_switches().len()) as u64,
            ..self
        }
    }

    /// Revocation: capture paused, held state released, and the session's
    /// client (if connected) told of the releases and then of the revocation.
    pub open spec fn revoke(self, reason: SessionRevocationReason, now: u64) -> (
        BrokerModel,
        Seq<EffectView>,
    ) {
        match self.session {
            None => (self, Seq::empty()),
            Some(s) => {
                let after = BrokerModel {
                    session: None,
                    escape: Map::empty(),
                    paused: true,
                    ..self.released()
                };
                let messages = self.release_events(now).push(
                    MessageView::Revoked { version: version(), session_id: s.session_id, reason },
                );
                let sends = if self.clients.contains(s.client_id) {
                    messages.map_values(
                        |m: MessageView| send_view(s.client_id, m, OnFailure::Disconnect),
                    )
                } else {
                    Seq::empty()
                };
                (after, seq![EffectView::PauseCapture] + sends)
            },
        }
    }

    /// A physical edge: ignored while paused or while capture is disabled;
    /// otherwise applied to the switch state, and a logical transition is
    /// numbered and sent to the session's client, or broadcast when there is
    /// no session.
    pub open spec fn input(
        self,
        mapping_id: Seq<char>,
        action: Action,
        confidence: Option<Confidence>,
        capture_enabled: bool,
        now: u64,
    ) -> (BrokerModel, Seq<EffectView>) {
        if self.paused || !capture_enabled {
            (self, Seq::empty())
        } else {
            let (sw, o) = self.switches.step(mapping_id, action);
            match o {
                StepOutcome::Emitted(s) => {
                    let numbered = BrokerModel {
                        switches: sw,
                        sequence: (self.sequence + 1) as u64,
                        escape: if action == Action::Pressed {
                            self.escape.insert(s, now)
                        } else {
                            self.escape.remove(s)
                        },
                        ..self
                    };
                    let message = event_view(numbered.sequence, now, s, action, validated(confidence));
                    match self.session {
                        None => (numbered, seq![EffectView::Broadcast(message)]),
                        Some(session) => if self.clients.contains(session.client_id) {
                            (
                                numbered,
                                seq![send_view(session.client_id, message, OnFailure::RevokeSession)],
                            )
                        } else {
                            numbered.revoke(SessionRevocationReason::QueueOverflow, now)
                        },
                    }
                },
                _ => (BrokerModel { switches: sw, ..self }, Seq::empty()),
            }
        }
    }

    /// The first half of a handshake: a rejection, or a request to resume
    /// capture when paused, or else the release of all held legacy state.
    pub open spec fn handshake(self, client: u64, handshake: Handshake, now: u64) -> (
        BrokerModel,
        PlanView,
    ) {
        match rejection(handshake, self.session is Some) {
            Some(reason) => (self, PlanView::Done(seq![rejected_view(client, reason)])),
            None => if self.paused {
                (self, PlanView::Resume)
            } else {
                (
                    self.released(),
                    PlanView::Release(
                        self.release_events(now).map_values(|m: MessageView| EffectView::Broadcast(m)),
                    ),
                )
            },
        }
    }

    /// The end of a handshake: a client that disconnected meanwhile leaves
    /// capture paused; otherwise the session starts with a fresh escape
    /// tracker and the client is told it was accepted.
    pub open spec fn accept(self, client: u64, pid: Option<u32>, session_id: Seq<char>, now: u64) -> (
        BrokerModel,
        Seq<EffectView>,
    ) {
        if self.session is Some {
            (self, seq![rejected_view(client, HandshakeRejectionReason::SessionBusy)])
        } else if !self.clients.contains(client) {
            (BrokerModel { paused: true, ..self }, seq![EffectView::PauseCapture])
        } else {
            (
                BrokerModel {
                    paused: false,
                    escape: Map::empty(),
                    session: Some(
                        SessionView { client_id: client, session_id, pid, last_heartbeat_us: now },
                    ),
                    ..self
                },
                seq![
                    send_view(
                        client,
                        MessageView::Accepted {
                            version: version(),
                            session_id,
                            heartbeat_interval_ms: HEARTBEAT_INTERVAL_MS,
                            missed_heartbeat_limit: MISSED_HEARTBEAT_LIMIT,
                        },
                        OnFailure::RevokeSession,
                    ),
                ],
            )
        }
    }

    /// A new connection gets the next client id; it becomes a client only
    /// when its `hello` was queued.
    pub open spec fn register(self, hello_delivered: bool) -> (BrokerModel, u64) {
        (
            BrokerModel {
                next_client: (self.next_client + 1) as u64,
                clients: if hello_delivered {
                    self.clients.insert(self.next_client)
                } else {
                    self.clients
                },
                ..self
            },
            self.next_client,
        )
    }

    /// A heartbeat renews the lease only when it names the session's client
    /// and session id.
    pub open spec fn heartbeat(self, client: u64, session_id: Seq<char>, now: u64) -> BrokerModel {
        match self.session {
            Some(s) => if s.client_id == client && s.session_id == session_id {
                BrokerModel {
                    session: Some(SessionView { last_heartbeat_us: now, ..s }),
                    ..self
                }
            } else {
                self
            },
            None => self,
        }
    }

    /// A change of the frontmost application revokes a session bound to a
    /// different process.
    pub open spec fn focus_changed(self, frontmost_pid: Option<u32>, now: u64) -> (
        BrokerModel,
        Seq<EffectView>,
    ) {
        match self.session {
            Some(s) => match s.pid {
                Some(pid) => if Some(pid) != frontmost_pid {
                    self.revoke(SessionRevocationReason::FocusLost, now)
                } else {
                    (self, Seq::empty())
                },
                None => (self, Seq::empty()),
            },
            None => (self, Seq::empty()),
        }
    }

    /// Whether some switch has been held for the escape-hatch time.
    pub open spec fn escape_due(self, now: u64) -> bool {
        exists|k: Seq<char>|
            #![trigger self.escape[k]]
            self.escape.contains_key(k) && now - self.escape[k] >= escape_hold_us()
    }

    /// The periodic check: a session without a recent heartbeat times out;
    /// otherwise a sustained hold triggers the escape hatch.
    pub open spec fn tick(self, now: u64) -> (BrokerModel, Seq<EffectView>) {
        match self.session {
            None => (self, Seq::empty()),
            Some(s) => if now - s.last_heartbeat_us >= heartbeat_timeout_us() {
                self.revoke(SessionRevocationReason::HeartbeatTimeout, now)
            } else if self.escape_due(now) {
                self.revoke(SessionRevocationReason::EscapeHatch, now)
            } else {
                (self, Seq::empty())
            },
        }
    }

    /// A client leaves; if it held the session, the session is revoked.
    pub open spec fn unregister(self, client: u64, now: u64) -> (BrokerModel, Seq<EffectView>) {
        let left = BrokerModel { clients: self.clients.remove(client), ..self };
        match self.session {
            Some(s) => if s.client_id == client {
                left.revoke(SessionRevocationReason::ExplicitRevocation, now)
            } else {
                (left, Seq::empty())
            },
            None => (left, Seq::empty()),
        }
    }

    /// A message could not be queued for `client`.
    pub open spec fn delivery_failed(self, client: u64, on_failure: OnFailure, now: u64) -> (
        BrokerModel,
        Seq<EffectView>,
    ) {
        let left = BrokerModel { clients: self.clients.remove(client), ..self };
        match on_failure {
            OnFailure::Disconnect => (left, Seq::empty()),
            OnFailure::RevokeSession => left.revoke(SessionRevocationReason::QueueOverflow, now),
        }
    }
}

pub open spec fn escape_pairs(v: Seq<(String, u64)>) -> Seq<(Seq<char>, u64)> {
    v.map_values(|e: (String, u64)| (e.0@, e.1))
}

pub open spec fn distinct_keys(v: Seq<(Seq<char>, u64)>) -> bool {
    forall|i: int, j: int| 0 <= i < j < v.len() ==> (#[trigger] v[i]).0 != (#[trigger] v[j]).0
}

/// The pairs whose key is not `k`, in order.
pub open spec fn drop_key(v: Seq<(Seq<char>, u64)>, k: Seq<char>) -> Seq<(Seq<char>, u64)>
    decreases v.len(),
{
    if v.len() == 0 {
        v
    } else if v.last().0 == k {
        drop_key(v.drop_last(), k)
    } else {
        drop_key(v.drop_last(), k).push(v.last())
    }
}

/// Dropping every pair with key `k` removes `k` from the table, keeps keys
/// distinct and keeps only pairs of the given table.
proof fn lemma_drop_key(v: Seq<(Seq<char>, u64)>, k: Seq<char>)
    ensures
        last_wins(drop_key(v, k)) == last_wins(v).remove(k),
        distinct_keys(v) ==> distinct_keys(drop_key(v, k)),
        forall|i: int| 0 <= i < drop_key(v, k).len() ==> #[trigger] drop_key(v, k)[i].0 != k && v.contains(drop_key(v, k)[i]),
    decreases v.len(),
{
    if v.len() == 0 {
        assert(last_wins(v).remove(k) =~= Map::<Seq<char>, u64>::empty());
    } else {
        let init = v.drop_last();
        lemma_drop_key(init, k);
        let d = drop_key(v, k);
        let di = drop_key(init, k);
        if v.last().0 == k {
            assert(d == di);
            assert(last_wins(v) == last_wins(init).insert(k, v.last().1));
            assert(last_wins(v).remove(k) =~= last_wins(init).remove(k));
            assert forall|i: int| 0 <= i < d.len() implies #[trigger] d[i].0 != k && v.contains(d[i]) by {
                assert(drop_key(init, k)[i].0 != k);
                assert(init.contains(d[i]));
                let j = choose|j: int| 0 <= j < init.len() && init[j] == d[i];
                assert(v[j] == init[j]);
            }
            if distinct_keys(v) {
                assert forall|i: int, j: int| 0 <= i < j < init.len() implies (#[trigger] init[i]).0 != (#[trigger] init[j]).0 by {
                    assert(init[i] == v[i] && init[j] == v[j]);
                }
            }
        } else {
            assert(last_wins(v).remove(k) =~= last_wins(init).remove(k).insert(v.last().0, v.last().1));
            assert(d == di.push(v.last()));
            assert(d.drop_last() =~= di);
            assert(last_wins(d) == last_wins(di).insert(v.last().0, v.last().1));
            assert forall|i: int| 0 <= i < d.len() implies #[trigger] d[i].0 != k && v.contains(d[i]) by {
                if i < di.len() {
                    assert(d[i] == di[i]);
                    assert(drop_key(init, k)[i].0 != k);
                    assert(init.contains(di[i]));
                    let j = choose|j: int| 0 <= j < init.len() && init[j] == di[i];
                    assert(v[j] == init[j]);
                } else {
                    assert(d[i] == v.last());
                    assert(v[v.len() - 1] == v.last());
                }
            }
            if distinct_keys(v) {
                assert forall|i: int, j: int| 0 <= i < j < init.len() implies (#[trigger] init[i]).0 != (#[trigger] init[j]).0 by {
                    assert(init[i] == v[i] && init[j] == v[j]);
                }
                assert forall|i: int, j: int| 0 <= i < j < d.len() implies (#[trigger] d[i]).0 != (#[trigger] d[j]).0 by {
                    if j == di.len() {
                        assert(d[i] == di[i]);
                        assert(drop_key(init, k)[i].0 != k);
                        assert(init.contains(di[i]));
                        let a = choose|a: int| 0 <= a < init.len() && init[a] == di[i];
                        assert(v[a] == init[a]);
                        assert(d[j] == v[v.len() - 1]);
                    } else {
                        assert(d[i] == di[i] && d[j] == di[j]);
                    }
                }
            }
        }
    }
}

/// With distinct keys, the table holds exactly the pairs.
proof fn lemma_distinct_table(v: Seq<(Seq<char>, u64)>)
    requires
        distinct_keys(v),
    ensures
        forall|i: int| 0 <= i < v.len() ==> #[trigger] last_wins(v).contains_key(v[i].0) && last_wins(v)[v[i].0] == v[i].1,
        forall|k: Seq<char>| #[trigger] last_wins(v).contains_key(k) ==> exists|i: int| 0 <= i < v.len() && (#[trigger] v[i]).0 == k,
{
    assert forall|i: int| 0 <= i < v.len() implies #[trigger] last_wins(v).contains_key(v[i].0) && last_wins(v)[v[i].0] == v[i].1 by {
        lemma_last_wins(v, v[i].0);
        assert forall|j: int| i < j < v.len() implies (#[trigger] v[j]).0 != v[i].0 by {}
    }
    assert forall|k: Seq<char>| #[trigger] last_wins(v).contains_key(k) implies exists|i: int| 0 <= i < v.len() && (#[trigger] v[i]).0 == k by {
        lemma_last_wins(v, k);
    }
}

/// Whether `c` is a lower-case hexadecimal digit.
pub open spec fn is_lower_hex(c: char) -> bool {
    ('0' <= c && c <= '9') || ('a' <= c && c <= 'f')
}

/// The hyphenated lower-case text of a random (version 4, RFC 9562 variant)
/// UUID: groups of 8, 4, 4, 4 and 12 hex digits joined by hyphens, the
/// version digit `4` opening the third group and the variant digit (one of
/// `8`, `9`, `a`, `b`) opening the fourth.
pub open spec fn is_v4_uuid_text(s: Seq<char>) -> bool {
    &&& s.len() == 36
    &&& forall|i: int|
        0 <= i < 36 ==> (if i == 8 || i == 13 || i == 18 || i == 23 {
            #[trigger] s[i] == '-'
        } else {
            is_lower_hex(s[i])
        })
    &&& s[14] == '4'
    &&& (s[19] == '8' || s[19] == '9' || s[19] == 'a' || s[19] == 'b')
}

/// The lower-case hexadecimal digit of a value below 16.
pub open spec fn hex_digit(n: int) -> char {
    seq!['0', '1', '2', '3', '4', '5', '6', '7', '8', '9', 'a', 'b', 'c', 'd', 'e', 'f'][n]
}

/// Byte `i` of the version 4 UUID made from `random`: the high nibble of
/// byte 6 becomes the version 4, and the two high bits of byte 8 become the
/// RFC 9562 variant `10`; every other byte is kept.
pub open spec fn v4_byte(random: Seq<u8>, i: int) -> int {
    if i == 6 {
        random[6] % 16 + 64
    } else if i == 8 {
        random[8] % 64 + 128
    } else {
        random[i] as int
    }
}

/// Hex digit `j` (of 32) of that UUID, high nibble of each byte first.
pub open spec fn v4_nibble(random: Seq<u8>, j: int) -> int {
    if j % 2 == 0 {
        v4_byte(random, j / 2) / 16
    } else {
        v4_byte(random, j / 2) % 16
    }
}

/// The 32 hex digits of the version 4 UUID made from `random`.
pub open spec fn v4_hex(random: Seq<u8>) -> Seq<char> {
    Seq::new(32, |j: int| hex_digit(v4_nibble(random, j)))
}

/// The hyphenated lower-case text of the version 4 UUID made from 16 random
/// bytes: its hex digits in groups of 8, 4, 4, 4 and 12.
pub open spec fn v4_uuid_text(random: Seq<u8>) -> Seq<char> {
    let h = v4_hex(random);
    h.subrange(0, 8) + seq!['-'] + h.subrange(8, 12) + seq!['-'] + h.subrange(12, 16) + seq!['-']
        + h.subrange(16, 20) + seq!['-'] + h.subrange(20, 32)
}

/// Every session identifier is the text of a random (version 4) UUID:
/// 36 characters, hyphens between the groups, lower-case hex digits
/// elsewhere, the version digit 4 and a variant digit 8, 9, a or b.
pub proof fn lemma_session_ids_are_v4_uuids(random: Seq<u8>)
    requires
        random.len() == 16,
    ensures
        is_v4_uuid_text(v4_uuid_text(random)),
{
    let h = v4_hex(random);
    let t = v4_uuid_text(random);
    assert forall|j: int| 0 <= j < 32 implies is_lower_hex(#[trigger] h[j]) by {
        let v = v4_byte(random, j / 2);
        assert(0 <= v < 256);
        let n = v4_nibble(random, j);
        assert(0 <= n < 16);
    }
    assert(t.len() == 36);
    assert forall|i: int|
        0 <= i < 36 implies (if i == 8 || i == 13 || i == 18 || i == 23 {
            #[trigger] t[i] == '-'
        } else {
            is_lower_hex(t[i])
        }) by {
        if i < 8 {
            assert(t[i] == h[i]);
        } else if i == 8 {
        } else if i < 13 {
            assert(t[i] == h[i - 1]);
        } else if i == 13 {
        } else if i < 18 {
            assert(t[i] == h[i - 2]);
        } else if i == 18 {
        } else if i < 23 {
            assert(t[i] == h[i - 3]);
        } else if i == 23 {
        } else {
            assert(t[i] == h[i - 4]);
        }
    }
    assert(t[14] == h[12]);
    assert(v4_nibble(random, 12) == 4);
    assert(t[19] == h[16]);
    let n16 = v4_nibble(random, 16);
    assert(8 <= n16 < 12);
}

/// The identifier of a new managed session, made from 16 random bytes.
///
/// Calls `uuid::Builder::from_random_bytes`, which sets the version (4) and
/// variant bits, takes the UUID with `into_uuid`, and formats it with
/// `Display`, which writes the bytes in order as hyphenated lower-case hex.
/// The contract states that text exactly.
#[verifier::external_body]
fn session_id_from(random: [u8; 16]) -> (id: String)
    ensures
        id@ == v4_uuid_text(random@),
{
    uuid::Builder::from_random_bytes(random).into_uuid().to_string()
}

struct Session {
    client_id: u64,
    session_id: String,
    pid: Option<u32>,
    last_heartbeat_us: u64,
}

/// The broker's routing and session state.
pub struct Broker {
    state: SwitchStateMachine,
    sequence: u64,
    next_client: u64,
    clients: HashSet<u64>,
    session: Option<Session>,
    paused: bool,
    escape: Vec<(String, u64)>,
}

impl View for Broker {
    type V = BrokerModel;

    closed spec fn view(&self) -> BrokerModel {
        BrokerModel {
            switches: self.state@,
            sequence: self.sequence,
            next_client: self.next_client,
            clients: self.clients@,
            session: match self.session {
                Some(s) => Some(
                    SessionView {
                        client_id: s.client_id,
                        session_id: s.session_id@,
                        pid: s.pid,
                        last_heartbeat_us: s.last_heartbeat_us,
                    },
                ),
                None => None,
            },
            paused: self.paused,
            escape: last_wins(escape_pairs(self.escape@)),
        }
    }
}

/// Wraps each message in a send to `client`.
fn sends_to(msgs: Vec<ServerMessage>, client: u64, on_failure: OnFailure) -> (effects: Vec<Effect>)
    ensures
        effect_views(effects@) == msgs@.map_values(|m: ServerMessage| m@).map_values(
            |m: MessageView| send_view(client, m, on_failure),
        ),
{
    let ghost orig = msgs@;
    let mut msgs = msgs;
    let mut effects: Vec<Effect> = Vec::new();
    let n = msgs.len();
    let mut k: usize = 0;
    while msgs.len() > 0
        invariant
            k <= n,
            n == orig.len(),
            msgs@ == orig.skip(k as int),
            effect_views(effects@) == orig.take(k as int).map_values(|m: ServerMessage| m@).map_values(
                |m: MessageView| send_view(client, m, on_failure),
            ),
        decreases msgs@.len(),
    {
        let m = msgs.remove(0);
        proof {
            assert(orig.skip(k as int)[0] == orig[k as int]);
            assert(orig.skip(k as int).subrange(1, orig.skip(k as int).len() as int) =~= orig.skip(k + 1));
        }
        let ghost before = effects@;
        effects.push(Effect::Send { client_id: client, message: m, on_failure });
        k = k + 1;
        proof {
            assert(effect_views(effects@) =~= effect_views(before).push(send_view(client, m@, on_failure)));
            assert(orig.take(k as int) =~= orig.take(k - 1).push(orig[k - 1]));
            assert(orig.take(k as int).map_values(|m: ServerMessage| m@).map_values(
                |m: MessageView| send_view(client, m, on_failure),
            ) =~= orig.take(k - 1).map_values(|m: ServerMessage| m@).map_values(
                |m: MessageView| send_view(client, m, on_failure),
            ).push(send_view(client, m@, on_failure)));
        }
    }
    proof {
        assert(orig.skip(k as int).len() == 0);
        assert(orig.take(k as int) =~= orig);
    }
    effects
}

/// Wraps each message in a broadcast.
fn broadcasts(msgs: Vec<ServerMessage>) -> (effects: Vec<Effect>)
    ensures
        effect_views(effects@) == msgs@.map_values(|m: ServerMessage| m@).map_values(
            |m: MessageView| EffectView::Broadcast(m),
        ),
{
    let ghost orig = msgs@;
    let mut msgs = msgs;
    let mut effects: Vec<Effect> = Vec::new();
    let n = msgs.len();
    let mut k: usize = 0;
    while msgs.len() > 0
        invariant
            k <= n,
            n == orig.len(),
            msgs@ == orig.skip(k as int),
            effect_views(effects@) == orig.take(k as int).map_values(|m: ServerMessage| m@).map_values(
                |m: MessageView| EffectView::Broadcast(m),
            ),
        decreases msgs@.len(),
    {
        let m = msgs.remove(0);
        proof {
            assert(orig.skip(k as int)[0] == orig[k as int]);
            assert(orig.skip(k as int).subrange(1, orig.skip(k as int).len() as int) =~= orig.skip(k + 1));
        }
        let ghost before = effects@;
        effects.push(Effect::Broadcast(m));
        k = k + 1;
        proof {
            assert(effect_views(effects@) =~= effect_views(before).push(EffectView::Broadcast(m@)));
            assert(orig.take(k as int) =~= orig.take(k - 1).push(orig[k - 1]));
            assert(orig.take(k as int).map_values(|m: ServerMessage| m@).map_values(
                |m: MessageView| EffectView::Broadcast(m),
            ) =~= orig.take(k - 1).map_values(|m: ServerMessage| m@).map_values(
                |m: MessageView| EffectView::Broadcast(m),
            ).push(EffectView::Broadcast(m@)));
        }
    }
    proof {
        assert(orig.skip(k as int).len() == 0);
        assert(orig.take(k as int) =~= orig);
    }
    effects
}

pub open spec fn message_views(v: Seq<ServerMessage>) -> Seq<MessageView> {
    v.map_values(|m: ServerMessage| m@)
}

/// The snapshot of every switch, in switch order.
pub open spec fn snapshot_views(m: SwitchModel) -> Seq<SnapshotView> {
    Seq::new(
        m.switches.len(),
        |i: int|
            SnapshotView {
                switch_id: m.switches[i],
                state: if crate::state::is_pressed(m.held[i]) {
                    crate::protocol::SwitchState::Pressed
                } else {
                    crate::protocol::SwitchState::Released
                },
                confidence: None,
            },
    )
}

fn rejected(client_id: u64, reason: HandshakeRejectionReason) -> (e: Effect)
    ensures
        e@ == rejected_view(client_id, reason),
{
    Effect::Send {
        client_id,
        message: ServerMessage::HandshakeResponse(
            HandshakeResponse::Rejected { protocol_version: PROTOCOL_VERSION.to_owned(), reason },
        ),
        on_failure: OnFailure::Disconnect,
    }
}

impl Broker {
    /// The broker's internal invariant, kept by every operation.
    pub closed spec fn wf(&self) -> bool {
        &&& self.state.wf()
        &&& distinct_keys(escape_pairs(self.escape@))
    }

    /// The invariant gives a well-formed model.
    pub proof fn lemma_wf(&self)
        requires
            self.wf(),
        ensures
            self@.wf(),
    {
        self.state.lemma_wf();
    }

    /// A broker for `mappings`: every switch released, no client, no
    /// session, capture running, no event numbered yet.
    pub fn new(mappings: &[Mapping]) -> (b: Broker)
        ensures
            b.wf(),
            b@.wf(),
            b@.switches.routes == crate::state::route_table(crate::state::mapping_pairs(mappings@)),
            forall|s: Seq<char>| #[trigger]
                b@.switches.switches.contains(s) <==> crate::state::feeds(mappings@, s),
            b@.switches.held == Seq::new(b@.switches.switches.len(), |i: int| Set::<Seq<char>>::empty()),
            b@.sequence == 0,
            b@.next_client == 1,
            b@.clients == Set::<u64>::empty(),
            b@.session is None,
            !b@.paused,
            b@.escape == Map::<Seq<char>, u64>::empty(),
    {
        let b = Broker {
            state: SwitchStateMachine::new(mappings),
            sequence: 0,
            next_client: 1,
            clients: HashSet::new(),
            session: None,
            paused: false,
            escape: Vec::new(),
        };
        proof {
            assert(last_wins(escape_pairs(b.escape@)) =~= Map::<Seq<char>, u64>::empty()) by {
                assert(escape_pairs(b.escape@).len() == 0);
            }
        }
        b
    }

    /// Whether there is room to number every event one call can emit.
    pub fn has_room(&self) -> (r: bool)
        requires
            self.wf(),
        ensures
            r == self@.has_room(),
    {
        let n = self.state.switch_count();
        (n as u128) + (self.sequence as u128) + 1 <= (u64::MAX as u128)
    }

    /// Whether there is room to number a release of every switch.
    pub fn has_release_room(&self) -> (r: bool)
        requires
            self.wf(),
        ensures
            r == self@.has_release_room(),
    {
        let n = self.state.switch_count();
        (n as u128) + (self.sequence as u128) <= (u64::MAX as u128)
    }

    /// Whether another client id can be handed out.
    pub fn can_register(&self) -> (r: bool)
        ensures
            r == (self@.next_client < u64::MAX),
    {
        self.next_client < u64::MAX
    }

    /// The `hello` every new connection receives first.
    pub fn hello(&self) -> (msg: ServerMessage)
        requires
            self.wf(),
        ensures
            msg@ == (MessageView::Hello { version: version(), switches: snapshot_views(self@.switches) }),
    {
        let snaps = self.state.snapshots();
        let msg = ServerMessage::Hello(Hello { protocol_version: PROTOCOL_VERSION.to_owned(), switches: snaps });
        proof {
            assert(snaps@.map_values(|s: SwitchSnapshot| s@) =~= snapshot_views(self@.switches));
        }
        msg
    }

    /// Hands out the next client id; the client is registered only when its
    /// `hello` was queued.
    pub fn register(&mut self, hello_delivered: bool) -> (client_id: u64)
        requires
            old(self).wf(),
            old(self)@.next_client < u64::MAX,
        ensures
            final(self).wf(),
            (final(self)@, client_id) == old(self)@.register(hello_delivered),
    {
        let client_id = self.next_client;
        self.next_client = self.next_client + 1;
        if hello_delivered {
            self.clients.insert(client_id);
        }
        proof {
            assert(self@ =~= old(self)@.register(hello_delivered).0);
        }
        client_id
    }

    fn has_client(&self, client_id: u64) -> (r: bool)
        ensures
            r == self@.clients.contains(client_id),
    {
        self.clients.contains(&client_id)
    }

    fn remove_client(&mut self, client_id: u64)
        requires
            old(self).wf(),
        ensures
            final(self).wf(),
            final(self)@ == (BrokerModel { clients: old(self)@.clients.remove(client_id), ..old(self)@ }),
    {
        self.clients.remove(&client_id);
        proof {
            assert(self@ =~= (BrokerModel { clients: old(self)@.clients.remove(client_id), ..old(self)@ }));
        }
    }

    fn escape_remove(&mut self, key: &str)
        requires
            old(self).wf(),
        ensures
            final(self).wf(),
            final(self)@ == (BrokerModel { escape: old(self)@.escape.remove(key@), ..old(self)@ }),
    {
        let ghost pairs = escape_pairs(self.escape@);
        let n = self.escape.len();
        let mut kept: Vec<(String, u64)> = Vec::new();
        let mut i: usize = 0;
        while i < n
            invariant
                i <= n,
                n == self.escape@.len(),
                pairs == escape_pairs(self.escape@),
                escape_pairs(kept@) == drop_key(pairs.take(i as int), key@),
            decreases n - i,
        {
            let ghost before = kept@;
            proof {
                assert(pairs.take(i + 1).drop_last() =~= pairs.take(i as int));
                assert(pairs.take(i + 1).last() == pairs[i as int]);
            }
            if !same_text(self.escape[i].0.as_str(), key) {
                let entry = (self.escape[i].0.clone(), self.escape[i].1);
                kept.push(entry);
                proof {
                    assert(escape_pairs(kept@) =~= escape_pairs(before).push(pairs[i as int]));
                }
            }
            i = i + 1;
        }
        proof {
            assert(pairs.take(n as int) =~= pairs);
            lemma_drop_key(pairs, key@);
        }
        self.escape = kept;
        proof {
            assert(self@ =~= (BrokerModel { escape: old(self)@.escape.remove(key@), ..old(self)@ }));
        }
    }

    fn escape_insert(&mut self, key: String, at: u64)
        requires
            old(self).wf(),
        ensures
            final(self).wf(),
            final(self)@ == (BrokerModel { escape: old(self)@.escape.insert(key@, at), ..old(self)@ }),
    {
        self.escape_remove(key.as_str());
        let ghost mid = escape_pairs(self.escape@);
        let ghost k = key@;
        self.escape.push((key, at));
        proof {
            let pairs = escape_pairs(self.escape@);
            assert(pairs =~= mid.push((k, at)));
            assert(pairs.drop_last() =~= mid);
            lemma_distinct_table(mid);
            assert forall|i: int, j: int| 0 <= i < j < pairs.len() implies (#[trigger] pairs[i]).0 != (#[trigger] pairs[j]).0 by {
                if j == mid.len() {
                    assert(pairs[i] == mid[i]);
                    assert(last_wins(mid).contains_key(mid[i].0));
                } else {
                    assert(pairs[i] == mid[i] && pairs[j] == mid[j]);
                }
            }
            assert(last_wins(pairs) == last_wins(mid).insert(k, at));
            assert(last_wins(mid).remove(k).insert(k, at) =~= old(self)@.escape.insert(k, at));
            assert(self@ =~= (BrokerModel { escape: old(self)@.escape.insert(k, at), ..old(self)@ }));
        }
    }

    fn escape_due(&self, now_us: u64) -> (due: bool)
        requires
            self.wf(),
        ensures
            due == self@.escape_due(now_us),
    {
        let ghost pairs = escape_pairs(self.escape@);
        proof {
            lemma_distinct_table(pairs);
        }
        let n = self.escape.len();
        let mut i: usize = 0;
        while i < n
            invariant
                i <= n,
                n == self.escape@.len(),
                pairs == escape_pairs(self.escape@),
                self.wf(),
                forall|j: int| 0 <= j < i ==> now_us - (#[trigger] pairs[j]).1 < escape_hold_us(),
            decreases n - i,
        {
            let t = self.escape[i].1;
            if now_us >= t && now_us - t >= ESCAPE_HOLD_MS * 1000 {
                proof {
                    let k = pairs[i as int].0;
                    assert(pairs[i as int] == (self.escape@[i as int].0@, self.escape@[i as int].1));
                    lemma_distinct_table(pairs);
                    assert(last_wins(pairs).contains_key(pairs[i as int].0));
                    assert(last_wins(pairs).contains_key(k) && last_wins(pairs)[k] == pairs[i as int].1);
                    assert(self@.escape[k] == t);
                }
                return true;
            }
            i = i + 1;
        }
        proof {
            if self@.escape_due(now_us) {
                let k = choose|k: Seq<char>| #![trigger self@.escape[k]] self@.escape.contains_key(k) && now_us - self@.escape[k] >= escape_hold_us();
                assert(last_wins(pairs).contains_key(k));
                let j = choose|j: int| 0 <= j < pairs.len() && (#[trigger] pairs[j]).0 == k;
                assert(last_wins(pairs)[pairs[j].0] == pairs[j].1);
            }
        }
        false
    }

    fn release_messages(&mut self, now_us: u64) -> (msgs: Vec<ServerMessage>)
        requires
            old(self).wf(),
            old(self)@.has_release_room(),
        ensures
            final(self).wf(),
            final(self)@ == old(self)@.released(),
            message_views(msgs@) == old(self)@.release_events(now_us),
    {
        let ghost m = self@;
        proof {
            self.lemma_wf();
            crate::state::lemma_pressed_prefix_len(m.switches, m.switches.switches.len() as int);
        }
        let releases = self.state.release_all();
        let n = releases.len();
        let mut msgs: Vec<ServerMessage> = Vec::new();
        proof {
            assert(self@ =~= BrokerModel { sequence: self.sequence, ..m.released() });
        }
        for i in 0..n
            invariant
                self.wf(),
                self@ == (BrokerModel { sequence: self.sequence, ..m.released() }),
                n == releases@.len(),
                n == m.switches.pressed_switches().len(),
                m.sequence + n <= u64::MAX,
                self.sequence == m.sequence + i,
                forall|j: int| 0 <= j < n ==> transition_is(#[trigger] releases@[j], m.switches.pressed_switches()[j], Action::Released),
                message_views(msgs@) == m.release_events(now_us).take(i as int),
        {
            self.sequence = self.sequence + 1;
            let ghost before = msgs@;
            let msg = ServerMessage::SwitchEvent(
                SwitchEvent {
                    protocol_version: PROTOCOL_VERSION.to_owned(),
                    sequence: self.sequence,
                    monotonic_us: now_us,
                    switch_id: releases[i].switch_id.clone(),
                    action: Action::Released,
                    confidence: None,
                },
            );
            msgs.push(msg);
            proof {
                assert(message_views(msgs@) =~= message_views(before).push(msg@));
                assert(m.release_events(now_us).take(i + 1) =~= m.release_events(now_us).take(i as int).push(m.release_events(now_us)[i as int]));
            }
        }
        proof {
            assert(m.release_events(now_us).take(n as int) =~= m.release_events(now_us));
            assert(self@ =~= m.released());
        }
        msgs
    }

    fn revoke(&mut self, reason: SessionRevocationReason, now_us: u64) -> (effects: Vec<Effect>)
        requires
            old(self).wf(),
            old(self)@.has_release_room(),
        ensures
            final(self).wf(),
            final(self)@ == old(self)@.revoke(reason, now_us).0,
            effect_views(effects@) == old(self)@.revoke(reason, now_us).1,
    {
        let ghost m = self@;
        let session = match self.session.take() {
            Some(s) => s,
            None => {
                return Vec::new();
            },
        };
        self.escape = Vec::new();
        self.paused = true;
        proof {
            assert(last_wins(escape_pairs(self.escape@)) =~= Map::<Seq<char>, u64>::empty()) by {
                assert(escape_pairs(self.escape@).len() == 0);
            }
            assert(self@.has_release_room());
        }
        let releases = self.release_messages(now_us);
        let mut effects: Vec<Effect> = Vec::new();
        effects.push(Effect::PauseCapture);
        if self.has_client(session.client_id) {
            let mut msgs = releases;
            let ghost rel = msgs@;
            msgs.push(
                ServerMessage::SessionRevoked(
                    SessionRevoked {
                        protocol_version: PROTOCOL_VERSION.to_owned(),
                        session_id: session.session_id,
                        reason,
                    },
                ),
            );
            proof {
                assert(message_views(msgs@) =~= message_views(rel).push(msgs@[msgs@.len() - 1]@));
            }
            let mut sends = sends_to(msgs, session.client_id, OnFailure::Disconnect);
            effects.append(&mut sends);
        }
        proof {
            let expected = m.revoke(reason, now_us);
            assert(self@ =~= expected.0);
            assert(effect_views(effects@) =~= expected.1);
        }
        effects
    }

    /// Revokes the managed session, if there is one, for `reason`.
    pub fn revoke_session(&mut self, reason: SessionRevocationReason, now_us: u64) -> (effects: Vec<
        Effect,
    >)
        requires
            old(self).wf(),
            old(self)@.has_release_room(),
        ensures
            final(self).wf(),
            final(self)@ == old(self)@.revoke(reason, now_us).0,
            effect_views(effects@) == old(self)@.revoke(reason, now_us).1,
    {
        self.revoke(reason, now_us)
    }

    /// One physical edge. `capture_enabled` is whether capture is running.
    pub fn input(&mut self, event: PhysicalEvent, capture_enabled: bool, now_us: u64) -> (effects: Vec<
        Effect,
    >)
        requires
            old(self).wf(),
            old(self)@.has_room(),
        ensures
            final(self).wf(),
            final(self)@ == old(self)@.input(
                event.mapping_id@,
                event.action,
                event.confidence,
                capture_enabled,
                now_us,
            ).0,
            effect_views(effects@) == old(self)@.input(
                event.mapping_id@,
                event.action,
                event.confidence,
                capture_enabled,
                now_us,
            ).1,
    {
        let ghost m = self@;
        if self.paused || !capture_enabled {
            return Vec::new();
        }
        let confidence = match event.confidence {
            Some(c) => validate_confidence(c),
            None => None,
        };
        let r = self.state.apply(event.mapping_id.as_str(), event.action);
        proof {
            self.lemma_wf();
        }
        let t = match r {
            Ok(Some(t)) => t,
            _ => {
                proof {
                    assert(self@ =~= (BrokerModel { switches: m.switches.step(event.mapping_id@, event.action).0, ..m }));
                }
                return Vec::new();
            },
        };
        let ghost stepped = self@;
        match t.action {
            Action::Pressed => self.escape_insert(t.switch_id.clone(), now_us),
            Action::Released => self.escape_remove(t.switch_id.as_str()),
        }
        self.sequence = self.sequence + 1;
        let message = ServerMessage::SwitchEvent(
            SwitchEvent {
                protocol_version: PROTOCOL_VERSION.to_owned(),
                sequence: self.sequence,
                monotonic_us: now_us,
                switch_id: t.switch_id,
                action: t.action,
                confidence,
            },
        );
        let ghost expected = m.input(event.mapping_id@, event.action, event.confidence, capture_enabled, now_us);
        proof {
            let s = t.switch_id@;
            let numbered = BrokerModel {
                switches: m.switches.step(event.mapping_id@, event.action).0,
                sequence: (m.sequence + 1) as u64,
                escape: if event.action == Action::Pressed {
                    m.escape.insert(s, now_us)
                } else {
                    m.escape.remove(s)
                },
                ..m
            };
            assert(self@ =~= numbered);
        }
        let session_client = match &self.session {
            Some(s) => Some(s.client_id),
            None => None,
        };
        match session_client {
            None => {
                let mut effects: Vec<Effect> = Vec::new();
                effects.push(Effect::Broadcast(message));
                proof {
                    assert(effect_views(effects@) =~= expected.1);
                }
                effects
            },
            Some(c) => {
                if self.has_client(c) {
                    let mut effects: Vec<Effect> = Vec::new();
                    effects.push(Effect::Send { client_id: c, message, on_failure: OnFailure::RevokeSession });
                    proof {
                        assert(effect_views(effects@) =~= expected.1);
                    }
                    effects
                } else {
                    self.revoke(SessionRevocationReason::QueueOverflow, now_us)
                }
            },
        }
    }

    /// The first half of a handshake from `client_id`: a typed rejection, a
    /// request to reacquire paused capture, or the release of all held
    /// legacy state before the session starts.
    pub fn handshake(&mut self, client_id: u64, handshake: &Handshake, now_us: u64) -> (plan: HandshakePlan)
        requires
            old(self).wf(),
            old(self)@.has_release_room(),
        ensures
            final(self).wf(),
            final(self)@ == old(self)@.handshake(client_id, *handshake, now_us).0,
            plan@ == old(self)@.handshake(client_id, *handshake, now_us).1,
    {
        let ghost m = self@;
        let mode_ok = match handshake.requested_mode {
            RequestedMode::ExclusiveForeground => true,
            RequestedMode::Unsupported(_) => false,
        };
        let reason = if !same_text(handshake.protocol_version.as_str(), PROTOCOL_VERSION) {
            Some(HandshakeRejectionReason::ProtocolMismatch)
        } else if !valid_app_id(handshake.app_id.as_str()) {
            Some(HandshakeRejectionReason::InvalidAppId)
        } else if !mode_ok {
            Some(HandshakeRejectionReason::UnsupportedMode)
        } else if self.session.is_some() {
            Some(HandshakeRejectionReason::SessionBusy)
        } else {
            None
        };
        match reason {
            Some(r) => {
                let mut effects: Vec<Effect> = Vec::new();
                effects.push(rejected(client_id, r));
                proof {
                    assert(effect_views(effects@) =~= seq![rejected_view(client_id, r)]);
                }
                HandshakePlan::Done(effects)
            },
            None => {
                if self.paused {
                    HandshakePlan::Resume
                } else {
                    let releases = self.release_messages(now_us);
                    let effects = broadcasts(releases);
                    proof {
                        assert(effect_views(effects@) =~= m.release_events(now_us).map_values(
                            |x: MessageView| EffectView::Broadcast(x),
                        ));
                    }
                    HandshakePlan::Release(effects)
                }
            },
        }
    }

    /// Ends a handshake with the given session id: rejected as busy if a
    /// session exists; capture stays paused if the client left meanwhile;
    /// otherwise the session starts and the client is told so.
    pub fn accept_session(&mut self, client_id: u64, pid: Option<u32>, session_id: String, now_us: u64) -> (effects: Vec<Effect>)
        requires
            old(self).wf(),
        ensures
            final(self).wf(),
            final(self)@ == old(self)@.accept(client_id, pid, session_id@, now_us).0,
            effect_views(effects@) == old(self)@.accept(client_id, pid, session_id@, now_us).1,
    {
        let ghost m = self@;
        let ghost sid = session_id@;
        let mut effects: Vec<Effect> = Vec::new();
        if self.session.is_some() {
            effects.push(rejected(client_id, HandshakeRejectionReason::SessionBusy));
            proof {
                assert(effect_views(effects@) =~= m.accept(client_id, pid, sid, now_us).1);
            }
            return effects;
        }
        if !self.has_client(client_id) {
            self.paused = true;
            effects.push(Effect::PauseCapture);
            proof {
                assert(self@ =~= m.accept(client_id, pid, sid, now_us).0);
                assert(effect_views(effects@) =~= m.accept(client_id, pid, sid, now_us).1);
            }
            return effects;
        }
        self.paused = false;
        self.escape = Vec::new();
        self.session = Some(
            Session { client_id, session_id: session_id.clone(), pid, last_heartbeat_us: now_us },
        );
        effects.push(
            Effect::Send {
                client_id,
                message: ServerMessage::HandshakeResponse(
                    HandshakeResponse::Accepted {
                        protocol_version: PROTOCOL_VERSION.to_owned(),
                        session_id,
                        heartbeat_interval_ms: HEARTBEAT_INTERVAL_MS,
                        missed_heartbeat_limit: MISSED_HEARTBEAT_LIMIT,
                    },
                ),
                on_failure: OnFailure::RevokeSession,
            },
        );
        proof {
            assert(last_wins(escape_pairs(self.escape@)) =~= Map::<Seq<char>, u64>::empty()) by {
                assert(escape_pairs(self.escape@).len() == 0);
            }
            assert(self@ =~= m.accept(client_id, pid, sid, now_us).0);
            assert(effect_views(effects@) =~= m.accept(client_id, pid, sid, now_us).1);
        }
        effects
    }

    /// Ends a handshake that had to reacquire capture: `resumed` is whether
    /// every capture backend came back. On failure the client is told that
    /// capture is unavailable; on success the session starts under the
    /// version 4 UUID made from the 16 `random` bytes.
    pub fn handshake_resumed(
        &mut self,
        client_id: u64,
        pid: Option<u32>,
        resumed: bool,
        random: [u8; 16],
        now_us: u64,
    ) -> (effects: Vec<Effect>)
        requires
            old(self).wf(),
        ensures
            final(self).wf(),
            !resumed ==> final(self)@ == old(self)@ && effect_views(effects@) == seq![
                rejected_view(client_id, HandshakeRejectionReason::CaptureUnavailable),
            ],
            resumed ==> final(self)@ == old(self)@.accept(client_id, pid, v4_uuid_text(random@), now_us).0
                && effect_views(effects@) == old(self)@.accept(
                client_id,
                pid,
                v4_uuid_text(random@),
                now_us,
            ).1,
    {
        if !resumed {
            let mut effects: Vec<Effect> = Vec::new();
            effects.push(rejected(client_id, HandshakeRejectionReason::CaptureUnavailable));
            proof {
                assert(effect_views(effects@) =~= seq![
                    rejected_view(client_id, HandshakeRejectionReason::CaptureUnavailable),
                ]);
            }
            return effects;
        }
        let session_id = session_id_from(random);
        self.accept_session(client_id, pid, session_id, now_us)
    }

    /// Ends a handshake whose legacy releases were broadcast: the session
    /// starts under the version 4 UUID made from the 16 `random` bytes.
    pub fn handshake_released(
        &mut self,
        client_id: u64,
        pid: Option<u32>,
        random: [u8; 16],
        now_us: u64,
    ) -> (effects: Vec<Effect>)
        requires
            old(self).wf(),
        ensures
            final(self).wf(),
            final(self)@ == old(self)@.accept(client_id, pid, v4_uuid_text(random@), now_us).0,
            effect_views(effects@) == old(self)@.accept(client_id, pid, v4_uuid_text(random@), now_us).1,
    {
        let session_id = session_id_from(random);
        self.accept_session(client_id, pid, session_id, now_us)
    }

    /// A heartbeat from `client_id` naming `session_id`.
    pub fn heartbeat(&mut self, client_id: u64, session_id: &str, now_us: u64)
        requires
            old(self).wf(),
        ensures
            final(self).wf(),
            final(self)@ == old(self)@.heartbeat(client_id, session_id@, now_us),
    {
        let ghost m = self@;
        let matches = match &self.session {
            Some(s) => s.client_id == client_id && same_text(s.session_id.as_str(), session_id),
            None => false,
        };
        if matches {
            let s = self.session.take().unwrap();
            self.session = Some(Session { last_heartbeat_us: now_us, ..s });
        }
        proof {
            assert(self@ =~= m.heartbeat(client_id, session_id@, now_us));
        }
    }

    /// The frontmost application changed to `frontmost_pid`.
    pub fn focus_changed(&mut self, frontmost_pid: Option<u32>, now_us: u64) -> (effects: Vec<Effect>)
        requires
            old(self).wf(),
            old(self)@.has_release_room(),
        ensures
            final(self).wf(),
            final(self)@ == old(self)@.focus_changed(frontmost_pid, now_us).0,
            effect_views(effects@) == old(self)@.focus_changed(frontmost_pid, now_us).1,
    {
        let needs_revoke = match &self.session {
            Some(s) => match s.pid {
                Some(pid) => match frontmost_pid {
                    Some(f) => pid != f,
                    None => true,
                },
                None => false,
            },
            None => false,
        };
        if needs_revoke {
            self.revoke(SessionRevocationReason::FocusLost, now_us)
        } else {
            proof {
                assert(effect_views(Seq::<Effect>::empty()) =~= Seq::<EffectView>::empty());
            }
            Vec::new()
        }
    }

    /// The periodic check at time `now_us`.
    pub fn tick(&mut self, now_us: u64) -> (effects: Vec<Effect>)
        requires
            old(self).wf(),
            old(self)@.has_release_room(),
        ensures
            final(self).wf(),
            final(self)@ == old(self)@.tick(now_us).0,
            effect_views(effects@) == old(self)@.tick(now_us).1,
    {
        let last = match &self.session {
            Some(s) => s.last_heartbeat_us,
            None => {
                proof {
                    assert(effect_views(Seq::<Effect>::empty()) =~= Seq::<EffectView>::empty());
                }
                return Vec::new();
            },
        };
        proof {
            assert(HEARTBEAT_INTERVAL_MS == 500 && MISSED_HEARTBEAT_LIMIT == 3);
            assert(heartbeat_timeout_us() == 1_500_000);
        }
        let timeout: u64 = (HEARTBEAT_INTERVAL_MS as u64) * (MISSED_HEARTBEAT_LIMIT as u64) * 1000;
        if now_us >= last && now_us - last >= timeout {
            return self.revoke(SessionRevocationReason::HeartbeatTimeout, now_us);
        }
        if self.escape_due(now_us) {
            return self.revoke(SessionRevocationReason::EscapeHatch, now_us);
        }
        proof {
            assert(effect_views(Seq::<Effect>::empty()) =~= Seq::<EffectView>::empty());
        }
        Vec::new()
    }

    /// Client `client_id` disconnected.
    pub fn unregister(&mut self, client_id: u64, now_us: u64) -> (effects: Vec<Effect>)
        requires
            old(self).wf(),
            old(self)@.has_release_room(),
        ensures
            final(self).wf(),
            final(self)@ == old(self)@.unregister(client_id, now_us).0,
            effect_views(effects@) == old(self)@.unregister(client_id, now_us).1,
    {
        self.remove_client(client_id);
        let held = match &self.session {
            Some(s) => s.client_id == client_id,
            None => false,
        };
        if held {
            self.revoke(SessionRevocationReason::ExplicitRevocation, now_us)
        } else {
            proof {
                assert(effect_views(Seq::<Effect>::empty()) =~= Seq::<EffectView>::empty());
            }
            Vec::new()
        }
    }

    /// A message for `client_id` could not be queued; `on_failure` is the
    /// policy its effect carried.
    pub fn delivery_failed(&mut self, client_id: u64, on_failure: OnFailure, now_us: u64) -> (effects: Vec<Effect>)
        requires
            old(self).wf(),
            old(self)@.has_release_room(),
        ensures
            final(self).wf(),
            final(self)@ == old(self)@.delivery_failed(client_id, on_failure, now_us).0,
            effect_views(effects@) == old(self)@.delivery_failed(client_id, on_failure, now_us).1,
    {
        self.remove_client(client_id);
        match on_failure {
            OnFailure::Disconnect => {
                proof {
                    assert(effect_views(Seq::<Effect>::empty()) =~= Seq::<EffectView>::empty());
                }
                Vec::new()
            },
            OnFailure::RevokeSession => self.revoke(SessionRevocationReason::QueueOverflow, now_us),
        }
    }
}

/// The message an effect carries, if any.
pub open spec fn effect_message(e: EffectView) -> Option<MessageView> {
    match e {
        EffectView::Send { message, .. } => Some(message),
        EffectView::Broadcast(m) => Some(m),
        EffectView::PauseCapture => None,
    }
}

/// The sequence numbers of the switch events among the effects, in order.
pub open spec fn event_numbers(e: Seq<EffectView>) -> Seq<u64>
    decreases e.len(),
{
    if e.len() == 0 {
        Seq::empty()
    } else {
        let rest = event_numbers(e.drop_last());
        match effect_message(e.last()) {
            Some(MessageView::SwitchEvent { sequence, .. }) => rest.push(sequence),
            _ => rest,
        }
    }
}

/// The `count` numbers after `last`.
pub open spec fn numbers_after(last: u64, count: int) -> Seq<u64> {
    Seq::new(count as nat, |i: int| (last + 1 + i) as u64)
}

proof fn lemma_event_numbers_concat(a: Seq<EffectView>, b: Seq<EffectView>)
    ensures
        event_numbers(a + b) == event_numbers(a) + event_numbers(b),
    decreases b.len(),
{
    if b.len() == 0 {
        assert(a + b =~= a);
        assert(event_numbers(a) + event_numbers(b) =~= event_numbers(a));
    } else {
        lemma_event_numbers_concat(a, b.drop_last());
        assert((a + b).drop_last() =~= a + b.drop_last());
        assert((a + b).last() == b.last());
        match effect_message(b.last()) {
            Some(MessageView::SwitchEvent { sequence, .. }) => {
                assert(event_numbers(a) + event_numbers(b) =~= (event_numbers(a) + event_numbers(
                    b.drop_last(),
                )).push(sequence));
            },
            _ => {},
        }
    }
}

/// Effects whose messages are events numbered consecutively after `last`
/// carry exactly those numbers.
proof fn lemma_numbered_effects(e: Seq<EffectView>, last: u64)
    requires
        last + e.len() <= u64::MAX,
        forall|i: int|
            0 <= i < e.len() ==> ((#[trigger] effect_message(e[i])) matches Some(
                MessageView::SwitchEvent { sequence, .. },
            ) && sequence == last + 1 + i),
    ensures
        event_numbers(e) == numbers_after(last, e.len() as int),
    decreases e.len(),
{
    if e.len() > 0 {
        let init = e.drop_last();
        assert forall|i: int| 0 <= i < init.len() implies ((#[trigger] effect_message(init[i])) matches Some(
            MessageView::SwitchEvent { sequence, .. },
        ) && sequence == last + 1 + i) by {
            assert(init[i] == e[i]);
        }
        lemma_numbered_effects(init, last);
        assert(effect_message(e[e.len() - 1]) == effect_message(e.last()));
        assert(event_numbers(e) =~= numbers_after(last, e.len() as int));
    }
}

/// A revocation numbers the releases after the last event; the session's
/// client, when still connected, receives all of them in order.
pub proof fn lemma_revocation_numbers(m: BrokerModel, reason: SessionRevocationReason, now: u64)
    requires
        m.wf(),
        m.has_release_room(),
    ensures
        ({
            let (n, e) = m.revoke(reason, now);
            &&& n.sequence >= m.sequence
            &&& event_numbers(e) == numbers_after(m.sequence, event_numbers(e).len() as int)
            &&& m.sequence + event_numbers(e).len() <= n.sequence
            &&& (m.session matches Some(s) && m.clients.contains(s.client_id)) || m.session is None
                ==> event_numbers(e).len() == n.sequence - m.sequence
        }),
{
    crate::state::lemma_pressed_prefix_len(m.switches, m.switches.switches.len() as int);
    match m.session {
        None => {
            assert(event_numbers(Seq::<EffectView>::empty()) =~= numbers_after(m.sequence, 0));
        },
        Some(s) => {
            let rel = m.release_events(now);
            let pause = seq![EffectView::PauseCapture];
            assert(pause.drop_last() =~= Seq::<EffectView>::empty());
            assert(event_numbers(Seq::<EffectView>::empty()) =~= Seq::<u64>::empty());
            assert(pause.last() == EffectView::PauseCapture);
            assert(event_numbers(pause) =~= Seq::<u64>::empty());
            if m.clients.contains(s.client_id) {
                let msgs = rel.push(
                    MessageView::Revoked { version: version(), session_id: s.session_id, reason },
                );
                let sends = msgs.map_values(
                    |x: MessageView| send_view(s.client_id, x, OnFailure::Disconnect),
                );
                let rel_sends = rel.map_values(
                    |x: MessageView| send_view(s.client_id, x, OnFailure::Disconnect),
                );
                assert(sends.drop_last() =~= rel_sends);
                lemma_numbered_effects(rel_sends, m.sequence);
                assert(event_numbers(sends) == event_numbers(rel_sends));
                lemma_event_numbers_concat(pause, sends);
                assert(Seq::<u64>::empty() + event_numbers(sends) =~= event_numbers(sends));
            } else {
                assert(pause + Seq::<EffectView>::empty() =~= pause);
                assert(numbers_after(m.sequence, 0) =~= Seq::<u64>::empty());
            }
        },
    }
}

/// Every event a physical edge causes is numbered after the last one, in
/// order and without repeats; the broker's counter ends at or after the last
/// number used, so later events get larger numbers.
pub proof fn lemma_input_numbering(
    m: BrokerModel,
    mapping_id: Seq<char>,
    action: Action,
    confidence: Option<Confidence>,
    capture_enabled: bool,
    now: u64,
)
    requires
        m.wf(),
        m.has_room(),
    ensures
        ({
            let (n, e) = m.input(mapping_id, action, confidence, capture_enabled, now);
            &&& n.sequence >= m.sequence
            &&& event_numbers(e) == numbers_after(m.sequence, event_numbers(e).len() as int)
            &&& m.sequence + event_numbers(e).len() <= n.sequence
        }),
{
    assert(event_numbers(Seq::<EffectView>::empty()) =~= Seq::<u64>::empty());
    assert(numbers_after(m.sequence, 0) =~= Seq::<u64>::empty());
    if !(m.paused || !capture_enabled) {
        let (sw, o) = m.switches.step(mapping_id, action);
        crate::state::lemma_only_outer_edges_emit(m.switches, mapping_id, action);
        match o {
            StepOutcome::Emitted(s) => {
                let numbered = BrokerModel {
                    switches: sw,
                    sequence: (m.sequence + 1) as u64,
                    escape: if action == Action::Pressed {
                        m.escape.insert(s, now)
                    } else {
                        m.escape.remove(s)
                    },
                    ..m
                };
                let message = event_view(numbered.sequence, now, s, action, validated(confidence));
                match m.session {
                    None => {
                        let e = seq![EffectView::Broadcast(message)];
                        assert(e.drop_last() =~= Seq::<EffectView>::empty());
                        assert(event_numbers(e) =~= numbers_after(m.sequence, 1));
                    },
                    Some(session) => {
                        if m.clients.contains(session.client_id) {
                            let e = seq![send_view(session.client_id, message, OnFailure::RevokeSession)];
                            assert(e.drop_last() =~= Seq::<EffectView>::empty());
                            assert(event_numbers(e) =~= numbers_after(m.sequence, 1));
                        } else {
                            crate::state::lemma_pressed_prefix_len(
                                sw,
                                sw.switches.len() as int,
                            );
                            let e = numbered.revoke(SessionRevocationReason::QueueOverflow, now).1;
                            let pause = seq![EffectView::PauseCapture];
                            assert(e =~= pause);
                            assert(pause.drop_last() =~= Seq::<EffectView>::empty());
                            assert(event_numbers(e) =~= Seq::<u64>::empty());
                        }
                    },
                }
            },
            _ => {},
        }
    }
}

/// While capture is paused after a revocation, physical input changes
/// nothing and produces no event.
pub proof fn lemma_paused_input_is_ignored(
    m: BrokerModel,
    mapping_id: Seq<char>,
    action: Action,
    confidence: Option<Confidence>,
    capture_enabled: bool,
    now: u64,
)
    requires
        m.paused,
    ensures
        m.input(mapping_id, action, confidence, capture_enabled, now) == (m, Seq::<EffectView>::empty()),
{
}

/// While a managed session exists, what a physical edge causes goes only to
/// the session's client (or pauses capture); without a session a transition
/// is broadcast to every client.
pub proof fn lemma_session_routing_is_exclusive(
    m: BrokerModel,
    mapping_id: Seq<char>,
    action: Action,
    confidence: Option<Confidence>,
    capture_enabled: bool,
    now: u64,
)
    requires
        m.wf(),
    ensures
        ({
            let e = m.input(mapping_id, action, confidence, capture_enabled, now).1;
            &&& m.session matches Some(s) ==> forall|i: int|
                0 <= i < e.len() ==> (#[trigger] e[i]) matches EffectView::Send { client_id, .. }
                    && client_id == s.client_id || e[i] is PauseCapture
            &&& m.session is None ==> e.len() <= 1 && forall|i: int|
                0 <= i < e.len() ==> (#[trigger] e[i]) is Broadcast
        }),
{
    match m.session {
        Some(s) => {
            if !(m.paused || !capture_enabled) {
                let (sw, o) = m.switches.step(mapping_id, action);
                match o {
                    StepOutcome::Emitted(sid) => {
                        if !m.clients.contains(s.client_id) {
                            let numbered = BrokerModel {
                                switches: sw,
                                sequence: (m.sequence + 1) as u64,
                                escape: if action == Action::Pressed {
                                    m.escape.insert(sid, now)
                                } else {
                                    m.escape.remove(sid)
                                },
                                ..m
                            };
                            let e = numbered.revoke(SessionRevocationReason::QueueOverflow, now).1;
                            assert(!numbered.clients.contains(s.client_id));
                            assert(e =~= seq![EffectView::PauseCapture] + Seq::<EffectView>::empty());
                        }
                    },
                    _ => {},
                }
            }
        },
        None => {},
    }
}

/// A revocation stops capture first, releases every held logical switch,
/// forgets the session and the escape tracker, and leaves capture paused.
/// When the session's client is still connected it receives one release per
/// switch that was pressed, in switch order and numbered in order, and then
/// the revocation naming its session and the reason.
pub proof fn lemma_revocation_outcome(m: BrokerModel, reason: SessionRevocationReason, now: u64)
    requires
        m.wf(),
        m.has_release_room(),
        m.session is Some,
    ensures
        ({
            let (n, e) = m.revoke(reason, now);
            let s = m.session->Some_0;
            let pressed = m.switches.pressed_switches();
            &&& n.session is None
            &&& n.paused
            &&& n.escape == Map::<Seq<char>, u64>::empty()
            &&& n.clients == m.clients
            &&& n.switches.routes == m.switches.routes
            &&& n.switches.switches == m.switches.switches
            &&& forall|j: int|
                0 <= j < n.switches.switches.len() ==> !crate::state::is_pressed(
                    #[trigger] n.switches.held[j],
                )
            &&& e[0] == EffectView::PauseCapture
            &&& m.clients.contains(s.client_id) ==> {
                &&& e.len() == pressed.len() + 2
                &&& forall|i: int|
                    0 <= i < pressed.len() ==> #[trigger] e[i + 1] == send_view(
                        s.client_id,
                        event_view(
                            (m.sequence + 1 + i) as u64,
                            now,
                            pressed[i],
                            Action::Released,
                            None,
                        ),
                        OnFailure::Disconnect,
                    )
                &&& e.last() == send_view(
                    s.client_id,
                    MessageView::Revoked { version: version(), session_id: s.session_id, reason },
                    OnFailure::Disconnect,
                )
            }
            &&& !m.clients.contains(s.client_id) ==> e.len() == 1
        }),
{
    let (n, e) = m.revoke(reason, now);
    let s = m.session->Some_0;
    let pressed = m.switches.pressed_switches();
    assert forall|j: int| 0 <= j < n.switches.switches.len() implies !crate::state::is_pressed(
        #[trigger] n.switches.held[j],
    ) by {}
    if m.clients.contains(s.client_id) {
        assert forall|i: int| 0 <= i < pressed.len() implies #[trigger] e[i + 1] == send_view(
            s.client_id,
            event_view((m.sequence + 1 + i) as u64, now, pressed[i], Action::Released, None),
            OnFailure::Disconnect,
        ) by {}
    }
}

/// While a session is active, any further handshake that is otherwise valid
/// is rejected as busy and changes nothing: there is at most one session.
pub proof fn lemma_competing_handshake_is_busy(m: BrokerModel, client: u64, handshake: Handshake, now: u64)
    requires
        m.session is Some,
        handshake.protocol_version@ == version(),
        is_valid_app_id(encode_utf8(handshake.app_id@)),
        handshake.requested_mode is ExclusiveForeground,
    ensures
        m.handshake(client, handshake, now) == (
            m,
            PlanView::Done(seq![rejected_view(client, HandshakeRejectionReason::SessionBusy)]),
        ),
{
}

/// After a revocation, a valid handshake must first reacquire capture: the
/// broker asks for it and changes nothing until the outcome is known.
pub proof fn lemma_revoked_broker_requires_reacquisition(
    m: BrokerModel,
    reason: SessionRevocationReason,
    now: u64,
    client: u64,
    handshake: Handshake,
    later: u64,
)
    requires
        m.session is Some,
        rejection(handshake, false) is None,
    ensures
        ({
            let n = m.revoke(reason, now).0;
            n.handshake(client, handshake, later) == (n, PlanView::Resume)
        }),
{
}

/// A heartbeat that names the session renews its lease: a check before the
/// timeout has elapsed since that heartbeat does not revoke the session for
/// a missed heartbeat (only the escape hatch can still fire).
pub proof fn lemma_heartbeat_extends_lease(m: BrokerModel, at: u64, later: u64)
    requires
        m.session is Some,
        at <= later,
        later - at < heartbeat_timeout_us(),
    ensures
        ({
            let s = m.session->Some_0;
            let h = m.heartbeat(s.client_id, s.session_id, at);
            h.tick(later) == if h.escape_due(later) {
                h.revoke(SessionRevocationReason::EscapeHatch, later)
            } else {
                (h, Seq::<EffectView>::empty())
            }
        }),
{
}

/// An accepted session starts with an empty escape tracker, so a switch held
/// before the session cannot trip the escape hatch.
pub proof fn lemma_new_session_starts_fresh(
    m: BrokerModel,
    client: u64,
    pid: Option<u32>,
    session_id: Seq<char>,
    now: u64,
)
    requires
        m.session is None,
        m.clients.contains(client),
    ensures
        ({
            let n = m.accept(client, pid, session_id, now).0;
            &&& n.escape == Map::<Seq<char>, u64>::empty()
            &&& !n.paused
            &&& n.session == Some(
                SessionView { client_id: client, session_id, pid, last_heartbeat_us: now },
            )
            &&& !n.escape_due(now)
        }),
{
}

/// A session whose client has sent no matching heartbeat for the timeout is
/// revoked at the next periodic check.
pub proof fn lemma_missed_heartbeats_revoke(m: BrokerModel, now: u64)
    requires
        m.session matches Some(s) && now - s.last_heartbeat_us >= heartbeat_timeout_us(),
    ensures
        m.tick(now) == m.revoke(SessionRevocationReason::HeartbeatTimeout, now),
{
}

/// The escape hatch: during a session whose lease is current, a logical
/// switch held for the escape-hatch time revokes the session at the next
/// periodic check, so the user is never trapped.
pub proof fn lemma_sustained_hold_revokes(m: BrokerModel, switch_id: Seq<char>, now: u64)
    requires
        m.session matches Some(s) && now - s.last_heartbeat_us < heartbeat_timeout_us(),
        m.escape.contains_key(switch_id),
        now - m.escape[switch_id] >= escape_hold_us(),
    ensures
        m.tick(now) == m.revoke(SessionRevocationReason::EscapeHatch, now),
{
}

/// The hold clock follows the logical switches: a transition to pressed
/// starts the switch's clock at that moment and a transition to released
/// stops it, while events keep flowing to their clients unchanged.
pub proof fn lemma_hold_clock_follows_transitions(
    m: BrokerModel,
    mapping_id: Seq<char>,
    action: Action,
    confidence: Option<Confidence>,
    now: u64,
)
    requires
        !m.paused,
        m.session matches Some(s) ==> m.clients.contains(s.client_id),
    ensures
        ({
            let n = m.input(mapping_id, action, confidence, true, now).0;
            m.switches.step(mapping_id, action).1 matches StepOutcome::Emitted(sw) ==> if action
                == Action::Pressed {
                n.escape.contains_key(sw) && n.escape[sw] == now
            } else {
                !n.escape.contains_key(sw)
            }
        }),
{
}

/// A client whose queue cannot take a message is dropped. A passive client
/// costs nothing else; when the message belonged to the session, the session
/// is revoked for queue overflow and capture is paused.
pub proof fn lemma_slow_client_is_dropped(m: BrokerModel, client: u64, now: u64)
    requires
        m.wf(),
    ensures
        m.delivery_failed(client, OnFailure::Disconnect, now) == (
            BrokerModel { clients: m.clients.remove(client), ..m },
            Seq::<EffectView>::empty(),
        ),
        ({
            let (n, e) = m.delivery_failed(client, OnFailure::RevokeSession, now);
            &&& !n.clients.contains(client)
            &&& n.session is None
            &&& m.session is Some ==> n.paused && e[0] == EffectView::PauseCapture
            &&& (m.session matches Some(s) && s.client_id == client) ==> e == seq![
                EffectView::PauseCapture,
            ]
        }),
{
}

/// When the session's client disconnects the session is revoked and
/// capture paused; when another client disconnects nothing else changes.
pub proof fn lemma_departure_of_session_client_revokes(m: BrokerModel, client: u64, now: u64)
    requires
        m.wf(),
    ensures
        ({
            let (n, e) = m.unregister(client, now);
            &&& !n.clients.contains(client)
            &&& (m.session matches Some(s) && s.client_id == client) ==> n.session is None
                && n.paused && e == seq![EffectView::PauseCapture]
            &&& (m.session matches Some(s) && s.client_id != client) ==> n == (BrokerModel {
                clients: m.clients.remove(client),
                ..m
            }) && e.len() == 0
        }),
{
}

/// The first valid handshake, while capture runs and routing is still
/// broadcast, releases every held legacy switch: one release per pressed
/// switch, in switch order and numbered after the last event, broadcast to
/// every client before the session can start.
pub proof fn lemma_first_handshake_releases_legacy_state(
    m: BrokerModel,
    client: u64,
    handshake: Handshake,
    now: u64,
)
    requires
        m.wf(),
        m.session is None,
        !m.paused,
        rejection(handshake, false) is None,
    ensures
        ({
            let (n, p) = m.handshake(client, handshake, now);
            let pressed = m.switches.pressed_switches();
            &&& n == m.released()
            &&& forall|j: int|
                0 <= j < n.switches.switches.len() ==> !crate::state::is_pressed(
                    #[trigger] n.switches.held[j],
                )
            &&& p matches PlanView::Release(e) && e.len() == pressed.len() && forall|i: int|
                0 <= i < pressed.len() ==> #[trigger] e[i] == EffectView::Broadcast(
                    event_view((m.sequence + 1 + i) as u64, now, pressed[i], Action::Released, None),
                )
        }),
{
    let (n, p) = m.handshake(client, handshake, now);
    assert forall|j: int| 0 <= j < n.switches.switches.len() implies !crate::state::is_pressed(
        #[trigger] n.switches.held[j],
    ) by {}
}

/// A physical edge the state machine refuses (an unknown mapping, or a
/// press of a held mapping or release of a released one) is ignored: the
/// broker's state does not change and nothing is sent.
pub proof fn lemma_invalid_edges_are_ignored(
    m: BrokerModel,
    mapping_id: Seq<char>,
    action: Action,
    confidence: Option<Confidence>,
    capture_enabled: bool,
    now: u64,
)
    requires
        m.switches.step(mapping_id, action).1 is UnknownMapping || m.switches.step(
            mapping_id,
            action,
        ).1 is InvalidTransition,
    ensures
        m.input(mapping_id, action, confidence, capture_enabled, now) == (m, Seq::<EffectView>::empty()),
{
    assert(m.switches.step(mapping_id, action).0 == m.switches);
}

/// The configured mappings and logical switches never change: every
/// operation keeps the routing table and the ordered switch list, so each
/// `hello` lists the same switches.
pub proof fn lemma_configured_switches_never_change(
    m: BrokerModel,
    mapping_id: Seq<char>,
    action: Action,
    confidence: Option<Confidence>,
    capture_enabled: bool,
    client: u64,
    handshake: Handshake,
    reason: SessionRevocationReason,
    frontmost_pid: Option<u32>,
    on_failure: OnFailure,
    now: u64,
)
    requires
        m.wf(),
    ensures
        ({
            let kept = |n: BrokerModel|
                n.switches.routes == m.switches.routes && n.switches.switches == m.switches.switches
                    && n.wf();
            &&& kept(m.input(mapping_id, action, confidence, capture_enabled, now).0)
            &&& kept(m.handshake(client, handshake, now).0)
            &&& kept(m.revoke(reason, now).0)
            &&& kept(m.tick(now).0)
            &&& kept(m.focus_changed(frontmost_pid, now).0)
            &&& kept(m.unregister(client, now).0)
            &&& kept(m.delivery_failed(client, on_failure, now).0)
        }),
{
    crate::state::lemma_only_outer_edges_emit(m.switches, mapping_id, action);
    let sw = m.switches.step(mapping_id, action).0;
    let after = m.switches.all_released();
    assert forall|k: Seq<char>| #[trigger] after.routes.contains_key(k) implies after.switches.contains(
        after.routes[k],
    ) by {}
    assert(after.wf());
    let sr = sw.all_released();
    assert forall|k: Seq<char>| #[trigger] sr.routes.contains_key(k) implies sr.switches.contains(
        sr.routes[k],
    ) by {}
    assert(sr.wf());
}

/// While events go to a connected session client, or are broadcast, an
/// edge advances the counter exactly by the events it sends, so nothing is
/// numbered without being sent.
proof fn lemma_input_numbering_exact(
    m: BrokerModel,
    mapping_id: Seq<char>,
    action: Action,
    confidence: Option<Confidence>,
    capture_enabled: bool,
    now: u64,
)
    requires
        m.wf(),
        m.has_room(),
        m.session matches Some(s) ==> m.clients.contains(s.client_id),
    ensures
        ({
            let (n, e) = m.input(mapping_id, action, confidence, capture_enabled, now);
            &&& n.sequence == m.sequence + event_numbers(e).len()
            &&& n.session == m.session
            &&& n.clients == m.clients
            &&& n.wf()
            &&& n.switches.switches == m.switches.switches
            &&& event_numbers(e).len() <= 1
        }),
{
    lemma_input_numbering(m, mapping_id, action, confidence, capture_enabled, now);
    crate::state::lemma_only_outer_edges_emit(m.switches, mapping_id, action);
    let e = m.input(mapping_id, action, confidence, capture_enabled, now).1;
    assert(event_numbers(Seq::<EffectView>::empty()) =~= Seq::<u64>::empty());
    if !(m.paused || !capture_enabled) {
        if m.switches.step(mapping_id, action).1 is Emitted {
            assert(e.drop_last() =~= Seq::<EffectView>::empty());
        }
    }
}

/// Successive events are numbered one apart: across two successive edges,
/// whether broadcast or sent to a connected session client, the events sent
/// carry exactly the numbers following the last one, in order, with no gap.
pub proof fn lemma_successive_events_one_apart(
    m: BrokerModel,
    first: (Seq<char>, Action, Option<Confidence>, u64),
    second: (Seq<char>, Action, Option<Confidence>, u64),
    capture_enabled: bool,
)
    requires
        m.wf(),
        m.sequence + m.switches.switches.len() + 2 <= u64::MAX,
        m.session matches Some(s) ==> m.clients.contains(s.client_id),
    ensures
        ({
            let (n1, e1) = m.input(first.0, first.1, first.2, capture_enabled, first.3);
            let (n2, e2) = n1.input(second.0, second.1, second.2, capture_enabled, second.3);
            &&& event_numbers(e1) + event_numbers(e2) == numbers_after(
                m.sequence,
                (event_numbers(e1).len() + event_numbers(e2).len()) as int,
            )
            &&& n2.sequence == m.sequence + event_numbers(e1).len() + event_numbers(e2).len()
        }),
{
    let (n1, e1) = m.input(first.0, first.1, first.2, capture_enabled, first.3);
    lemma_input_numbering_exact(m, first.0, first.1, first.2, capture_enabled, first.3);
    lemma_input_numbering(n1, second.0, second.1, second.2, capture_enabled, second.3);
    lemma_input_numbering_exact(n1, second.0, second.1, second.2, capture_enabled, second.3);
    lemma_input_numbering(m, first.0, first.1, first.2, capture_enabled, first.3);
    let (n2, e2) = n1.input(second.0, second.1, second.2, capture_enabled, second.3);
    let a = event_numbers(e1);
    let b = event_numbers(e2);
    assert(a + b =~= numbers_after(m.sequence, (a.len() + b.len()) as int));
}

/// Client ids are never reused: a new broker hands out 1 first; each
/// registration hands out the next id and moves past it whether or not the
/// client was kept; every other operation leaves the counter alone, so ids
/// strictly increase.
pub proof fn lemma_client_ids_are_never_reused(
    m: BrokerModel,
    hello_delivered: bool,
    mapping_id: Seq<char>,
    action: Action,
    confidence: Option<Confidence>,
    capture_enabled: bool,
    client: u64,
    handshake: Handshake,
    pid: Option<u32>,
    session_id: Seq<char>,
    reason: SessionRevocationReason,
    frontmost_pid: Option<u32>,
    on_failure: OnFailure,
    now: u64,
)
    requires
        m.next_client < u64::MAX,
    ensures
        ({
            let (r, id) = m.register(hello_delivered);
            &&& id == m.next_client
            &&& id < r.next_client
            &&& hello_delivered ==> r.clients.contains(id)
        }),
        m.input(mapping_id, action, confidence, capture_enabled, now).0.next_client == m.next_client,
        m.handshake(client, handshake, now).0.next_client == m.next_client,
        m.accept(client, pid, session_id, now).0.next_client == m.next_client,
        m.heartbeat(client, session_id, now).next_client == m.next_client,
        m.revoke(reason, now).0.next_client == m.next_client,
        m.tick(now).0.next_client == m.next_client,
        m.focus_changed(frontmost_pid, now).0.next_client == m.next_client,
        m.unregister(client, now).0.next_client == m.next_client,
        m.delivery_failed(client, on_failure, now).0.next_client == m.next_client,
{
}

/// Before the lease runs out, a periodic check never revokes for missed
/// heartbeats: it changes nothing, or fires the escape hatch.
pub proof fn lemma_current_lease_is_not_timed_out(m: BrokerModel, now: u64)
    requires
        m.session matches Some(s) && now - s.last_heartbeat_us < heartbeat_timeout_us(),
    ensures
        m.tick(now) == if m.escape_due(now) {
            m.revoke(SessionRevocationReason::EscapeHatch, now)
        } else {
            (m, Seq::<EffectView>::empty())
        },
{
}

/// Two successive registrations hand out consecutive ids, the later one
/// larger, whether or not either client was kept.
pub proof fn lemma_successive_registrations(m: BrokerModel, first: bool, second: bool)
    requires
        m.next_client + 1 < u64::MAX,
    ensures
        ({
            let (r1, id1) = m.register(first);
            let (r2, id2) = r1.register(second);
            &&& id1 == m.next_client
            &&& id2 == id1 + 1
            &&& r2.next_client == id2 + 1
        }),
{
}

/// Every switch event a physical edge causes reports a real change of a
/// logical switch: it names a switch whose pressed state the edge flipped,
/// and its action is `Pressed` exactly when that switch is now pressed. When
/// the edge flips a switch while capture runs and the events reach their
/// clients (broadcast, or a connected session client), exactly one event
/// is sent, numbered next, and it carries that switch and the edge's
/// direction.
pub proof fn lemma_events_report_switch_changes(
    m: BrokerModel,
    mapping_id: Seq<char>,
    action: Action,
    confidence: Option<Confidence>,
    capture_enabled: bool,
    now: u64,
)
    requires
        m.wf(),
    ensures
        ({
            let (n, e) = m.input(mapping_id, action, confidence, capture_enabled, now);
            let after = m.switches.step(mapping_id, action).0;
            &&& forall|i: int|
                0 <= i < e.len() ==> (effect_message(#[trigger] e[i]) matches Some(
                    MessageView::SwitchEvent { switch_id, action: a, .. },
                ) ==> exists|j: int|
                    0 <= j < m.switches.switches.len() && m.switches.switches[j] == switch_id
                        && is_pressed(m.switches.held[j]) != is_pressed(after.held[j]) && (a
                        == Action::Pressed <==> is_pressed(after.held[j])))
            &&& (!m.paused && capture_enabled && (m.session matches Some(s) ==> m.clients.contains(
                s.client_id,
            )) && exists|j: int|
                0 <= j < m.switches.switches.len() && is_pressed(m.switches.held[j]) != is_pressed(
                    #[trigger] after.held[j],
                )) ==> e.len() == 1 && exists|j: int|
                0 <= j < m.switches.switches.len() && effect_message(e[0]) == Some(
                    MessageView::SwitchEvent {
                        version: version(),
                        sequence: (m.sequence + 1) as u64,
                        monotonic_us: now,
                        switch_id: #[trigger] m.switches.switches[j],
                        action,
                        confidence: validated(confidence),
                    },
                ) && is_pressed(m.switches.held[j]) != is_pressed(after.held[j])
        }),
{
    crate::state::lemma_only_outer_edges_emit(m.switches, mapping_id, action);
    let (n, e) = m.input(mapping_id, action, confidence, capture_enabled, now);
    let (after, o) = m.switches.step(mapping_id, action);
    if !(m.paused || !capture_enabled) {
        match o {
            StepOutcome::Emitted(sw) => {
                let j = m.switches.slot_of(m.switches.routes[mapping_id]);
                assert(m.switches.switches.contains(m.switches.routes[mapping_id]));
                assert(0 <= j < m.switches.switches.len() && m.switches.switches[j] == sw);
                assert(is_pressed(m.switches.held[j]) != is_pressed(after.held[j]));
                assert forall|i: int|
                    0 <= i < e.len() implies (effect_message(#[trigger] e[i]) matches Some(
                        MessageView::SwitchEvent { switch_id, action: a, .. },
                    ) ==> exists|q: int|
                        0 <= q < m.switches.switches.len() && m.switches.switches[q] == switch_id
                            && is_pressed(m.switches.held[q]) != is_pressed(after.held[q]) && (a
                            == Action::Pressed <==> is_pressed(after.held[q]))) by {
                    if effect_message(e[i]) matches Some(MessageView::SwitchEvent { .. }) {
                        assert(m.switches.switches[j] == sw);
                    }
                }
            },
            _ => {
                assert(e.len() == 0);
                assert forall|j: int| 0 <= j < m.switches.switches.len() implies is_pressed(
                    #[trigger] after.held[j],
                ) == is_pressed(m.switches.held[j]) by {}
            },
        }
    } else {
        assert(e.len() == 0);
    }
}

/// The escape hatch needs a sustained hold: while the lease is current and
/// every tracked switch was pressed less than the escape-hatch time ago, a
/// periodic check changes nothing and sends nothing.
pub proof fn lemma_short_holds_never_trip_the_escape_hatch(m: BrokerModel, now: u64)
    requires
        m.session matches Some(s) && now - s.last_heartbeat_us < heartbeat_timeout_us(),
        forall|k: Seq<char>| #[trigger] m.escape.contains_key(k) ==> now - m.escape[k] < 4_000_000,
    ensures
        m.tick(now) == (m, Seq::<EffectView>::empty()),
{
    assert(!m.escape_due(now));
}

} // verus!
