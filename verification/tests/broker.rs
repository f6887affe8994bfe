use std::collections::{BTreeMap, VecDeque};

use usahp::broker::{Broker, Effect, HandshakePlan, OnFailure, PhysicalEvent};
use usahp::config::{InputKind, Mapping};
use usahp::protocol::{
    Action, Confidence, Handshake, HandshakeRejectionReason, HandshakeResponse, RequestedMode,
    ServerMessage, SessionRevocationReason, SwitchState, PROTOCOL_VERSION,
};
use usahp::{ESCAPE_HOLD_MS, HEARTBEAT_INTERVAL_MS, MISSED_HEARTBEAT_LIMIT};

const MS: u64 = 1000;

fn mapping(id: &str, switch_id: &str) -> Mapping {
    Mapping {
        id: id.into(),
        switch_id: switch_id.into(),
        input: InputKind::Keyboard,
        code: "Space".into(),
        device: None,
    }
}

fn handshake(app_id: &str) -> Handshake {
    Handshake {
        protocol_version: PROTOCOL_VERSION.into(),
        app_id: app_id.into(),
        requested_mode: RequestedMode::ExclusiveForeground,
        pid: None,
    }
}

fn handshake_with_pid(app_id: &str, pid: u32) -> Handshake {
    Handshake { pid: Some(pid), ..handshake(app_id) }
}

fn edge(action: Action, value: f32) -> PhysicalEvent {
    PhysicalEvent {
        mapping_id: "a".into(),
        action,
        confidence: Some(Confidence { bits: value.to_bits() }),
    }
}

/// A client's bounded queue; it closes when a message does not fit.
struct Queue {
    capacity: usize,
    messages: VecDeque<ServerMessage>,
    open: bool,
}

/// Bounded client queues and a capture switch around a broker, performing
/// its effects the way the daemon does.
struct Harness {
    broker: Broker,
    queues: BTreeMap<u64, Queue>,
    capture: bool,
    fail_resume: bool,
    now: u64,
    draws: u8,
}

impl Harness {
    fn new(mappings: Vec<Mapping>) -> Harness {
        Harness {
            broker: Broker::new(&mappings),
            queues: BTreeMap::new(),
            capture: true,
            fail_resume: false,
            now: 0,
            draws: 0,
        }
    }

    /// Stand-in random bytes: draw `d` gives bytes `16 * d + i`.
    fn random(&mut self) -> [u8; 16] {
        let base = self.draws.wrapping_mul(16);
        self.draws = self.draws.wrapping_add(1);
        std::array::from_fn(|i| base.wrapping_add(i as u8))
    }

    fn push(&mut self, client_id: u64, message: ServerMessage) -> bool {
        match self.queues.get_mut(&client_id) {
            Some(queue) if queue.open && queue.messages.len() < queue.capacity => {
                queue.messages.push_back(message);
                true
            }
            Some(queue) => {
                queue.open = false;
                false
            }
            None => false,
        }
    }

    fn perform(&mut self, effects: Vec<Effect>) {
        for effect in effects {
            match effect {
                Effect::Send { client_id, message, on_failure } => {
                    if !self.push(client_id, message) {
                        let more = self.broker.delivery_failed(client_id, on_failure, self.now);
                        self.perform(more);
                    }
                }
                Effect::Broadcast(message) => {
                    let ids: Vec<u64> =
                        self.queues.iter().filter(|(_, q)| q.open).map(|(id, _)| *id).collect();
                    for id in ids {
                        if !self.push(id, message.clone()) {
                            let more = self.broker.delivery_failed(id, OnFailure::Disconnect, self.now);
                            self.perform(more);
                        }
                    }
                }
                Effect::PauseCapture => self.capture = false,
            }
        }
    }

    fn register(&mut self, capacity: usize) -> u64 {
        let hello = self.broker.hello();
        let id = self.broker.register(true);
        let mut messages = VecDeque::new();
        messages.push_back(hello);
        self.queues.insert(id, Queue { capacity, messages, open: true });
        id
    }

    fn recv(&mut self, client_id: u64) -> Option<ServerMessage> {
        self.queues.get_mut(&client_id).and_then(|q| q.messages.pop_front())
    }

    fn connected(&self, client_id: u64) -> bool {
        self.queues.get(&client_id).is_some_and(|q| q.open)
    }

    fn disconnect(&mut self, client_id: u64) {
        if let Some(queue) = self.queues.get_mut(&client_id) {
            queue.open = false;
        }
        let effects = self.broker.unregister(client_id, self.now);
        self.perform(effects);
    }

    fn input(&mut self, event: PhysicalEvent) {
        let effects = self.broker.input(event, self.capture, self.now);
        self.perform(effects);
    }

    fn handshake(&mut self, client_id: u64, request: Handshake) {
        let pid = request.pid;
        match self.broker.handshake(client_id, &request, self.now) {
            HandshakePlan::Done(effects) => self.perform(effects),
            HandshakePlan::Resume => {
                let resumed = !self.fail_resume;
                if resumed {
                    self.capture = true;
                }
                let random = self.random();
                let effects = self.broker.handshake_resumed(client_id, pid, resumed, random, self.now);
                self.perform(effects);
            }
            HandshakePlan::Release(releases) => {
                self.perform(releases);
                let random = self.random();
                let effects = self.broker.handshake_released(client_id, pid, random, self.now);
                self.perform(effects);
            }
        }
    }

    fn accepted_session(&mut self, client_id: u64) -> String {
        match self.recv(client_id) {
            Some(ServerMessage::HandshakeResponse(HandshakeResponse::Accepted { session_id, .. })) => {
                session_id
            }
            other => panic!("expected acceptance, got {other:?}"),
        }
    }

    fn heartbeat(&mut self, client_id: u64, session_id: &str) {
        self.broker.heartbeat(client_id, session_id, self.now);
    }

    fn tick(&mut self) {
        let effects = self.broker.tick(self.now);
        self.perform(effects);
    }

    fn advance(&mut self, millis: u64) {
        self.now += millis * MS;
        self.tick();
    }
}

fn revocation_reason(message: Option<ServerMessage>) -> Option<SessionRevocationReason> {
    match message {
        Some(ServerMessage::SessionRevoked(revoked)) => Some(revoked.reason),
        _ => None,
    }
}

#[test]
fn passive_clients_receive_snapshot_and_ordered_events() {
    let mut h = Harness::new(vec![mapping("a", "switch_1")]);
    let first = h.register(4);
    let second = h.register(4);
    assert!(matches!(h.recv(first), Some(ServerMessage::Hello(_))));
    assert!(matches!(h.recv(second), Some(ServerMessage::Hello(_))));
    h.input(edge(Action::Pressed, 100.0));
    for client in [first, second] {
        match h.recv(client) {
            Some(ServerMessage::SwitchEvent(e)) => {
                assert_eq!(e.sequence, 1);
                assert_eq!(e.switch_id, "switch_1");
                assert_eq!(e.action, Action::Pressed);
                assert_eq!(e.confidence, Some(Confidence { bits: 100.0f32.to_bits() }));
            }
            other => panic!("unexpected {other:?}"),
        }
    }
    h.input(edge(Action::Released, 0.0));
    assert!(matches!(h.recv(first), Some(ServerMessage::SwitchEvent(e)) if e.sequence == 2));
}

#[test]
fn hello_reports_every_switch_state() {
    let mut h = Harness::new(vec![mapping("a", "switch_1"), mapping("b", "switch_2")]);
    h.input(PhysicalEvent { mapping_id: "b".into(), action: Action::Pressed, confidence: None });
    let client = h.register(4);
    match h.recv(client) {
        Some(ServerMessage::Hello(hello)) => {
            assert_eq!(hello.protocol_version, PROTOCOL_VERSION);
            assert_eq!(hello.switches.len(), 2);
            assert_eq!(hello.switches[0].state, SwitchState::Released);
            assert_eq!(hello.switches[1].switch_id, "switch_2");
            assert_eq!(hello.switches[1].state, SwitchState::Pressed);
        }
        other => panic!("unexpected {other:?}"),
    }
}

#[test]
fn invalid_confidence_is_sent_as_unknown() {
    let mut h = Harness::new(vec![mapping("a", "switch_1")]);
    let client = h.register(4);
    h.recv(client);
    h.input(edge(Action::Pressed, f32::NAN));
    assert!(matches!(h.recv(client), Some(ServerMessage::SwitchEvent(e)) if e.confidence.is_none()));
}

#[test]
fn handshake_is_exclusive_and_busy_is_rejected() {
    let mut h = Harness::new(vec![mapping("a", "switch_1")]);
    let first = h.register(8);
    let second = h.register(8);
    h.recv(first);
    h.recv(second);
    h.handshake(first, handshake("org.first"));
    assert!(matches!(
        h.recv(first),
        Some(ServerMessage::HandshakeResponse(HandshakeResponse::Accepted {
            heartbeat_interval_ms: 500,
            missed_heartbeat_limit: 3,
            ..
        }))
    ));
    h.handshake(second, handshake("org.second"));
    assert!(matches!(
        h.recv(second),
        Some(ServerMessage::HandshakeResponse(HandshakeResponse::Rejected {
            reason: HandshakeRejectionReason::SessionBusy,
            ..
        }))
    ));
    h.input(edge(Action::Pressed, 100.0));
    assert!(matches!(h.recv(first), Some(ServerMessage::SwitchEvent(_))));
    assert!(h.recv(second).is_none());
}

#[test]
fn session_ids_are_uuids_made_from_the_random_bytes() {
    let mut h = Harness::new(vec![mapping("a", "switch_1")]);
    let client = h.register(8);
    h.recv(client);
    h.handshake(client, handshake("app"));
    let session_id = h.accepted_session(client);
    assert_eq!(session_id, "00010203-0405-4607-8809-0a0b0c0d0e0f");
    let other = h.register(8);
    h.recv(other);
    let effects = h.broker.revoke_session(SessionRevocationReason::ExplicitRevocation, h.now);
    h.perform(effects);
    h.handshake(other, handshake("app"));
    assert_eq!(h.accepted_session(other), "10111213-1415-4617-9819-1a1b1c1d1e1f");
}

#[test]
fn session_id_sets_version_and_variant_bits() {
    let mut broker = Broker::new(&[mapping("a", "switch_1")]);
    let client = broker.register(true);
    let effects = broker.handshake_released(client, None, [0xff; 16], 0);
    match &effects[0] {
        Effect::Send {
            message: ServerMessage::HandshakeResponse(HandshakeResponse::Accepted { session_id, .. }),
            ..
        } => assert_eq!(session_id, "ffffffff-ffff-4fff-bfff-ffffffffffff"),
        other => panic!("unexpected {other:?}"),
    }
}

#[test]
fn rejects_invalid_version_id_and_mode() {
    let mut h = Harness::new(vec![mapping("a", "switch_1")]);
    let id = h.register(8);
    h.recv(id);
    let cases = [
        (
            Handshake { protocol_version: "0.1".into(), ..handshake("app") },
            HandshakeRejectionReason::ProtocolMismatch,
        ),
        (handshake("bad id"), HandshakeRejectionReason::InvalidAppId),
        (
            Handshake {
                requested_mode: RequestedMode::Unsupported("shared".into()),
                ..handshake("app")
            },
            HandshakeRejectionReason::UnsupportedMode,
        ),
    ];
    for (request, expected) in cases {
        h.handshake(id, request);
        assert!(matches!(
            h.recv(id),
            Some(ServerMessage::HandshakeResponse(HandshakeResponse::Rejected { reason, .. })) if reason == expected
        ));
    }
}

#[test]
fn first_session_releases_legacy_held_state_to_everyone() {
    let mut h = Harness::new(vec![mapping("a", "switch_1")]);
    let manager = h.register(8);
    let passive = h.register(8);
    h.recv(manager);
    h.recv(passive);
    h.input(edge(Action::Pressed, 100.0));
    h.recv(manager);
    h.recv(passive);
    h.handshake(manager, handshake("app"));
    for client in [manager, passive] {
        assert!(matches!(
            h.recv(client),
            Some(ServerMessage::SwitchEvent(e)) if e.action == Action::Released && e.sequence == 2
        ));
    }
    h.accepted_session(manager);
    assert!(h.recv(passive).is_none());
}

#[test]
fn timeout_releases_held_state_and_pauses_until_reacquired() {
    let mut h = Harness::new(vec![mapping("a", "switch_1")]);
    let id = h.register(16);
    h.recv(id);
    h.handshake(id, handshake("app"));
    h.recv(id);
    h.input(edge(Action::Pressed, 100.0));
    h.recv(id);
    h.advance(1_600);
    assert!(matches!(h.recv(id), Some(ServerMessage::SwitchEvent(e)) if e.action == Action::Released));
    assert_eq!(revocation_reason(h.recv(id)), Some(SessionRevocationReason::HeartbeatTimeout));
    assert!(!h.capture);

    let snapshot = h.register(4);
    assert!(matches!(
        h.recv(snapshot),
        Some(ServerMessage::Hello(hello)) if hello.switches[0].state == SwitchState::Released
    ));
    h.input(edge(Action::Released, 0.0));
    assert!(h.recv(snapshot).is_none());
    h.handshake(id, handshake("app"));
    assert!(matches!(
        h.recv(id),
        Some(ServerMessage::HandshakeResponse(HandshakeResponse::Accepted { .. }))
    ));
    assert!(h.capture);
}

#[test]
fn timeout_is_heartbeat_interval_times_missed_limit() {
    let timeout_ms = (HEARTBEAT_INTERVAL_MS * MISSED_HEARTBEAT_LIMIT) as u64;
    let mut h = Harness::new(vec![mapping("a", "switch_1")]);
    let id = h.register(8);
    h.recv(id);
    h.handshake(id, handshake("app"));
    h.recv(id);
    h.advance(timeout_ms - 1);
    assert!(h.recv(id).is_none());
    h.advance(1);
    assert_eq!(revocation_reason(h.recv(id)), Some(SessionRevocationReason::HeartbeatTimeout));
}

#[test]
fn matching_session_heartbeat_extends_the_lease() {
    let mut h = Harness::new(vec![mapping("a", "switch_1")]);
    let id = h.register(8);
    h.recv(id);
    h.handshake(id, handshake("app"));
    let session_id = h.accepted_session(id);
    h.advance(1_000);
    h.heartbeat(id, &session_id);
    h.advance(1_000);
    assert!(h.recv(id).is_none());
}

#[test]
fn heartbeat_with_wrong_session_id_does_not_extend_the_lease() {
    let mut h = Harness::new(vec![mapping("a", "switch_1")]);
    let id = h.register(8);
    h.recv(id);
    h.handshake(id, handshake("app"));
    h.accepted_session(id);
    h.advance(1_000);
    h.heartbeat(id, "not-the-session");
    h.advance(1_000);
    assert_eq!(revocation_reason(h.recv(id)), Some(SessionRevocationReason::HeartbeatTimeout));
}

#[test]
fn reacquisition_failure_has_typed_rejection() {
    let mut h = Harness::new(vec![mapping("a", "switch_1")]);
    let id = h.register(8);
    h.recv(id);
    h.handshake(id, handshake("app"));
    h.recv(id);
    let effects = h.broker.revoke_session(SessionRevocationReason::ExplicitRevocation, h.now);
    h.perform(effects);
    assert_eq!(revocation_reason(h.recv(id)), Some(SessionRevocationReason::ExplicitRevocation));
    h.fail_resume = true;
    h.handshake(id, handshake("app"));
    assert!(matches!(
        h.recv(id),
        Some(ServerMessage::HandshakeResponse(HandshakeResponse::Rejected {
            reason: HandshakeRejectionReason::CaptureUnavailable,
            ..
        }))
    ));
    assert!(!h.capture);
}

#[test]
fn session_queue_overflow_revokes_and_pauses_capture() {
    let mut h = Harness::new(vec![mapping("a", "switch_1")]);
    let id = h.register(1);
    h.recv(id);
    h.handshake(id, handshake("app"));
    h.input(edge(Action::Pressed, 100.0));
    assert!(matches!(
        h.recv(id),
        Some(ServerMessage::HandshakeResponse(HandshakeResponse::Accepted { .. }))
    ));
    assert!(!h.capture);
    assert!(h.recv(id).is_none());
    assert!(!h.connected(id));
}

#[test]
fn passive_queue_overflow_disconnects_the_slow_client() {
    let mut h = Harness::new(vec![mapping("a", "switch_1")]);
    let id = h.register(1);
    h.input(edge(Action::Pressed, 100.0));
    assert!(matches!(h.recv(id), Some(ServerMessage::Hello(_))));
    assert!(h.recv(id).is_none());
    assert!(!h.connected(id));
    assert!(h.capture);
}

#[test]
fn session_client_disconnect_revokes_and_pauses() {
    let mut h = Harness::new(vec![mapping("a", "switch_1")]);
    let id = h.register(8);
    let other = h.register(8);
    h.recv(id);
    h.recv(other);
    h.handshake(id, handshake("app"));
    h.disconnect(id);
    assert!(!h.capture);
    h.handshake(other, handshake("app"));
    assert!(matches!(
        h.recv(other),
        Some(ServerMessage::HandshakeResponse(HandshakeResponse::Accepted { .. }))
    ));
    assert!(h.capture);
}

#[test]
fn paused_input_is_ignored() {
    let mut h = Harness::new(vec![mapping("a", "switch_1")]);
    let id = h.register(8);
    h.recv(id);
    h.handshake(id, handshake("app"));
    h.recv(id);
    let effects = h.broker.revoke_session(SessionRevocationReason::ExplicitRevocation, h.now);
    h.perform(effects);
    h.recv(id);
    let effects = h.broker.input(edge(Action::Pressed, 100.0), true, h.now);
    assert!(effects.is_empty());
}

#[test]
fn input_with_capture_disabled_is_ignored() {
    let mut h = Harness::new(vec![mapping("a", "switch_1")]);
    let effects = h.broker.input(edge(Action::Pressed, 100.0), false, h.now);
    assert!(effects.is_empty());
    let effects = h.broker.input(edge(Action::Pressed, 100.0), true, h.now);
    assert_eq!(effects.len(), 1);
}

#[test]
fn revocation_releases_then_notifies_the_session_client() {
    let mut h = Harness::new(vec![mapping("a", "switch_1"), mapping("b", "switch_2")]);
    let id = h.register(8);
    h.recv(id);
    h.handshake(id, handshake("app"));
    let session_id = h.accepted_session(id);
    h.input(PhysicalEvent { mapping_id: "a".into(), action: Action::Pressed, confidence: None });
    h.input(PhysicalEvent { mapping_id: "b".into(), action: Action::Pressed, confidence: None });
    h.recv(id);
    h.recv(id);
    let effects = h.broker.revoke_session(SessionRevocationReason::ExplicitRevocation, h.now);
    assert_eq!(effects[0], Effect::PauseCapture);
    h.perform(effects);
    for (sequence, switch_id) in [(3, "switch_1"), (4, "switch_2")] {
        assert!(matches!(
            h.recv(id),
            Some(ServerMessage::SwitchEvent(e))
                if e.sequence == sequence && e.switch_id == switch_id && e.action == Action::Released
        ));
    }
    match h.recv(id) {
        Some(ServerMessage::SessionRevoked(revoked)) => {
            assert_eq!(revoked.session_id, session_id);
            assert_eq!(revoked.reason, SessionRevocationReason::ExplicitRevocation);
        }
        other => panic!("unexpected {other:?}"),
    }
}

#[test]
fn revoking_without_a_session_does_nothing() {
    let mut h = Harness::new(vec![mapping("a", "switch_1")]);
    let effects = h.broker.revoke_session(SessionRevocationReason::ExplicitRevocation, h.now);
    assert!(effects.is_empty());
}

#[test]
fn focus_changed_revokes_session_with_mismatched_pid() {
    let mut h = Harness::new(vec![mapping("a", "switch_1")]);
    let id = h.register(8);
    h.recv(id);
    h.handshake(id, handshake_with_pid("com.test.app", 1000));
    h.recv(id);
    let effects = h.broker.focus_changed(Some(2000), h.now);
    h.perform(effects);
    assert_eq!(revocation_reason(h.recv(id)), Some(SessionRevocationReason::FocusLost));
}

#[test]
fn focus_changed_same_pid_keeps_session() {
    let mut h = Harness::new(vec![mapping("a", "switch_1")]);
    let id = h.register(8);
    h.recv(id);
    h.handshake(id, handshake_with_pid("com.test.app", 1000));
    h.recv(id);
    let effects = h.broker.focus_changed(Some(1000), h.now);
    h.perform(effects);
    assert!(h.recv(id).is_none(), "session should NOT be revoked when PID matches");
}

#[test]
fn focus_changed_no_session_pid_does_not_revoke() {
    let mut h = Harness::new(vec![mapping("a", "switch_1")]);
    let id = h.register(8);
    h.recv(id);
    h.handshake(id, handshake("com.test.app"));
    h.recv(id);
    let effects = h.broker.focus_changed(Some(9999), h.now);
    h.perform(effects);
    assert!(h.recv(id).is_none(), "session should NOT be revoked when session has no PID");
}

#[test]
fn focus_lost_to_no_application_revokes() {
    let mut h = Harness::new(vec![mapping("a", "switch_1")]);
    let id = h.register(8);
    h.recv(id);
    h.handshake(id, handshake_with_pid("com.test.app", 1000));
    h.recv(id);
    let effects = h.broker.focus_changed(None, h.now);
    h.perform(effects);
    assert_eq!(revocation_reason(h.recv(id)), Some(SessionRevocationReason::FocusLost));
}

#[test]
fn escape_hatch_revokes_session_on_sustained_hold() {
    let mut h = Harness::new(vec![mapping("a", "switch_1")]);
    let id = h.register(8);
    h.recv(id);
    h.handshake(id, handshake("com.test.app"));
    let session_id = h.accepted_session(id);
    h.input(edge(Action::Pressed, 100.0));
    h.recv(id);
    let mut found_escape = false;
    for _ in 0..20 {
        h.advance(400);
        h.heartbeat(id, &session_id);
        if let Some(message) = h.recv(id) {
            if let ServerMessage::SwitchEvent(_) = message {
                assert_eq!(revocation_reason(h.recv(id)), Some(SessionRevocationReason::EscapeHatch));
                found_escape = true;
                break;
            }
        }
    }
    assert!(found_escape, "expected EscapeHatch revocation after sustained hold");
    assert!(h.now >= ESCAPE_HOLD_MS * MS);
}

#[test]
fn escape_hatch_does_not_fire_if_switch_released_in_time() {
    let mut h = Harness::new(vec![mapping("a", "switch_1")]);
    let id = h.register(8);
    h.recv(id);
    h.handshake(id, handshake("com.test.app"));
    let session_id = h.accepted_session(id);
    h.input(edge(Action::Pressed, 100.0));
    h.recv(id);
    h.input(edge(Action::Released, 0.0));
    h.recv(id);
    while h.now < 4_500 * MS {
        h.heartbeat(id, &session_id);
        h.advance(400);
    }
    assert!(h.recv(id).is_none(), "session should NOT be revoked if switch was released in time");
}

#[test]
fn escape_hatch_tracker_cleared_on_new_session() {
    let mut h = Harness::new(vec![mapping("a", "switch_1")]);
    let id = h.register(8);
    h.recv(id);
    h.input(edge(Action::Pressed, 100.0));
    h.recv(id);
    h.advance(ESCAPE_HOLD_MS + 200);
    h.handshake(id, handshake("com.test.app"));
    assert!(matches!(h.recv(id), Some(ServerMessage::SwitchEvent(e)) if e.action == Action::Released));
    let session_id = h.accepted_session(id);
    for _ in 0..5 {
        h.heartbeat(id, &session_id);
        h.advance(200);
    }
    assert!(
        h.recv(id).is_none(),
        "stale escape_tracker entry from passive mode should not fire on new session"
    );
}

#[test]
fn client_ids_are_handed_out_in_order() {
    let mut h = Harness::new(vec![mapping("a", "switch_1")]);
    assert!(h.broker.can_register());
    assert_eq!(h.register(1), 1);
    assert_eq!(h.register(1), 2);
    let id = h.broker.register(false);
    assert_eq!(id, 3);
    assert_eq!(h.register(1), 4);
    assert!(h.broker.has_room());
    assert!(h.broker.has_release_room());
}

#[test]
fn duplicate_and_unknown_edges_are_ignored_by_the_broker() {
    let mut h = Harness::new(vec![mapping("a", "switch_1")]);
    let id = h.register(8);
    h.recv(id);
    h.input(edge(Action::Pressed, 100.0));
    assert!(matches!(h.recv(id), Some(ServerMessage::SwitchEvent(e)) if e.sequence == 1));
    let effects = h.broker.input(edge(Action::Pressed, 100.0), true, h.now);
    assert!(effects.is_empty());
    let unknown = PhysicalEvent { mapping_id: "zz".into(), action: Action::Pressed, confidence: None };
    assert!(h.broker.input(unknown, true, h.now).is_empty());
    h.input(edge(Action::Released, 0.0));
    assert!(matches!(h.recv(id), Some(ServerMessage::SwitchEvent(e)) if e.sequence == 2));
}

#[test]
fn hello_lists_the_same_switches_after_any_operation() {
    let mut h = Harness::new(vec![mapping("a", "switch_1"), mapping("b", "switch_0")]);
    let switch_ids = |message: ServerMessage| match message {
        ServerMessage::Hello(hello) => {
            hello.switches.into_iter().map(|s| s.switch_id).collect::<Vec<_>>()
        }
        other => panic!("unexpected {other:?}"),
    };
    let before = switch_ids(h.broker.hello());
    assert_eq!(before, vec!["switch_0".to_string(), "switch_1".to_string()]);
    let id = h.register(8);
    h.input(edge(Action::Pressed, 100.0));
    h.handshake(id, handshake("app"));
    h.advance(2_000);
    assert_eq!(switch_ids(h.broker.hello()), before);
}

#[test]
fn in_process_delivery_p95_is_below_twenty_milliseconds() {
    let mut h = Harness::new(vec![mapping("a", "switch_1")]);
    let id = h.register(8);
    h.recv(id);
    let mut samples = Vec::new();
    for index in 0..100 {
        let action = if index % 2 == 0 { Action::Pressed } else { Action::Released };
        let value = if action == Action::Pressed { 100.0 } else { 0.0 };
        let started = std::time::Instant::now();
        h.input(edge(action, value));
        assert!(h.recv(id).is_some());
        samples.push(started.elapsed());
    }
    samples.sort_unstable();
    assert!(samples[94] < std::time::Duration::from_millis(20), "p95={:?}", samples[94]);
}
