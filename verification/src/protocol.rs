use vstd::prelude::*;
use vstd::std_specs::convert::FromSpec;
use vstd::string::StringSliceAdditionalSpecFns;

use crate::text::same_text;

verus! {

/// The wire protocol version this broker speaks.
pub const PROTOCOL_VERSION: &'static str = "0.3.0";

/// A physical or logical edge.
#[derive(Debug, Clone, Copy, PartialEq, Eq, Structural)]
pub enum Action {
    Pressed,
    Released,
}

/// The current state of a logical switch.
#[derive(Debug, Clone, Copy, PartialEq, Eq, Structural)]
pub enum SwitchState {
    Pressed,
    Released,
}

/// An analog activation confidence: an `f32` carried by its IEEE-754 bit
/// pattern, so that it passes through the broker unchanged.
#[derive(Debug, Clone, Copy, PartialEq, Eq, Structural)]
pub struct Confidence {
    pub bits: u32,
}

/// Snapshot of one logical switch, as sent in a `hello`.
#[derive(Debug, Clone, PartialEq)]
pub struct SwitchSnapshot {
    pub switch_id: String,
    pub state: SwitchState,
    /// Current confidence for this switch; `None` when unknown.
    pub confidence: Option<Confidence>,
}

/// The first message of every connection: the state of every switch.
#[derive(Debug, Clone, PartialEq)]
pub struct Hello {
    pub protocol_version: String,
    pub switches: Vec<SwitchSnapshot>,
}

/// One logical transition, numbered by the broker.
#[derive(Debug, Clone, PartialEq)]
pub struct SwitchEvent {
    pub protocol_version: String,
    pub sequence: u64,
    pub monotonic_us: u64,
    pub switch_id: String,
    pub action: Action,
    /// Activation confidence; `None` means the source is binary or unknown.
    pub confidence: Option<Confidence>,
}

/// The session mode a client asks for; only the exclusive foreground mode is
/// implemented, any other name is kept for a typed rejection.
#[derive(Debug, Clone, PartialEq, Eq)]
pub enum RequestedMode {
    ExclusiveForeground,
    Unsupported(String),
}

/// A client's request for a managed session.
#[derive(Debug, Clone, PartialEq, Eq)]
pub struct Handshake {
    pub protocol_version: String,
    pub app_id: String,
    pub requested_mode: RequestedMode,
    pub pid: Option<u32>,
}

#[derive(Debug, Clone, Copy, PartialEq, Eq, Structural)]
pub enum HandshakeRejectionReason {
    ProtocolMismatch,
    InvalidAppId,
    UnsupportedMode,
    SessionBusy,
    CaptureUnavailable,
}

#[derive(Debug, Clone, PartialEq, Eq)]
pub enum HandshakeResponse {
    Accepted {
        protocol_version: String,
        session_id: String,
        heartbeat_interval_ms: u32,
        missed_heartbeat_limit: u32,
    },
    Rejected { protocol_version: String, reason: HandshakeRejectionReason },
}

#[derive(Debug, Clone, Copy, PartialEq, Eq, Structural)]
pub enum SessionRevocationReason {
    HeartbeatTimeout,
    QueueOverflow,
    ExplicitRevocation,
    FocusLost,
    EscapeHatch,
}

#[derive(Debug, Clone, PartialEq, Eq)]
pub struct SessionRevoked {
    pub protocol_version: String,
    pub session_id: String,
    pub reason: SessionRevocationReason,
}

/// Every message the broker sends to a client.
#[derive(Debug, Clone, PartialEq)]
pub enum ServerMessage {
    Hello(Hello),
    SwitchEvent(SwitchEvent),
    HandshakeResponse(HandshakeResponse),
    SessionRevoked(SessionRevoked),
}

/// Every message a client may send.
#[derive(Debug, Clone, PartialEq, Eq)]
pub enum ClientMessage {
    Handshake(Handshake),
    Heartbeat { session_id: String },
}

/// The name that selects the exclusive foreground mode on the wire.
pub open spec fn exclusive_foreground_name() -> Seq<char> {
    "exclusive_foreground"@
}

impl From<String> for RequestedMode {
    fn from(value: String) -> (mode: Self) {
        if same_text(value.as_str(), "exclusive_foreground") {
            RequestedMode::ExclusiveForeground
        } else {
            RequestedMode::Unsupported(value)
        }
    }
}

impl vstd::std_specs::convert::FromSpecImpl<String> for RequestedMode {
    open spec fn obeys_from_spec() -> bool {
        true
    }

    open spec fn from_spec(value: String) -> Self {
        if value@ == exclusive_foreground_name() {
            RequestedMode::ExclusiveForeground
        } else {
            RequestedMode::Unsupported(value)
        }
    }
}

/// The wire name of a requested mode.
pub open spec fn mode_name(mode: RequestedMode) -> Seq<char> {
    match mode {
        RequestedMode::ExclusiveForeground => exclusive_foreground_name(),
        RequestedMode::Unsupported(name) => name@,
    }
}

impl RequestedMode {
    /// The wire name of this mode.
    pub fn name(&self) -> (name: String)
        ensures
            name@ == mode_name(*self),
    {
        match self {
            RequestedMode::ExclusiveForeground => "exclusive_foreground".to_owned(),
            RequestedMode::Unsupported(value) => value.clone(),
        }
    }
}

/// A mode read from its wire name is written back as the same name; a mode
/// written out is read back as itself, except an unsupported mode that
/// carries the exclusive foreground name, which reads back as that mode.
pub proof fn lemma_mode_name_round_trip(value: String, mode: RequestedMode)
    requires
        !(mode matches RequestedMode::Unsupported(n) && n@ == exclusive_foreground_name()),
    ensures
        mode_name(RequestedMode::from_spec(value)) == value@,
        mode matches RequestedMode::Unsupported(n) ==> RequestedMode::from_spec(n) == mode,
{
}

/// Bit pattern of the `f32` value 100.0, the largest valid confidence.
pub const CONFIDENCE_FULL_BITS: u32 = 0x42C8_0000;

/// Bit pattern of the `f32` value -0.0, which compares equal to 0.0.
pub const NEGATIVE_ZERO_BITS: u32 = 0x8000_0000;

/// A confidence is valid when it is a finite value in [0.0, 100.0]. Over the
/// IEEE-754 bit pattern: non-negative floats are ordered as their patterns,
/// with 0.0 at 0 and 100.0 at [`CONFIDENCE_FULL_BITS`]; everything above is
/// larger, infinite or NaN. The only other value in range is -0.0.
pub open spec fn is_valid_confidence(c: Confidence) -> bool {
    c.bits <= CONFIDENCE_FULL_BITS || c.bits == NEGATIVE_ZERO_BITS
}

/// The confidence kept for a possibly absent reading: an invalid one counts
/// as unknown.
pub open spec fn validated(c: Option<Confidence>) -> Option<Confidence> {
    match c {
        Some(v) => if is_valid_confidence(v) {
            Some(v)
        } else {
            None
        },
        None => None,
    }
}

/// `Some(value)` for a finite confidence in [0.0, 100.0], `None` otherwise
/// (NaN, infinite or out of range).
pub fn validate_confidence(value: Confidence) -> (r: Option<Confidence>)
    ensures
        r == (if is_valid_confidence(value) {
            Some(value)
        } else {
            None
        }),
{
    if value.bits <= CONFIDENCE_FULL_BITS || value.bits == NEGATIVE_ZERO_BITS {
        Some(value)
    } else {
        None
    }
}

/// An absent confidence passes as `Some(None)`; a present one is validated
/// with [`validate_confidence`], and `None` reports an invalid one.
pub fn validate_confidence_opt(value: Option<Confidence>) -> (r: Option<Option<Confidence>>)
    ensures
        r == (match value {
            None => Some(None),
            Some(v) => if is_valid_confidence(v) {
                Some(Some(v))
            } else {
                None
            },
        }),
{
    match value {
        None => Some(None),
        Some(v) => match validate_confidence(v) {
            Some(c) => Some(Some(c)),
            None => None,
        },
    }
}

/// The confidence a binary switch reports: 100.0 when pressed, 0.0 when
/// released.
pub fn binary_confidence(action: Action) -> (c: Confidence)
    ensures
        c.bits == (match action {
            Action::Pressed => CONFIDENCE_FULL_BITS,
            Action::Released => 0u32,
        }),
{
    match action {
        Action::Pressed => Confidence { bits: CONFIDENCE_FULL_BITS },
        Action::Released => Confidence { bits: 0 },
    }
}

/// The abstract content of a switch snapshot.
pub struct SnapshotView {
    pub switch_id: Seq<char>,
    pub state: SwitchState,
    pub confidence: Option<Confidence>,
}

impl View for SwitchSnapshot {
    type V = SnapshotView;

    open spec fn view(&self) -> SnapshotView {
        SnapshotView { switch_id: self.switch_id@, state: self.state, confidence: self.confidence }
    }
}

/// The abstract content of a server message, strings taken by their text.
pub enum MessageView {
    Hello { version: Seq<char>, switches: Seq<SnapshotView> },
    SwitchEvent {
        version: Seq<char>,
        sequence: u64,
        monotonic_us: u64,
        switch_id: Seq<char>,
        action: Action,
        confidence: Option<Confidence>,
    },
    Accepted {
        version: Seq<char>,
        session_id: Seq<char>,
        heartbeat_interval_ms: u32,
        missed_heartbeat_limit: u32,
    },
    Rejected { version: Seq<char>, reason: HandshakeRejectionReason },
    Revoked { version: Seq<char>, session_id: Seq<char>, reason: SessionRevocationReason },
}

impl View for ServerMessage {
    type V = MessageView;

    open spec fn view(&self) -> MessageView {
        match self {
            ServerMessage::Hello(h) => MessageView::Hello {
                version: h.protocol_version@,
                switches: h.switches@.map_values(|s: SwitchSnapshot| s@),
            },
            ServerMessage::SwitchEvent(e) => MessageView::SwitchEvent {
                version: e.protocol_version@,
                sequence: e.sequence,
                monotonic_us: e.monotonic_us,
                switch_id: e.switch_id@,
                action: e.action,
                confidence: e.confidence,
            },
            ServerMessage::HandshakeResponse(HandshakeResponse::Accepted {
                protocol_version,
                session_id,
                heartbeat_interval_ms,
                missed_heartbeat_limit,
            }) => MessageView::Accepted {
                version: protocol_version@,
                session_id: session_id@,
                heartbeat_interval_ms: *heartbeat_interval_ms,
                missed_heartbeat_limit: *missed_heartbeat_limit,
            },
            ServerMessage::HandshakeResponse(HandshakeResponse::Rejected {
                protocol_version,
                reason,
            }) => MessageView::Rejected { version: protocol_version@, reason: *reason },
            ServerMessage::SessionRevoked(r) => MessageView::Revoked {
                version: r.protocol_version@,
                session_id: r.session_id@,
                reason: r.reason,
            },
        }
    }
}

/// A byte that may appear in an application identifier: an ASCII digit
/// (48..=57), lower-case letter (97..=122), upper-case letter (65..=90), `.`
/// (46), `_` (95) or `-` (45).
pub open spec fn is_app_id_byte(b: u8) -> bool {
    (48 <= b <= 57) || (97 <= b <= 122) || (65 <= b <= 90) || b == 46 || b == 95 || b == 45
}

/// An application identifier is 1 to 128 bytes, each one allowed by
/// [`is_app_id_byte`].
pub open spec fn is_valid_app_id(bytes: Seq<u8>) -> bool {
    &&& 1 <= bytes.len() <= 128
    &&& forall|i: int| 0 <= i < bytes.len() ==> is_app_id_byte(#[trigger] bytes[i])
}

/// Whether `app_id` is a strict ASCII identifier accepted in a handshake.
pub fn valid_app_id(app_id: &str) -> (ok: bool)
    ensures
        ok == is_valid_app_id(app_id.spec_bytes()),
{
    let bytes = app_id.as_bytes();
    let n = bytes.len();
    if n < 1 || n > 128 {
        return false;
    }
    let mut i: usize = 0;
    while i < n
        invariant
            n == bytes@.len(),
            bytes@ == app_id.spec_bytes(),
            i <= n,
            forall|j: int| 0 <= j < i ==> is_app_id_byte(#[trigger] bytes@[j]),
        decreases n - i,
    {
        let b = bytes[i];
        let allowed = (48 <= b && b <= 57) || (97 <= b && b <= 122) || (65 <= b && b <= 90)
            || b == 46 || b == 95 || b == 45;
        if !allowed {
            return false;
        }
        i = i + 1;
    }
    true
}

/// Whether `c` may appear in an application identifier: an ASCII letter, an
/// ASCII digit, `.`, `_` or `-`.
pub open spec fn is_app_id_char(c: char) -> bool {
    ||| ('a' <= c && c <= 'z')
    ||| ('A' <= c && c <= 'Z')
    ||| ('0' <= c && c <= '9')
    ||| c == '.'
    ||| c == '_'
    ||| c == '-'
}

/// Application identifiers are strict ASCII identifiers: text of 1 to 128
/// characters, each an ASCII letter (any of `a` to `z`, `A` to `Z`), digit,
/// `.`, `_` or `-`, is valid; and a byte outside that set makes an
/// identifier invalid, as do an empty identifier and one longer than 128.
pub proof fn lemma_app_ids_are_ascii_identifiers(text: Seq<char>, bytes: Seq<u8>, i: int)
    ensures
        1 <= text.len() <= 128 && (forall|k: int| 0 <= k < text.len() ==> is_app_id_char(
            #[trigger] text[k],
        )) ==> is_valid_app_id(vstd::utf8::encode_utf8(text)),
        0 <= i < bytes.len() && !(('a' as u32 <= bytes[i] as u32 <= 'z' as u32) || ('A' as u32
            <= bytes[i] as u32 <= 'Z' as u32) || ('0' as u32 <= bytes[i] as u32 <= '9' as u32)
            || bytes[i] as u32 == '.' as u32 || bytes[i] as u32 == '_' as u32 || bytes[i] as u32
            == '-' as u32) ==> !is_valid_app_id(bytes),
        bytes.len() == 0 || bytes.len() > 128 ==> !is_valid_app_id(bytes),
{
    if 1 <= text.len() <= 128 && (forall|k: int| 0 <= k < text.len() ==> is_app_id_char(
        #[trigger] text[k],
    )) {
        assert forall|k: int| 0 <= k < text.len() implies (#[trigger] text[k] as u32) < 128 by {
            assert(is_app_id_char(text[k]));
        }
        crate::text::lemma_ascii_encoding(text);
        let e = vstd::utf8::encode_utf8(text);
        assert forall|k: int| 0 <= k < e.len() implies is_app_id_byte(#[trigger] e[k]) by {
            assert(is_app_id_char(text[k]));
            assert(e[k] == text[k] as u32 as u8);
        }
    }
}

} // verus!
