//! Verified core of a local switch-event broker: configuration checks, the
//! logical switch state machine, the wire protocol's value types, capture
//! configuration, the stdin simulator's command language, and the broker's
//! routing and session decisions.

pub mod broker;
pub mod config;
pub mod input;
pub mod protocol;
pub mod simulator;
pub mod state;
pub mod text;

pub use broker::{
    Broker, Effect, HandshakePlan, OnFailure, PhysicalEvent, ESCAPE_HOLD_MS,
    HEARTBEAT_INTERVAL_MS, MISSED_HEARTBEAT_LIMIT,
};
pub use config::{Config, ConfigError, InputKind, Mapping, ServerConfig, SimulatorConfig};
pub use protocol::{
    valid_app_id, validate_confidence, validate_confidence_opt, Action, ClientMessage,
    Confidence, Handshake, HandshakeRejectionReason, HandshakeResponse, Hello, RequestedMode,
    ServerMessage, SessionRevocationReason, SessionRevoked, SwitchEvent, SwitchSnapshot,
    SwitchState, PROTOCOL_VERSION,
};
pub use state::{LogicalTransition, StateError, SwitchStateMachine};
