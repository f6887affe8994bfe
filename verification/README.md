# usahp

A local switch-event broker. Physical inputs (keyboard keys, Linux evdev
gamepad buttons, a stdin simulator) are captured with suppression, folded into
logical `pressed`/`released` edges of configured switches, numbered with one
global sequence, and delivered over a loopback WebSocket either to every
passive client or exclusively to one managed session.

## Layout

- `src/` — the verified library (Verus):
  - `config.rs`: configuration types and `Config::validate`;
  - `state.rs`: the many-to-one logical switch state machine;
  - `protocol.rs`: message types, confidence and application-id checks;
  - `input.rs`: keyboard code names, gamepad rules, macOS key codes, and the
    grouping of mappings by physical key;
  - `simulator.rs`: simulated mappings and the `press`/`release` commands;
  - `broker.rs`: the broker's decisions (routing, numbering, sessions,
    heartbeats, focus, escape hatch, revocation), as operations that return
    effects for the runtime to perform;
  - `text.rs`: string helpers (byte order, white space, decimal `u16`).
- `tests/` — tests of the library, including a small in-memory runtime that
  performs the broker's effects.
- `app/` — the daemon (`usahpd`) and the event printer (`usahp-listen`):
  TOML loading, capture backends, the broker task, the WebSocket server and
  the JSON shapes of the messages.
