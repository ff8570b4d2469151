# mbus

Wired M-Bus (EN 13757) as a verified library: short and long frames, a Stream
as variable data records across as many telegrams as it takes, a meter that
holds one, and a master that writes and reads it.

- `src/` is the library, verified with Verus. It touches no line: a master's
  call is a step that holds bytes to transmit, resumed with what came back.
  `src/conversation.rs` states what the two ends come to: what is written is
  held, what is held is read, and a meter that is not addressed keeps silent.
- `tests/` runs it.
- `app/` drives it over a serial line or an in-process bus.
