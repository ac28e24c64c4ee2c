# phantom_core

The verified core of the PhantomCore PC daemon, which executes ARM64 code
offloaded from an Android device in a sandbox on a PC.

- `src/` is the library, written in Verus: the wire protocol (`protocol`),
  XOR forward error correction (`fec`), NACK gap tracking (`nack`), the ARM64
  decoder (`arm64`), the x86_64 emitter (`emitter`), the interpreter that
  runs decoded instructions over the register and memory shadows (`interp`),
  block translation and sandboxed execution (`jit`), the session state (`sandbox`) and the
  bookkeeping of the speculative predictor (`predictor`). Little-endian
  integers are read and written by the `byteorder` crate (`le`); the clock is
  `std::time::Instant` (`clock`).
- `app/` is the daemon: the UDP loop on tokio, the floating-point LSTM
  predictor and the latency statistics.
- `tests/` exercises the library on concrete values.
