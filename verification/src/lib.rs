//! Verified core of the PhantomCore offloading daemon: the wire protocol,
//! XOR forward error correction, NACK gap tracking, the ARM64 decoder and
//! x86_64 emitter, the sandboxed session state and the speculation table.
pub mod le;
pub mod protocol;
pub mod fec;
pub mod clock;
pub mod nack;
pub mod arm64;
pub mod emitter;
pub mod interp;
pub mod sandbox;
pub mod jit;
pub mod predictor;
