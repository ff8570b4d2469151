//! Streams written to a meter and read back from it, the way wired M-Bus
//! moves them.
//!
//! M-Bus is the metering bus of EN 13757: heat, water, gas and electricity
//! meters on a two-wire line, a master asking and one slave at a time
//! answering. What is here is the wired link layer (the acknowledgement, the
//! short frame and the long frame, a checksum that adds up) and the
//! application layer above it: a Stream as variable data records, over as
//! many telegrams as it takes, closed by `SND_UD` and read back by `REQ_UD2`
//! and `RSP_UD`. There is no ceiling: a Stream is as long as its telegrams.
//!
//! - [`frame`]: the three frames on the line, and how long each is.
//! - [`record`]: a Stream as records in telegrams.
//! - [`meter`]: who a meter is, and the Stream it holds.
//! - [`loopback`]: a meter as a device that answers frames.
//! - [`master`]: the master's decisions, from answer to next frame.
//! - [`conversation`]: what the two ends come to, as laws.
//! - [`error`] and [`text`]: refusals, and how they read.
//!
//! Nothing here touches a line. Whoever owns one transmits the bytes a
//! master's step holds and hands back what is answered.

pub mod conversation;
pub mod error;
pub mod frame;
pub mod loopback;
pub mod master;
pub mod meter;
pub mod record;
pub mod text;

pub use error::MBusError;
pub use frame::Frame;
pub use master::{MBusTransport, ANSWER_ROOM};
pub use meter::{Identity, Meter};
