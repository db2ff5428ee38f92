//! Frame reliability engine for a RakNet-style transport: wire framing,
//! compound reassembly, per-channel ordering, acknowledgment bookkeeping and
//! a per-connection dispatcher, together with a few game packet codecs.
pub mod error;
pub mod binary;
pub mod frame;
pub mod order;
pub mod compound;
pub mod ack;
pub mod resend;
pub mod connection;
pub mod packets;
pub mod interact;
pub mod command;
