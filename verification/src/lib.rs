//! Client of the Microsoft RD Gateway over RPC-over-HTTP, and the SRL entropy coder of
//! progressive RemoteFX.
//!
//! The gateway transport is built in layers:
//!   1. HTTP and NTLM to the RPC proxy ([`http`], [`auth`], [`tls`]),
//!   2. the RTS virtual connection ([`rts`], [`pdu`]),
//!   3. the DCE/RPC secure bind ([`bind`]),
//!   4. signed requests and the `TsProxy*` calls that open the tunnel ([`request`],
//!      [`tsgu`]),
//!   5. the byte stream over the tunnel ([`tunnel`]).
//!
//! Everything here computes on values in memory. What goes over a socket is handed in
//! and out as bytes, and each step says what is to be sent or read next.
pub mod auth;
pub mod bind;
pub mod bits;
pub mod error;
pub mod gateway;
pub mod http;
pub mod pdu;
pub mod request;
pub mod rts;
pub mod srl;
pub mod text;
pub mod tls;
pub mod tsgu;
pub mod tunnel;
pub mod wire;

pub use auth::NtlmAuth;
pub use bind::BoundRpc;
pub use error::{GatewayError, GatewayResult};
pub use gateway::{
    AuthProbe, BindProbe, ChannelProbe, GatewayParams, PipeProbe, RtsProbe, TunnelProbe,
};
pub use http::Response;
pub use rts::VirtualConnection;
pub use tls::{CertInfo, TofuDecision};
pub use tsgu::GatewayTunnel;
