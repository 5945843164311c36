//! Control plane for live migration of a QUIC media sender: validation of the
//! requested target, publication into the state shared with the transport
//! worker, and the plan of replies and notifications that follows a request.

pub mod text;
pub mod address;
pub mod state;
pub mod reply;
pub mod handler;
pub mod call;
pub mod service;
