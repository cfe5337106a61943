//! Scytale core: an authenticated real-time relay.
//!
//! The library covers the token lifecycle that proves a user's identity
//! without server-side sessions, the in-memory registry of a user's open
//! client connections, and the router that fans text frames out among a
//! user's own devices.  Persistent storage, HTTP routing and the socket
//! transport are kept outside, behind plain-value interfaces.

pub mod base64url;
pub mod claims_json;
pub mod controllers;
pub mod error;
pub mod jwt;
pub mod middleware;
pub mod state;
pub mod user;
pub mod utils;
pub mod websocket;
