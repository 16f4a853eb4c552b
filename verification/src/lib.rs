//! Verified core of the SimpleFetch bridge: the logic that turns watch
//! messages into network requests and network replies into watch messages.

pub mod text;
pub mod assoc;
pub mod sse;
pub mod state;
pub mod icons;
pub mod http;
pub mod response;
pub mod json;
pub mod bridge;
pub mod streams;
pub mod protocol;
pub mod ui;
pub mod refresh;
pub mod laws;
pub mod envelope;
pub mod page;
pub mod world;
