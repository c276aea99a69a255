//! A typed JSON-over-HTTP client core.
//!
//! The library holds everything that can be stated and proved: the JSON
//! codec for the three transfer records (`Task`, `Payload`,
//! `SocialMediaPost`), the request plans the two typed helpers must send,
//! and the completion step that turns a transport outcome into a typed
//! record or a classified error. The transport itself (sockets, the event
//! loop) lives outside the library and only moves plain bytes.

pub mod client;
pub mod json;
pub mod records;
