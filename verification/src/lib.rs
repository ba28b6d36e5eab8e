//! The host side of the Sacred communication protocol.
pub mod agent;
pub mod agent_laws;
pub mod bundle_laws;
pub mod codec;
pub mod codec_laws;
pub mod config;
pub mod explain;
pub mod explain_laws;
pub mod flatten;
pub mod game;
pub mod hooks;
pub mod host_laws;
pub mod js;
pub mod js_laws;
pub mod json;
pub mod jvm;
pub mod lexeme;
pub mod number;
pub mod outbox;
pub mod outbox_laws;
pub mod pending;
pub mod pipe;
pub mod places;
pub mod post;
pub mod pump;
pub mod route_laws;
pub mod router;
pub mod router_laws;
pub mod scan_laws;
pub mod site_laws;
pub mod text;
pub mod text_laws;
pub mod wire_laws;
