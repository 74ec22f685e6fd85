//! Space hierarchy of a chat client: spaces, the rooms they hold, and child
//! spaces, built from server-reported relationships without ever forming a cycle.
//! Beside it, the state of the client's login window.
pub mod app_model;
pub mod builder;
pub mod reach;
pub mod room;
pub mod secrecy;
pub mod spacegraph;
