//! Conversation documents and block-wise rendering of streamed text.

pub mod conversation;
pub mod provider;
pub mod round_trip;
pub mod selection;
pub mod session;
pub mod streaming;
pub mod text;
