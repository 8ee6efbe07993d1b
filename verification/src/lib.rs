//! The engine of an interactive selection menu: it gathers the candidates,
//! narrows them down to those that match the text typed so far, keeps a cursor
//! on the narrowed list and says, once the user has confirmed or cancelled,
//! what the process has to do on its way out.

pub mod args;
pub mod event;
pub mod filter;
pub mod menu;
pub mod order;
pub mod programs;
pub mod session;
pub mod split;
pub mod text;
