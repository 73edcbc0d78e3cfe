pub mod broker;
pub mod protocol;
pub mod user;
mod channel;
