//! Stadhouder: an engine for running a stateful service where no process may
//! stay up for good.
pub mod seqs;
pub mod text;
pub mod number;
pub mod json;
pub mod paths;
pub mod layout;
pub mod pipes;
pub mod heartbeat;
pub mod engine;
pub mod state;
pub mod timers;
pub mod runtime;
pub mod turn;
pub mod run;
pub mod test_app;
pub mod config;
pub mod cookie;
pub mod request;
pub mod identity;
pub mod handler;
pub mod time;
pub mod client;
pub mod cgi_server;
