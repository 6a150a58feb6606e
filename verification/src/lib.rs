//! Rollback synchronisation core for a small peer-to-peer pong game.
//!
//! Every peer simulates ahead on predicted inputs, keeps a short history of
//! state snapshots, and resimulates from a snapshot when a real input turns
//! out to differ from what was predicted.
//!
//! `input` holds the input record and its capture, `queue` and `ledger` what
//! is known of the participants' inputs, `config` the settings of a session,
//! `sim` what is asked of the simulation, `session` the rollback engine,
//! `checksum` and `wire` what peers send each other, `lobby` what is
//! decided before a session starts, and `laws` what holds of every session.

pub mod checksum;
pub mod config;
pub mod input;
pub mod laws;
pub mod ledger;
pub mod lobby;
pub mod queue;
pub mod session;
pub mod sim;
pub mod wire;
