//! Tunnel bookkeeping and `ssh_config` editing for a keyboard-driven picker.

#![allow(unused_imports)]

pub mod action_laws;
pub mod argv_laws;
pub mod command;
pub mod config_laws;
pub mod discover;
pub mod discover_laws;
pub mod edit;
pub mod effective;
pub mod find;
pub mod form;
pub mod form_laws;
pub mod forward_form;
pub mod glob;
pub mod key;
pub mod key_laws;
pub mod module;
pub mod number;
pub mod order;
pub mod paint;
pub mod plan_laws;
pub mod probe;
pub mod probe_laws;
pub mod proctrace;
pub mod readback;
pub mod report_laws;
pub mod reread;
pub mod rhythm;
pub mod rule_laws;
pub mod rules;
pub mod saved;
pub mod screen_laws;
pub mod split;
pub mod ssh;
pub mod sshconfig;
pub mod state;
pub mod state_laws;
pub mod supervisor;
pub mod systemd;
pub mod text;
pub mod text_laws;
pub mod tunnels;
pub mod ui;
pub mod worker;
