//! The verified core of soar-agent, an autonomous SOAR agent for Linux that refuses outgoing
//! IPv4 connections to listed destinations from an eBPF hook (cgroup/connect4) and is steered
//! from a web panel.
//!
//! - `text`: reading short texts (trimming, splitting, decimal numbers).
//! - `net`: IPv4 and CIDR texts, loopback detection, the keys of the kernel's block map.
//! - `policy`: the mode and the block list, and their edits.
//! - `config`: the configuration, its defaults, overrides, panel port and access token.
//! - `state`: the orders that the panel sends to the actor.
//! - `actor`: what the actor writes to the kernel maps for each order, and how the policy
//!   follows.
//! - `event`: connection events, their byte layout, what the panel shows, the history.
//! - `kernel`: the hook's lookup key, verdict and published event.
//! - `api`: the access rule of the HTTP API.

pub mod actor;
pub mod api;
pub mod config;
pub mod event;
pub mod kernel;
pub mod net;
pub mod policy;
pub mod state;
pub mod text;
