//! What the agent and the controller of a laptop cooler decide and compute.
pub mod agent;
pub mod agent_config;
pub mod bounded;
pub mod checksum;
pub mod config;
pub mod config_storage;
pub mod control;
pub mod controller;
pub mod numbers;
pub mod outside;
pub mod policy;
pub mod provisioning;
pub mod sensors;
pub mod text;
