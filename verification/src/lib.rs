//! Crucible: the deterministic real-time-strategy simulation core, its
//! scripted opponents, and the pure training bookkeeping around it.
pub mod fixed;
pub mod entity;
pub mod map;
pub mod rng;
pub mod fog;
pub mod game;
pub mod orders;
pub mod movement;
pub mod tick;
pub mod combat;
pub mod economy;
pub mod serialize;
pub mod golden;
pub mod bot;
pub mod scripted;
pub mod headless;
pub mod features;
pub mod network;
pub mod decision;
pub mod ghost;
pub mod balance;
pub mod fitness;
pub mod curriculum;
pub mod session;
pub mod lobby;
