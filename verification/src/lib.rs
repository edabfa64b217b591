//! Race sessions and crawling control for a multiplayer crawling race.
//!
//! Actors crawl along a track by dragging their limbs over the ground; a
//! server keeps the records of the clients, starts races and ranks those
//! that finish. This library holds the rules of both sides:
//!
//! - [`server`]: the registry of clients and races, and what each message of
//!   a client does to it; [`race_laws`]: what holds of every race;
//! - [`client`]: what a client knows and intends, and what the server's
//!   messages and the player's choices do to that; [`menu`]: its menu;
//! - [`control`]: the decisions of an actor's controls;
//! - [`interop`]: the messages; [`pose`] and [`limb`]: the body of an actor;
//! - [`lane`], [`order`], [`roster`]: lanes and lists of clients;
//! - [`scalar`], [`whole`]: the numbers.
//!
//! Every number that the game computes in single-precision floating point is
//! carried here by its bit pattern ([`scalar::Scalar`]), so that the rules of
//! the race can be stated and proved over exact integers. The geometry of a
//! crawl itself is computed outside the library.

pub mod client;
pub mod control;
pub mod interop;
pub mod lane;
pub mod limb;
pub mod menu;
pub mod order;
pub mod pose;
pub mod race_laws;
pub mod roster;
pub mod scalar;
pub mod server;
pub mod whole;
