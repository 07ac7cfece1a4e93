//! Batch inscription transfers: a request file of inscription-to-destination
//! pairs becomes one unsigned transaction that moves every named inscription
//! to its owner, keeps each shared output's offsets intact, keeps every output
//! above dust, and pays its fee from one cardinal output.

pub mod model;
pub mod text;
pub mod glue;
pub mod requests;
pub mod wallet;
pub mod sendmany;
pub mod guarantees;
pub mod api;
pub mod inscriptions;
pub mod rest;
