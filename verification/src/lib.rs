//! Snapshots of token holders at one block of an Ethereum chain.
//!
//! The holders of a token are the accounts that its transfer events name
//! from the block in which the contract was created to a target block. The
//! blocks are cut into batches ([`ranges`]), each batch is scanned for
//! transfers ([`logs`]), and the scans are put together ([`scan`],
//! [`holders`]). Then every holder's balance is read at the target block,
//! token by token, in one batch of calls whose answers are matched to the
//! holders by id ([`rpc`], [`query`]). For a liquidity pool's token the
//! balance is turned into what it is worth in the pool's second reserve
//! ([`pool`]). What comes out is a snapshot for each token ([`snapshot`]).
//!
//! Nothing here talks to a node. [`run`] and [`job`] say what to ask next
//! and what to make of the answer; sending and storing is the caller's part.

pub mod address;
pub mod balance;
pub mod claims;
pub mod config;
pub mod error;
pub mod hex;
pub mod holders;
pub mod job;
pub mod logs;
pub mod order;
pub mod pool;
pub mod query;
pub mod ranges;
pub mod rpc;
pub mod run;
pub mod scan;
pub mod snapshot;
