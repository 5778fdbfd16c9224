//! Verified cores of two plugins for a stream of ledger blocks.
//!
//! [`program_tracking`] notes for every account in which epochs transactions
//! read it and wrote it, and prepares checkpoints of what it knows.
//! [`inflation_reward_cost`] measures what it costs to read the reward-partition
//! blocks of an epoch, and reports the costliest requests.
pub mod activity;
pub mod activity_table;
pub mod block_cost;
pub mod checkpoint;
pub mod cost_tables;
pub mod epoch;
pub mod inflation_reward_cost;
pub mod message;
pub mod order;
pub mod program_tracking;
pub mod report;
pub mod save;
pub mod stored;
pub mod top_epochs;
pub mod wire;
