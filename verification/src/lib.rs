//! Decision and text logic of the Nexious Quick launcher, with contracts.
pub mod dedupe;
pub mod folders;
pub mod item;
pub mod json;
pub mod launch;
pub mod order;
pub mod platform;
pub mod search;
pub mod settings;
pub mod sync;
pub mod text;
pub mod web;
