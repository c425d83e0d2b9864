use vstd::prelude::*;

pub mod buffer_manager;
pub mod changes;
pub mod disk;
pub mod fixed;
pub mod history;
pub mod laws;
pub mod layout;
pub mod lex;
pub mod lsm_tree;
pub mod ordered;
pub mod recency;
pub mod run;
pub mod slotted_page;
pub mod timestamp;
pub mod wire;

verus! {

/// Size in bytes of one block: the unit of caching and of every page.
pub const BLOCK_SIZE: usize = 4096;

} // verus!
