//! A last-ditch allocator over one fixed, page-granular arena.
//!
//! Blocks are laid out back to back, each introduced by a boundary tag that
//! packs the block's size and its allocation flag into one word. Positions are
//! byte offsets into the arena, whose first byte sits on a page boundary.

pub mod tag;
pub mod layout;
pub mod policy;
pub mod allocator;
pub mod laws;
