//! A buddy memory allocator, with the small utilities that live beside it: a
//! spin lock, a block buffer and the SHA-1 and SHA-2 hash functions.
//!
//! The allocator keeps free blocks in one list per order; blocks are split on
//! demand when allocating and merged with their buddies when released.
//! Addresses are plain integers: the allocator keeps its books on them and
//! never touches the memory they name.
//!
//! `buddy` holds the allocator and the contracts of its operations; `lemmas`
//! and `buddy_tree` hold what follows from them across calls: every byte
//! registered is free or handed out, free blocks are aligned, a release
//! undoes the allocation before it, an exhausted allocator serves nothing,
//! blocks handed out never overlap, and once every block is back they merge
//! into the block they came from.

pub mod block_buffer;
pub mod buddy;
pub mod buddy_tree;
pub mod free_list;
pub mod hash;
pub mod lemmas;
pub mod mutex;
pub mod sizes;

pub use block_buffer::{BlockBuffer, BlockUser};
pub use buddy::BuddyAllocator;
pub use free_list::FreeList;
pub use hash::hasher::{Hasher, HasherCore};
pub use hash::sha1::Sha1Core;
pub use hash::sha256::Sha256Core;
pub use hash::{Digest, DigestUser, InsufficientMemoryError, KeyUser, Sha1, Sha224, Sha256};
pub use mutex::{Mutex, MutexGuard};
pub use sizes::{order_from_max_block_size, BASE_ORDER, MIN_BLOCK_SIZE};
