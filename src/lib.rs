//! Account state committed in a Merkle-Patricia trie, and the balance
//! transfer that moves it from one root to the next.

pub mod error;
pub mod nibbles;
pub mod encoding;
pub mod trie;
pub mod uint;
pub mod account;
pub mod transfer;
pub mod canonical;
