//! A Merkle Patricia trie: a radix-16 key-value map whose whole content is
//! summarised by one Keccak-256 digest, kept in a content-addressed store.

pub mod codec;
pub mod cursor;
pub mod cursorlaws;
pub mod engine;
pub mod entries;
pub mod error;
pub mod evidence;
pub mod factory;
pub mod fatdb;
pub mod fatdbmut;
pub mod hasher;
pub mod holding;
pub mod insertion;
pub mod kinds;
pub mod laws;
pub mod lazy;
pub mod lazylaws;
pub mod listing;
pub mod load;
pub mod lookup;
pub mod nibble;
pub mod node;
pub mod order;
pub mod recorder;
pub mod regular;
pub mod removal;
pub mod reopen;
pub mod rlp;
pub mod roundtrip;
pub mod sectriedb;
pub mod sectriedbmut;
pub mod shape;
pub mod standing;
pub mod store;
pub mod trie;
pub mod triedb;
pub mod triedbmut;
pub mod triemut;
pub mod unique;

pub use crate::error::TrieError;
pub use crate::factory::TrieFactory;
pub use crate::factory::TrieKinds;
pub use crate::factory::TrieKindsIterator;
pub use crate::factory::TrieKindsMut;
pub use crate::fatdb::FatDB;
pub use crate::fatdb::FatDBIterator;
pub use crate::fatdbmut::FatDBMut;
pub use crate::kinds::TrieSpec;
pub use crate::recorder::Query;
pub use crate::recorder::Recorder;
pub use crate::sectriedb::SecTrieDB;
pub use crate::sectriedbmut::SecTrieDBMut;
pub use crate::trie::Trie;
pub use crate::trie::TrieIterator;
pub use crate::triedb::TrieDB;
pub use crate::triedb::TrieDBIterator;
pub use crate::triedbmut::TrieDBMut;
pub use crate::triemut::TrieMut;
