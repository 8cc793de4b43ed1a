//! A typed, hierarchical key-value layer over a flat, sorted, byte-keyed store.
//!
//! Keys are built from typed segments whose byte encoding keeps their order;
//! containers (`Item`, `TypedMap`, `Vector`, `PriorityQueue`) describe which
//! region of the flat keyspace holds which values, and range scans rebuild
//! typed keys from raw entries while leaving bookkeeping entries out.
pub mod big_endian;
pub mod borsh_codec;
pub mod container;
pub mod display;
pub mod error;
pub mod item;
pub mod key;
pub mod key_serialization;
pub mod laws;
pub mod map;
pub mod memory;
pub mod order;
pub mod serialization;
pub mod storage;
pub mod structures;

pub use borsh_codec::{BorshEncoding, BorshError};
pub use container::{Container, ContainerType, DataStructure, DsIter, NonTerminal, Terminal};
pub use display::{DisplayEncoding, DisplayError};
pub use error::{KeyDeserializeError, KeySerializeError, StorageError};
pub use item::Item;
pub use key::{AsInner, CompoundKey, KeySerde};
pub use key_serialization::length::{decode_length, encode_length};
pub use key_serialization::{KeyEncoding, KeyType};
pub use map::TypedMap;
pub use memory::MemoryStorage;
pub use serialization::{decode, encode, Codec, Decodable, Encodable, Encoding};
pub use storage::{
    is_empty_range, keys_raw, range_raw, Bound, IterableStorage, Order, Storage, StorageMut,
};
pub use structures::queue::PriorityQueue;
pub use structures::vector::Vector;
