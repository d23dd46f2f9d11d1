//! Construction of sorted string tables: immutable files made of size-bounded
//! data blocks, an index of the blocks and a fixed-width trailer.
//!
//! A table is laid out as
//!
//! ```text
//! | block | block | ... | block | index | length of the blocks: 4 bytes |
//! ```
//!
//! where the index holds, for each block, its offset among the blocks and
//! the first key in it. All numbers are written most significant byte
//! first.
//!
//! [`builder::SsTableBuilder`] takes key-value pairs in the order of their
//! keys and cuts them into blocks; [`table`] says in the model what it
//! builds, and proves what holds of every table built.

pub mod block;
pub mod builder;
pub mod meta;
pub mod table;
pub mod wire;
