//! Execution core of a content-addressed actor ledger.
//!
//! A machine is made for one execution context over a block store. It
//! checks the context, keeps the state tree of actor records in a buffer
//! over the store, and offers the operations that change state while a
//! message executes: transfers of funds, creation of actors, commitment of
//! events, and the flush that makes the new state durable.
//!
//! * [`content_id`], [`blockstore`], [`memory_store`]: identifiers of blocks
//!   and the stores that hold them.
//! * [`cbor`], [`codec`], [`closure`]: the structure of blocks, the links
//!   that they embed, and what a root reaches through them.
//! * [`buffered`]: the write-behind buffer over a backing store.
//! * [`token`], [`actor`], [`index`], [`init_actor`], [`manifest`]: the
//!   records of the ledger and their persisted forms.
//! * [`state_tree`], [`supply`]: the actor state tree and the sum of its
//!   balances.
//! * [`events`], [`machine`], [`error`]: the machine and its operations.

pub mod actor;
pub mod blockstore;
pub mod buffered;
pub mod cbor;
pub mod closure;
pub mod codec;
pub mod content_id;
pub mod error;
pub mod events;
pub mod index;
pub mod init_actor;
pub mod machine;
pub mod manifest;
pub mod memory_store;
pub mod state_tree;
pub mod supply;
pub mod token;
