//! The operations of the grove, each for both modes: against the committed
//! state, or in a transaction.
pub mod aux;
pub mod delete;
pub mod get;
pub mod insert;
