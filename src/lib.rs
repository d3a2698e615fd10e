//! Core IR substrate: arena handles, intrusive lists, blocks and def-use chains.
//!
//! A [`context::Context`] owns one arena per node kind; nodes refer to each
//! other through handles. Operations are threaded through blocks and blocks
//! through regions by the intrusive lists of [`linked_list`], and every value
//! keeps the list of operand slots that consume it.
pub mod attributes;
pub mod basic_block;
pub mod context;
pub mod dealloc;
pub mod linked_list;
pub mod operation;
pub mod region;
pub mod value;
