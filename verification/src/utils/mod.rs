//! Containers.

pub mod linked_list;

pub use crate::utils::linked_list::LinkedList;
