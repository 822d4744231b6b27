//! A doubly linked list whose nodes live in one arena and link to each other by index.

pub mod linked_list;

pub use linked_list::method::{LinkedList, NodeRef};
