//! Consumers for the elements of the schema.
//!
//! Every consumer is entered right after the start tag of its element and
//! returns right after the matching end tag. What it returns, and how far it
//! reads, is a function of the unread events alone.

pub mod content;
pub mod element;
pub mod email;
pub mod link;
pub mod person;
pub mod scan;
pub mod string;
