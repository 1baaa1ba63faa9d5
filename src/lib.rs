//! A double-ended queue that also removes, swaps and relocates interior
//! elements in constant time, addressed by stable handles.
mod cursor;
mod deque;
mod iterators;
pub mod laws;
mod slot;
mod token;

pub use crate::cursor::{Cursor, CursorMut};
pub use crate::deque::Deque;
pub use crate::iterators::{DrainBack, DrainFront, IterBack, IterFront};
pub use crate::token::Token;
