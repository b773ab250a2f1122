//! A bump allocator over a simulated, growable heap region.
//!
//! Every allocation is preceded by a fixed-size block header; the headers
//! form a singly linked list in allocation order. Freed blocks can be reused
//! through a configurable search strategy (first-fit, next-fit, best-fit), and
//! freeing the newest block gives its region back to the heap.
pub mod align;
pub mod block;
pub mod bump;
pub mod heap;
pub mod laws;

pub use align::{align_up, align_word, word_size};
pub use block::{Block, Region};
pub use bump::{BumpAllocator, SearchMode};
pub use heap::Heap;
