//! Persistent random-access lists.
//!
//! A [`Fral`] is an immutable sequence with `cons` and `uncons` in constant
//! time and `get` in logarithmic time, after Okasaki's "Purely Functional
//! Random-Access Lists" (1995). Every operation hands back a new list and
//! leaves the old one as it was; the two share what they have in common.
//!
//! [`Fral`] keeps its nodes behind `Arc` and may be sent across threads.
//! [`rc::Fral`] is the same list behind `Rc`, for use within one thread.
//!
//! Each list is described by its view, the sequence of its elements, and
//! every function says in its contract what it does to that sequence.
//!
//! ```
//! use fral::Fral;
//!
//! let mut list = Fral::new();
//! for item in vec![1, 2, 3, 4, 5] {
//!     list = list.cons(item);
//! }
//! assert_eq!(*list.get(4).unwrap(), 1);
//! assert!(list.get(5).is_none());
//!
//! let (head, tail) = list.uncons().unwrap();
//! assert_eq!(*head, 5);
//! assert_eq!(tail.len(), 4);
//!
//! // a longer list, and the shorter one still there
//! let longer = list.cons(42);
//! assert_eq!(*longer.get(0).unwrap(), 42);
//! assert_eq!(*list.get(0).unwrap(), 5);
//! ```

pub mod arc;
pub mod rc;
pub mod skew;

pub use crate::arc::{AsArc, Fral, Iter};
