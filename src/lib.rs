//! A reader with the behaviour of Perl's diamond (`<>`) operator: it walks, in order, the
//! files and standard input ("-") named by a list of tokens, or standard input alone when the
//! list is empty.
//!
//! The reader does no I/O of its own. Each operation is a step function from the reader's
//! state and an [`Event`] reported by the caller to the next state and an [`Action`] that the
//! caller performs (open a source, read from it) before it reports the outcome.

pub mod diamond;
pub mod laws;
pub mod lines;
pub mod sources;
pub mod stream;
mod text;

pub use sources::{source_kind, source_tokens, SourceKind};
pub use diamond::{Action, DiamondInner, Event, ReaderState, Slot};
pub use lines::{LineIter, LineStep};
pub use stream::SingleStreamReader;
