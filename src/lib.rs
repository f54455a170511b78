//! Word completion for a text buffer: the fragment before the cursor, the
//! buffer's words that extend it, and the popup state that a host editor
//! drives with next, previous, accept and cancel.

pub mod buffer;
pub mod completer;
pub mod completion;
pub mod provider;
pub mod words;

pub use buffer::{Point, TextBuffer};
pub use completer::AutoCompleter;
pub use completion::{AutoCompletionState, CompletionItem};
pub use provider::{CompletionProvider, WordCompletionProvider};
