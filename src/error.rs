//! Error kinds of the library.
use vstd::prelude::*;

verus! {

/// What went wrong, with a message.
#[derive(Debug, Clone)]
pub enum Error {
    /// Reading or writing a file failed.
    Io(String),
    /// A path is missing, invalid, or not initialised.
    Config(String),
    /// A store could not be opened, read or written.
    Database(String),
    /// A store is held by another writer.
    Locked(String),
    /// The embedding collaborator failed.
    Model(String),
    /// Input could not be read as a document.
    Parsing(String),
    Unknown(String),
    Tokenizer(String),
}

} // verus!
