use vstd::prelude::*;

verus! {

/// The error kinds that the library's operations surface. Storage and
/// networking failures carry the underlying cause as descriptive text.
#[derive(Debug, Clone)]
pub enum StreamError {
    /// A filesystem-level failure, with context.
    Io(String),
    /// A failure of the durable index store, with context.
    Database(String),
    /// A failure of the peer-to-peer networking layer, with context.
    Network(String),
    /// A failure of the transcoding collaborator, with captured diagnostics.
    Transcode(String),
    /// A malformed content digest or ticket payload.
    InvalidHash(String),
    /// A path that does not exist on the host.
    FileNotFound(String),
    /// No peer connection is available.
    NotConnected,
}

pub type StreamResult<T> = Result<T, StreamError>;

} // verus!
