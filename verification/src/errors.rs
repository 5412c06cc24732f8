//! The error taxonomy shared by every component of the broker.

use vstd::prelude::*;

verus! {

/// Storage-level failures, raised by the write-ahead-log engine.
#[derive(Debug)]
pub enum StorageError {
    ContainerAlreadyExists(String),
    ContainerCreationFailed(String),
    ContainerDeletionFailed(String),
    ContainerNotFound(String),
    DirectoryCreationFailed(String, String),
    DirectoryReadFailed(String),
    FileReadFailed(String),
    FileWriteFailed(String),
    ItemReadFailed(String),
    ItemNotFound(String),
    ItemWriteFailed(String),
    CorruptedData(String),
}

/// Broker-level failures; storage failures are wrapped unchanged.
#[derive(Debug)]
pub enum MoraError {
    QueueAlreadyExists(String),
    DequeueError(String),
    EnqueueError(String),
    ConfigError(String),
    ApiError(String),
    QueueNotFound(String),
    GenericError(String),
    ConnectionError(String),
    NotConnected,
    QueueFull,
    FileError(String),
    StorageError(StorageError),
}

pub type MoraResult<T> = Result<T, MoraError>;

} // verus!
