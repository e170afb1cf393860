//! Errors of the server.

use crate::catalog::{BlobKey, ExportName};
use crate::text::{decimal, owned, push_decimal};
use vstd::prelude::*;
use vstd::string::*;

verus! {

pub type Result<T> = std::result::Result<T, ServerError>;

/// Why bytes from a client are not a valid message.
#[derive(Debug, Clone, Copy, PartialEq, Eq)]
pub enum ProtocolError {
    InvalidMagic { context: &'static str, expected: u64, actual: u64 },
    InvalidLength { context: &'static str, expected: u64, actual: u64 },
    UnsupportedFlags { context: &'static str, flags: u64 },
    PayloadTooLarge { context: &'static str, length: u64, max: u64 },
    UnsupportedCommand { command: u64 },
    InvalidText { context: &'static str },
}

/// Failures of the server.
#[derive(Debug)]
pub enum ServerError {
    ExportTooLarge { name: ExportName, size_bytes: u64, max_size_bytes: u64 },
    ExportBusy { name: ExportName },
    ExportOwnerMismatch { name: ExportName },
    OutOfBounds { operation: &'static str, offset: u64, length: u64, size_bytes: u64 },
    LockPoisoned { resource: &'static str },
    RuntimeClosed { resource: &'static str },
    BlobAlreadyExists { context: &'static str, key: BlobKey },
    Io { context: &'static str, message: String },
    Protocol { source: ProtocolError },
    Catalog { message: String },
    Wal { context: &'static str, message: String },
}

/// What a [`ProtocolError`] says.
pub enum ProtocolErrorView {
    InvalidMagic { context: Seq<char>, expected: u64, actual: u64 },
    InvalidLength { context: Seq<char>, expected: u64, actual: u64 },
    UnsupportedFlags { context: Seq<char>, flags: u64 },
    PayloadTooLarge { context: Seq<char>, length: u64, max: u64 },
    UnsupportedCommand { command: u64 },
    InvalidText { context: Seq<char> },
}

/// What a [`ServerError`] says.
pub enum ErrorView {
    ExportTooLarge { name: Seq<char>, size_bytes: u64, max_size_bytes: u64 },
    ExportBusy { name: Seq<char> },
    ExportOwnerMismatch { name: Seq<char> },
    OutOfBounds { operation: Seq<char>, offset: u64, length: u64, size_bytes: u64 },
    LockPoisoned { resource: Seq<char> },
    RuntimeClosed { resource: Seq<char> },
    BlobAlreadyExists { context: Seq<char>, key: Seq<char> },
    Io { context: Seq<char>, message: Seq<char> },
    Protocol { source: ProtocolErrorView },
    Catalog { message: Seq<char> },
    Wal { context: Seq<char>, message: Seq<char> },
}

impl View for ProtocolError {
    type V = ProtocolErrorView;

    open spec fn view(&self) -> ProtocolErrorView {
        match self {
            ProtocolError::InvalidMagic { context, expected, actual } => {
                ProtocolErrorView::InvalidMagic {
                    context: context@,
                    expected: *expected,
                    actual: *actual,
                }
            },
            ProtocolError::InvalidLength { context, expected, actual } => {
                ProtocolErrorView::InvalidLength {
                    context: context@,
                    expected: *expected,
                    actual: *actual,
                }
            },
            ProtocolError::UnsupportedFlags { context, flags } => {
                ProtocolErrorView::UnsupportedFlags { context: context@, flags: *flags }
            },
            ProtocolError::PayloadTooLarge { context, length, max } => {
                ProtocolErrorView::PayloadTooLarge {
                    context: context@,
                    length: *length,
                    max: *max,
                }
            },
            ProtocolError::UnsupportedCommand { command } => {
                ProtocolErrorView::UnsupportedCommand { command: *command }
            },
            ProtocolError::InvalidText { context } => {
                ProtocolErrorView::InvalidText { context: context@ }
            },
        }
    }
}

impl View for ServerError {
    type V = ErrorView;

    open spec fn view(&self) -> ErrorView {
        match self {
            ServerError::ExportTooLarge { name, size_bytes, max_size_bytes } => {
                ErrorView::ExportTooLarge {
                    name: name@,
                    size_bytes: *size_bytes,
                    max_size_bytes: *max_size_bytes,
                }
            },
            ServerError::ExportBusy { name } => ErrorView::ExportBusy { name: name@ },
            ServerError::ExportOwnerMismatch { name } => {
                ErrorView::ExportOwnerMismatch { name: name@ }
            },
            ServerError::OutOfBounds { operation, offset, length, size_bytes } => {
                ErrorView::OutOfBounds {
                    operation: operation@,
                    offset: *offset,
                    length: *length,
                    size_bytes: *size_bytes,
                }
            },
            ServerError::LockPoisoned { resource } => {
                ErrorView::LockPoisoned { resource: resource@ }
            },
            ServerError::RuntimeClosed { resource } => {
                ErrorView::RuntimeClosed { resource: resource@ }
            },
            ServerError::BlobAlreadyExists { context, key } => {
                ErrorView::BlobAlreadyExists { context: context@, key: key@ }
            },
            ServerError::Io { context, message } => {
                ErrorView::Io { context: context@, message: message@ }
            },
            ServerError::Protocol { source } => ErrorView::Protocol { source: source@ },
            ServerError::Catalog { message } => ErrorView::Catalog { message: message@ },
            ServerError::Wal { context, message } => {
                ErrorView::Wal { context: context@, message: message@ }
            },
        }
    }
}

impl Clone for ServerError {
    fn clone(&self) -> (copy: Self)
        ensures
            copy@ == self@,
    {
        match self {
            ServerError::ExportTooLarge { name, size_bytes, max_size_bytes } => {
                ServerError::ExportTooLarge {
                    name: name.clone(),
                    size_bytes: *size_bytes,
                    max_size_bytes: *max_size_bytes,
                }
            },
            ServerError::ExportBusy { name } => ServerError::ExportBusy { name: name.clone() },
            ServerError::ExportOwnerMismatch { name } => {
                ServerError::ExportOwnerMismatch { name: name.clone() }
            },
            ServerError::OutOfBounds { operation, offset, length, size_bytes } => {
                ServerError::OutOfBounds {
                    operation: *operation,
                    offset: *offset,
                    length: *length,
                    size_bytes: *size_bytes,
                }
            },
            ServerError::LockPoisoned { resource } => {
                ServerError::LockPoisoned { resource: *resource }
            },
            ServerError::RuntimeClosed { resource } => {
                ServerError::RuntimeClosed { resource: *resource }
            },
            ServerError::BlobAlreadyExists { context, key } => {
                ServerError::BlobAlreadyExists { context: *context, key: key.clone() }
            },
            ServerError::Io { context, message } => {
                ServerError::Io { context: *context, message: message.clone() }
            },
            ServerError::Protocol { source } => ServerError::Protocol { source: *source },
            ServerError::Catalog { message } => ServerError::Catalog { message: message.clone() },
            ServerError::Wal { context, message } => {
                ServerError::Wal { context: *context, message: message.clone() }
            },
        }
    }
}

/// The text of a protocol error.
pub open spec fn protocol_error_text(error: ProtocolErrorView) -> Seq<char> {
    match error {
        ProtocolErrorView::InvalidMagic { context, expected, actual } => {
            context + ": invalid magic "@ + decimal(actual as nat) + ", expected "@ + decimal(
                expected as nat,
            )
        },
        ProtocolErrorView::InvalidLength { context, expected, actual } => {
            context + ": invalid length "@ + decimal(actual as nat) + ", expected "@ + decimal(
                expected as nat,
            )
        },
        ProtocolErrorView::UnsupportedFlags { context, flags } => {
            context + ": unsupported flags "@ + decimal(flags as nat)
        },
        ProtocolErrorView::PayloadTooLarge { context, length, max } => {
            context + ": payload length "@ + decimal(length as nat) + " exceeds limit "@ + decimal(
                max as nat,
            )
        },
        ProtocolErrorView::UnsupportedCommand { command } => {
            "unsupported command "@ + decimal(command as nat)
        },
        ProtocolErrorView::InvalidText { context } => context + ": text is not valid UTF-8"@,
    }
}

/// The text of a server error.
pub open spec fn error_text(error: ErrorView) -> Seq<char> {
    match error {
        ErrorView::ExportTooLarge { name, size_bytes, max_size_bytes } => {
            "export `"@ + name + "` size "@ + decimal(size_bytes as nat)
                + " exceeds in-memory limit "@ + decimal(max_size_bytes as nat)
        },
        ErrorView::ExportBusy { name } => "export `"@ + name + "` is already active"@,
        ErrorView::ExportOwnerMismatch { name } => {
            "export `"@ + name + "` is owned by a different active owner"@
        },
        ErrorView::OutOfBounds { operation, offset, length, size_bytes } => {
            "export "@ + operation + " range is out of bounds: offset="@ + decimal(offset as nat)
                + ", length="@ + decimal(length as nat) + ", size="@ + decimal(size_bytes as nat)
        },
        ErrorView::LockPoisoned { resource } => "lock poisoned for "@ + resource,
        ErrorView::RuntimeClosed { resource } => resource + " is closed"@,
        ErrorView::BlobAlreadyExists { context, key } => {
            context + ": blob `"@ + key + "` already exists"@
        },
        ErrorView::Io { context, message } => context + ": "@ + message,
        ErrorView::Protocol { source } => protocol_error_text(source),
        ErrorView::Catalog { message } => message,
        ErrorView::Wal { context, message } => context + ": "@ + message,
    }
}

/// Severity at which a failed request is logged.
#[derive(Debug, Clone, Copy, PartialEq, Eq, Structural)]
pub enum RequestFailureLogLevel {
    Debug,
    Warn,
}

/// A request that is at fault itself is logged quietly; the server's own failures are warnings.
pub open spec fn failure_log_level(error: ErrorView) -> RequestFailureLogLevel {
    if error is OutOfBounds || error is Protocol {
        RequestFailureLogLevel::Debug
    } else {
        RequestFailureLogLevel::Warn
    }
}

impl ProtocolError {
    /// The text of the error.
    pub fn describe(&self) -> (text: String)
        ensures
            text@ == protocol_error_text(self@),
    {
        match self {
            ProtocolError::InvalidMagic { context, expected, actual } => {
                let mut text = owned(context);
                text.append(": invalid magic ");
                push_decimal(&mut text, *actual);
                text.append(", expected ");
                push_decimal(&mut text, *expected);
                text
            },
            ProtocolError::InvalidLength { context, expected, actual } => {
                let mut text = owned(context);
                text.append(": invalid length ");
                push_decimal(&mut text, *actual);
                text.append(", expected ");
                push_decimal(&mut text, *expected);
                text
            },
            ProtocolError::UnsupportedFlags { context, flags } => {
                let mut text = owned(context);
                text.append(": unsupported flags ");
                push_decimal(&mut text, *flags);
                text
            },
            ProtocolError::PayloadTooLarge { context, length, max } => {
                let mut text = owned(context);
                text.append(": payload length ");
                push_decimal(&mut text, *length);
                text.append(" exceeds limit ");
                push_decimal(&mut text, *max);
                text
            },
            ProtocolError::UnsupportedCommand { command } => {
                let mut text = owned("unsupported command ");
                push_decimal(&mut text, *command);
                text
            },
            ProtocolError::InvalidText { context } => {
                let mut text = owned(context);
                text.append(": text is not valid UTF-8");
                text
            },
        }
    }
}

impl ServerError {
    /// An error of the catalog.
    pub fn catalog(message: String) -> (error: Self)
        ensures
            error@ == (ErrorView::Catalog { message: message@ }),
    {
        ServerError::Catalog { message }
    }

    /// An error of the write-ahead log or of what is built on it.
    pub fn wal(context: &'static str, message: String) -> (error: Self)
        ensures
            error@ == (ErrorView::Wal { context: context@, message: message@ }),
    {
        ServerError::Wal { context, message }
    }

    /// An error of storage or of a socket.
    pub fn io(context: &'static str, message: String) -> (error: Self)
        ensures
            error@ == (ErrorView::Io { context: context@, message: message@ }),
    {
        ServerError::Io { context, message }
    }

    /// How loudly a failed request is logged.
    pub fn request_failure_log_level(&self) -> (level: RequestFailureLogLevel)
        ensures
            level == failure_log_level(self@),
    {
        match self {
            ServerError::OutOfBounds { .. } => RequestFailureLogLevel::Debug,
            ServerError::Protocol { .. } => RequestFailureLogLevel::Debug,
            ServerError::ExportTooLarge { .. } => RequestFailureLogLevel::Warn,
            ServerError::ExportBusy { .. } => RequestFailureLogLevel::Warn,
            ServerError::ExportOwnerMismatch { .. } => RequestFailureLogLevel::Warn,
            ServerError::LockPoisoned { .. } => RequestFailureLogLevel::Warn,
            ServerError::RuntimeClosed { .. } => RequestFailureLogLevel::Warn,
            ServerError::BlobAlreadyExists { .. } => RequestFailureLogLevel::Warn,
            ServerError::Io { .. } => RequestFailureLogLevel::Warn,
            ServerError::Catalog { .. } => RequestFailureLogLevel::Warn,
            ServerError::Wal { .. } => RequestFailureLogLevel::Warn,
        }
    }

    /// The text of the error.
    pub fn describe(&self) -> (text: String)
        ensures
            text@ == error_text(self@),
    {
        match self {
            ServerError::ExportTooLarge { name, size_bytes, max_size_bytes } => {
                let mut text = owned("export `");
                text.append(name.as_str());
                text.append("` size ");
                push_decimal(&mut text, *size_bytes);
                text.append(" exceeds in-memory limit ");
                push_decimal(&mut text, *max_size_bytes);
                text
            },
            ServerError::ExportBusy { name } => {
                let mut text = owned("export `");
                text.append(name.as_str());
                text.append("` is already active");
                text
            },
            ServerError::ExportOwnerMismatch { name } => {
                let mut text = owned("export `");
                text.append(name.as_str());
                text.append("` is owned by a different active owner");
                text
            },
            ServerError::OutOfBounds { operation, offset, length, size_bytes } => {
                let mut text = owned("export ");
                text.append(operation);
                text.append(" range is out of bounds: offset=");
                push_decimal(&mut text, *offset);
                text.append(", length=");
                push_decimal(&mut text, *length);
                text.append(", size=");
                push_decimal(&mut text, *size_bytes);
                text
            },
            ServerError::LockPoisoned { resource } => {
                let mut text = owned("lock poisoned for ");
                text.append(resource);
                text
            },
            ServerError::RuntimeClosed { resource } => {
                let mut text = owned(resource);
                text.append(" is closed");
                text
            },
            ServerError::BlobAlreadyExists { context, key } => {
                let mut text = owned(context);
                text.append(": blob `");
                text.append(key.as_str());
                text.append("` already exists");
                text
            },
            ServerError::Io { context, message } => {
                let mut text = owned(context);
                text.append(": ");
                text.append(message.as_str());
                text
            },
            ServerError::Protocol { source } => source.describe(),
            ServerError::Catalog { message } => owned(message.as_str()),
            ServerError::Wal { context, message } => {
                let mut text = owned(context);
                text.append(": ");
                text.append(message.as_str());
                text
            },
        }
    }
}

/// A request that is out of bounds or breaks the protocol is logged quietly, and no other failure
/// is.
pub proof fn law_only_faulty_requests_are_logged_quietly(error: ErrorView)
    ensures
        failure_log_level(error) == RequestFailureLogLevel::Debug <==> error is OutOfBounds || error
            is Protocol,
{
}

} // verus!
