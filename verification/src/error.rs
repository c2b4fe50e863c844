//! What can go wrong in a table, and how it is worded.

use vstd::prelude::*;

use crate::text::{decimal_text, push_decimal};

verus! {

/// The step of a table operation that failed.
#[derive(Clone, Copy, Debug, PartialEq, Eq, Structural)]
pub enum TableOperation {
    ReadChunk,
    WriteChunk,
    ReadDir,
    ReadEntry,
    AcquireLock,
    ReleaseLock,
    Serialize,
    Deserialize,
    JoinTask,
    SetMany,
}

impl TableOperation {
    /// The step in words, as it follows "Failed to".
    pub open spec fn wording(self) -> Seq<char> {
        match self {
            TableOperation::ReadChunk => "read chunk"@,
            TableOperation::WriteChunk => "write chunk"@,
            TableOperation::ReadDir => "read directory"@,
            TableOperation::ReadEntry => "read entry"@,
            TableOperation::AcquireLock => "acquire lock"@,
            TableOperation::ReleaseLock => "release lock"@,
            TableOperation::Serialize => "serialize"@,
            TableOperation::Deserialize => "deserialize"@,
            TableOperation::JoinTask => "update multiple chunks"@,
            TableOperation::SetMany => "set items"@,
        }
    }

    /// The name of the variant.
    pub open spec fn variant(self) -> Seq<char> {
        match self {
            TableOperation::ReadChunk => "ReadChunk"@,
            TableOperation::WriteChunk => "WriteChunk"@,
            TableOperation::ReadDir => "ReadDir"@,
            TableOperation::ReadEntry => "ReadEntry"@,
            TableOperation::AcquireLock => "AcquireLock"@,
            TableOperation::ReleaseLock => "ReleaseLock"@,
            TableOperation::Serialize => "Serialize"@,
            TableOperation::Deserialize => "Deserialize"@,
            TableOperation::JoinTask => "JoinTask"@,
            TableOperation::SetMany => "SetMany"@,
        }
    }

    /// The step in words.
    pub fn as_str(&self) -> (text: &'static str)
        ensures
            text@ == self.wording(),
    {
        match self {
            TableOperation::ReadChunk => "read chunk",
            TableOperation::WriteChunk => "write chunk",
            TableOperation::ReadDir => "read directory",
            TableOperation::ReadEntry => "read entry",
            TableOperation::AcquireLock => "acquire lock",
            TableOperation::ReleaseLock => "release lock",
            TableOperation::Serialize => "serialize",
            TableOperation::Deserialize => "deserialize",
            TableOperation::JoinTask => "update multiple chunks",
            TableOperation::SetMany => "set items",
        }
    }

    /// The step in words, as an owned text.
    pub fn to_string(&self) -> (text: String)
        ensures
            text@ == self.wording(),
    {
        self.as_str().to_owned()
    }

    /// The name of the variant.
    pub fn name(&self) -> (text: &'static str)
        ensures
            text@ == self.variant(),
    {
        match self {
            TableOperation::ReadChunk => "ReadChunk",
            TableOperation::WriteChunk => "WriteChunk",
            TableOperation::ReadDir => "ReadDir",
            TableOperation::ReadEntry => "ReadEntry",
            TableOperation::AcquireLock => "AcquireLock",
            TableOperation::ReleaseLock => "ReleaseLock",
            TableOperation::Serialize => "Serialize",
            TableOperation::Deserialize => "Deserialize",
            TableOperation::JoinTask => "JoinTask",
            TableOperation::SetMany => "SetMany",
        }
    }
}

/// Whether an input or output failure was a wait that ran out of time.
#[derive(Clone, Copy, Debug, PartialEq, Eq, Structural)]
pub enum IoKind {
    TimedOut,
    Other,
}

/// The cause of a [`TableError`].
#[derive(Debug)]
pub enum ErrorSource {
    /// The file system refused or failed; `message` is its report.
    Io { kind: IoKind, message: String },
    /// The content of a shard could not be encoded or decoded.
    Yaml(String),
    /// The work on one shard did not run to its end.
    Join(String),
    /// Some shards of a batch failed, each with its own error.
    Batch { succeeded: usize, failed: usize, errors: Vec<TableError> },
}

/// A failed table operation: the step, the path it worked on, and the cause.
#[derive(Debug)]
pub struct TableError {
    pub operation: TableOperation,
    pub path: Option<String>,
    pub source: ErrorSource,
}

impl TableError {
    /// A failure of the file system at `operation`.
    pub fn io(
        operation: TableOperation,
        path: Option<String>,
        kind: IoKind,
        message: String,
    ) -> (error: Self)
        ensures
            error == (TableError { operation, path, source: ErrorSource::Io { kind, message } }),
    {
        TableError { operation, path, source: ErrorSource::Io { kind, message } }
    }

    /// A failure to encode or decode at `operation`.
    pub fn yaml(operation: TableOperation, path: Option<String>, message: String) -> (error: Self)
        ensures
            error == (TableError { operation, path, source: ErrorSource::Yaml(message) }),
    {
        TableError { operation, path, source: ErrorSource::Yaml(message) }
    }

    /// The failure of the work on one shard to run to its end.
    pub fn join(message: String) -> (error: Self)
        ensures
            error == (TableError {
                operation: TableOperation::JoinTask,
                path: None,
                source: ErrorSource::Join(message),
            }),
    {
        TableError {
            operation: TableOperation::JoinTask,
            path: None,
            source: ErrorSource::Join(message),
        }
    }

    /// The failure of a batch in which `failed` shards failed with `errors`.
    pub fn batch(succeeded: usize, failed: usize, errors: Vec<TableError>) -> (error: Self)
        ensures
            error == (TableError {
                operation: TableOperation::SetMany,
                path: None,
                source: ErrorSource::Batch { succeeded, failed, errors },
            }),
    {
        TableError {
            operation: TableOperation::SetMany,
            path: None,
            source: ErrorSource::Batch { succeeded, failed, errors },
        }
    }

    /// The wording of the error: the step, then the path if there is one, then
    /// the counts if it is a batch.
    pub open spec fn message(self) -> Seq<char> {
        "Failed to "@ + self.operation.wording() + (match self.path {
            Some(path) => "\nPath: "@ + path@,
            None => Seq::empty(),
        }) + (match self.source {
            ErrorSource::Batch { succeeded, failed, .. } => "\n"@ + decimal_text(succeeded as nat)
                + " succeeded, "@ + decimal_text(failed as nat) + " failed"@,
            _ => Seq::empty(),
        })
    }

    /// The error in words.
    pub fn to_string(&self) -> (text: String)
        ensures
            text@ == self.message(),
    {
        let mut text = "Failed to ".to_owned();
        text.append(self.operation.as_str());
        if let Some(path) = &self.path {
            text.append("\nPath: ");
            text.append(path.as_str());
        }
        if let ErrorSource::Batch { succeeded, failed, .. } = &self.source {
            text.append("\n");
            push_decimal(&mut text, *succeeded);
            text.append(" succeeded, ");
            push_decimal(&mut text, *failed);
            text.append(" failed");
        }
        assert(text@ =~= self.message());
        text
    }

    /// The code under which the error is reported: the crate, the table, the step.
    pub fn code(&self) -> (text: String)
        ensures
            text@ == "flat_db::Table::"@ + self.operation.variant(),
    {
        let mut text = "flat_db::Table::".to_owned();
        text.append(self.operation.name());
        text
    }

    /// The report of the underlying failure. A batch has none of its own.
    pub fn source_message(&self) -> (report: Option<&String>)
        ensures
            match self.source {
                ErrorSource::Io { kind, message } => report == Some(&message),
                ErrorSource::Yaml(message) => report == Some(&message),
                ErrorSource::Join(message) => report == Some(&message),
                ErrorSource::Batch { .. } => report is None,
            },
    {
        match &self.source {
            ErrorSource::Io { message, .. } => Some(message),
            ErrorSource::Yaml(message) => Some(message),
            ErrorSource::Join(message) => Some(message),
            ErrorSource::Batch { .. } => None,
        }
    }

    /// The errors of the shards that failed, where this is a batch.
    pub fn related(&self) -> (errors: Option<&Vec<TableError>>)
        ensures
            match self.source {
                ErrorSource::Batch { succeeded, failed, errors: related } => errors == Some(
                    &related,
                ),
                _ => errors is None,
            },
    {
        match &self.source {
            ErrorSource::Batch { errors, .. } => Some(errors),
            _ => None,
        }
    }

    /// Whether the error is a wait for a lock that ran out of time.
    pub fn is_timeout(&self) -> (timed_out: bool)
        ensures
            timed_out == (self.source matches ErrorSource::Io { kind, .. } && kind
                == IoKind::TimedOut),
    {
        match &self.source {
            ErrorSource::Io { kind: IoKind::TimedOut, .. } => true,
            _ => false,
        }
    }
}

} // verus!
