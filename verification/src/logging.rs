//! Where the server logs, and what.

use crate::text::owned;
use vstd::prelude::*;

verus! {

/// What is logged, unless it is told otherwise.
pub const DEFAULT_LOG_FILTER: &'static str =
    "info,nbd_server::request=warn,nbd_server::admission=warn,nbd_server::storage=warn";

/// What was asked for.
#[derive(Debug, PartialEq, Eq)]
pub struct LoggingOptions {
    pub file_path: String,
    pub log_stdout: bool,
    pub env_filter: Option<String>,
}

#[derive(Debug, Clone, Copy, PartialEq, Eq, Structural)]
pub enum LogFormat {
    JsonLines,
}

#[derive(Debug, PartialEq, Eq)]
pub enum LogDestination {
    File { path: String },
    Stdout,
}

/// What happens when lines come faster than they are written.
#[derive(Debug, Clone, Copy, PartialEq, Eq, Structural)]
pub enum LogWriterQueuePolicy {
    Lossless,
}

/// Where the server logs, and what.
#[derive(Debug, PartialEq, Eq)]
pub struct LoggingPolicy {
    pub destinations: Vec<LogDestination>,
    pub format: LogFormat,
    pub filter: String,
    pub append: bool,
    pub writer_queue_policy: LogWriterQueuePolicy,
}

impl LoggingPolicy {
    /// The server logs to its file and, if asked to, to standard output as well.
    pub fn from_options(options: LoggingOptions) -> (policy: Self)
        ensures
            policy.destinations@ == (if options.log_stdout {
                seq![LogDestination::File { path: options.file_path }, LogDestination::Stdout]
            } else {
                seq![LogDestination::File { path: options.file_path }]
            }),
            policy.format == LogFormat::JsonLines,
            policy.filter@ == (match options.env_filter {
                Some(filter) => filter@,
                None => DEFAULT_LOG_FILTER@,
            }),
            policy.append,
            policy.writer_queue_policy == LogWriterQueuePolicy::Lossless,
    {
        let ghost path = options.file_path;
        let mut destinations: Vec<LogDestination> = Vec::new();
        destinations.push(LogDestination::File { path: options.file_path });
        if options.log_stdout {
            destinations.push(LogDestination::Stdout);
        }
        proof {
            assert(destinations@ =~= (if options.log_stdout {
                seq![LogDestination::File { path }, LogDestination::Stdout]
            } else {
                seq![LogDestination::File { path }]
            }));
        }
        let filter = match options.env_filter {
            Some(filter) => filter,
            None => owned(DEFAULT_LOG_FILTER),
        };
        Self {
            destinations,
            format: LogFormat::JsonLines,
            filter,
            append: true,
            writer_queue_policy: LogWriterQueuePolicy::Lossless,
        }
    }
}

} // verus!
