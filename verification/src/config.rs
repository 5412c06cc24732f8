//! The server configuration: every field falls back to its documented
//! default when the environment offers nothing usable.

use vstd::prelude::*;

verus! {

pub const DEFAULT_PORT: u16 = 2626;

pub const DEFAULT_CHANNEL_TIMEOUT_IN_MSEC: usize = 3600 * 1000;

pub const DEFAULT_QUEUE_POOL_CAPACITY: usize = usize::MAX;

/// The logging verbosity, least to most quiet.
#[derive(Clone, Copy, PartialEq, Eq, Structural, Debug)]
pub enum LogLevel {
    Trace,
    Debug,
    Info,
    Warn,
    Error,
}

/// The assembled configuration.
pub struct MoraConfig {
    channel_timeout_in_msec: usize,
    port: u16,
    queue_pool_capacity: usize,
    log_level: LogLevel,
}

impl MoraConfig {
    /// Builds the configuration from whatever values the environment gave,
    /// falling back to the defaults field by field.
    pub fn from_values(
        port: Option<u16>,
        channel_timeout_in_msec: Option<usize>,
        queue_pool_capacity: Option<usize>,
        log_level: Option<LogLevel>,
    ) -> (r: MoraConfig)
        ensures
            r.spec_port() == (if port is Some {
                port->Some_0
            } else {
                DEFAULT_PORT
            }),
            r.spec_channel_timeout_in_msec() == (if channel_timeout_in_msec is Some {
                channel_timeout_in_msec->Some_0
            } else {
                DEFAULT_CHANNEL_TIMEOUT_IN_MSEC
            }),
            r.spec_queue_pool_capacity() == (if queue_pool_capacity is Some {
                queue_pool_capacity->Some_0
            } else {
                DEFAULT_QUEUE_POOL_CAPACITY
            }),
            r.spec_log_level() == (if log_level is Some {
                log_level->Some_0
            } else {
                LogLevel::Info
            }),
    {
        MoraConfig {
            channel_timeout_in_msec: match channel_timeout_in_msec {
                Some(v) => v,
                None => DEFAULT_CHANNEL_TIMEOUT_IN_MSEC,
            },
            port: match port {
                Some(v) => v,
                None => DEFAULT_PORT,
            },
            queue_pool_capacity: match queue_pool_capacity {
                Some(v) => v,
                None => DEFAULT_QUEUE_POOL_CAPACITY,
            },
            log_level: match log_level {
                Some(v) => v,
                None => LogLevel::Info,
            },
        }
    }

    pub closed spec fn spec_channel_timeout_in_msec(&self) -> usize {
        self.channel_timeout_in_msec
    }

    pub closed spec fn spec_port(&self) -> u16 {
        self.port
    }

    pub closed spec fn spec_queue_pool_capacity(&self) -> usize {
        self.queue_pool_capacity
    }

    pub closed spec fn spec_log_level(&self) -> LogLevel {
        self.log_level
    }

    pub fn channel_timeout_in_msec(&self) -> (r: usize)
        ensures
            r == self.spec_channel_timeout_in_msec(),
    {
        self.channel_timeout_in_msec
    }

    pub fn port(&self) -> (r: u16)
        ensures
            r == self.spec_port(),
    {
        self.port
    }

    pub fn queue_pool_capacity(&self) -> (r: usize)
        ensures
            r == self.spec_queue_pool_capacity(),
    {
        self.queue_pool_capacity
    }

    pub fn log_level(&self) -> (r: LogLevel)
        ensures
            r == self.spec_log_level(),
    {
        self.log_level
    }
}

} // verus!
