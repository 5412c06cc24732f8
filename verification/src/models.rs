//! The plain records that cross the request surface: cluster status,
//! connection counts, queue and channel descriptions, and delivered events.

use vstd::prelude::*;

verus! {

/// One delivered message: when it was scheduled, which queue held it, and
/// its payload bytes.
pub struct Event {
    pub timestamp: u128,
    pub queue_name: String,
    pub data: Vec<u8>,
}

/// The health record: the server version and its current clock reading in
/// nanoseconds.
pub struct ClusterStatusData {
    pub version: String,
    pub current_time_in_ns: u128,
}

/// The health answer.
pub enum ClusterStatus {
    Online(ClusterStatusData),
    Degraded(String),
    Offline,
}

impl Default for ClusterStatus {
    fn default() -> (r: Self)
        ensures
            r is Offline,
    {
        ClusterStatus::Offline
    }
}

/// How many clients are connected.
pub struct ConnectionsInfo {
    pub clients_connected: u64,
}

/// The buffering parameters of a channel: the most events one read hands
/// out, and the delta added to "now" for the cut timestamp.
pub struct BufferOptions {
    pub time: u128,
    pub size: usize,
}

/// The request that creates a channel.
pub struct CreateChannelRequest {
    pub queues: Vec<String>,
    pub buffer_options: BufferOptions,
}

/// The answer to a channel creation: the fresh channel id.
pub struct CreateChannelResponse {
    pub channel_id: String,
}

/// One channel as the request surface describes it.
pub struct Channel {
    pub channel_id: String,
    pub queues: Vec<String>,
    pub buffer_options: BufferOptions,
    pub msec_from_last_op: usize,
}

/// The answer that lists every channel.
pub struct ListChannelsResponse {
    pub channels: Vec<Channel>,
}

/// The answer that lists the events a channel read produced.
pub struct GetChannelEventsResponse {
    pub events: Vec<Event>,
}

/// The request that creates a queue.
pub struct PostQueueRequest {
    pub id: String,
}

/// One queue as the request surface describes it.
pub struct Queue {
    pub id: String,
    pub pending_events_count: u128,
}

/// The answer that lists queues.
pub struct ListQueuesResponse {
    pub queues: Vec<Queue>,
}

/// Builds the health record for a clock reading.
pub fn cluster_status(now_ns: u128) -> (r: ClusterStatus)
    ensures
        r matches ClusterStatus::Online(d) && d.current_time_in_ns == now_ns
            && d.version@ == "1.0.0"@,
{
    ClusterStatus::Online(ClusterStatusData { version: "1.0.0".to_owned(), current_time_in_ns: now_ns })
}

} // verus!
