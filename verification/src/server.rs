//! Configuration value objects for the network exposure layer.  The network
//! servers themselves are external collaborators; these types carry the
//! settings they are started with.  Durations are held in seconds.

use vstd::prelude::*;

verus! {

/// Settings of the RPC server.
#[derive(Debug, Clone)]
pub struct ServerConfig {
    pub host: String,
    pub port: u16,
    pub max_concurrent_streams: u32,
    pub max_message_size: usize,
    pub keepalive_time_seconds: u64,
    pub keepalive_timeout_seconds: u64,
    pub enable_reflection: bool,
}

/// The loopback host name.
fn localhost() -> String {
    "127.0.0.1".to_owned()
}

impl Default for ServerConfig {
    fn default() -> (r: Self)
        ensures
            r.port == 50051,
            r.max_concurrent_streams == 1000,
            r.max_message_size == 4_194_304,
            r.keepalive_time_seconds == 30,
            r.keepalive_timeout_seconds == 5,
            r.enable_reflection == true,
    {
        ServerConfig {
            host: localhost(),
            port: 50051,
            max_concurrent_streams: 1000,
            max_message_size: 4_194_304,
            keepalive_time_seconds: 30,
            keepalive_timeout_seconds: 5,
            enable_reflection: true,
        }
    }
}

/// Settings of the combined RPC and WebSocket surface.
#[derive(Debug, Clone)]
pub struct HybridConfig {
    pub grpc_host: String,
    pub grpc_port: u16,
    pub websocket_host: String,
    pub websocket_port: u16,
    pub max_connections: usize,
    pub ping_interval_seconds: u64,
    pub pong_timeout_seconds: u64,
    pub max_message_size: usize,
    pub enable_compression: bool,
}

impl Default for HybridConfig {
    fn default() -> (r: Self)
        ensures
            r.grpc_port == 50051,
            r.websocket_port == 8080,
            r.max_connections == 10_000,
            r.ping_interval_seconds == 30,
            r.pong_timeout_seconds == 10,
            r.max_message_size == 1_048_576,
            r.enable_compression == true,
    {
        HybridConfig {
            grpc_host: localhost(),
            grpc_port: 50051,
            websocket_host: localhost(),
            websocket_port: 8080,
            max_connections: 10_000,
            ping_interval_seconds: 30,
            pong_timeout_seconds: 10,
            max_message_size: 1_048_576,
            enable_compression: true,
        }
    }
}

/// A request to learn a concept, as carried by the message surface.
#[derive(Debug, Clone)]
pub struct ConceptLearnMessage {
    pub content: String,
    pub metadata: Option<Vec<(String, String)>>,
}

} // verus!
