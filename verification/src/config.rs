//! The broker's configuration.
use vstd::prelude::*;

verus! {

/// Configuration of the broker server.
#[derive(Debug)]
pub struct BrokerConfig {
    /// Host to bind to
    pub host: String,
    /// Port to listen on
    pub port: u16,
    /// Directory of the persistent storage
    pub data_dir: String,
    /// Unique broker id in the cluster
    pub broker_id: u32,
    /// Replication factor of new topics
    pub replication_factor: u32,
    /// How many messages a replica may lag and stay in sync
    pub max_isr_lag: u64,
}

impl Default for BrokerConfig {
    /// Broker 0 on 127.0.0.1:9092, storing under /tmp/gaffa, one replica
    /// per partition, in sync within 1000 messages.
    fn default() -> (r: Self)
        ensures
            r.host@ == "127.0.0.1"@,
            r.port == 9092,
            r.data_dir@ == "/tmp/gaffa"@,
            r.broker_id == 0,
            r.replication_factor == 1,
            r.max_isr_lag == 1000,
    {
        BrokerConfig {
            host: String::from_str("127.0.0.1"),
            port: 9092,
            data_dir: String::from_str("/tmp/gaffa"),
            broker_id: 0,
            replication_factor: 1,
            max_isr_lag: 1000,
        }
    }
}

} // verus!
