use vstd::prelude::*;

use crate::kafka_types::TopicPartition;

verus! {

/// One broker of the cluster.
pub struct Broker {
    pub id: u32,
    pub host: String,
    pub port: u16,
}

/// Snapshot of the cluster's composition, replaced wholesale on each poll of
/// the cluster-meta emitter.
pub struct ClusterStatus {
    pub cluster_id: String,
    pub brokers: Vec<Broker>,
    pub topic_partitions: Vec<TopicPartition>,
}

/// Holds the most recent cluster snapshot. The surrounding binary owns the
/// locking and drains the cluster-meta channel into `set`.
pub struct ClusterStatusRegister {
    status: ClusterStatus,
}

impl ClusterStatusRegister {
    /// The current snapshot.
    pub closed spec fn spec_status(&self) -> ClusterStatus {
        self.status
    }

    /// Start from an empty snapshot: no cluster id, no brokers, no
    /// partitions.
    pub fn new() -> (r: ClusterStatusRegister)
        ensures
            r.spec_status().cluster_id@ == Seq::<char>::empty(),
            r.spec_status().brokers@ == Seq::<Broker>::empty(),
            r.spec_status().topic_partitions@ == Seq::<TopicPartition>::empty(),
    {
        let r = ClusterStatusRegister {
            status: ClusterStatus {
                cluster_id: String::new(),
                brokers: Vec::new(),
                topic_partitions: Vec::new(),
            },
        };
        proof {
            assert(r.spec_status().brokers@ =~= Seq::<Broker>::empty());
            assert(r.spec_status().topic_partitions@ =~= Seq::<TopicPartition>::empty());
        }
        r
    }

    /// Replace the snapshot wholesale.
    pub fn set(&mut self, status: ClusterStatus)
        ensures
            final(self).spec_status() == status,
    {
        self.status = status;
    }

    /// The current cluster id.
    pub fn get_cluster_id(&self) -> (r: &String)
        ensures
            r@ == self.spec_status().cluster_id@,
    {
        &self.status.cluster_id
    }

    /// The currently known topic partitions.
    pub fn get_topic_partitions(&self) -> (r: &Vec<TopicPartition>)
        ensures
            r@ == self.spec_status().topic_partitions@,
    {
        &self.status.topic_partitions
    }
}

} // verus!
