use vstd::prelude::*;

verus! {

/// Identity of one Kafka partition: a topic name and a partition number,
/// compared by value.
#[derive(Clone, Debug, Hash)]
pub struct TopicPartition {
    pub topic: String,
    pub partition: u32,
}

impl TopicPartition {
    pub fn new(topic: String, partition: u32) -> (r: TopicPartition)
        ensures
            r.topic@ == topic@,
            r.partition == partition,
    {
        TopicPartition { topic, partition }
    }

    /// Value equality: same topic name and same partition number.
    pub fn same(&self, other: &TopicPartition) -> (r: bool)
        ensures
            r == (self.topic@ == other.topic@ && self.partition == other.partition),
    {
        self.topic == other.topic && self.partition == other.partition
    }
}

} // verus!
