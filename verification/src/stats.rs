//! Counters for the traffic a node has seen.

use vstd::prelude::*;

verus! {

/// How many messages were received and sent.
#[derive(Clone, Debug, Default, PartialEq, Eq, Structural)]
pub struct Statistics {
    pub received_count: usize,
    pub sent_count: usize,
}

impl Statistics {
    /// Counts one received message.
    pub fn received(&mut self)
        requires
            old(self).received_count < usize::MAX,
        ensures
            final(self).received_count == old(self).received_count + 1,
            final(self).sent_count == old(self).sent_count,
    {
        self.received_count = self.received_count + 1;
    }

    /// Counts one sent message.
    pub fn sent(&mut self)
        requires
            old(self).sent_count < usize::MAX,
        ensures
            final(self).sent_count == old(self).sent_count + 1,
            final(self).received_count == old(self).received_count,
    {
        self.sent_count = self.sent_count + 1;
    }
}

} // verus!
