//! What binds a source or a sink to the world outside the engine. These are
//! descriptions: nothing here connects to anything.

use crate::time::{Timestamp, Update};
use vstd::prelude::*;

verus! {

/// `url::Url`, a parsed URL. It is carried as it is: nothing here looks
/// inside one.
#[verifier::external_type_specification]
#[verifier::external_body]
pub struct ExUrl(url::Url);

/// `uuid::Uuid`, a universally unique identifier of 128 bits. It is carried
/// as it is: nothing here looks inside one.
#[verifier::external_type_specification]
#[verifier::external_body]
pub struct ExUuid(uuid::Uuid);

/// `Clone::clone` of `uuid::Uuid`, which is `Copy`: the clone is the same
/// identifier.
pub assume_specification[ <uuid::Uuid as Clone>::clone ](id: &uuid::Uuid) -> (res: uuid::Uuid)
    ensures
        res == *id,
;

/// `Clone::clone` of `url::Url`. Nothing is claimed of the clone.
pub assume_specification[ <url::Url as Clone>::clone ](url: &url::Url) -> (res: url::Url)
;

/// The address of a host on an IP network, as the bits of the address.
#[derive(Clone, Copy, Debug, PartialEq, Eq)]
pub enum HostAddr {
    /// An IPv4 address.
    V4(u32),
    /// An IPv6 address, with its flow information and scope.
    V6 { addr: u128, flowinfo: u32, scope_id: u32 },
}

/// A network address: a host and a port on it.
#[derive(Clone, Copy, Debug, PartialEq, Eq)]
pub struct NetAddr {
    pub host: HostAddr,
    pub port: u16,
}

/// Where the rows of a source come from.
#[derive(Clone, Debug, PartialEq, Eq)]
pub enum SourceConnector {
    Kafka(KafkaSourceConnector),
    Local(LocalSourceConnector),
}

/// A topic of a Kafka cluster, read as a source.
#[derive(Clone, Debug, PartialEq, Eq)]
pub struct KafkaSourceConnector {
    pub addr: NetAddr,
    pub topic: String,
    pub raw_schema: String,
    pub schema_registry_url: Option<url::Url>,
}

/// An input of this process, fed by local commands.
#[derive(Clone, Debug, PartialEq, Eq)]
pub struct LocalSourceConnector {
    pub uuid: uuid::Uuid,
}

/// Where the rows of a sink go.
#[derive(Clone, Debug, PartialEq, Eq)]
pub enum SinkConnector {
    Kafka(KafkaSinkConnector),
    Tail(TailSinkConnector),
}

/// A topic of a Kafka cluster, written as a sink.
#[derive(Clone, Debug, PartialEq, Eq)]
pub struct KafkaSinkConnector {
    pub addr: NetAddr,
    pub topic: String,
    pub schema_id: i32,
}

/// The handle of a channel inside this process, by which batches of updates
/// reach the one consumer of a tail.
#[derive(Clone, Debug, PartialEq, Eq)]
pub struct TailChannel {
    pub uuid: uuid::Uuid,
}

/// A subscriber that is sent every update from a time on.
#[derive(Clone, Debug, PartialEq, Eq)]
pub struct TailSinkConnector {
    pub tx: TailChannel,
    pub since: Timestamp,
}

/// The time of one update of one batch.
pub open spec fn stamp(batches: Seq<Vec<Update>>, batch: int, update: int) -> Timestamp {
    batches[batch]@[update].timestamp
}

/// Whether no update of the batches is earlier than a time.
pub open spec fn all_since(batches: Seq<Vec<Update>>, since: Timestamp) -> bool {
    forall|i: int, a: int|
        0 <= i < batches.len() && 0 <= a < batches[i]@.len() ==> #[trigger] stamp(batches, i, a)
            >= since
}

/// Whether the batches come in the order of time: no update is earlier than
/// an update of a batch before its own. Within a batch the updates stand in
/// any order.
pub open spec fn in_time_order(batches: Seq<Vec<Update>>) -> bool {
    forall|i: int, a: int, j: int, b: int|
        0 <= i < j < batches.len() && 0 <= a < batches[i]@.len() && 0 <= b < batches[j]@.len()
            ==> #[trigger] stamp(batches, i, a) <= #[trigger] stamp(batches, j, b)
}

impl TailSinkConnector {
    /// Whether batches of updates may be delivered to this tail one after
    /// the other: none of their updates is earlier than `since`, and every
    /// update of a time is delivered before any of a later time.
    pub fn admits_delivery(&self, batches: &Vec<Vec<Update>>) -> (r: bool)
        ensures
            r == (all_since(batches@, self.since) && in_time_order(batches@)),
    {
        let since = self.since;
        let mut floor: Timestamp = since;
        let ghost mut from: (int, int) = (0, 0);
        let mut j: usize = 0;
        while j < batches.len()
            invariant
                j <= batches.len(),
                since == self.since,
                floor >= since,
                floor == since || (0 <= from.0 < j && 0 <= from.1 < batches@[from.0]@.len()
                    && stamp(batches@, from.0, from.1) == floor),
                forall|i: int, a: int|
                    0 <= i < j && 0 <= a < batches@[i]@.len() ==> since <= #[trigger] stamp(
                        batches@,
                        i,
                        a,
                    ) <= floor,
                forall|i: int, a: int, k: int, b: int|
                    0 <= i < k < j && 0 <= a < batches@[i]@.len() && 0 <= b < batches@[k]@.len()
                        ==> #[trigger] stamp(batches@, i, a) <= #[trigger] stamp(batches@, k, b),
            decreases batches.len() - j,
        {
            let batch = &batches[j];
            let mut high: Timestamp = floor;
            let ghost mut high_at: int = -1;
            let mut b: usize = 0;
            while b < batch.len()
                invariant
                    b <= batch.len(),
                    j < batches.len(),
                    since == self.since,
                    *batch == batches@[j as int],
                    high >= floor >= since,
                    floor == since || (0 <= from.0 < j && 0 <= from.1 < batches@[from.0]@.len()
                        && stamp(batches@, from.0, from.1) == floor),
                    high == floor || (0 <= high_at < b && stamp(batches@, j as int, high_at)
                        == high),
                    forall|c: int|
                        0 <= c < b ==> floor <= #[trigger] stamp(batches@, j as int, c) <= high,
                decreases batch.len() - b,
            {
                let at = batch[b].timestamp;
                assert(at == stamp(batches@, j as int, b as int));
                if at < floor {
                    return false;
                }
                if at > high {
                    high = at;
                    proof {
                        high_at = b as int;
                    }
                }
                b = b + 1;
            }
            proof {
                if high != floor {
                    from = (j as int, high_at);
                }
            }
            floor = high;
            j = j + 1;
        }
        true
    }
}

} // verus!
