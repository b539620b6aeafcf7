use vstd::prelude::*;
use vstd::string::StringExecFns;

use crate::config::{SaslConfig, StartOffset};
use crate::text::{push_signed, signed_decimal};

verus! {

/// Longest a partition poll waits for data, in milliseconds.
pub const POLL_WAIT_MS: u64 = 1000;

/// Fewest bytes a partition poll asks for.
pub const MIN_FETCH_BYTES: i32 = 1;

/// A topic as the broker lists it.
pub struct TopicInfo {
    pub name: String,
    pub partitions: Vec<i32>,
}

#[derive(Clone, Copy, Debug, PartialEq, Eq, Structural)]
pub enum SourceError {
    /// The configured topic is not among those the broker lists.
    TopicNotFound,
}

/// How one partition's stream is opened.
#[derive(Clone, Copy, Debug, PartialEq, Eq, Structural)]
pub struct PartitionPlan {
    pub partition: i32,
    pub start_offset: i64,
    /// Upper bound, in bytes, of one fetch.
    pub max_bytes: i32,
    pub max_wait_ms: u64,
    pub min_bytes: i32,
}

/// The position of the first topic in `topics` named `name`, or
/// `TopicNotFound` when none is.
pub fn find_topic(topics: &Vec<TopicInfo>, name: &str) -> (r: Result<usize, SourceError>)
    ensures
        match r {
            Ok(i) => i < topics@.len() && topics@[i as int].name@ == name@ && forall|j: int|
                0 <= j < i ==> (#[trigger] topics@[j]).name@ != name@,
            Err(e) => e == SourceError::TopicNotFound && forall|j: int|
                0 <= j < topics@.len() ==> (#[trigger] topics@[j]).name@ != name@,
        },
{
    let target = String::from_str(name);
    let mut i: usize = 0;
    while i < topics.len()
        invariant
            target@ == name@,
            i <= topics@.len(),
            forall|j: int| 0 <= j < i ==> (#[trigger] topics@[j]).name@ != name@,
        decreases topics@.len() - i,
    {
        if topics[i].name == target {
            return Ok(i);
        }
        i = i + 1;
    }
    Err(SourceError::TopicNotFound)
}

pub open spec fn start_offset_spec(policy: StartOffset, low: i64, high: i64) -> i64 {
    match policy {
        StartOffset::Earliest => low,
        StartOffset::Latest => high,
    }
}

/// The offset a partition starts at: its low watermark (the earliest record
/// held) or its high watermark.
pub fn start_offset(policy: StartOffset, low: i64, high: i64) -> (r: i64)
    ensures
        r == start_offset_spec(policy, low, high),
{
    match policy {
        StartOffset::Earliest => low,
        StartOffset::Latest => high,
    }
}

pub open spec fn plan_spec(partition: i32, batch_size: i32, policy: StartOffset, marks: (i64, i64)) -> PartitionPlan {
    PartitionPlan {
        partition,
        start_offset: start_offset_spec(policy, marks.0, marks.1),
        max_bytes: batch_size,
        max_wait_ms: POLL_WAIT_MS,
        min_bytes: MIN_FETCH_BYTES,
    }
}

/// One stream plan per partition of `topic`, in the broker's order, given
/// each partition's `(low, high)` watermarks.
pub fn plan_partitions(
    topic: &TopicInfo,
    batch_size: i32,
    policy: StartOffset,
    marks: &Vec<(i64, i64)>,
) -> (r: Vec<PartitionPlan>)
    requires
        marks@.len() == topic.partitions@.len(),
    ensures
        r@.len() == topic.partitions@.len(),
        forall|i: int|
            0 <= i < r@.len() ==> #[trigger] r@[i] == plan_spec(
                topic.partitions@[i],
                batch_size,
                policy,
                marks@[i],
            ),
{
    let mut out: Vec<PartitionPlan> = Vec::new();
    let mut i: usize = 0;
    while i < topic.partitions.len()
        invariant
            marks@.len() == topic.partitions@.len(),
            i <= topic.partitions@.len(),
            out@.len() == i,
            forall|k: int|
                0 <= k < i ==> #[trigger] out@[k] == plan_spec(
                    topic.partitions@[k],
                    batch_size,
                    policy,
                    marks@[k],
                ),
        decreases topic.partitions@.len() - i,
    {
        let (low, high) = marks[i];
        out.push(
            PartitionPlan {
                partition: topic.partitions[i],
                start_offset: start_offset(policy, low, high),
                max_bytes: batch_size,
                max_wait_ms: POLL_WAIT_MS,
                min_bytes: MIN_FETCH_BYTES,
            },
        );
        i = i + 1;
    }
    out
}

/// The broker list as one comma-separated string.
pub open spec fn joined(items: Seq<Seq<char>>) -> Seq<char>
    decreases items.len(),
{
    if items.len() == 0 {
        seq![]
    } else if items.len() == 1 {
        items[0]
    } else {
        joined(items.drop_last()) + seq![','] + items.last()
    }
}

pub open spec fn pair_view(p: (String, String)) -> (Seq<char>, Seq<char>) {
    (p.0@, p.1@)
}

/// The consumer settings of a source.
pub open spec fn client_settings_spec(
    brokers: Seq<Seq<char>>,
    group_id: Seq<char>,
    batch_size: i32,
    sasl: SaslConfig,
) -> Seq<(Seq<char>, Seq<char>)> {
    let base = seq![
        ("group.id"@, group_id),
        ("bootstrap.servers"@, joined(brokers)),
        ("batch.size"@, signed_decimal(batch_size as int)),
        ("enable.partition.eof"@, "false"@),
        ("session.timeout.ms"@, "6000"@),
        ("enable.auto.commit"@, "false"@),
        ("max.partition.fetch.bytes"@, signed_decimal(batch_size as int)),
        ("fetch.wait.max.ms"@, signed_decimal(POLL_WAIT_MS as int)),
        ("fetch.min.bytes"@, signed_decimal(MIN_FETCH_BYTES as int)),
    ];
    match sasl {
        SaslConfig::Disabled => base,
        SaslConfig::Plain { username, password } => base + seq![
            ("security.protocol"@, "sasl_ssl"@),
            ("sasl.mechanisms"@, "PLAIN"@),
            ("sasl.username"@, username@),
            ("sasl.password"@, password@),
        ],
    }
}

fn join_brokers(brokers: &Vec<String>) -> (r: String)
    ensures
        r@ == joined(brokers@.map_values(|b: String| b@)),
{
    let ghost items = brokers@.map_values(|b: String| b@);
    let mut s = String::new();
    let mut i: usize = 0;
    while i < brokers.len()
        invariant
            items == brokers@.map_values(|b: String| b@),
            i <= brokers@.len(),
            s@ == joined(items.take(i as int)),
        decreases brokers@.len() - i,
    {
        if i > 0 {
            s.append(",");
            proof {
                reveal_strlit(",");
            }
        }
        s.append(brokers[i].as_str());
        proof {
            let t = items.take(i + 1);
            assert(t.drop_last() =~= items.take(i as int));
            if i == 0 {
                assert(items.take(0) =~= seq![]);
                assert(s@ =~= joined(t));
            } else {
                assert(s@ =~= joined(t));
            }
        }
        i = i + 1;
    }
    assert(items.take(i as int) =~= items);
    s
}

fn setting(key: &str, value: String) -> (r: (String, String))
    ensures
        pair_view(r) == (key@, value@),
{
    (String::from_str(key), value)
}

/// The settings handed to the broker client for a source with these
/// brokers, group, fetch size and credentials. Each fetch takes at most
/// `batch_size` bytes of a partition, waits at most `POLL_WAIT_MS` and asks
/// for at least `MIN_FETCH_BYTES`.
pub fn client_settings(brokers: &Vec<String>, group_id: &str, batch_size: i32, sasl: &SaslConfig) -> (r: Vec<(String, String)>)
    ensures
        r@.map_values(|p: (String, String)| pair_view(p)) == client_settings_spec(
            brokers@.map_values(|b: String| b@),
            group_id@,
            batch_size,
            *sasl,
        ),
{
    let mut out: Vec<(String, String)> = Vec::new();
    out.push(setting("group.id", String::from_str(group_id)));
    out.push(setting("bootstrap.servers", join_brokers(brokers)));
    let mut size = String::new();
    push_signed(&mut size, batch_size as i64);
    out.push(setting("batch.size", size));
    out.push(setting("enable.partition.eof", String::from_str("false")));
    out.push(setting("session.timeout.ms", String::from_str("6000")));
    out.push(setting("enable.auto.commit", String::from_str("false")));
    let mut max_bytes = String::new();
    push_signed(&mut max_bytes, batch_size as i64);
    out.push(setting("max.partition.fetch.bytes", max_bytes));
    let mut wait = String::new();
    push_signed(&mut wait, POLL_WAIT_MS as i64);
    out.push(setting("fetch.wait.max.ms", wait));
    let mut min_bytes = String::new();
    push_signed(&mut min_bytes, MIN_FETCH_BYTES as i64);
    out.push(setting("fetch.min.bytes", min_bytes));
    match sasl {
        SaslConfig::Disabled => {},
        SaslConfig::Plain { username, password } => {
            out.push(setting("security.protocol", String::from_str("sasl_ssl")));
            out.push(setting("sasl.mechanisms", String::from_str("PLAIN")));
            out.push(setting("sasl.username", username.clone()));
            out.push(setting("sasl.password", password.clone()));
        },
    }
    assert(out@.map_values(|p: (String, String)| pair_view(p)) =~= client_settings_spec(
        brokers@.map_values(|b: String| b@),
        group_id@,
        batch_size,
        *sasl,
    ));
    out
}

} // verus!
