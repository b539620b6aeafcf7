use std::collections::BTreeMap;
use vstd::prelude::*;

use crate::abi::AbiFault;

verus! {

broadcast use vstd::std_specs::btree::group_btree_axioms, vstd::laws_cmp::group_laws_cmp;

/// Milliseconds a partition stream waits after a poll that brought nothing.
pub const EMPTY_POLL_BACKOFF_MS: u64 = 10_000;

/// What a partition stream does after one poll.
#[derive(Clone, Copy, Debug, PartialEq, Eq, Structural)]
pub enum PollStep {
    /// Hand this many records to the dispatcher.
    Dispatch(usize),
    /// Nothing came: sleep this many milliseconds before the next poll.
    Sleep(u64),
}

pub open spec fn after_poll_spec(records: usize) -> PollStep {
    if records == 0 {
        PollStep::Sleep(EMPTY_POLL_BACKOFF_MS)
    } else {
        PollStep::Dispatch(records)
    }
}

/// The step that follows a poll that returned `records` records.
pub fn after_poll(records: usize) -> (r: PollStep)
    ensures
        r == after_poll_spec(records),
{
    if records == 0 {
        PollStep::Sleep(EMPTY_POLL_BACKOFF_MS)
    } else {
        PollStep::Dispatch(records)
    }
}

pub open spec fn count_of(m: Map<i32, u64>, partition: i32) -> u64 {
    if m.contains_key(partition) {
        m[partition]
    } else {
        0
    }
}

/// One more record of `partition`; a count saturates at `u64::MAX`.
pub open spec fn record_spec(m: Map<i32, u64>, partition: i32) -> Map<i32, u64> {
    m.insert(
        partition,
        if count_of(m, partition) < u64::MAX {
            (count_of(m, partition) + 1) as u64
        } else {
            u64::MAX
        },
    )
}

/// The counts after counting the records of partitions `ps`, in order.
pub open spec fn record_all(m: Map<i32, u64>, ps: Seq<i32>) -> Map<i32, u64>
    decreases ps.len(),
{
    if ps.len() == 0 {
        m
    } else {
        record_spec(record_all(m, ps.drop_last()), ps.last())
    }
}

/// How many of `ps` are `partition`.
pub open spec fn occurrences(ps: Seq<i32>, partition: i32) -> nat
    decreases ps.len(),
{
    if ps.len() == 0 {
        0
    } else {
        occurrences(ps.drop_last(), partition) + if ps.last() == partition {
            1nat
        } else {
            0nat
        }
    }
}

proof fn lemma_occurrences_bound(ps: Seq<i32>, partition: i32)
    ensures
        occurrences(ps, partition) <= ps.len(),
    decreases ps.len(),
{
    if ps.len() > 0 {
        lemma_occurrences_bound(ps.drop_last(), partition);
    }
}

/// Counting records from no counts, in whatever order the partitions'
/// records arrive and whatever the guest made of them, leaves each
/// partition's count at the number of its records.
pub proof fn lemma_counts_per_partition(ps: Seq<i32>, partition: i32)
    requires
        ps.len() < u64::MAX,
    ensures
        count_of(record_all(Map::<i32, u64>::empty(), ps), partition) == occurrences(ps, partition),
    decreases ps.len(),
{
    if ps.len() > 0 {
        let prev = ps.drop_last();
        lemma_counts_per_partition(prev, partition);
        lemma_counts_per_partition(prev, ps.last());
        lemma_occurrences_bound(prev, ps.last());
    }
}

/// The `records-processed` counter of one topic, by partition.
pub struct RecordCounter {
    topic: String,
    counts: BTreeMap<i32, u64>,
}

impl RecordCounter {
    pub closed spec fn topic_spec(&self) -> Seq<char> {
        self.topic@
    }

    pub closed spec fn counts_view(&self) -> Map<i32, u64> {
        self.counts@
    }

    pub fn new(topic: &str) -> (r: RecordCounter)
        ensures
            r.topic_spec() == topic@,
            r.counts_view() == Map::<i32, u64>::empty(),
    {
        RecordCounter { topic: String::from_str(topic), counts: BTreeMap::new() }
    }

    pub fn topic(&self) -> (r: &str)
        ensures
            r@ == self.topic_spec(),
    {
        self.topic.as_str()
    }

    pub fn count(&self, partition: i32) -> (r: u64)
        ensures
            r == count_of(self.counts_view(), partition),
    {
        match self.counts.get(&partition) {
            Some(c) => *c,
            None => 0,
        }
    }

    /// Counts one record of `partition`; the count saturates at `u64::MAX`.
    pub fn record(&mut self, partition: i32)
        ensures
            final(self).topic_spec() == old(self).topic_spec(),
            final(self).counts_view() == record_spec(old(self).counts_view(), partition),
    {
        let c = self.count(partition);
        let next = if c < u64::MAX {
            c + 1
        } else {
            u64::MAX
        };
        self.counts.insert(partition, next);
    }
}

/// Address of a pointer or length word as the guest means it: unsigned.
pub open spec fn unsigned_word(x: i32) -> int {
    if x < 0 {
        x + 0x1_0000_0000
    } else {
        x as int
    }
}

pub open spec fn guest_slice_spec(memory_size: int, ptr: i32, len: i32) -> Result<
    (int, int),
    AbiFault,
> {
    let start = unsigned_word(ptr);
    let end = start + unsigned_word(len);
    if end <= memory_size {
        Ok((start, end))
    } else {
        Err(AbiFault::OutOfBounds)
    }
}

fn unsigned(x: i32) -> (r: u64)
    ensures
        r == unsigned_word(x),
{
    if x < 0 {
        (x as i64 + 0x1_0000_0000i64) as u64
    } else {
        x as u64
    }
}

/// The range of guest memory that a `(ptr, len)` pair from a guest import
/// call names, or `OutOfBounds` when it reaches past the memory's end.
pub fn guest_slice(memory_size: usize, ptr: i32, len: i32) -> (r: Result<(usize, usize), AbiFault>)
    ensures
        match r {
            Ok((s, e)) => guest_slice_spec(memory_size as int, ptr, len) == Ok::<
                (int, int),
                AbiFault,
            >((s as int, e as int)),
            Err(x) => guest_slice_spec(memory_size as int, ptr, len) == Err::<(int, int), AbiFault>(
                x,
            ),
        },
{
    let start = unsigned(ptr);
    let end = start + unsigned(len);
    if end <= memory_size as u64 {
        Ok((start as usize, end as usize))
    } else {
        Err(AbiFault::OutOfBounds)
    }
}

/// Whole seconds in `ms` milliseconds, rounded toward zero as integer
/// division does.
pub open spec fn millis_to_seconds(ms: int) -> int {
    if ms >= 0 {
        ms / 1000
    } else {
        -((-ms) / 1000)
    }
}

/// The record timestamp handed to the guest, in signed seconds since the
/// epoch, from the broker's timestamp in milliseconds; `-1` when the broker
/// has none.
pub fn record_timestamp(millis: Option<i64>) -> (r: i64)
    ensures
        r == match millis {
            Some(ms) => millis_to_seconds(ms as int),
            None => -1,
        },
{
    match millis {
        Some(ms) => if ms >= 0 {
            ms / 1000
        } else {
            (0i128 - ((0i128 - ms as i128) / 1000)) as i64
        },
        None => -1,
    }
}

} // verus!
