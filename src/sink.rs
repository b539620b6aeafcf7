use std::collections::BTreeMap;
use vstd::prelude::*;

verus! {

broadcast use vstd::std_specs::btree::group_btree_axioms, vstd::laws_cmp::group_laws_cmp;

/// A buffer is flushed once its length strictly exceeds 80% of the
/// configured file size.
pub open spec fn flush_due(len: int, file_size: int) -> bool {
    5 * len > 4 * file_size
}

/// Bytes waiting in `m` for `partition`; none before its first write.
pub open spec fn pending_of(m: Map<i32, Seq<u8>>, partition: i32) -> Seq<u8> {
    if m.contains_key(partition) {
        m[partition]
    } else {
        seq![]
    }
}

/// One append to a partition's buffer: what is flushed, if anything, and
/// what stays pending afterwards.
pub open spec fn append_spec(pending: Seq<u8>, body: Seq<u8>, file_size: int) -> (
    Option<Seq<u8>>,
    Seq<u8>,
) {
    let joined = pending + body;
    if flush_due(joined.len() as int, file_size) {
        (Some(joined), seq![])
    } else {
        (None, joined)
    }
}

pub open spec fn flushed_bytes(f: Option<Seq<u8>>) -> Seq<u8> {
    match f {
        Some(b) => b,
        None => seq![],
    }
}

pub open spec fn opt_vec_view(o: Option<Vec<u8>>) -> Option<Seq<u8>> {
    match o {
        Some(v) => Some(v@),
        None => None,
    }
}

/// Per-partition byte accumulators with a size-triggered flush.
pub struct PartitionBuffers {
    file_size: usize,
    buffers: BTreeMap<i32, Vec<u8>>,
}

impl PartitionBuffers {
    /// Pending bytes of each partition that has been written to.
    pub closed spec fn buffers_view(&self) -> Map<i32, Seq<u8>> {
        self.buffers@.map_values(|v: Vec<u8>| v@)
    }

    pub closed spec fn file_size_spec(&self) -> nat {
        self.file_size as nat
    }

    pub fn new(file_size: u16) -> (r: PartitionBuffers)
        ensures
            r.buffers_view() == Map::<i32, Seq<u8>>::empty(),
            r.file_size_spec() == file_size,
    {
        let r = PartitionBuffers { file_size: file_size as usize, buffers: BTreeMap::new() };
        assert(r.buffers_view() =~= Map::<i32, Seq<u8>>::empty());
        r
    }

    pub fn file_size(&self) -> (r: usize)
        ensures
            r == self.file_size_spec(),
    {
        self.file_size
    }

    /// The bytes waiting for `partition`.
    pub fn pending(&self, partition: i32) -> (r: Vec<u8>)
        ensures
            r@ == pending_of(self.buffers_view(), partition),
    {
        match self.buffers.get(&partition) {
            Some(b) => vstd::slice::slice_to_vec(b.as_slice()),
            None => Vec::new(),
        }
    }

    /// Appends `body` to `partition`'s buffer. When the buffer then holds
    /// more than 80% of the file size, it is detached and returned, and an
    /// empty buffer takes its place.
    pub fn append(&mut self, partition: i32, body: &[u8]) -> (r: Option<Vec<u8>>)
        ensures
            final(self).file_size_spec() == old(self).file_size_spec(),
            ({
                let (f, rest) = append_spec(
                    pending_of(old(self).buffers_view(), partition),
                    body@,
                    old(self).file_size_spec() as int,
                );
                &&& opt_vec_view(r) == f
                &&& final(self).buffers_view() == old(self).buffers_view().insert(partition, rest)
            }),
    {
        let ghost before = self.buffers@;
        let mut buf = match self.buffers.remove(&partition) {
            Some(b) => b,
            None => Vec::with_capacity(self.file_size),
        };
        assert(buf@ == pending_of(old(self).buffers_view(), partition));
        let mut tail = vstd::slice::slice_to_vec(body);
        buf.append(&mut tail);
        let due = 5 * (buf.len() as u128) > 4 * (self.file_size as u128);
        if due {
            self.buffers.insert(partition, Vec::with_capacity(self.file_size));
            assert(self.buffers_view() =~= old(self).buffers_view().insert(
                partition,
                Seq::<u8>::empty(),
            ));
            Some(buf)
        } else {
            let ghost joined = buf@;
            self.buffers.insert(partition, buf);
            assert(self.buffers_view() =~= old(self).buffers_view().insert(partition, joined));
            None
        }
    }
}

/// An append never loses, duplicates or reorders bytes: what it flushes,
/// followed by what stays pending, is the old pending bytes followed by the
/// body.
pub proof fn lemma_append_keeps_bytes(pending: Seq<u8>, body: Seq<u8>, file_size: int)
    ensures
        ({
            let (f, rest) = append_spec(pending, body, file_size);
            flushed_bytes(f) + rest == pending + body
        }),
{
    let (f, rest) = append_spec(pending, body, file_size);
    assert(flushed_bytes(f) + rest =~= pending + body);
}

/// Writes to one partition come out in the order they were made: for two
/// successive writes `b1` then `b2`, the flushed objects followed by what
/// stays pending hold `b1`'s bytes before `b2`'s.
pub proof fn lemma_partition_order(pending: Seq<u8>, b1: Seq<u8>, b2: Seq<u8>, file_size: int)
    ensures
        ({
            let (f1, rest1) = append_spec(pending, b1, file_size);
            let (f2, rest2) = append_spec(rest1, b2, file_size);
            flushed_bytes(f1) + flushed_bytes(f2) + rest2 == pending + b1 + b2
        }),
{
    let (f1, rest1) = append_spec(pending, b1, file_size);
    let (f2, rest2) = append_spec(rest1, b2, file_size);
    lemma_append_keeps_bytes(pending, b1, file_size);
    lemma_append_keeps_bytes(rest1, b2, file_size);
    assert(flushed_bytes(f1) + flushed_bytes(f2) + rest2 =~= flushed_bytes(f1) + (flushed_bytes(f2)
        + rest2));
    assert(pending + b1 + b2 =~= (pending + b1) + b2);
    assert((flushed_bytes(f1) + rest1) + b2 =~= flushed_bytes(f1) + (rest1 + b2));
}

/// A run of writes `(partition, body)`, in call order, over the buffers
/// `m`: the buffers afterwards and the objects flushed, in flush order.
pub open spec fn write_all(m: Map<i32, Seq<u8>>, ws: Seq<(i32, Seq<u8>)>, file_size: int) -> (
    Map<i32, Seq<u8>>,
    Seq<(i32, Seq<u8>)>,
)
    decreases ws.len(),
{
    if ws.len() == 0 {
        (m, seq![])
    } else {
        let (m1, objs) = write_all(m, ws.drop_last(), file_size);
        let (p, b) = ws.last();
        let (f, rest) = append_spec(pending_of(m1, p), b, file_size);
        (
            m1.insert(p, rest),
            match f {
                Some(x) => objs.push((p, x)),
                None => objs,
            },
        )
    }
}

/// The bytes of the entries for `partition`, one after another.
pub open spec fn bytes_for(ws: Seq<(i32, Seq<u8>)>, partition: i32) -> Seq<u8>
    decreases ws.len(),
{
    if ws.len() == 0 {
        seq![]
    } else {
        bytes_for(ws.drop_last(), partition) + if ws.last().0 == partition {
            ws.last().1
        } else {
            seq![]
        }
    }
}

/// However writes to different partitions interleave, each partition's
/// bytes keep their call order: the objects flushed for it, in flush order,
/// followed by what stays pending, are its old pending bytes followed by
/// the bodies written to it.
pub proof fn lemma_interleaved_order(
    m: Map<i32, Seq<u8>>,
    ws: Seq<(i32, Seq<u8>)>,
    file_size: int,
    partition: i32,
)
    ensures
        ({
            let (m2, objs) = write_all(m, ws, file_size);
            bytes_for(objs, partition) + pending_of(m2, partition) == pending_of(m, partition)
                + bytes_for(ws, partition)
        }),
    decreases ws.len(),
{
    if ws.len() == 0 {
        assert(seq![] + pending_of(m, partition) =~= pending_of(m, partition) + seq![]);
    } else {
        let prev = ws.drop_last();
        lemma_interleaved_order(m, prev, file_size, partition);
        let (m1, objs1) = write_all(m, prev, file_size);
        let (q, b) = ws.last();
        let (f, rest) = append_spec(pending_of(m1, q), b, file_size);
        let (m2, objs) = write_all(m, ws, file_size);
        match f {
            Some(x) => {
                assert(objs == objs1.push((q, x)));
                assert(objs1.push((q, x)).drop_last() =~= objs1);
            },
            None => {},
        }
        if q == partition {
            lemma_append_keeps_bytes(pending_of(m1, q), b, file_size);
            assert(bytes_for(objs, partition) == bytes_for(objs1, partition) + flushed_bytes(f));
            assert(pending_of(m2, partition) == rest);
            assert(bytes_for(objs1, partition) + flushed_bytes(f) + rest =~= bytes_for(
                objs1,
                partition,
            ) + (flushed_bytes(f) + rest));
            assert(bytes_for(objs1, partition) + (pending_of(m1, partition) + b) =~= (bytes_for(
                objs1,
                partition,
            ) + pending_of(m1, partition)) + b);
            assert(pending_of(m, partition) + bytes_for(prev, partition) + b =~= pending_of(
                m,
                partition,
            ) + (bytes_for(prev, partition) + b));
        } else {
            assert(bytes_for(objs, partition) =~= bytes_for(objs1, partition));
            assert(pending_of(m2, partition) == pending_of(m1, partition));
            assert(bytes_for(ws, partition) =~= bytes_for(prev, partition));
        }
    }
}

} // verus!
