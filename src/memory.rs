use vstd::prelude::*;
use vstd::utf8::*;

use crate::abi::{
    AbiFault, AllocRequest, CallArgs, MAX_SPAN, allocation_plan, byte_regions, call_args,
    call_args_spec, entry_bytes, fits, header_name_index, header_table, le32,
    lemma_byte_regions, lemma_header_table_len, lemma_le32_word, lowered_regions,
    lowering_plan, opt_region, region_contents, table_index, topic_index, word_at,
};
use crate::record::{FlowRecord, RecordView};

verus! {

broadcast use group_utf8_lib;

/// The first multiple of `a` at or above `e`.
pub open spec fn align_up(e: int, a: int) -> int {
    if e % a == 0 {
        e
    } else {
        e + (a - e % a)
    }
}

/// Where a bump allocator that starts at `start` ends after serving `reqs`.
pub open spec fn alloc_end(start: int, reqs: Seq<AllocRequest>) -> int
    decreases reqs.len(),
{
    if reqs.len() == 0 {
        start
    } else {
        align_up(alloc_end(start, reqs.drop_last()), reqs.last().align as int) + reqs.last().size
    }
}

pub proof fn lemma_alloc_end_grows(start: int, reqs: Seq<AllocRequest>, a: int, b: int)
    requires
        0 <= a <= b <= reqs.len(),
        forall|i: int| 0 <= i < reqs.len() ==> (#[trigger] reqs[i]).align >= 1,
    ensures
        alloc_end(start, reqs.take(a)) <= alloc_end(start, reqs.take(b)),
    decreases b - a,
{
    if a < b {
        lemma_alloc_end_grows(start, reqs, a, b - 1);
        let t = reqs.take(b);
        assert(t.drop_last() =~= reqs.take(b - 1));
        let e = alloc_end(start, reqs.take(b - 1));
        let al = t.last().align as int;
        assert(al >= 1);
        assert(align_up(e, al) >= e) by {
            if e % al != 0 {
                assert(e % al < al);
            }
        }
    }
}

/// `b` stands at `p` in `mem`.
pub open spec fn holds(mem: Seq<u8>, p: int, b: Seq<u8>) -> bool {
    0 <= p && p + b.len() <= mem.len() && mem.subrange(p, p + b.len()) == b
}

/// `mem` holds every region of `r`'s plan at the pointers `ptrs`.
pub open spec fn placed(mem: Seq<u8>, r: RecordView, ptrs: Seq<u32>) -> bool {
    &&& ptrs.len() == lowering_plan(r).len()
    &&& forall|i: int| 0 <= i < ptrs.len() ==> #[trigger] ptrs[i] <= MAX_SPAN
    &&& forall|i: int|
        0 <= i < ptrs.len() ==> holds(mem, #[trigger] ptrs[i] as int, region_contents(r, ptrs)[i])
}

/// A model of a guest's linear memory whose allocator hands out memory
/// from the top, as a freshly instantiated guest does.
pub struct GuestMemory {
    bytes: Vec<u8>,
}

impl View for GuestMemory {
    type V = Seq<u8>;

    closed spec fn view(&self) -> Seq<u8> {
        self.bytes@
    }
}

impl GuestMemory {
    pub open spec fn wf(&self) -> bool {
        self@.len() <= MAX_SPAN
    }

    pub fn new() -> (m: GuestMemory)
        ensures
            m@ == Seq::<u8>::empty(),
            m.wf(),
    {
        GuestMemory { bytes: Vec::new() }
    }

    pub fn size(&self) -> (r: usize)
        ensures
            r == self@.len(),
    {
        self.bytes.len()
    }

    /// `canonical_abi_realloc(0, 0, align, size)`: the next `align`ed
    /// address, with `size` zeroed bytes reserved there.
    pub fn allocate(&mut self, align: u32, size: u32) -> (r: Result<u32, AbiFault>)
        requires
            old(self).wf(),
            align >= 1,
        ensures
            final(self).wf(),
            r is Ok <==> align_up(old(self)@.len() as int, align as int) + size <= MAX_SPAN,
            r matches Ok(p) ==> {
                &&& p == align_up(old(self)@.len() as int, align as int)
                &&& final(self)@.len() == p + size
                &&& final(self)@.subrange(0, old(self)@.len() as int) == old(self)@
            },
            r matches Err(e) ==> e == AbiFault::OutOfBounds && final(self)@ == old(self)@,
    {
        let len = self.bytes.len();
        let rem = (len as u64) % (align as u64);
        let pad: u64 = if rem == 0 {
            0
        } else {
            align as u64 - rem
        };
        if len as u64 + pad + size as u64 > MAX_SPAN as u64 {
            return Err(AbiFault::OutOfBounds);
        }
        let end = (len as u64 + pad + size as u64) as usize;
        while self.bytes.len() < end
            invariant
                len <= self@.len() <= end,
                end <= MAX_SPAN,
                self@.subrange(0, len as int) == old(self)@,
                old(self)@.len() == len,
            decreases end - self@.len(),
        {
            self.bytes.push(0);
            assert(self@.subrange(0, len as int) =~= old(self)@);
        }
        Ok((len as u64 + pad) as u32)
    }

    /// Copies `data` to `addr`, the way the host stores into guest memory.
    pub fn write(&mut self, addr: u32, data: &[u8]) -> (r: Result<(), AbiFault>)
        ensures
            final(self)@.len() == old(self)@.len(),
            r is Ok <==> addr + data@.len() <= old(self)@.len(),
            r is Ok ==> holds(final(self)@, addr as int, data@),
            r is Ok ==> forall|i: int|
                0 <= i < old(self)@.len() && !(addr <= i < addr + data@.len()) ==> final(self)@[i]
                    == old(self)@[i],
            r matches Err(e) ==> e == AbiFault::OutOfBounds && final(self)@ == old(self)@,
    {
        let len = self.bytes.len();
        if addr as usize > len || data.len() > len - addr as usize {
            return Err(AbiFault::OutOfBounds);
        }
        let start = addr as usize;
        let mut k: usize = 0;
        while k < data.len()
            invariant
                start + data@.len() <= len == self@.len() == old(self)@.len(),
                start == addr,
                k <= data@.len(),
                forall|i: int| 0 <= i < k ==> self@[start + i] == data@[i],
                forall|i: int|
                    0 <= i < len && !(start <= i < start + k) ==> self@[i] == old(self)@[i],
            decreases data@.len() - k,
        {
            self.bytes.set(start + k, data[k]);
            k = k + 1;
        }
        assert(self@.subrange(start as int, start + data@.len()) =~= data@);
        Ok(())
    }
}


pub proof fn lemma_region_sizes(r: RecordView, ptrs: Seq<u32>)
    requires
        fits(r),
    ensures
        region_contents(r, ptrs).len() == lowering_plan(r).len(),
        forall|i: int|
            0 <= i < lowering_plan(r).len() ==> (#[trigger] region_contents(r, ptrs)[i]).len()
                == lowering_plan(r)[i].size && lowering_plan(r)[i].align >= 1,
{
    lemma_header_table_len(r, ptrs, r.headers.len());
    assert forall|i: int| 0 <= i < lowering_plan(r).len() implies (#[trigger] region_contents(
        r,
        ptrs,
    )[i]).len() == lowering_plan(r)[i].size && lowering_plan(r)[i].align >= 1 by {
        if i < byte_regions(r).len() {
            assert(byte_regions(r)[i].len() <= MAX_SPAN);
        }
    }
}

proof fn lemma_write_keeps(
    before: Seq<u8>,
    after: Seq<u8>,
    addr: int,
    len: int,
    q: int,
    b: Seq<u8>,
)
    requires
        holds(before, q, b),
        q + b.len() <= addr,
        after.len() == before.len(),
        forall|i: int|
            0 <= i < before.len() && !(addr <= i < addr + len) ==> after[i] == before[i],
    ensures
        holds(after, q, b),
{
    assert(after.subrange(q, q + b.len()) =~= before.subrange(q, q + b.len()));
}

impl GuestMemory {
    /// Lowers `rec` the way the host does before calling `process-record`:
    /// one allocation per region of its plan, then every region stored.
    pub fn lower(&mut self, rec: &FlowRecord) -> (r: Result<CallArgs, AbiFault>)
        requires
            old(self).wf(),
        ensures
            final(self).wf(),
            r is Ok <==> fits(rec@) && alloc_end(old(self)@.len() as int, lowering_plan(rec@))
                <= MAX_SPAN,
            r matches Ok(a) ==> exists|ptrs: Seq<u32>|
                placed(final(self)@, rec@, ptrs) && a == call_args_spec(rec@, ptrs) && forall|i: int|
                    0 <= i < ptrs.len() ==> #[trigger] ptrs[i] >= old(self)@.len(),
            r matches Err(e) ==> e == AbiFault::OutOfBounds,
            final(self)@.len() >= old(self)@.len(),
            final(self)@.subrange(0, old(self)@.len() as int) == old(self)@,
            r is Ok ==> final(self)@.len() == alloc_end(old(self)@.len() as int, lowering_plan(rec@)),
    {
        let plan = match allocation_plan(rec) {
            Ok(p) => p,
            Err(e) => {
                return Err(e);
            },
        };
        let ghost start = self@.len() as int;
        let ghost pl = plan@;
        proof {
            lemma_region_sizes(rec@, Seq::<u32>::empty());
        }
        let mut ptrs: Vec<u32> = Vec::new();
        let mut i: usize = 0;
        while i < plan.len()
            invariant
                start == old(self)@.len(),
                pl == plan@,
                pl == lowering_plan(rec@),
                fits(rec@),
                i <= pl.len(),
                forall|k: int| 0 <= k < pl.len() ==> (#[trigger] pl[k]).align >= 1,
                self.wf(),
                self@.len() == alloc_end(start, pl.take(i as int)),
                ptrs@.len() == i,
                forall|k: int|
                    0 <= k < i ==> alloc_end(start, pl.take(k)) <= #[trigger] ptrs@[k] && ptrs@[k]
                        + pl[k].size == alloc_end(start, pl.take(k + 1)),
                forall|k: int| 0 <= k < i ==> #[trigger] ptrs@[k] <= MAX_SPAN,
                forall|k: int| 0 <= k < i ==> #[trigger] ptrs@[k] >= start,
                self@.len() >= start,
                self@.subrange(0, start) == old(self)@,
            decreases pl.len() - i,
        {
            proof {
                assert(pl.take(i + 1).drop_last() =~= pl.take(i as int));
            }
            proof {
                lemma_alloc_end_grows(start, pl, 0, i as int);
                assert(pl.take(0) =~= Seq::<AllocRequest>::empty());
            }
            let ghost mid = self@;
            match self.allocate(plan[i].align, plan[i].size) {
                Ok(p) => {
                    ptrs.push(p);
                    assert(self@.subrange(0, start) =~= mid.subrange(0, start));
                    proof {
                        let e = alloc_end(start, pl.take(i as int));
                        let al = pl[i as int].align as int;
                        if e % al != 0 {
                            assert(e % al < al);
                        }
                    }
                },
                Err(e) => {
                    proof {
                        assert(self@.subrange(0, start) =~= mid.subrange(0, start));
                        assert(pl.take(i + 1).last() == pl[i as int]);
                        assert(alloc_end(start, pl.take(i + 1)) > MAX_SPAN);
                        lemma_alloc_end_grows(start, pl, i + 1, pl.len() as int);
                        assert(pl.take(pl.len() as int) =~= pl);
                        assert(alloc_end(start, pl) > MAX_SPAN);
                    }
                    return Err(e);
                },
            }
            i = i + 1;
        }
        proof {
            assert(pl.take(pl.len() as int) =~= pl);
        }
        let ghost total = self@.len();
        let contents = lowered_regions(rec, &ptrs);
        proof {
            lemma_region_sizes(rec@, ptrs@);
        }
        let ghost rc = region_contents(rec@, ptrs@);
        let mut j: usize = 0;
        while j < contents.len()
            invariant
                pl == lowering_plan(rec@),
                fits(rec@),
                forall|k: int| 0 <= k < pl.len() ==> (#[trigger] pl[k]).align >= 1,
                rc == region_contents(rec@, ptrs@),
                rc.len() == pl.len() == ptrs@.len() == contents@.len(),
                forall|k: int| 0 <= k < rc.len() ==> (#[trigger] contents@[k])@ == rc[k],
                forall|k: int| 0 <= k < rc.len() ==> (#[trigger] rc[k]).len() == pl[k].size,
                total == alloc_end(start, pl),
                alloc_end(start, pl) <= MAX_SPAN,
                self.wf(),
                self@.len() == total,
                j <= rc.len(),
                forall|k: int|
                    0 <= k < pl.len() ==> alloc_end(start, pl.take(k)) <= #[trigger] ptrs@[k]
                        && ptrs@[k] + pl[k].size == alloc_end(start, pl.take(k + 1)),
                forall|k: int| 0 <= k < j ==> holds(self@, #[trigger] ptrs@[k] as int, rc[k]),
                forall|k: int| 0 <= k < pl.len() ==> #[trigger] ptrs@[k] >= start,
                total >= start,
                start == old(self)@.len(),
                self@.subrange(0, start) == old(self)@,
            decreases rc.len() - j,
        {
            proof {
                lemma_alloc_end_grows(start, pl, j + 1, pl.len() as int);
                assert(pl.take(pl.len() as int) =~= pl);
            }
            let ghost before = self@;
            let w = self.write(ptrs[j], contents[j].as_slice());
            proof {
                assert(w is Ok);
                assert(self@.subrange(0, start) =~= before.subrange(0, start));
                assert forall|k: int| 0 <= k < j + 1 implies holds(
                    self@,
                    #[trigger] ptrs@[k] as int,
                    rc[k],
                ) by {
                    if k < j {
                        lemma_alloc_end_grows(start, pl, k + 1, j as int);
                        lemma_write_keeps(before, self@, ptrs@[j as int] as int, rc[j as int].len() as int, ptrs@[k] as int, rc[k]);
                    }
                }
            }
            j = j + 1;
        }
        let args = call_args(rec, &ptrs);
        assert(placed(self@, rec@, ptrs@));
        Ok(args)
    }
}


// ---------------------------------------------------------------------
// Lifting a record back out of guest memory
// ---------------------------------------------------------------------

/// Relies on `String::from_utf8`: it succeeds exactly on valid UTF-8, and
/// then holds the characters those bytes encode.
#[verifier::external_body]
fn string_from_utf8(b: Vec<u8>) -> (r: Option<String>)
    ensures
        r is Some <==> valid_utf8(b@),
        r matches Some(s) ==> s@ == decode_utf8(b@),
{
    String::from_utf8(b).ok()
}

/// The `len` bytes at `ptr`, if they lie inside `mem`.
pub open spec fn read_spec(mem: Seq<u8>, ptr: int, len: int) -> Result<Seq<u8>, AbiFault> {
    if 0 <= ptr && 0 <= len && ptr + len <= mem.len() {
        Ok(mem.subrange(ptr, ptr + len))
    } else {
        Err(AbiFault::OutOfBounds)
    }
}

pub open spec fn opt_spec(mem: Seq<u8>, disc: i32, ptr: i32, len: i32) -> Result<
    Option<Seq<u8>>,
    AbiFault,
> {
    if disc == 0 {
        Ok(None)
    } else if disc == 1 {
        match read_spec(mem, ptr as int, len as int) {
            Ok(b) => Ok(Some(b)),
            Err(e) => Err(e),
        }
    } else {
        Err(AbiFault::InvalidVariant)
    }
}

pub open spec fn text_spec(mem: Seq<u8>, ptr: int, len: int) -> Result<Seq<char>, AbiFault> {
    match read_spec(mem, ptr, len) {
        Ok(b) => if valid_utf8(b) {
            Ok(decode_utf8(b))
        } else {
            Err(AbiFault::InvalidUtf8)
        },
        Err(e) => Err(e),
    }
}

/// Header `j` of the table at `table`: its name, then its value.
pub open spec fn header_spec(mem: Seq<u8>, table: int, j: int) -> Result<
    (Seq<char>, Seq<u8>),
    AbiFault,
> {
    let e = table + 16 * j;
    match text_spec(mem, word_at(mem, e) as int, word_at(mem, e + 4) as int) {
        Err(x) => Err(x),
        Ok(n) => match read_spec(mem, word_at(mem, e + 8) as int, word_at(mem, e + 12) as int) {
            Err(x) => Err(x),
            Ok(v) => Ok((n, v)),
        },
    }
}

/// The first `count` headers of the table at `table`, or the first fault.
pub open spec fn headers_spec(mem: Seq<u8>, table: int, count: nat) -> Result<
    Seq<(Seq<char>, Seq<u8>)>,
    AbiFault,
>
    decreases count,
{
    if count == 0 {
        Ok(seq![])
    } else {
        match headers_spec(mem, table, (count - 1) as nat) {
            Err(e) => Err(e),
            Ok(s) => match header_spec(mem, table, count - 1) {
                Err(e) => Err(e),
                Ok(h) => Ok(s.push(h)),
            },
        }
    }
}

/// The record that the arguments of `process-record` describe in `mem`,
/// or the first fault met reading it.
pub open spec fn lift_spec(mem: Seq<u8>, a: CallArgs) -> Result<RecordView, AbiFault> {
    match opt_spec(mem, a.key_disc, a.key_ptr, a.key_len) {
        Err(e) => Err(e),
        Ok(key) => match opt_spec(mem, a.value_disc, a.value_ptr, a.value_len) {
            Err(e) => Err(e),
            Ok(value) => match read_spec(mem, a.headers_ptr as int, 16 * a.headers_len) {
                Err(e) => Err(e),
                Ok(_) => match headers_spec(mem, a.headers_ptr as int, a.headers_len as nat) {
                    Err(e) => Err(e),
                    Ok(headers) => match text_spec(mem, a.topic_ptr as int, a.topic_len as int) {
                        Err(e) => Err(e),
                        Ok(topic) => Ok(
                            RecordView {
                                key,
                                value,
                                headers,
                                topic,
                                partition: a.partition,
                                offset: a.offset,
                                timestamp: a.timestamp,
                            },
                        ),
                    },
                },
            },
        },
    }
}

pub open spec fn bytes_result(r: Result<Vec<u8>, AbiFault>) -> Result<Seq<u8>, AbiFault> {
    match r {
        Ok(v) => Ok(v@),
        Err(e) => Err(e),
    }
}

pub open spec fn record_result(r: Result<FlowRecord, AbiFault>) -> Result<RecordView, AbiFault> {
    match r {
        Ok(v) => Ok(v@),
        Err(e) => Err(e),
    }
}

proof fn lemma_headers_fault_stays(mem: Seq<u8>, table: int, k: nat, m: nat)
    requires
        k <= m,
        headers_spec(mem, table, k) is Err,
    ensures
        headers_spec(mem, table, m) == headers_spec(mem, table, k),
    decreases m - k,
{
    if k < m {
        lemma_headers_fault_stays(mem, table, k, (m - 1) as nat);
    }
}

impl GuestMemory {
    /// Copies out the `len` bytes at `ptr`.
    pub fn read(&self, ptr: i64, len: i64) -> (r: Result<Vec<u8>, AbiFault>)
        ensures
            bytes_result(r) == read_spec(self@, ptr as int, len as int),
    {
        let size = self.bytes.len();
        if ptr < 0 || len < 0 || ptr as u64 + len as u64 > size as u64 {
            return Err(AbiFault::OutOfBounds);
        }
        let s = vstd::slice::slice_subrange(
            self.bytes.as_slice(),
            ptr as usize,
            (ptr as u64 + len as u64) as usize,
        );
        Ok(vstd::slice::slice_to_vec(s))
    }

    fn read_text(&self, ptr: i64, len: i64) -> (r: Result<String, AbiFault>)
        ensures
            match r {
                Ok(s) => text_spec(self@, ptr as int, len as int) == Ok::<Seq<char>, AbiFault>(
                    s@,
                ),
                Err(e) => text_spec(self@, ptr as int, len as int) == Err::<Seq<char>, AbiFault>(
                    e,
                ),
            },
    {
        let b = self.read(ptr, len)?;
        match string_from_utf8(b) {
            Some(s) => Ok(s),
            None => Err(AbiFault::InvalidUtf8),
        }
    }

    fn read_opt(&self, disc: i32, ptr: i32, len: i32) -> (r: Result<Option<Vec<u8>>, AbiFault>)
        ensures
            match r {
                Ok(o) => opt_spec(self@, disc, ptr, len) == Ok::<Option<Seq<u8>>, AbiFault>(
                    crate::record::opt_bytes_view(o),
                ),
                Err(e) => opt_spec(self@, disc, ptr, len) == Err::<Option<Seq<u8>>, AbiFault>(e),
            },
    {
        if disc == 0 {
            Ok(None)
        } else if disc == 1 {
            let b = self.read(ptr as i64, len as i64)?;
            Ok(Some(b))
        } else {
            Err(AbiFault::InvalidVariant)
        }
    }

    fn word(&self, at: usize) -> (r: u32)
        requires
            self.wf(),
            at + 4 <= self@.len(),
        ensures
            r == word_at(self@, at as int),
    {
        (self.bytes[at] as u32) | ((self.bytes[at + 1] as u32) << 8u32) | ((self.bytes[at + 2]
            as u32) << 16u32) | ((self.bytes[at + 3] as u32) << 24u32)
    }

    fn read_header(&self, table: usize, j: usize) -> (r: Result<(String, Vec<u8>), AbiFault>)
        requires
            self.wf(),
            table + 16 * (j + 1) <= self@.len(),
        ensures
            match r {
                Ok(h) => header_spec(self@, table as int, j as int) == Ok::<
                    (Seq<char>, Seq<u8>),
                    AbiFault,
                >((h.0@, h.1@)),
                Err(e) => header_spec(self@, table as int, j as int) == Err::<
                    (Seq<char>, Seq<u8>),
                    AbiFault,
                >(e),
            },
    {
        let e = table + 16 * j;
        let np = self.word(e);
        let nl = self.word(e + 4);
        let vp = self.word(e + 8);
        let vl = self.word(e + 12);
        let name = self.read_text(np as i64, nl as i64)?;
        let value = self.read(vp as i64, vl as i64)?;
        Ok((name, value))
    }

    /// Reads the `n` headers of the table at `table`.
    pub(crate) fn read_headers(&self, table: usize, n: usize) -> (r: Result<
        Vec<(String, Vec<u8>)>,
        AbiFault,
    >)
        requires
            self.wf(),
            table + 16 * n <= self@.len(),
        ensures
            match r {
                Ok(h) => headers_spec(self@, table as int, n as nat) == Ok::<
                    Seq<(Seq<char>, Seq<u8>)>,
                    AbiFault,
                >(crate::record::headers_view(h@)),
                Err(e) => headers_spec(self@, table as int, n as nat) == Err::<
                    Seq<(Seq<char>, Seq<u8>)>,
                    AbiFault,
                >(e),
            },
    {
        let mut headers: Vec<(String, Vec<u8>)> = Vec::new();
        assert(crate::record::headers_view(headers@) =~= seq![]);
        let mut j: usize = 0;
        while j < n
            invariant
                self.wf(),
                j <= n,
                table + 16 * n <= self@.len(),
                headers_spec(self@, table as int, j as nat) == Ok::<
                    Seq<(Seq<char>, Seq<u8>)>,
                    AbiFault,
                >(crate::record::headers_view(headers@)),
            decreases n - j,
        {
            let ghost before = headers@;
            match self.read_header(table, j) {
                Ok(h) => {
                    headers.push(h);
                    assert(crate::record::headers_view(headers@) =~= crate::record::headers_view(
                        before,
                    ).push((h.0@, h.1@)));
                },
                Err(e) => {
                    proof {
                        assert(headers_spec(self@, table as int, (j + 1) as nat) == Err::<
                            Seq<(Seq<char>, Seq<u8>)>,
                            AbiFault,
                        >(e));
                        lemma_headers_fault_stays(self@, table as int, (j + 1) as nat, n as nat);
                    }
                    return Err(e);
                },
            }
            j = j + 1;
        }
        Ok(headers)
    }

    /// Lifts the record that the arguments of `process-record` describe.
    pub fn lift(&self, a: &CallArgs) -> (r: Result<FlowRecord, AbiFault>)
        requires
            self.wf(),
        ensures
            record_result(r) == lift_spec(self@, *a),
    {
        let key = self.read_opt(a.key_disc, a.key_ptr, a.key_len)?;
        let value = self.read_opt(a.value_disc, a.value_ptr, a.value_len)?;
        let size = self.bytes.len();
        if a.headers_ptr < 0 || a.headers_len < 0 || a.headers_ptr as u64 + 16 * (
        a.headers_len as u64) > size as u64 {
            return Err(AbiFault::OutOfBounds);
        }
        let table = a.headers_ptr as usize;
        let n = a.headers_len as usize;
        let headers = self.read_headers(table, n)?;
        let topic = self.read_text(a.topic_ptr as i64, a.topic_len as i64)?;
        Ok(
            FlowRecord {
                key,
                value,
                headers,
                topic,
                partition: a.partition,
                offset: a.offset,
                timestamp: a.timestamp,
            },
        )
    }
}


// ---------------------------------------------------------------------
// Round trip
// ---------------------------------------------------------------------

proof fn lemma_holds_read(mem: Seq<u8>, p: int, b: Seq<u8>)
    requires
        holds(mem, p, b),
    ensures
        read_spec(mem, p, b.len() as int) == Ok::<Seq<u8>, AbiFault>(b),
{
}

proof fn lemma_table_prefix(r: RecordView, ptrs: Seq<u32>, k: nat, m: nat)
    requires
        k <= m,
    ensures
        header_table(r, ptrs, m).len() >= 16 * k,
        header_table(r, ptrs, m).subrange(0, 16 * k as int) == header_table(r, ptrs, k),
    decreases m - k,
{
    lemma_header_table_len(r, ptrs, m);
    lemma_header_table_len(r, ptrs, k);
    if k < m {
        lemma_table_prefix(r, ptrs, k, (m - 1) as nat);
        lemma_header_table_len(r, ptrs, (m - 1) as nat);
        let prev = header_table(r, ptrs, (m - 1) as nat);
        let whole = header_table(r, ptrs, m);
        assert(whole.subrange(0, 16 * (m - 1) as int) =~= prev);
        assert(whole.subrange(0, 16 * k as int) =~= prev.subrange(0, 16 * k as int));
    } else {
        assert(header_table(r, ptrs, m).subrange(0, 16 * k as int) =~= header_table(r, ptrs, k));
    }
}

/// The four words of header `j`'s element, as the table at `tp` holds them.
proof fn lemma_table_words(mem: Seq<u8>, r: RecordView, ptrs: Seq<u32>, tp: int, j: int)
    requires
        0 <= j < r.headers.len(),
        holds(mem, tp, header_table(r, ptrs, r.headers.len())),
    ensures
        ({
            let h = header_name_index(r, j);
            let e = tp + 16 * j;
            &&& word_at(mem, e) == ptrs[h]
            &&& word_at(mem, e + 4) == encode_utf8(r.headers[j].0).len() as u32
            &&& word_at(mem, e + 8) == ptrs[h + 1]
            &&& word_at(mem, e + 12) == r.headers[j].1.len() as u32
        }),
{
    let n = r.headers.len();
    let h = header_name_index(r, j);
    let e = tp + 16 * j;
    let table = header_table(r, ptrs, n);
    lemma_table_prefix(r, ptrs, (j + 1) as nat, n);
    lemma_header_table_len(r, ptrs, j as nat);
    let a = ptrs[h];
    let b = encode_utf8(r.headers[j].0).len() as u32;
    let c = ptrs[h + 1];
    let d = r.headers[j].1.len() as u32;
    let ent = entry_bytes(a, b, c, d);
    assert(header_table(r, ptrs, (j + 1) as nat) == header_table(r, ptrs, j as nat) + ent);
    assert forall|y: int| 0 <= y < 16 implies mem[e + y] == #[trigger] ent[y] by {
        assert(mem.subrange(tp, tp + table.len())[16 * j + y] == table[16 * j + y]);
        assert(table.subrange(0, 16 * (j + 1))[16 * j + y] == table[16 * j + y]);
        assert(header_table(r, ptrs, (j + 1) as nat)[16 * j + y] == ent[y]);
    }
    lemma_le32_word(a);
    lemma_le32_word(b);
    lemma_le32_word(c);
    lemma_le32_word(d);
    assert(ent.subrange(0, 4) =~= le32(a));
    assert(ent.subrange(4, 8) =~= le32(b));
    assert(ent.subrange(8, 12) =~= le32(c));
    assert(ent.subrange(12, 16) =~= le32(d));
    assert(word_at(mem, e) == word_at(ent, 0));
    assert(word_at(mem, e + 4) == word_at(le32(b), 0)) by {
        assert(ent[4] == le32(b)[0] && ent[5] == le32(b)[1] && ent[6] == le32(b)[2] && ent[7]
            == le32(b)[3]);
    }
    assert(word_at(mem, e + 8) == word_at(le32(c), 0)) by {
        assert(ent[8] == le32(c)[0] && ent[9] == le32(c)[1] && ent[10] == le32(c)[2] && ent[11]
            == le32(c)[3]);
    }
    assert(word_at(mem, e + 12) == word_at(le32(d), 0)) by {
        assert(ent[12] == le32(d)[0] && ent[13] == le32(d)[1] && ent[14] == le32(d)[2] && ent[15]
            == le32(d)[3]);
    }
}

proof fn lemma_headers_read_back(mem: Seq<u8>, r: RecordView, ptrs: Seq<u32>, m: nat)
    requires
        fits(r),
        placed(mem, r, ptrs),
        m <= r.headers.len(),
    ensures
        headers_spec(mem, ptrs[table_index(r)] as int, m) == Ok::<
            Seq<(Seq<char>, Seq<u8>)>,
            AbiFault,
        >(r.headers.take(m as int)),
    decreases m,
{
    let tp = ptrs[table_index(r)] as int;
    if m > 0 {
        let j = m - 1;
        lemma_headers_read_back(mem, r, ptrs, j as nat);
        lemma_byte_regions(r);
        let rc = region_contents(r, ptrs);
        let h = header_name_index(r, j);
        assert(rc[table_index(r)] == header_table(r, ptrs, r.headers.len()));
        assert(holds(mem, ptrs[table_index(r)] as int, rc[table_index(r)]));
        lemma_table_words(mem, r, ptrs, tp, j);
        let name = r.headers[j].0;
        let value = r.headers[j].1;
        assert(rc[h] == encode_utf8(name));
        assert(rc[h + 1] == value);
        assert(holds(mem, ptrs[h] as int, rc[h]));
        assert(holds(mem, ptrs[h + 1] as int, rc[h + 1]));
        assert(byte_regions(r)[h].len() <= MAX_SPAN);
        assert(byte_regions(r)[h + 1].len() <= MAX_SPAN);
        lemma_holds_read(mem, ptrs[h] as int, encode_utf8(name));
        lemma_holds_read(mem, ptrs[h + 1] as int, value);
        assert(header_spec(mem, tp, j) == Ok::<(Seq<char>, Seq<u8>), AbiFault>((name, value)));
        assert(r.headers.take(m as int) =~= r.headers.take(j).push((name, value)));
    } else {
        assert(r.headers.take(0) =~= seq![]);
    }
}

/// Lowering a record into guest memory and lifting it back yields the same
/// record: wherever `lower` placed its regions, `lift` reads from the
/// arguments it returned exactly the record that was lowered.
pub proof fn lemma_round_trip(mem: Seq<u8>, r: RecordView, ptrs: Seq<u32>)
    requires
        fits(r),
        placed(mem, r, ptrs),
    ensures
        lift_spec(mem, call_args_spec(r, ptrs)) == Ok::<RecordView, AbiFault>(r),
{
    lemma_byte_regions(r);
    lemma_header_table_len(r, ptrs, r.headers.len());
    let rc = region_contents(r, ptrs);
    let a = call_args_spec(r, ptrs);
    let n = r.headers.len();
    match r.key {
        Some(k) => {
            assert(rc[0] == k);
            assert(holds(mem, ptrs[0] as int, rc[0]));
            assert(byte_regions(r)[0].len() <= MAX_SPAN);
            lemma_holds_read(mem, ptrs[0] as int, k);
        },
        None => {},
    }
    let kc = opt_region(r.key).len() as int;
    match r.value {
        Some(v) => {
            assert(rc[kc] == v);
            assert(holds(mem, ptrs[kc] as int, rc[kc]));
            assert(byte_regions(r)[kc].len() <= MAX_SPAN);
            lemma_holds_read(mem, ptrs[kc] as int, v);
        },
        None => {},
    }
    let ti = table_index(r);
    assert(holds(mem, ptrs[ti] as int, rc[ti]));
    lemma_holds_read(mem, ptrs[ti] as int, rc[ti]);
    assert(a.headers_len == n);
    lemma_headers_read_back(mem, r, ptrs, n);
    assert(r.headers.take(n as int) =~= r.headers);
    let tpi = topic_index(r);
    assert(rc[tpi] == encode_utf8(r.topic));
    assert(holds(mem, ptrs[tpi] as int, rc[tpi]));
    assert(byte_regions(r)[tpi].len() <= MAX_SPAN);
    lemma_holds_read(mem, ptrs[tpi] as int, encode_utf8(r.topic));
}

} // verus!
