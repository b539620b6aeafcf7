use vstd::prelude::*;

use crate::abi::{AbiFault, CallArgs, MAX_SPAN, call_args_spec, fits, lowering_plan};
use crate::frame::{FRAME_SIZE, Frame, frame_at, frame_at_spec, frame_bytes, lemma_frame_round_trip, push_frame};
use crate::memory::{
    GuestMemory, align_up, alloc_end, headers_spec, holds, lemma_round_trip, lift_spec, opt_spec,
    placed, read_spec,
};
use crate::record::{FlowRecord, RecordView, headers_view, opt_bytes_view};

verus! {

/// A record as a frame of the batched `parse-records` layout carries it:
/// key, value, headers and offset.
#[derive(Debug)]
pub struct BatchRecord {
    pub key: Option<Vec<u8>>,
    pub value: Option<Vec<u8>>,
    pub headers: Vec<(String, Vec<u8>)>,
    pub offset: i64,
}

pub struct BatchRecordView {
    pub key: Option<Seq<u8>>,
    pub value: Option<Seq<u8>>,
    pub headers: Seq<(Seq<char>, Seq<u8>)>,
    pub offset: i64,
}

impl View for BatchRecord {
    type V = BatchRecordView;

    open spec fn view(&self) -> BatchRecordView {
        BatchRecordView {
            key: opt_bytes_view(self.key),
            value: opt_bytes_view(self.value),
            headers: headers_view(self.headers@),
            offset: self.offset,
        }
    }
}

/// What of a record its frame carries.
pub open spec fn batch_view(r: RecordView) -> BatchRecordView {
    BatchRecordView { key: r.key, value: r.value, headers: r.headers, offset: r.offset }
}

/// The frame that points at a record lowered with these arguments.
pub open spec fn frame_of_args(a: CallArgs) -> Frame {
    Frame {
        key_disc: a.key_disc as u8,
        key_ptr: a.key_ptr as u32,
        key_len: a.key_len as u32,
        value_disc: a.value_disc as u8,
        value_ptr: a.value_ptr as u32,
        value_len: a.value_len as u32,
        headers_ptr: a.headers_ptr as u32,
        headers_len: a.headers_len as u32,
        offset: a.offset,
    }
}

pub open spec fn frame_opt_spec(mem: Seq<u8>, disc: u8, ptr: u32, len: u32) -> Result<
    Option<Seq<u8>>,
    AbiFault,
> {
    if disc == 0 {
        Ok(None)
    } else if disc == 1 {
        match read_spec(mem, ptr as int, len as int) {
            Ok(b) => Ok(Some(b)),
            Err(e) => Err(e),
        }
    } else {
        Err(AbiFault::InvalidVariant)
    }
}

/// The record a frame describes in `mem`, or the first fault met.
pub open spec fn lift_frame_spec(mem: Seq<u8>, f: Frame) -> Result<BatchRecordView, AbiFault> {
    match frame_opt_spec(mem, f.key_disc, f.key_ptr, f.key_len) {
        Err(e) => Err(e),
        Ok(key) => match frame_opt_spec(mem, f.value_disc, f.value_ptr, f.value_len) {
            Err(e) => Err(e),
            Ok(value) => match read_spec(mem, f.headers_ptr as int, 16 * f.headers_len) {
                Err(e) => Err(e),
                Ok(_) => match headers_spec(mem, f.headers_ptr as int, f.headers_len as nat) {
                    Err(e) => Err(e),
                    Ok(headers) => Ok(BatchRecordView { key, value, headers, offset: f.offset }),
                },
            },
        },
    }
}

/// The first `count` records of the frames at `fp`, or the first fault.
pub open spec fn lift_frames_spec(mem: Seq<u8>, fp: int, count: nat) -> Result<
    Seq<BatchRecordView>,
    AbiFault,
>
    decreases count,
{
    if count == 0 {
        Ok(seq![])
    } else {
        let at = fp + 40 * (count - 1);
        match lift_frames_spec(mem, fp, (count - 1) as nat) {
            Err(e) => Err(e),
            Ok(s) => match frame_at_spec(mem.subrange(at, at + 40), 0) {
                Err(e) => Err(e),
                Ok(f) => match lift_frame_spec(mem, f) {
                    Err(e) => Err(e),
                    Ok(b) => Ok(s.push(b)),
                },
            },
        }
    }
}

/// The records of the `len` frames at `ptr`, the arguments of
/// `parse-records`.
pub open spec fn lift_batch_spec(mem: Seq<u8>, ptr: i32, len: i32) -> Result<
    Seq<BatchRecordView>,
    AbiFault,
> {
    match read_spec(mem, ptr as int, 40 * len) {
        Err(e) => Err(e),
        Ok(_) => lift_frames_spec(mem, ptr as int, len as nat),
    }
}

pub open spec fn batch_result(r: Result<Vec<BatchRecord>, AbiFault>) -> Result<
    Seq<BatchRecordView>,
    AbiFault,
> {
    match r {
        Ok(v) => Ok(v@.map_values(|b: BatchRecord| b@)),
        Err(e) => Err(e),
    }
}

proof fn lemma_frames_fault_stays(mem: Seq<u8>, fp: int, k: nat, m: nat)
    requires
        k <= m,
        lift_frames_spec(mem, fp, k) is Err,
    ensures
        lift_frames_spec(mem, fp, m) == lift_frames_spec(mem, fp, k),
    decreases m - k,
{
    if k < m {
        lemma_frames_fault_stays(mem, fp, k, (m - 1) as nat);
    }
}

/// Where memory ends once the records `rs` are lowered one after another
/// from `start`, or `None` when one of them does not fit.
pub open spec fn records_end(start: int, rs: Seq<RecordView>) -> Option<int>
    decreases rs.len(),
{
    if rs.len() == 0 {
        Some(start)
    } else {
        match records_end(start, rs.drop_last()) {
            None => None,
            Some(e) => if fits(rs.last()) && alloc_end(e, lowering_plan(rs.last())) <= MAX_SPAN {
                Some(alloc_end(e, lowering_plan(rs.last())))
            } else {
                None
            },
        }
    }
}

/// Lowering a batch succeeds exactly when its frames and then each of its
/// records fit in memory.
pub open spec fn batch_fits(start: int, rs: Seq<RecordView>) -> bool {
    let frames_end = align_up(start, 8) + 40 * rs.len();
    &&& 40 * rs.len() <= MAX_SPAN
    &&& frames_end <= MAX_SPAN
    &&& records_end(frames_end, rs) is Some
}

proof fn lemma_records_end_none_stays(start: int, rs: Seq<RecordView>, k: int)
    requires
        0 <= k <= rs.len(),
        records_end(start, rs.take(k)) is None,
    ensures
        records_end(start, rs) is None,
    decreases rs.len() - k,
{
    if k < rs.len() {
        let t = rs.take(k + 1);
        assert(t.drop_last() =~= rs.take(k));
        lemma_records_end_none_stays(start, rs, k + 1);
    } else {
        assert(rs.take(k) =~= rs);
    }
}

/// All the frames, one after another.
pub open spec fn frames_concat(fs: Seq<Frame>) -> Seq<u8>
    decreases fs.len(),
{
    if fs.len() == 0 {
        seq![]
    } else {
        frames_concat(fs.drop_last()) + frame_bytes(fs.last())
    }
}

proof fn lemma_frames_concat(fs: Seq<Frame>)
    ensures
        frames_concat(fs).len() == 40 * fs.len(),
        forall|k: int|
            0 <= k < fs.len() ==> frames_concat(fs).subrange(40 * k, 40 * k + 40) == frame_bytes(
                #[trigger] fs[k],
            ),
    decreases fs.len(),
{
    if fs.len() > 0 {
        let prev = fs.drop_last();
        lemma_frames_concat(prev);
        let whole = frames_concat(fs);
        assert forall|k: int| 0 <= k < fs.len() implies whole.subrange(40 * k, 40 * k + 40)
            == frame_bytes(#[trigger] fs[k]) by {
            if k < fs.len() - 1 {
                assert(prev[k] == fs[k]);
                assert(whole.subrange(40 * k, 40 * k + 40) =~= frames_concat(prev).subrange(
                    40 * k,
                    40 * k + 40,
                ));
            } else {
                assert(whole.subrange(40 * k, 40 * k + 40) =~= frame_bytes(fs.last()));
            }
        }
    }
}

fn frame_from_args(a: &CallArgs) -> (f: Frame)
    requires
        0 <= a.key_disc <= 1,
        0 <= a.value_disc <= 1,
        a.key_ptr >= 0 && a.key_len >= 0 && a.value_ptr >= 0 && a.value_len >= 0,
        a.headers_ptr >= 0 && a.headers_len >= 0,
    ensures
        f == frame_of_args(*a),
{
    Frame {
        key_disc: a.key_disc as u8,
        key_ptr: a.key_ptr as u32,
        key_len: a.key_len as u32,
        value_disc: a.value_disc as u8,
        value_ptr: a.value_ptr as u32,
        value_len: a.value_len as u32,
        headers_ptr: a.headers_ptr as u32,
        headers_len: a.headers_len as u32,
        offset: a.offset,
    }
}

/// A frame built from a record's arguments reads back as the part of the
/// record that frames carry.
proof fn lemma_frame_lift(mem: Seq<u8>, a: CallArgs, r: RecordView)
    requires
        lift_spec(mem, a) == Ok::<RecordView, AbiFault>(r),
        0 <= a.key_disc <= 1,
        0 <= a.value_disc <= 1,
        a.key_ptr >= 0 && a.key_len >= 0 && a.value_ptr >= 0 && a.value_len >= 0,
        a.headers_ptr >= 0 && a.headers_len >= 0,
    ensures
        lift_frame_spec(mem, frame_of_args(a)) == Ok::<BatchRecordView, AbiFault>(batch_view(r)),
{
    let f = frame_of_args(a);
    assert(frame_opt_spec(mem, f.key_disc, f.key_ptr, f.key_len) == opt_spec(
        mem,
        a.key_disc,
        a.key_ptr,
        a.key_len,
    ));
    assert(frame_opt_spec(mem, f.value_disc, f.value_ptr, f.value_len) == opt_spec(
        mem,
        a.value_disc,
        a.value_ptr,
        a.value_len,
    ));
}

/// The arguments of a lowered record satisfy what `frame_from_args` needs.
proof fn lemma_args_in_range(r: RecordView, ptrs: Seq<u32>)
    requires
        fits(r),
        ptrs.len() == crate::abi::lowering_plan(r).len(),
        forall|i: int| 0 <= i < ptrs.len() ==> #[trigger] ptrs[i] <= MAX_SPAN,
    ensures
        ({
            let a = call_args_spec(r, ptrs);
            &&& 0 <= a.key_disc <= 1
            &&& 0 <= a.value_disc <= 1
            &&& a.key_ptr >= 0 && a.key_len >= 0 && a.value_ptr >= 0 && a.value_len >= 0
            &&& a.headers_ptr >= 0 && a.headers_len >= 0
        }),
{
    crate::abi::lemma_byte_regions(r);
    if r.key is Some {
        assert(crate::abi::byte_regions(r)[0].len() <= MAX_SPAN);
    }
    if r.value is Some {
        assert(crate::abi::byte_regions(r)[crate::abi::opt_region(r.key).len() as int].len()
            <= MAX_SPAN);
    }
}

proof fn lemma_holds_stays(before: Seq<u8>, after: Seq<u8>, addr: int, len: int, q: int, b: Seq<u8>)
    requires
        holds(before, q, b),
        q >= addr + len,
        after.len() == before.len(),
        forall|i: int|
            0 <= i < before.len() && !(addr <= i < addr + len) ==> after[i] == before[i],
    ensures
        holds(after, q, b),
{
    assert(after.subrange(q, q + b.len()) =~= before.subrange(q, q + b.len()));
}

proof fn lemma_holds_prefix(before: Seq<u8>, after: Seq<u8>, q: int, b: Seq<u8>)
    requires
        holds(before, q, b),
        after.len() >= before.len(),
        after.subrange(0, before.len() as int) == before,
    ensures
        holds(after, q, b),
{
    assert(after.subrange(q, q + b.len()) =~= before.subrange(q, q + b.len()));
}

/// `placed` survives a change of memory that keeps every region's bytes.
proof fn lemma_placed_moves(before: Seq<u8>, after: Seq<u8>, r: RecordView, ptrs: Seq<u32>, floor: int, addr: int, len: int, grown: bool)
    requires
        placed(before, r, ptrs),
        forall|i: int| 0 <= i < ptrs.len() ==> #[trigger] ptrs[i] >= floor,
        grown ==> after.len() >= before.len() && after.subrange(0, before.len() as int) == before,
        !grown ==> {
            &&& floor >= addr + len
            &&& after.len() == before.len()
            &&& forall|i: int|
                0 <= i < before.len() && !(addr <= i < addr + len) ==> after[i] == before[i]
        },
    ensures
        placed(after, r, ptrs),
{
    let rc = crate::abi::region_contents(r, ptrs);
    assert forall|i: int| 0 <= i < ptrs.len() implies holds(after, #[trigger] ptrs[i] as int, rc[i]) by {
        assert(holds(before, ptrs[i] as int, rc[i]));
        if grown {
            lemma_holds_prefix(before, after, ptrs[i] as int, rc[i]);
        } else {
            lemma_holds_stays(before, after, addr, len, ptrs[i] as int, rc[i]);
        }
    }
}

proof fn lemma_frames_read_back(
    mem: Seq<u8>,
    fp: int,
    fs: Seq<Frame>,
    views: Seq<BatchRecordView>,
    count: nat,
)
    requires
        holds(mem, fp, frames_concat(fs)),
        count <= fs.len() == views.len(),
        forall|k: int| 0 <= k < fs.len() ==> (#[trigger] fs[k]).key_disc <= 1 && fs[k].value_disc <= 1,
        forall|k: int|
            0 <= k < fs.len() ==> lift_frame_spec(mem, #[trigger] fs[k]) == Ok::<
                BatchRecordView,
                AbiFault,
            >(views[k]),
    ensures
        lift_frames_spec(mem, fp, count) == Ok::<Seq<BatchRecordView>, AbiFault>(
            views.take(count as int),
        ),
    decreases count,
{
    if count == 0 {
        assert(views.take(0) =~= seq![]);
    } else {
        let k = count - 1;
        lemma_frames_read_back(mem, fp, fs, views, k as nat);
        lemma_frames_concat(fs);
        let all = frames_concat(fs);
        let at = fp + 40 * k;
        assert(mem.subrange(at, at + 40) =~= all.subrange(40 * k, 40 * k + 40));
        assert(fs[k].key_disc <= 1 && fs[k].value_disc <= 1);
        lemma_frame_round_trip(fs[k]);
        assert(views.take(count as int) =~= views.take(k).push(views[k]));
    }
}

impl GuestMemory {
    fn read_frame_opt(&self, disc: u8, ptr: u32, len: u32) -> (r: Result<Option<Vec<u8>>, AbiFault>)
        ensures
            match r {
                Ok(o) => frame_opt_spec(self@, disc, ptr, len) == Ok::<Option<Seq<u8>>, AbiFault>(
                    opt_bytes_view(o),
                ),
                Err(e) => frame_opt_spec(self@, disc, ptr, len) == Err::<Option<Seq<u8>>, AbiFault>(
                    e,
                ),
            },
    {
        if disc == 0 {
            Ok(None)
        } else if disc == 1 {
            let b = self.read(ptr as i64, len as i64)?;
            Ok(Some(b))
        } else {
            Err(AbiFault::InvalidVariant)
        }
    }

    fn lift_frame(&self, f: &Frame) -> (r: Result<BatchRecord, AbiFault>)
        requires
            self.wf(),
        ensures
            match r {
                Ok(b) => lift_frame_spec(self@, *f) == Ok::<BatchRecordView, AbiFault>(b@),
                Err(e) => lift_frame_spec(self@, *f) == Err::<BatchRecordView, AbiFault>(e),
            },
    {
        let key = self.read_frame_opt(f.key_disc, f.key_ptr, f.key_len)?;
        let value = self.read_frame_opt(f.value_disc, f.value_ptr, f.value_len)?;
        let size = self.size();
        if f.headers_ptr as u64 + 16 * (f.headers_len as u64) > size as u64 {
            return Err(AbiFault::OutOfBounds);
        }
        let headers = self.read_headers(f.headers_ptr as usize, f.headers_len as usize)?;
        Ok(BatchRecord { key, value, headers, offset: f.offset })
    }

    /// Lifts the records of the `len` frames at `ptr`, as a guest's
    /// `parse-records(ptr, len)` receives them.
    #[verifier::rlimit(40)]
    pub fn lift_batch(&self, ptr: i32, len: i32) -> (r: Result<Vec<BatchRecord>, AbiFault>)
        requires
            self.wf(),
        ensures
            batch_result(r) == lift_batch_spec(self@, ptr, len),
    {
        let size = self.size();
        if ptr < 0 || len < 0 || ptr as u64 + 40 * (len as u64) > size as u64 {
            return Err(AbiFault::OutOfBounds);
        }
        let n = len as usize;
        let mut out: Vec<BatchRecord> = Vec::new();
        assert(out@.map_values(|b: BatchRecord| b@) =~= seq![]);
        let mut i: usize = 0;
        while i < n
            invariant
                n == len,
                self.wf(),
                size == self@.len(),
                0 <= ptr,
                ptr + 40 * n <= self@.len(),
                i <= n,
                lift_frames_spec(self@, ptr as int, i as nat) == Ok::<
                    Seq<BatchRecordView>,
                    AbiFault,
                >(out@.map_values(|b: BatchRecord| b@)),
            decreases n - i,
        {
            let at = ptr as usize + 40 * i;
            let bytes = match self.read(at as i64, 40) {
                Ok(b) => b,
                Err(e) => {
                    return Err(e);
                },
            };
            let ghost prev = out@;
            let step = match frame_at(&bytes, 0) {
                Ok(f) => self.lift_frame(&f),
                Err(e) => Err(e),
            };
            match step {
                Ok(b) => {
                    out.push(b);
                    assert(out@.map_values(|b: BatchRecord| b@) =~= prev.map_values(
                        |b: BatchRecord| b@,
                    ).push(b@));
                },
                Err(e) => {
                    proof {
                        lemma_frames_fault_stays(self@, ptr as int, (i + 1) as nat, n as nat);
                    }
                    return Err(e);
                },
            }
            i = i + 1;
        }
        Ok(out)
    }

    /// Lowers `recs` for the batched `parse-records(ptr, len)` export: room
    /// for one 40-byte frame per record, then each record's regions, then
    /// the frames, each pointing at its record's key, value and headers.
    #[verifier::rlimit(40)]
    pub fn lower_batch(&mut self, recs: &Vec<FlowRecord>) -> (r: Result<(i32, i32), AbiFault>)
        requires
            old(self).wf(),
        ensures
            final(self).wf(),
            r matches Ok((p, n)) ==> n == recs@.len() && lift_batch_spec(final(self)@, p, n) == Ok::<
                Seq<BatchRecordView>,
                AbiFault,
            >(recs@.map_values(|x: FlowRecord| batch_view(x@))),
            r matches Err(e) ==> e == AbiFault::OutOfBounds,
            r is Ok <==> batch_fits(old(self)@.len() as int, recs@.map_values(|x: FlowRecord| x@)),
    {
        let ghost rviews = recs@.map_values(|x: FlowRecord| x@);
        let m = recs.len();
        if m > MAX_SPAN as usize / FRAME_SIZE {
            assert(40 * m > MAX_SPAN) by (nonlinear_arith)
                requires
                    m > 0x7fff_ffffusize / 40usize,
            ;
            return Err(AbiFault::OutOfBounds);
        }
        assert(40 * m <= MAX_SPAN) by (nonlinear_arith)
            requires
                m <= 0x7fff_ffffusize / 40usize,
        ;
        let fp = match self.allocate(8, (m * FRAME_SIZE) as u32) {
            Ok(p) => p,
            Err(e) => {
                return Err(e);
            },
        };
        let ghost floor = self@.len() as int;
        let ghost views = recs@.map_values(|x: FlowRecord| batch_view(x@));
        assert(rviews.take(0) =~= Seq::<RecordView>::empty());
        let mut frames: Vec<u8> = Vec::new();
        let ghost mut fs: Seq<Frame> = seq![];
        let ghost mut pss: Seq<Seq<u32>> = seq![];
        let ghost mut argss: Seq<CallArgs> = seq![];
        let mut i: usize = 0;
        while i < m
            invariant
                m == recs@.len(),
                views == recs@.map_values(|x: FlowRecord| batch_view(x@)),
                rviews == recs@.map_values(|x: FlowRecord| x@),
                records_end(floor, rviews.take(i as int)) == Some(self@.len() as int),
                floor == align_up(old(self)@.len() as int, 8) + 40 * m,
                floor == fp + 40 * m,
                fp + 40 * m <= MAX_SPAN,
                self.wf(),
                self@.len() >= floor,
                i <= m,
                fs.len() == i && pss.len() == i && argss.len() == i,
                frames@ == frames_concat(fs),
                forall|k: int|
                    0 <= k < i ==> placed(self@, #[trigger] recs@[k]@, pss[k]) && fits(recs@[k]@)
                        && argss[k] == call_args_spec(recs@[k]@, pss[k]) && fs[k] == frame_of_args(
                        argss[k],
                    ) && (forall|j: int|
                        0 <= j < pss[k].len() ==> #[trigger] pss[k][j] >= floor),
            decreases m - i,
        {
            let ghost before = self@;
            proof {
                let t = rviews.take(i + 1);
                assert(t.drop_last() =~= rviews.take(i as int));
                assert(t.last() == recs@[i as int]@);
            }
            let a = match self.lower(&recs[i]) {
                Ok(a) => a,
                Err(e) => {
                    proof {
                        lemma_records_end_none_stays(floor, rviews, i + 1);
                    }
                    return Err(e);
                },
            };
            let ghost ptrs = choose|ptrs: Seq<u32>|
                placed(self@, recs@[i as int]@, ptrs) && a == call_args_spec(recs@[i as int]@, ptrs)
                    && forall|j: int| 0 <= j < ptrs.len() ==> #[trigger] ptrs[j] >= before.len();
            proof {
                assert(fits(recs@[i as int]@));
                lemma_args_in_range(recs@[i as int]@, ptrs);
                assert forall|k: int| 0 <= k < i implies placed(self@, #[trigger] recs@[k]@, pss[k]) by {
                    lemma_placed_moves(before, self@, recs@[k]@, pss[k], floor, 0, 0, true);
                }
            }
            let f = frame_from_args(&a);
            push_frame(&mut frames, &f);
            proof {
                let ofs = fs;
                let opss = pss;
                let oargss = argss;
                let nfs = fs.push(f);
                assert(nfs.drop_last() =~= fs);
                fs = nfs;
                pss = pss.push(ptrs);
                argss = argss.push(a);
                assert forall|k: int| 0 <= k < i + 1 implies placed(self@, #[trigger] recs@[k]@, pss[k])
                    && fits(recs@[k]@) && argss[k] == call_args_spec(recs@[k]@, pss[k]) && fs[k]
                    == frame_of_args(argss[k]) && (forall|j: int|
                    0 <= j < pss[k].len() ==> #[trigger] pss[k][j] >= floor) by {
                    if k < i {
                        assert(pss[k] == opss[k]);
                        assert(argss[k] == oargss[k]);
                        assert(fs[k] == ofs[k]);
                    } else {
                        assert(pss[k] == ptrs);
                        assert(forall|j: int| 0 <= j < ptrs.len() ==> #[trigger] ptrs[j] >= floor);
                    }
                }
            }
            i = i + 1;
        }
        proof {
            lemma_frames_concat(fs);
            assert(rviews.take(m as int) =~= rviews);
        }
        let ghost before = self@;
        let w = self.write(fp, frames.as_slice());
        proof {
            assert(w is Ok);
            assert forall|k: int| 0 <= k < m implies lift_frame_spec(self@, #[trigger] fs[k]) == Ok::<
                BatchRecordView,
                AbiFault,
            >(views[k]) by {
                lemma_placed_moves(before, self@, recs@[k]@, pss[k], floor, fp as int, 40 * m, false);
                lemma_round_trip(self@, recs@[k]@, pss[k]);
                lemma_args_in_range(recs@[k]@, pss[k]);
                lemma_frame_lift(self@, argss[k], recs@[k]@);
            }
            assert forall|k: int| 0 <= k < fs.len() implies (#[trigger] fs[k]).key_disc <= 1 && fs[k].value_disc <= 1 by {
                lemma_args_in_range(recs@[k]@, pss[k]);
            }
            lemma_frames_read_back(self@, fp as int, fs, views, m as nat);
            assert(views.take(m as int) =~= views);
        }
        Ok((fp as i32, m as i32))
    }
}

} // verus!
