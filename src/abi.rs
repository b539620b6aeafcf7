use vstd::prelude::*;
use vstd::slice::slice_to_vec;
use vstd::utf8::*;

use crate::record::{FlowRecord, RecordView};

verus! {

broadcast use group_utf8_lib;

/// A violation of the guest memory protocol.
#[derive(Clone, Copy, Debug, PartialEq, Eq, Structural)]
pub enum AbiFault {
    /// A `(ptr, len)` pair reaches past the end of linear memory.
    OutOfBounds,
    /// A discriminant other than the ones the layout defines.
    InvalidVariant,
    /// Bytes of a string field that are not UTF-8.
    InvalidUtf8,
}

impl AbiFault {
    pub fn kind(&self) -> (r: &'static str)
        ensures
            *self == AbiFault::OutOfBounds ==> r@ == "guest-memory-out-of-bounds"@,
            *self == AbiFault::InvalidVariant ==> r@ == "invalid-variant"@,
            *self == AbiFault::InvalidUtf8 ==> r@ == "invalid-utf8"@,
    {
        match self {
            AbiFault::OutOfBounds => "guest-memory-out-of-bounds",
            AbiFault::InvalidVariant => "invalid-variant",
            AbiFault::InvalidUtf8 => "invalid-utf8",
        }
    }
}

/// Largest value of a pointer or a length at the boundary (`i32::MAX`).
pub const MAX_SPAN: u32 = 0x7fff_ffff;

/// Size of one header element: name ptr, name len, value ptr, value len.
pub const HEADER_STRIDE: u32 = 16;

/// One call of the guest's `canonical_abi_realloc(0, 0, align, size)`.
#[derive(Clone, Copy, Debug, PartialEq, Eq, Structural)]
pub struct AllocRequest {
    pub align: u32,
    pub size: u32,
}

/// The scalar arguments of the guest's `process-record` export, in order.
#[derive(Clone, Copy, Debug, PartialEq, Eq, Structural)]
pub struct CallArgs {
    pub key_disc: i32,
    pub key_ptr: i32,
    pub key_len: i32,
    pub value_disc: i32,
    pub value_ptr: i32,
    pub value_len: i32,
    pub headers_ptr: i32,
    pub headers_len: i32,
    pub topic_ptr: i32,
    pub topic_len: i32,
    pub partition: i32,
    pub offset: i64,
    pub timestamp: i64,
}

// ---------------------------------------------------------------------
// Little-endian scalars
// ---------------------------------------------------------------------

pub open spec fn le32(v: u32) -> Seq<u8> {
    seq![
        (v & 0xff) as u8,
        ((v >> 8u32) & 0xff) as u8,
        ((v >> 16u32) & 0xff) as u8,
        ((v >> 24u32) & 0xff) as u8,
    ]
}

pub open spec fn word_of(b0: u8, b1: u8, b2: u8, b3: u8) -> u32 {
    (b0 as u32) | ((b1 as u32) << 8u32) | ((b2 as u32) << 16u32) | ((b3 as u32) << 24u32)
}

/// The 32-bit word stored little-endian at `at` in `b`.
pub open spec fn word_at(b: Seq<u8>, at: int) -> u32 {
    word_of(b[at], b[at + 1], b[at + 2], b[at + 3])
}

pub proof fn lemma_le32_word(v: u32)
    ensures
        word_at(le32(v), 0) == v,
{
    let b0 = (v & 0xff) as u8;
    let b1 = ((v >> 8u32) & 0xff) as u8;
    let b2 = ((v >> 16u32) & 0xff) as u8;
    let b3 = ((v >> 24u32) & 0xff) as u8;
    assert(word_of(b0, b1, b2, b3) == v) by (bit_vector)
        requires
            b0 == (v & 0xff) as u8,
            b1 == ((v >> 8u32) & 0xff) as u8,
            b2 == ((v >> 16u32) & 0xff) as u8,
            b3 == ((v >> 24u32) & 0xff) as u8,
    ;
}

pub fn push_le32(out: &mut Vec<u8>, v: u32)
    ensures
        final(out)@ == old(out)@ + le32(v),
{
    out.push((v & 0xff) as u8);
    out.push(((v >> 8u32) & 0xff) as u8);
    out.push(((v >> 16u32) & 0xff) as u8);
    out.push(((v >> 24u32) & 0xff) as u8);
    assert(final(out)@ =~= old(out)@ + le32(v));
}

// ---------------------------------------------------------------------
// The regions that lowering a record allocates, and what they hold
// ---------------------------------------------------------------------

pub open spec fn opt_region(o: Option<Seq<u8>>) -> Seq<Seq<u8>> {
    match o {
        Some(b) => seq![b],
        None => seq![],
    }
}

/// Name bytes then value bytes of each header, in header order.
pub open spec fn header_regions(h: Seq<(Seq<char>, Seq<u8>)>) -> Seq<Seq<u8>>
    decreases h.len(),
{
    if h.len() == 0 {
        seq![]
    } else {
        header_regions(h.drop_last()).push(encode_utf8(h.last().0)).push(h.last().1)
    }
}

/// Regions of bytes, in allocation order: key, value (when present), topic,
/// then the name and value of every header. The header table comes last.
pub open spec fn byte_regions(r: RecordView) -> Seq<Seq<u8>> {
    opt_region(r.key) + opt_region(r.value) + seq![encode_utf8(r.topic)] + header_regions(
        r.headers,
    )
}

/// Index of the topic's region.
pub open spec fn topic_index(r: RecordView) -> int {
    opt_region(r.key).len() + opt_region(r.value).len() as int
}

/// Index of the region of header `j`'s name; its value follows it.
pub open spec fn header_name_index(r: RecordView, j: int) -> int {
    topic_index(r) + 1 + 2 * j
}

/// Index of the header table's region.
pub open spec fn table_index(r: RecordView) -> int {
    byte_regions(r).len() as int
}

/// Every length the record puts at the boundary fits in an `i32`.
pub open spec fn fits(r: RecordView) -> bool {
    &&& forall|i: int| 0 <= i < byte_regions(r).len() ==> (#[trigger] byte_regions(r)[i]).len() <= MAX_SPAN
    &&& 16 * r.headers.len() <= MAX_SPAN
}

/// The allocator calls that lowering `r` makes, in order.
pub open spec fn lowering_plan(r: RecordView) -> Seq<AllocRequest> {
    Seq::new(
        byte_regions(r).len(),
        |i: int| AllocRequest { align: 1, size: byte_regions(r)[i].len() as u32 },
    ).push(AllocRequest { align: 4, size: (16 * r.headers.len()) as u32 })
}

pub open spec fn entry_bytes(np: u32, nl: u32, vp: u32, vl: u32) -> Seq<u8> {
    le32(np) + le32(nl) + le32(vp) + le32(vl)
}

/// The first `count` elements of the header table, given the pointers the
/// allocator returned for the plan's regions.
pub open spec fn header_table(r: RecordView, ptrs: Seq<u32>, count: nat) -> Seq<u8>
    decreases count,
{
    if count == 0 {
        seq![]
    } else {
        let j = count - 1;
        let h = header_name_index(r, j);
        header_table(r, ptrs, j as nat) + entry_bytes(
            ptrs[h],
            encode_utf8(r.headers[j].0).len() as u32,
            ptrs[h + 1],
            r.headers[j].1.len() as u32,
        )
    }
}

/// What each allocated region holds once the record is lowered.
pub open spec fn region_contents(r: RecordView, ptrs: Seq<u32>) -> Seq<Seq<u8>> {
    byte_regions(r).push(header_table(r, ptrs, r.headers.len()))
}

pub open spec fn opt_args(o: Option<Seq<u8>>, ptrs: Seq<u32>, at: int) -> (i32, i32, i32) {
    match o {
        Some(b) => (1, ptrs[at] as i32, b.len() as i32),
        None => (0, 0, 0),
    }
}

/// The arguments of `process-record` for `r`, given the plan's pointers.
pub open spec fn call_args_spec(r: RecordView, ptrs: Seq<u32>) -> CallArgs {
    let k = opt_args(r.key, ptrs, 0);
    let v = opt_args(r.value, ptrs, opt_region(r.key).len() as int);
    CallArgs {
        key_disc: k.0,
        key_ptr: k.1,
        key_len: k.2,
        value_disc: v.0,
        value_ptr: v.1,
        value_len: v.2,
        headers_ptr: ptrs[table_index(r)] as i32,
        headers_len: r.headers.len() as i32,
        topic_ptr: ptrs[topic_index(r)] as i32,
        topic_len: encode_utf8(r.topic).len() as i32,
        partition: r.partition,
        offset: r.offset,
        timestamp: r.timestamp,
    }
}

pub proof fn lemma_header_regions(h: Seq<(Seq<char>, Seq<u8>)>)
    ensures
        header_regions(h).len() == 2 * h.len(),
        forall|j: int|
            0 <= j < h.len() ==> header_regions(h)[2 * j] == encode_utf8(#[trigger] h[j].0)
                && header_regions(h)[2 * j + 1] == h[j].1,
    decreases h.len(),
{
    if h.len() > 0 {
        lemma_header_regions(h.drop_last());
        assert forall|j: int| 0 <= j < h.len() implies header_regions(h)[2 * j] == encode_utf8(
            #[trigger] h[j].0,
        ) && header_regions(h)[2 * j + 1] == h[j].1 by {
            let inner = header_regions(h.drop_last());
            let whole = inner.push(encode_utf8(h.last().0)).push(h.last().1);
            assert(header_regions(h) == whole);
            if j < h.len() - 1 {
                assert(h.drop_last()[j] == h[j]);
                assert(whole[2 * j] == inner[2 * j]);
                assert(whole[2 * j + 1] == inner[2 * j + 1]);
            } else {
                assert(whole[2 * j] == encode_utf8(h.last().0));
            }
        }
    }
}

pub proof fn lemma_header_region_at(r: RecordView, j: int)
    requires
        0 <= j < r.headers.len(),
    ensures
        byte_regions(r)[header_name_index(r, j)] == encode_utf8(r.headers[j].0),
        byte_regions(r)[header_name_index(r, j) + 1] == r.headers[j].1,
{
    lemma_header_regions(r.headers);
    let a = opt_region(r.key) + opt_region(r.value) + seq![encode_utf8(r.topic)];
    let hr = header_regions(r.headers);
    assert(byte_regions(r) == a + hr);
    assert(a.len() == topic_index(r) + 1);
    assert((a + hr)[a.len() + 2 * j] == hr[2 * j]);
    assert((a + hr)[a.len() + 2 * j + 1] == hr[2 * j + 1]);
}

pub proof fn lemma_byte_regions(r: RecordView)
    ensures
        byte_regions(r).len() == topic_index(r) + 1 + 2 * r.headers.len(),
        byte_regions(r)[topic_index(r)] == encode_utf8(r.topic),
        r.key matches Some(k) ==> byte_regions(r)[0] == k,
        r.value matches Some(v) ==> byte_regions(r)[opt_region(r.key).len() as int] == v,
        forall|j: int|
            0 <= j < r.headers.len() ==> byte_regions(r)[header_name_index(r, j)] == encode_utf8(
                #[trigger] r.headers[j].0,
            ) && byte_regions(r)[header_name_index(r, j) + 1] == r.headers[j].1,
{
    lemma_header_regions(r.headers);
    let a = opt_region(r.key) + opt_region(r.value) + seq![encode_utf8(r.topic)];
    assert(byte_regions(r) == a + header_regions(r.headers));
    assert forall|j: int| 0 <= j < r.headers.len() implies byte_regions(r)[header_name_index(
        r,
        j,
    )] == encode_utf8(#[trigger] r.headers[j].0) && byte_regions(r)[header_name_index(r, j) + 1]
        == r.headers[j].1 by {
        lemma_header_region_at(r, j);
    }
}

pub proof fn lemma_header_table_len(r: RecordView, ptrs: Seq<u32>, count: nat)
    ensures
        header_table(r, ptrs, count).len() == 16 * count,
    decreases count,
{
    if count > 0 {
        lemma_header_table_len(r, ptrs, (count - 1) as nat);
    }
}

// ---------------------------------------------------------------------
// Building the plan, the region contents and the call arguments
// ---------------------------------------------------------------------

fn push_region_request(plan: &mut Vec<AllocRequest>, len: usize) -> (ok: bool)
    ensures
        ok == (len <= MAX_SPAN),
        ok ==> final(plan)@ == old(plan)@.push(AllocRequest { align: 1, size: len as u32 }),
        !ok ==> final(plan)@ == old(plan)@,
{
    if len <= MAX_SPAN as usize {
        plan.push(AllocRequest { align: 1, size: len as u32 });
        true
    } else {
        false
    }
}

/// The allocator calls that lowering `rec` needs, or `OutOfBounds` when one
/// of its lengths does not fit the 32-bit boundary.
pub fn allocation_plan(rec: &FlowRecord) -> (r: Result<Vec<AllocRequest>, AbiFault>)
    ensures
        r is Ok <==> fits(rec@),
        r matches Ok(p) ==> p@ == lowering_plan(rec@),
        r matches Err(e) ==> e == AbiFault::OutOfBounds,
{
    let regions = region_bytes(rec);
    let ghost br = byte_regions(rec@);
    let mut plan: Vec<AllocRequest> = Vec::new();
    let mut i: usize = 0;
    while i < regions.len()
        invariant
            br == byte_regions(rec@),
            i <= regions@.len() == br.len(),
            forall|k: int| 0 <= k < br.len() ==> (#[trigger] regions@[k])@ == br[k],
            plan@ == Seq::new(
                i as nat,
                |k: int| AllocRequest { align: 1, size: br[k].len() as u32 },
            ),
            forall|k: int| 0 <= k < i ==> (#[trigger] br[k]).len() <= MAX_SPAN,
        decreases regions@.len() - i,
    {
        if !push_region_request(&mut plan, regions[i].len()) {
            assert(!(br[i as int].len() <= MAX_SPAN));
            assert(!fits(rec@));
            return Err(AbiFault::OutOfBounds);
        }
        i = i + 1;
        assert(plan@ =~= Seq::new(
            i as nat,
            |k: int| AllocRequest { align: 1, size: br[k].len() as u32 },
        ));
    }
    let n = rec.headers.len();
    if n > (MAX_SPAN / HEADER_STRIDE) as usize {
        assert(16 * n > MAX_SPAN) by (nonlinear_arith)
            requires
                n > 0x7fff_ffffu32 / 16u32,
        ;
        return Err(AbiFault::OutOfBounds);
    }
    assert(16 * n <= MAX_SPAN) by (nonlinear_arith)
        requires
            n <= 0x7fff_ffffu32 / 16u32,
    ;
    plan.push(AllocRequest { align: 4, size: (n as u32) * HEADER_STRIDE });
    assert(plan@ =~= lowering_plan(rec@));
    Ok(plan)
}

fn string_bytes(s: &String) -> (r: Vec<u8>)
    ensures
        r@ == encode_utf8(s@),
{
    slice_to_vec(s.as_str().as_bytes())
}

/// The bytes of every region but the header table, in plan order.
pub fn region_bytes(rec: &FlowRecord) -> (r: Vec<Vec<u8>>)
    ensures
        r@.len() == byte_regions(rec@).len(),
        forall|i: int| 0 <= i < r@.len() ==> (#[trigger] r@[i])@ == byte_regions(rec@)[i],
{
    let mut out: Vec<Vec<u8>> = Vec::new();
    match &rec.key {
        Some(k) => out.push(slice_to_vec(k.as_slice())),
        None => {},
    }
    match &rec.value {
        Some(v) => out.push(slice_to_vec(v.as_slice())),
        None => {},
    }
    out.push(string_bytes(&rec.topic));
    let ghost first = opt_region(rec@.key) + opt_region(rec@.value) + seq![encode_utf8(rec@.topic)];
    assert(out@.len() == first.len());
    assert forall|i: int| 0 <= i < out@.len() implies (#[trigger] out@[i])@ == first[i] by {}
    let mut j: usize = 0;
    while j < rec.headers.len()
        invariant
            j <= rec.headers@.len(),
            out@.len() == first.len() + header_regions(rec@.headers.take(j as int)).len(),
            forall|i: int|
                0 <= i < out@.len() ==> (#[trigger] out@[i])@ == (first + header_regions(
                    rec@.headers.take(j as int),
                ))[i],
        decreases rec.headers@.len() - j,
    {
        let ghost before = out@;
        out.push(string_bytes(&rec.headers[j].0));
        out.push(slice_to_vec(rec.headers[j].1.as_slice()));
        proof {
            let hs = rec@.headers.take(j + 1);
            assert(hs.drop_last() =~= rec@.headers.take(j as int));
            assert(hs.last() == rec@.headers[j as int]);
            let whole = first + header_regions(hs);
            assert(whole =~= (first + header_regions(rec@.headers.take(j as int))).push(
                encode_utf8(hs.last().0),
            ).push(hs.last().1));
        }
        j = j + 1;
    }
    assert(rec@.headers.take(j as int) =~= rec@.headers);
    out
}

/// The header table: for each header, the pointers and lengths of its name
/// and value, 16 bytes per header.
pub fn header_table_bytes(rec: &FlowRecord, ptrs: &Vec<u32>) -> (r: Vec<u8>)
    requires
        fits(rec@),
        ptrs@.len() == lowering_plan(rec@).len(),
    ensures
        r@ == header_table(rec@, ptrs@, rec@.headers.len()),
{
    proof {
        lemma_byte_regions(rec@);
    }
    let first: usize = match &rec.key {
        Some(_) => 1,
        None => 0,
    } + match &rec.value {
        Some(_) => 1,
        None => 0,
    } + 1;
    let mut out: Vec<u8> = Vec::new();
    let mut j: usize = 0;
    while j < rec.headers.len()
        invariant
            j <= rec.headers@.len(),
            first == topic_index(rec@) + 1,
            fits(rec@),
            ptrs@.len() == lowering_plan(rec@).len(),
            byte_regions(rec@).len() == topic_index(rec@) + 1 + 2 * rec@.headers.len(),
            forall|k: int|
                0 <= k < rec@.headers.len() ==> byte_regions(rec@)[header_name_index(rec@, k)]
                    == encode_utf8(#[trigger] rec@.headers[k].0) && byte_regions(rec@)[
                    header_name_index(rec@, k) + 1] == rec@.headers[k].1,
            out@ == header_table(rec@, ptrs@, j as nat),
        decreases rec.headers@.len() - j,
    {
        let h = first + 2 * j;
        let name_len = rec.headers[j].0.as_str().as_bytes().len();
        let value_len = rec.headers[j].1.len();
        proof {
            let hj = rec@.headers[j as int];
            assert(byte_regions(rec@)[header_name_index(rec@, j as int)].len() <= MAX_SPAN);
            assert(byte_regions(rec@)[header_name_index(rec@, j as int) + 1].len() <= MAX_SPAN);
            assert(hj.0 == rec.headers@[j as int].0@);
        }
        push_le32(&mut out, ptrs[h]);
        push_le32(&mut out, name_len as u32);
        push_le32(&mut out, ptrs[h + 1]);
        push_le32(&mut out, value_len as u32);
        j = j + 1;
        proof {
            let e = entry_bytes(
                ptrs@[h as int],
                name_len as u32,
                ptrs@[h + 1],
                value_len as u32,
            );
            assert(out@ =~= header_table(rec@, ptrs@, (j - 1) as nat) + e);
        }
    }
    out
}

/// What each region of the plan holds, given the pointers the allocator
/// returned for it.
pub fn lowered_regions(rec: &FlowRecord, ptrs: &Vec<u32>) -> (r: Vec<Vec<u8>>)
    requires
        fits(rec@),
        ptrs@.len() == lowering_plan(rec@).len(),
    ensures
        r@.len() == region_contents(rec@, ptrs@).len(),
        forall|i: int| 0 <= i < r@.len() ==> (#[trigger] r@[i])@ == region_contents(rec@, ptrs@)[i],
{
    let mut out = region_bytes(rec);
    let table = header_table_bytes(rec, ptrs);
    out.push(table);
    out
}

fn opt_call_args(o: &Option<Vec<u8>>, ptrs: &Vec<u32>, at: usize) -> (r: (i32, i32, i32))
    requires
        o matches Some(b) ==> at < ptrs@.len() && b@.len() <= MAX_SPAN && ptrs@[at as int]
            <= MAX_SPAN,
    ensures
        r == opt_args(crate::record::opt_bytes_view(*o), ptrs@, at as int),
{
    match o {
        Some(b) => (1, ptrs[at] as i32, b.len() as i32),
        None => (0, 0, 0),
    }
}

/// The arguments of `process-record` for `rec`, given the pointers the
/// allocator returned for its plan, each of which fits in an `i32`.
pub fn call_args(rec: &FlowRecord, ptrs: &Vec<u32>) -> (r: CallArgs)
    requires
        fits(rec@),
        ptrs@.len() == lowering_plan(rec@).len(),
        forall|i: int| 0 <= i < ptrs@.len() ==> #[trigger] ptrs@[i] <= MAX_SPAN,
    ensures
        r == call_args_spec(rec@, ptrs@),
{
    proof {
        lemma_byte_regions(rec@);
        assert(byte_regions(rec@)[topic_index(rec@)].len() <= MAX_SPAN);
        if rec@.key is Some {
            assert(byte_regions(rec@)[0].len() <= MAX_SPAN);
        }
        if rec@.value is Some {
            assert(byte_regions(rec@)[opt_region(rec@.key).len() as int].len() <= MAX_SPAN);
        }
    }
    let kc: usize = match &rec.key {
        Some(_) => 1,
        None => 0,
    };
    let vc: usize = match &rec.value {
        Some(_) => 1,
        None => 0,
    };
    let k = opt_call_args(&rec.key, ptrs, 0);
    let v = opt_call_args(&rec.value, ptrs, kc);
    let table = ptrs.len() - 1;
    let topic = kc + vc;
    CallArgs {
        key_disc: k.0,
        key_ptr: k.1,
        key_len: k.2,
        value_disc: v.0,
        value_ptr: v.1,
        value_len: v.2,
        headers_ptr: ptrs[table] as i32,
        headers_len: rec.headers.len() as i32,
        topic_ptr: ptrs[topic] as i32,
        topic_len: rec.topic.as_str().as_bytes().len() as i32,
        partition: rec.partition,
        offset: rec.offset,
        timestamp: rec.timestamp,
    }
}

} // verus!
