use vstd::prelude::*;

use crate::abi::{AbiFault, le32, lemma_le32_word, push_le32, word_at};

verus! {

/// Size and alignment of one `FlowRecord` frame of the batched layout.
pub const FRAME_SIZE: usize = 40;

pub const KEY_DISC_AT: usize = 0;
pub const KEY_PTR_AT: usize = 4;
pub const KEY_LEN_AT: usize = 8;
pub const VALUE_DISC_AT: usize = 12;
pub const VALUE_PTR_AT: usize = 16;
pub const VALUE_LEN_AT: usize = 20;
pub const HEADERS_PTR_AT: usize = 24;
pub const HEADERS_LEN_AT: usize = 28;
pub const OFFSET_AT: usize = 32;

/// The fields of one frame. A discriminant of 0 means the field is absent
/// and its pointer and length say nothing.
#[derive(Clone, Copy, Debug, PartialEq, Eq, Structural)]
pub struct Frame {
    pub key_disc: u8,
    pub key_ptr: u32,
    pub key_len: u32,
    pub value_disc: u8,
    pub value_ptr: u32,
    pub value_len: u32,
    pub headers_ptr: u32,
    pub headers_len: u32,
    pub offset: i64,
}

/// The two's-complement bits of `v`.
pub open spec fn i64_bits(v: i64) -> u64 {
    if v < 0 {
        (v + 0x1_0000_0000_0000_0000) as u64
    } else {
        v as u64
    }
}

/// The `i64` whose two's-complement bits are `w`.
pub open spec fn bits_i64(w: u64) -> i64 {
    if w >= 0x8000_0000_0000_0000 {
        (w - 0x1_0000_0000_0000_0000) as i64
    } else {
        w as i64
    }
}

fn to_bits(v: i64) -> (r: u64)
    ensures
        r == i64_bits(v),
{
    if v < 0 {
        (v as i128 + 0x1_0000_0000_0000_0000i128) as u64
    } else {
        v as u64
    }
}

fn from_bits(w: u64) -> (r: i64)
    ensures
        r == bits_i64(w),
{
    if w >= 0x8000_0000_0000_0000u64 {
        (w as i128 - 0x1_0000_0000_0000_0000i128) as i64
    } else {
        w as i64
    }
}

/// The 64-bit word stored little-endian at `at` in `b`.
pub open spec fn dword_at(b: Seq<u8>, at: int) -> u64 {
    (word_at(b, at) as u64) | ((word_at(b, at + 4) as u64) << 32u64)
}

/// A discriminant byte followed by three bytes of padding.
pub open spec fn disc_bytes(d: u8) -> Seq<u8> {
    seq![d, 0u8, 0u8, 0u8]
}

pub open spec fn frame_byte(f: Frame, i: int) -> u8 {
    let o = i64_bits(f.offset);
    if i < 4 {
        disc_bytes(f.key_disc)[i]
    } else if i < 8 {
        le32(f.key_ptr)[i - 4]
    } else if i < 12 {
        le32(f.key_len)[i - 8]
    } else if i < 16 {
        disc_bytes(f.value_disc)[i - 12]
    } else if i < 20 {
        le32(f.value_ptr)[i - 16]
    } else if i < 24 {
        le32(f.value_len)[i - 20]
    } else if i < 28 {
        le32(f.headers_ptr)[i - 24]
    } else if i < 32 {
        le32(f.headers_len)[i - 28]
    } else if i < 36 {
        le32((o & 0xffff_ffff) as u32)[i - 32]
    } else {
        le32((o >> 32u64) as u32)[i - 36]
    }
}

/// The 40 bytes of a frame.
pub open spec fn frame_bytes(f: Frame) -> Seq<u8> {
    Seq::new(FRAME_SIZE as nat, |i: int| frame_byte(f, i))
}

/// The frame layout: each field stands at its offset, and a frame is 40
/// bytes long.
pub open spec fn frame_layout(b: Seq<u8>, f: Frame) -> bool {
    &&& b.len() == FRAME_SIZE
    &&& b[KEY_DISC_AT as int] == f.key_disc
    &&& word_at(b, KEY_PTR_AT as int) == f.key_ptr
    &&& word_at(b, KEY_LEN_AT as int) == f.key_len
    &&& b[VALUE_DISC_AT as int] == f.value_disc
    &&& word_at(b, VALUE_PTR_AT as int) == f.value_ptr
    &&& word_at(b, VALUE_LEN_AT as int) == f.value_len
    &&& word_at(b, HEADERS_PTR_AT as int) == f.headers_ptr
    &&& word_at(b, HEADERS_LEN_AT as int) == f.headers_len
    &&& bits_i64(dword_at(b, OFFSET_AT as int)) == f.offset
}

proof fn lemma_split64(v: u64)
    ensures
        ((((v & 0xffff_ffff) as u32) as u64) | ((((v >> 32u64) as u32) as u64) << 32u64)) == v,
{
    assert(((((v & 0xffff_ffff) as u32) as u64) | ((((v >> 32u64) as u32) as u64) << 32u64)) == v)
        by (bit_vector);
}

/// Every frame, encoded, has the layout of the table: the fields at their
/// offsets and a stride of 40 bytes.
pub proof fn lemma_frame_layout(f: Frame)
    ensures
        frame_layout(frame_bytes(f), f),
{
    let b = frame_bytes(f);
    let o = i64_bits(f.offset);
    let lo = (o & 0xffff_ffff) as u32;
    let hi = (o >> 32u64) as u32;
    lemma_le32_word(f.key_ptr);
    lemma_le32_word(f.key_len);
    lemma_le32_word(f.value_ptr);
    lemma_le32_word(f.value_len);
    lemma_le32_word(f.headers_ptr);
    lemma_le32_word(f.headers_len);
    lemma_le32_word(lo);
    lemma_le32_word(hi);
    assert(word_at(b, 4) == word_at(le32(f.key_ptr), 0));
    assert(word_at(b, 8) == word_at(le32(f.key_len), 0));
    assert(word_at(b, 16) == word_at(le32(f.value_ptr), 0));
    assert(word_at(b, 20) == word_at(le32(f.value_len), 0));
    assert(word_at(b, 24) == word_at(le32(f.headers_ptr), 0));
    assert(word_at(b, 28) == word_at(le32(f.headers_len), 0));
    assert(word_at(b, 32) == word_at(le32(lo), 0));
    assert(word_at(b, 36) == word_at(le32(hi), 0));
    lemma_split64(o);
}

fn push_disc(out: &mut Vec<u8>, d: u8)
    ensures
        final(out)@ == old(out)@ + disc_bytes(d),
{
    out.push(d);
    out.push(0);
    out.push(0);
    out.push(0);
    assert(out@ =~= old(out)@ + disc_bytes(d));
}

/// Appends the 40 bytes of `f`.
pub fn push_frame(out: &mut Vec<u8>, f: &Frame)
    ensures
        final(out)@ == old(out)@ + frame_bytes(*f),
        frame_layout(frame_bytes(*f), *f),
{
    proof {
        lemma_frame_layout(*f);
    }
    let o = to_bits(f.offset);
    push_disc(out, f.key_disc);
    push_le32(out, f.key_ptr);
    push_le32(out, f.key_len);
    push_disc(out, f.value_disc);
    push_le32(out, f.value_ptr);
    push_le32(out, f.value_len);
    push_le32(out, f.headers_ptr);
    push_le32(out, f.headers_len);
    push_le32(out, (o & 0xffff_ffff) as u32);
    push_le32(out, (o >> 32u64) as u32);
    assert(out@ =~= old(out)@ + frame_bytes(*f));
}

fn word(b: &Vec<u8>, at: usize) -> (r: u32)
    requires
        at + 4 <= b@.len(),
    ensures
        r == word_at(b@, at as int),
{
    let n = b.len();
    (b[at] as u32) | ((b[at + 1] as u32) << 8u32) | ((b[at + 2] as u32) << 16u32) | ((b[at + 3]
        as u32) << 24u32)
}

pub open spec fn frame_at_spec(b: Seq<u8>, at: int) -> Result<Frame, AbiFault> {
    let n = b.len();
    let kd = b[at];
    let vd = b[at + VALUE_DISC_AT];
    if kd > 1 || vd > 1 {
        Err(AbiFault::InvalidVariant)
    } else {
        Ok(
            Frame {
                key_disc: kd,
                key_ptr: word_at(b, at + KEY_PTR_AT),
                key_len: word_at(b, at + KEY_LEN_AT),
                value_disc: vd,
                value_ptr: word_at(b, at + VALUE_PTR_AT),
                value_len: word_at(b, at + VALUE_LEN_AT),
                headers_ptr: word_at(b, at + HEADERS_PTR_AT),
                headers_len: word_at(b, at + HEADERS_LEN_AT),
                offset: bits_i64(dword_at(b, at + OFFSET_AT)),
            },
        )
    }
}

/// Reads the frame that starts at `at`; a discriminant other than 0 or 1
/// is an invalid variant.
pub fn frame_at(b: &Vec<u8>, at: usize) -> (r: Result<Frame, AbiFault>)
    requires
        at + FRAME_SIZE <= b@.len(),
    ensures
        r == frame_at_spec(b@, at as int),
{
    let n = b.len();
    let kd = b[at];
    let vd = b[at + VALUE_DISC_AT];
    if kd > 1 || vd > 1 {
        return Err(AbiFault::InvalidVariant);
    }
    let lo = word(b, at + OFFSET_AT) as u64;
    let hi = word(b, at + OFFSET_AT + 4) as u64;
    Ok(
        Frame {
            key_disc: kd,
            key_ptr: word(b, at + KEY_PTR_AT),
            key_len: word(b, at + KEY_LEN_AT),
            value_disc: vd,
            value_ptr: word(b, at + VALUE_PTR_AT),
            value_len: word(b, at + VALUE_LEN_AT),
            headers_ptr: word(b, at + HEADERS_PTR_AT),
            headers_len: word(b, at + HEADERS_LEN_AT),
            offset: from_bits(lo | (hi << 32u64)),
        },
    )
}

/// Reading back an encoded frame whose discriminants are 0 or 1 gives the
/// frame that was encoded.
pub proof fn lemma_frame_round_trip(f: Frame)
    requires
        f.key_disc <= 1,
        f.value_disc <= 1,
    ensures
        frame_at_spec(frame_bytes(f), 0) == Ok::<Frame, AbiFault>(f),
{
    lemma_frame_layout(f);
}

} // verus!
