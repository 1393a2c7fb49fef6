//! Navigation over an FBF input payload: the prelude (string and shape tables),
//! measuring and skipping values, decoding values, and looking up container
//! children, all by byte offsets into the payload.
use crate::encoding::{
    lemma_varint_bounds, TagClass, TagInfo, spec_tag_info, classify_tag, spec_varint, varint_from, pow128, read_varint, ARRAY16, ARRAY32, ARRAY8, FALSE, FIXARRAY0, FIXARRAY_MAX, FIXMAP0, FIXSTR_MAX, FIXSTR_MIN, FLAG_RESERVED_MASK, FLAG_SHAPE_TABLE, FLAG_STRING_TABLE, FLOAT32, FLOAT64, INT16, INT32, INT64, INT8, MAGIC, MAP16, MAP32, MAP8, NIL, SEQARRAY, SEQFIXARRAY_MAX, SEQFIXARRAY_MIN, SEQFIXMAP_MAX, SEQFIXMAP_MIN, SEQMAP, SEQSHAPE, SHAPE16, SHAPE32, SHAPE8, STR16, STR32, STR8, STRREF16, STRREF32, STRREF8, TRUE, UINT16, UINT32, UINT64, UINT8, VERSION,
};
use crate::nanbox::ErrorCode;
use vstd::arithmetic::power2::{pow2, lemma2_to64, lemma2_to64_rest};
use std::collections::HashMap;
use vstd::prelude::*;

verus! {

/// The deepest nesting of sequential containers that is walked.
pub const MAX_DEPTH: u32 = 128;
/// An offset that marks an empty cache slot or an unbounded container.
pub const INVALID_OFFSET: u32 = 0xffff_ffff;

/// The parsed prelude of an input payload.
pub struct InputState {
    /// Offset of the root value.
    pub root: u32,
    /// The string table: (content offset, byte length) per entry.
    pub strings: Vec<(u32, u32)>,
    /// The keys of all shapes, flat: (content offset, byte length) per key.
    pub shape_keys: Vec<(u32, u32)>,
    /// Per shape: (first key in `shape_keys`, key count).
    pub shapes: Vec<(u32, u32)>,
}

/// A number read from the input, before its conversion to `f64`.
#[derive(Copy, Clone, PartialEq, Eq, Debug, Structural)]
pub enum Num {
    /// A fixint or a signed integer.
    Int(i64),
    /// An unsigned integer.
    UInt(u64),
    /// The bits of an `f32`, not a NaN.
    Float32(u32),
    /// The bits of an `f64`, not a NaN.
    Float64(u64),
}

/// A decoded input value.
#[derive(Copy, Clone, PartialEq, Eq, Debug, Structural)]
pub enum Decoded {
    Null,
    Bool(bool),
    Number(Num),
    /// A string by the offset of its content and its byte length.
    String { content: u32, len: u32 },
    /// An array by the offset of its tag and its element count.
    Array { pos: u32, count: u32 },
    /// A map or shaped object by the offset of its tag and its key count.
    Object { pos: u32, count: u32 },
}

// ---------------------------------------------------------------------------
// Specification of the format
// ---------------------------------------------------------------------------

/// The little-endian unsigned value of `w` bytes at `pos`.
pub open spec fn le(b: Seq<u8>, pos: int, w: nat) -> nat
    decreases w,
{
    if w == 0 {
        0
    } else {
        b[pos] as nat + 256 * le(b, pos + 1, (w - 1) as nat)
    }
}

/// The two's-complement value of an unsigned `bits`-wide integer.
pub open spec fn signed(u: nat, bits: nat) -> int {
    if u >= pow2((bits - 1) as nat) {
        u - pow2(bits)
    } else {
        u as int
    }
}

/// Reading a little-endian length or id of width 1, 2 or 4 that must end at or before `end`.
pub open spec fn spec_read_le(b: Seq<u8>, pos: int, width: int, end: int) -> Option<u32> {
    if pos + width > end || pos + width > b.len() || !(width == 1 || width == 2 || width == 4) {
        None
    } else {
        Some(le(b, pos, width as nat) as u32)
    }
}

/// A span of `len` bytes at `start` that must end at or before `end`: its end.
pub open spec fn spec_span(b: Seq<u8>, start: int, len: int, end: int) -> Option<int> {
    if start + len > end || start + len > b.len() || start + len > u32::MAX {
        None
    } else {
        Some(start + len)
    }
}

/// A varint that fits in `u32`, read before `end`: its value and the position after it.
pub open spec fn spec_var_u32(b: Seq<u8>, pos: int, end: int) -> Option<(u32, int)> {
    if pos >= end || end > b.len() {
        None
    } else {
        match spec_varint(b, pos, end) {
            None => None,
            Some((v, p)) => if v > u32::MAX {
                None
            } else {
                Some((v as u32, p))
            },
        }
    }
}

/// Whether a tag is a string tag (inline or reference).
pub open spec fn is_string_tag(tag: u8) -> bool {
    (FIXSTR_MIN <= tag <= FIXSTR_MAX) || tag == STR8 || tag == STR16 || tag == STR32 || tag
        == STRREF8 || tag == STRREF16 || tag == STRREF32
}

/// The width of the length field of `STR8`..`STR32`, or of the id of `STRREF8`..`STRREF32`.
pub open spec fn str_width(tag: u8) -> int {
    if tag == STR8 || tag == STRREF8 {
        1
    } else if tag == STR16 || tag == STRREF16 {
        2
    } else {
        4
    }
}

/// The string at `pos`: its content span (offset, length) and the position after it.
/// String references resolve to their table entry.
pub open spec fn spec_string_span(b: Seq<u8>, strings: Seq<(u32, u32)>, pos: int, end: int) -> Option<
    ((u32, u32), int),
> {
    if pos < 0 || pos >= b.len() || pos >= end {
        None
    } else {
        let tag = b[pos];
        if FIXSTR_MIN <= tag <= FIXSTR_MAX {
            let len = tag - FIXSTR_MIN;
            match spec_span(b, pos + 1, len, end) {
                None => None,
                Some(next) => Some((((pos + 1) as u32, len as u32), next)),
            }
        } else if tag == STR8 || tag == STR16 || tag == STR32 {
            let w = str_width(tag);
            match spec_read_le(b, pos + 1, w, end) {
                None => None,
                Some(len) => match spec_span(b, pos + 1 + w, len as int, end) {
                    None => None,
                    Some(next) => Some((((pos + 1 + w) as u32, len), next)),
                },
            }
        } else if tag == STRREF8 || tag == STRREF16 || tag == STRREF32 {
            let w = str_width(tag);
            match spec_read_le(b, pos + 1, w, end) {
                None => None,
                Some(id) => if id < strings.len() {
                    Some((strings[id as int], pos + 1 + w))
                } else {
                    None
                },
            }
        } else {
            None
        }
    }
}

/// The bit width of the number payload of an integer or float tag.
pub open spec fn number_width(tag: u8) -> int {
    if tag == INT8 || tag == UINT8 {
        1
    } else if tag == INT16 || tag == UINT16 {
        2
    } else if tag == INT32 || tag == UINT32 || tag == FLOAT32 {
        4
    } else {
        8
    }
}

/// Whether the bits of an `f32` are a NaN.
pub open spec fn f32_bits_is_nan(bits: u32) -> bool {
    (bits >> 23u32) & 0xffu32 == 0xffu32 && bits & 0x7f_ffffu32 != 0
}

/// Whether the bits of an `f64` are a NaN.
pub open spec fn f64_is_nan(bits: u64) -> bool {
    crate::nanbox::f64_bits_is_nan(bits)
}

/// The number whose tag (`INT8`..`FLOAT64`) is at `pos`; a NaN is refused.
pub open spec fn spec_read_number(b: Seq<u8>, pos: int, tag: u8, end: int) -> Option<Num> {
    let w = number_width(tag);
    if !(INT8 <= tag <= FLOAT64) {
        None
    } else {
        match spec_span(b, pos + 1, w, end) {
            None => None,
            Some(_) => {
                let u = le(b, pos + 1, w as nat);
                if tag == INT8 || tag == INT16 || tag == INT32 || tag == INT64 {
                    Some(Num::Int(signed(u, (8 * w) as nat) as i64))
                } else if tag == UINT8 || tag == UINT16 || tag == UINT32 || tag == UINT64 {
                    Some(Num::UInt(u as u64))
                } else if tag == FLOAT32 {
                    if f32_bits_is_nan(u as u32) {
                        None
                    } else {
                        Some(Num::Float32(u as u32))
                    }
                } else {
                    if f64_is_nan(u as u64) {
                        None
                    } else {
                        Some(Num::Float64(u as u64))
                    }
                }
            },
        }
    }
}

/// The extent (total size) of the value at `pos`, within `end`; `fuel` is how many
/// more levels of sequential containers may be entered.
pub open spec fn spec_extent(
    b: Seq<u8>,
    shapes: Seq<(u32, u32)>,
    pos: int,
    end: int,
    fuel: nat,
) -> Option<nat>
    decreases fuel, 1nat,
{
    if pos < 0 || pos >= end || end > b.len() {
        None
    } else {
        let info = spec_tag_info(b[pos]);
        match info.class {
            TagClass::AFixed | TagClass::Scalar => match spec_span(b, pos, info.arg as int, end) {
                None => None,
                Some(_) => Some(info.arg as nat),
            },
            TagClass::String | TagClass::BLength => {
                if info.class == TagClass::String && info.arg < 0x80 {
                    match spec_span(b, pos, info.arg as int, end) {
                        None => None,
                        Some(_) => Some(info.arg as nat),
                    }
                } else {
                    let width = (info.arg % 128) as int;
                    match spec_read_le(b, pos + 1, width, end) {
                        None => None,
                        Some(len) => {
                            let ext = 1 + width + len;
                            if ext > u32::MAX {
                                None
                            } else {
                                match spec_span(b, pos, ext, end) {
                                    None => None,
                                    Some(_) => Some(ext as nat),
                                }
                            }
                        },
                    }
                }
            },
            TagClass::CSequential => spec_seq_extent(b, shapes, pos, end, fuel),
            TagClass::Reserved => None,
        }
    }
}

/// The number of children of the sequential container whose tag is at `pos`, and
/// where the first child starts (maps count keys and values).
pub open spec fn spec_seq_children(b: Seq<u8>, shapes: Seq<(u32, u32)>, pos: int, end: int) -> Option<
    (nat, int),
> {
    let tag = b[pos];
    let p = pos + 1;
    if SEQFIXARRAY_MIN <= tag <= SEQFIXARRAY_MAX {
        Some(((tag - SEQFIXARRAY_MIN + 1) as nat, p))
    } else if SEQFIXMAP_MIN <= tag <= SEQFIXMAP_MAX {
        Some((((tag - SEQFIXMAP_MIN + 1) * 2) as nat, p))
    } else if tag == SEQARRAY {
        match spec_var_u32(b, p, end) {
            None => None,
            Some((n, q)) => Some((n as nat, q)),
        }
    } else if tag == SEQMAP {
        match spec_var_u32(b, p, end) {
            None => None,
            Some((n, q)) => if n * 2 > u32::MAX {
                None
            } else {
                Some(((n * 2) as nat, q))
            },
        }
    } else if tag == SEQSHAPE {
        match spec_var_u32(b, p, end) {
            None => None,
            Some((id, q)) => if id < shapes.len() {
                Some((shapes[id as int].1 as nat, q))
            } else {
                None
            },
        }
    } else {
        None
    }
}

/// The extent of the sequential container at `pos`.
pub open spec fn spec_seq_extent(
    b: Seq<u8>,
    shapes: Seq<(u32, u32)>,
    pos: int,
    end: int,
    fuel: nat,
) -> Option<nat>
    decreases fuel, 0nat,
{
    if fuel == 0 {
        None
    } else {
        match spec_seq_children(b, shapes, pos, end) {
            None => None,
            Some((n, p)) => if n > (if end - p > 0 {
                end - p
            } else {
                0
            }) {
                None
            } else {
                match spec_walk(b, shapes, p, end, (fuel - 1) as nat, n) {
                    None => None,
                    Some(q) => Some((q - pos) as nat),
                }
            },
        }
    }
}

/// The position after `n` consecutive values starting at `pos`.
pub open spec fn spec_walk(
    b: Seq<u8>,
    shapes: Seq<(u32, u32)>,
    pos: int,
    end: int,
    fuel: nat,
    n: nat,
) -> Option<int>
    decreases fuel, n + 2,
{
    if n == 0 {
        Some(pos)
    } else {
        match spec_extent(b, shapes, pos, end, fuel) {
            None => None,
            Some(e) => if pos + e > u32::MAX {
                None
            } else {
                spec_walk(b, shapes, pos + e, end, fuel, (n - 1) as nat)
            },
        }
    }
}

/// The position after the value at `pos`.
pub open spec fn spec_skip(b: Seq<u8>, shapes: Seq<(u32, u32)>, pos: int, end: int) -> Option<int> {
    if pos < 0 || pos >= b.len() {
        None
    } else if b[pos] == ARRAY8 || b[pos] == MAP8 || b[pos] == SHAPE8 {
        match spec_read_le(b, pos + 1, 1, end) {
            None => None,
            Some(len) => spec_span(b, pos + 2, len as int, end),
        }
    } else {
        match spec_extent(b, shapes, pos, end, MAX_DEPTH as nat) {
            None => None,
            Some(e) => if pos + e > u32::MAX {
                None
            } else {
                Some(pos + e)
            },
        }
    }
}

// ---------------------------------------------------------------------------
// Readers
// ---------------------------------------------------------------------------

/// Read a little-endian value of width 1, 2 or 4 that must end at or before `end`.
pub fn read_le(bytes: &[u8], pos: u32, width: u8, end: u32) -> (r: Result<u32, ErrorCode>)
    ensures
        match spec_read_le(bytes@, pos as int, width as int, end as int) {
            Some(v) => r == Ok::<u32, ErrorCode>(v),
            None => r == Err::<u32, ErrorCode>(ErrorCode::ReadError),
        },
{
    let stop: u64 = pos as u64 + width as u64;
    if stop > end as u64 || stop > bytes.len() as u64 {
        return Err(ErrorCode::ReadError);
    }
    let s = pos as usize;
    proof {
        reveal_with_fuel(le, 5);
    }
    if width == 1 {
        Ok(bytes[s] as u32)
    } else if width == 2 {
        Ok(bytes[s] as u32 + 256 * (bytes[s + 1] as u32))
    } else if width == 4 {
        Ok(bytes[s] as u32 + 256 * (bytes[s + 1] as u32) + 65536 * (bytes[s + 2] as u32)
            + 16777216 * (bytes[s + 3] as u32))
    } else {
        Err(ErrorCode::ReadError)
    }
}

/// Read the little-endian unsigned value of width 1, 2, 4 or 8 at `start`.
fn read_le_u64(bytes: &[u8], start: u32, width: u32) -> (r: u64)
    requires
        start + width <= bytes@.len(),
        width == 1 || width == 2 || width == 4 || width == 8,
    ensures
        r == le(bytes@, start as int, width as nat),
{
    let s = start as usize;
    proof {
        reveal_with_fuel(le, 9);
    }
    let lo: u64 = if width == 1 {
        bytes[s] as u64
    } else if width == 2 {
        bytes[s] as u64 + 256 * (bytes[s + 1] as u64)
    } else {
        bytes[s] as u64 + 256 * (bytes[s + 1] as u64) + 65536 * (bytes[s + 2] as u64) + 16777216
            * (bytes[s + 3] as u64)
    };
    if width == 8 {
        let hi: u64 = bytes[s + 4] as u64 + 256 * (bytes[s + 5] as u64) + 65536 * (bytes[s
            + 6] as u64) + 16777216 * (bytes[s + 7] as u64);
        assert(hi <= 0xffff_ffff);
        lo + 4294967296 * hi
    } else {
        lo
    }
}

/// Add two offsets, failing on overflow.
pub fn checked_add(a: u32, b: u32) -> (r: Result<u32, ErrorCode>)
    ensures
        a + b <= u32::MAX ==> r == Ok::<u32, ErrorCode>((a + b) as u32),
        a + b > u32::MAX ==> r == Err::<u32, ErrorCode>(ErrorCode::ReadError),
{
    if a as u64 + b as u64 > u32::MAX as u64 {
        Err(ErrorCode::ReadError)
    } else {
        Ok(a + b)
    }
}

/// Read a varint that fits in `u32` at `*pos`, looking only before `end`, and move past it.
pub fn read_var_u32(bytes: &[u8], pos: &mut u32, end: u32) -> (r: Result<u32, ErrorCode>)
    ensures
        match spec_var_u32(bytes@, *old(pos) as int, end as int) {
            Some((v, p)) => r == Ok::<u32, ErrorCode>(v) && *final(pos) as int == p && *old(pos)
                < p <= end,
            None => r == Err::<u32, ErrorCode>(ErrorCode::ReadError),
        },
{
    proof {
        lemma_varint_bounds(bytes@, *old(pos) as int, end as int);
    }
    if *pos >= end || end as usize > bytes.len() {
        return Err(ErrorCode::ReadError);
    }
    let first = bytes[*pos as usize];
    if first < 128 {
        proof {
            reveal_with_fuel(varint_from, 2);
            assert(pow128(0) == 1);
        }
        *pos = *pos + 1;
        return Ok(first as u32);
    }
    match read_varint(bytes, *pos, end) {
        None => Err(ErrorCode::ReadError),
        Some((value, next)) => {
            if value > u32::MAX as u64 {
                Err(ErrorCode::ReadError)
            } else {
                *pos = next;
                Ok(value as u32)
            }
        },
    }
}

/// A span of `len` bytes at `start`, which must end at or before `end`.
pub fn bounded_span(bytes: &[u8], start: u32, len: u32, end: u32) -> (r: Result<(u32, u32), ErrorCode>)
    ensures
        match spec_span(bytes@, start as int, len as int, end as int) {
            Some(stop) => r == Ok::<(u32, u32), ErrorCode>((start, stop as u32)),
            None => r == Err::<(u32, u32), ErrorCode>(ErrorCode::ReadError),
        },
{
    let stop = checked_add(start, len)?;
    if stop > end || stop as usize > bytes.len() {
        return Err(ErrorCode::ReadError);
    }
    Ok((start, stop))
}

/// The string at `pos`: its content span and the position after it.
pub fn string_span_at(bytes: &[u8], strings: &Vec<(u32, u32)>, pos: u32, end: u32) -> (r: Result<
    ((u32, u32), u32),
    ErrorCode,
>)
    requires
        end <= bytes@.len(),
    ensures
        match spec_string_span(bytes@, strings@, pos as int, end as int) {
            Some((span, next)) => r == Ok::<((u32, u32), u32), ErrorCode>((span, next as u32)),
            None => r == Err::<((u32, u32), u32), ErrorCode>(ErrorCode::ReadError),
        },
{
    if pos as usize >= bytes.len() || pos >= end {
        return Err(ErrorCode::ReadError);
    }
    let tag = bytes[pos as usize];
    if FIXSTR_MIN <= tag && tag <= FIXSTR_MAX {
        let len = (tag - FIXSTR_MIN) as u32;
        let content = pos + 1;
        let (_, next) = bounded_span(bytes, content, len, end)?;
        Ok(((content, len), next))
    } else if tag == STR8 || tag == STR16 || tag == STR32 {
        let width: u8 = if tag == STR8 {
            1
        } else if tag == STR16 {
            2
        } else {
            4
        };
        let len_pos = pos + 1;
        let len = read_le(bytes, len_pos, width, end)?;
        let content = len_pos + width as u32;
        let (_, next) = bounded_span(bytes, content, len, end)?;
        Ok(((content, len), next))
    } else if tag == STRREF8 || tag == STRREF16 || tag == STRREF32 {
        let width: u8 = if tag == STRREF8 {
            1
        } else if tag == STRREF16 {
            2
        } else {
            4
        };
        let id_pos = pos + 1;
        let id = read_le(bytes, id_pos, width, end)?;
        let next = id_pos + width as u32;
        if (id as usize) < strings.len() {
            Ok((strings[id as usize], next))
        } else {
            Err(ErrorCode::ReadError)
        }
    } else {
        Err(ErrorCode::ReadError)
    }
}

/// The number whose tag is at `pos` (`INT8` to `FLOAT64`); a NaN is refused.
pub fn read_number(bytes: &[u8], pos: u32, tag: u8, end: u32) -> (r: Result<Num, ErrorCode>)
    requires
        end <= bytes@.len(),
    ensures
        match spec_read_number(bytes@, pos as int, tag, end as int) {
            Some(n) => r == Ok::<Num, ErrorCode>(n),
            None => r == Err::<Num, ErrorCode>(ErrorCode::ReadError),
        },
{
    if !(INT8 <= tag && tag <= FLOAT64) {
        return Err(ErrorCode::ReadError);
    }
    let width: u32 = if tag == INT8 || tag == UINT8 {
        1
    } else if tag == INT16 || tag == UINT16 {
        2
    } else if tag == INT32 || tag == UINT32 || tag == FLOAT32 {
        4
    } else {
        8
    };
    let start = checked_add(pos, 1)?;
    bounded_span(bytes, start, width, end)?;
    let u = read_le_u64(bytes, start, width);
    proof {
        reveal_with_fuel(le, 9);
        lemma2_to64();
        lemma2_to64_rest();
    }
    if tag == INT8 || tag == INT16 || tag == INT32 || tag == INT64 {
        let v: i64 = if width == 1 {
            if u < 0x80 {
                u as i64
            } else {
                u as i64 - 0x100
            }
        } else if width == 2 {
            if u < 0x8000 {
                u as i64
            } else {
                u as i64 - 0x1_0000
            }
        } else if width == 4 {
            if u < 0x8000_0000 {
                u as i64
            } else {
                u as i64 - 0x1_0000_0000
            }
        } else {
            if u < 0x8000_0000_0000_0000 {
                u as i64
            } else {
                (u - 0x8000_0000_0000_0000) as i64 - 0x7fff_ffff_ffff_ffff - 1
            }
        };
        Ok(Num::Int(v))
    } else if tag == UINT8 || tag == UINT16 || tag == UINT32 || tag == UINT64 {
        Ok(Num::UInt(u))
    } else if tag == FLOAT32 {
        let bits = u as u32;
        if (bits >> 23u32) & 0xffu32 == 0xffu32 && bits & 0x7f_ffffu32 != 0 {
            Err(ErrorCode::ReadError)
        } else {
            Ok(Num::Float32(bits))
        }
    } else {
        if (u >> 52u64) & 0x7ffu64 == 0x7ffu64 && u & 0x000f_ffff_ffff_ffffu64 != 0 {
            Err(ErrorCode::ReadError)
        } else {
            Ok(Num::Float64(u))
        }
    }
}

/// The extent of the value at `pos`, within `end`, at nesting `depth`.
pub fn extent_at(bytes: &[u8], shapes: &Vec<(u32, u32)>, pos: u32, end: u32, depth: u32) -> (r:
    Result<u32, ErrorCode>)
    requires
        depth <= MAX_DEPTH,
    ensures
        match spec_extent(bytes@, shapes@, pos as int, end as int, (MAX_DEPTH - depth) as nat) {
            Some(e) => r == Ok::<u32, ErrorCode>(e as u32) && pos + e <= end,
            None => r == Err::<u32, ErrorCode>(ErrorCode::ReadError),
        },
    decreases MAX_DEPTH - depth, 1nat,
{
    if pos >= end || end as usize > bytes.len() {
        return Err(ErrorCode::ReadError);
    }
    let tag = bytes[pos as usize];
    let info = classify_tag(tag);
    match info.class {
        TagClass::AFixed | TagClass::Scalar => {
            let size = info.arg as u32;
            bounded_span(bytes, pos, size, end)?;
            Ok(size)
        },
        TagClass::String | TagClass::BLength => {
            if info.class == TagClass::String && info.arg < 0x80 {
                let size = info.arg as u32;
                bounded_span(bytes, pos, size, end)?;
                Ok(size)
            } else {
                let width = (info.arg % 128) as u32;
                let length_pos = checked_add(pos, 1)?;
                let payload_len = read_le(bytes, length_pos, width as u8, end)?;
                let header = 1 + width;
                let extent = checked_add(header, payload_len)?;
                bounded_span(bytes, pos, extent, end)?;
                Ok(extent)
            }
        },
        TagClass::CSequential => sequential_extent(bytes, shapes, pos, end, depth),
        TagClass::Reserved => Err(ErrorCode::ReadError),
    }
}

/// The extent of the sequential container at `start` (its children walked).
fn sequential_extent(bytes: &[u8], shapes: &Vec<(u32, u32)>, start: u32, end: u32, depth: u32) -> (r:
    Result<u32, ErrorCode>)
    requires
        depth <= MAX_DEPTH,
        start < end,
        end <= bytes@.len(),
    ensures
        match spec_seq_extent(bytes@, shapes@, start as int, end as int, (MAX_DEPTH - depth) as nat) {
            Some(e) => r == Ok::<u32, ErrorCode>(e as u32) && start + e <= end,
            None => r == Err::<u32, ErrorCode>(ErrorCode::ReadError),
        },
    decreases MAX_DEPTH - depth, 0nat,
{
    if depth >= MAX_DEPTH {
        return Err(ErrorCode::ReadError);
    }
    let tag = bytes[start as usize];
    let mut pos = start + 1;
    let child_count: u32 = if SEQFIXARRAY_MIN <= tag && tag <= SEQFIXARRAY_MAX {
        (tag - SEQFIXARRAY_MIN + 1) as u32
    } else if SEQFIXMAP_MIN <= tag && tag <= SEQFIXMAP_MAX {
        ((tag - SEQFIXMAP_MIN + 1) as u32) * 2
    } else if tag == SEQARRAY {
        read_var_u32(bytes, &mut pos, end)?
    } else if tag == SEQMAP {
        let n = read_var_u32(bytes, &mut pos, end)?;
        if n > u32::MAX / 2 {
            return Err(ErrorCode::ReadError);
        }
        n * 2
    } else if tag == SEQSHAPE {
        let id = read_var_u32(bytes, &mut pos, end)?;
        if (id as usize) < shapes.len() {
            shapes[id as usize].1
        } else {
            return Err(ErrorCode::ReadError);
        }
    } else {
        return Err(ErrorCode::ReadError);
    };
    assert(spec_seq_children(bytes@, shapes@, start as int, end as int) == Some(
        (child_count as nat, pos as int),
    ));
    let room: u32 = if end > pos {
        end - pos
    } else {
        0
    };
    if child_count > room {
        return Err(ErrorCode::ReadError);
    }
    let ghost first = pos;
    let ghost fuel = (MAX_DEPTH - depth - 1) as nat;
    let mut i: u32 = 0;
    while i < child_count
        invariant
            depth < MAX_DEPTH,
            fuel == (MAX_DEPTH - depth - 1) as nat,
            end <= bytes@.len(),
            i <= child_count,
            start < first <= pos <= end,
            spec_seq_children(bytes@, shapes@, start as int, end as int) == Some(
                (child_count as nat, first as int),
            ),
            child_count <= end - first,
            spec_walk(bytes@, shapes@, first as int, end as int, fuel, child_count as nat)
                == spec_walk(bytes@, shapes@, pos as int, end as int, fuel, (child_count - i) as nat),
        decreases child_count - i,
    {
        let extent = match extent_at(bytes, shapes, pos, end, depth + 1) {
            Ok(e) => e,
            Err(e) => {
                assert(spec_walk(bytes@, shapes@, pos as int, end as int, fuel, (child_count - i) as nat) is None);
                return Err(e);
            },
        };
        pos = checked_add(pos, extent)?;
        i = i + 1;
    }
    Ok(pos - start)
}

/// The position after the value at `pos`, which must end at or before `end`.
pub fn skip_value(bytes: &[u8], state: &InputState, pos: u32, end: u32) -> (r: Result<u32, ErrorCode>)
    requires
        end <= bytes@.len(),
    ensures
        match spec_skip(bytes@, state.shapes@, pos as int, end as int) {
            Some(next) => r == Ok::<u32, ErrorCode>(next as u32) && pos < next <= end,
            None => r == Err::<u32, ErrorCode>(ErrorCode::ReadError),
        },
{
    skip_value_with(bytes, &state.shapes, pos, end)
}

/// The position after the value at `pos`, given the shape table.
pub fn skip_value_with(bytes: &[u8], shapes: &Vec<(u32, u32)>, pos: u32, end: u32) -> (r: Result<u32, ErrorCode>)
    requires
        end <= bytes@.len(),
    ensures
        match spec_skip(bytes@, shapes@, pos as int, end as int) {
            Some(next) => r == Ok::<u32, ErrorCode>(next as u32) && pos < next <= end,
            None => r == Err::<u32, ErrorCode>(ErrorCode::ReadError),
        },
{
    if pos as usize >= bytes.len() {
        return Err(ErrorCode::ReadError);
    }
    let tag = bytes[pos as usize];
    if tag == ARRAY8 || tag == MAP8 || tag == SHAPE8 {
        let len_pos = checked_add(pos, 1)?;
        let len = read_le(bytes, len_pos, 1, end)?;
        let payload = len_pos + 1;
        let (_, next) = bounded_span(bytes, payload, len, end)?;
        return Ok(next);
    }
    let e = extent_at(bytes, shapes, pos, end, 0)?;
    proof {
        lemma_extent_positive(bytes@, shapes@, pos as int, end as int, MAX_DEPTH as nat);
    }
    checked_add(pos, e)
}

/// A value's extent is at least one byte.
proof fn lemma_extent_positive(b: Seq<u8>, shapes: Seq<(u32, u32)>, pos: int, end: int, fuel: nat)
    ensures
        spec_extent(b, shapes, pos, end, fuel) matches Some(e) ==> e >= 1,
{
    if spec_extent(b, shapes, pos, end, fuel) is Some {
        let info = spec_tag_info(b[pos]);
        if info.class == TagClass::CSequential {
            assert(spec_seq_extent(b, shapes, pos, end, fuel) is Some);
            let (n, p) = spec_seq_children(b, shapes, pos, end).unwrap();
            lemma_varint_advances(b, pos + 1, end, 0, 0);
            assert(p >= pos + 1);
            lemma_walk_monotone(b, shapes, p, end, (fuel - 1) as nat, n);
        }
    }
}

/// A varint ends after its first byte.
pub proof fn lemma_varint_advances(b: Seq<u8>, pos: int, end: int, i: nat, acc: nat)
    ensures
        varint_from(b, pos, end, i, acc) matches Some((v, p)) ==> pos < p <= end,
    decreases 10 - i,
{
    if i < 10 && 0 <= pos < end && pos < b.len() && b[pos] >= 128 && !(i == 9 && b[pos] > 1) {
        let acc2 = acc + (b[pos] % 128) as nat * pow128(i);
        lemma_varint_advances(b, pos + 1, end, i + 1, acc2);
    }
}

/// Walking never moves backwards.
proof fn lemma_walk_monotone(b: Seq<u8>, shapes: Seq<(u32, u32)>, pos: int, end: int, fuel: nat, n: nat)
    ensures
        spec_walk(b, shapes, pos, end, fuel, n) matches Some(q) ==> q >= pos,
    decreases n,
{
    if n > 0 {
        if let Some(e) = spec_extent(b, shapes, pos, end, fuel) {
            lemma_walk_monotone(b, shapes, pos + e, end, fuel, (n - 1) as nat);
        }
    }
}

// ---------------------------------------------------------------------------
// The prelude
// ---------------------------------------------------------------------------

/// The prelude of a payload as the specification reads it.
pub struct Prelude {
    pub root: int,
    pub strings: Seq<(u32, u32)>,
    pub shape_keys: Seq<(u32, u32)>,
    pub shapes: Seq<(u32, u32)>,
}

/// `n` string-table entries (varint length, then the bytes) from `pos`: their spans
/// and the position after them.
pub open spec fn spec_string_entries(b: Seq<u8>, pos: int, end: int, n: nat) -> Option<
    (Seq<(u32, u32)>, int),
>
    decreases n,
{
    if n == 0 {
        Some((seq![], pos))
    } else {
        match spec_var_u32(b, pos, end) {
            None => None,
            Some((len, p)) => match spec_span(b, p, len as int, end) {
                None => None,
                Some(next) => match spec_string_entries(b, next, end, (n - 1) as nat) {
                    None => None,
                    Some((rest, q)) => Some((seq![(p as u32, len)] + rest, q)),
                },
            },
        }
    }
}

/// `n` shape keys (string values, references resolved) from `pos`.
pub open spec fn spec_shape_key_list(
    b: Seq<u8>,
    strings: Seq<(u32, u32)>,
    pos: int,
    end: int,
    n: nat,
) -> Option<(Seq<(u32, u32)>, int)>
    decreases n,
{
    if n == 0 {
        Some((seq![], pos))
    } else {
        match spec_string_span(b, strings, pos, end) {
            None => None,
            Some((span, next)) => match spec_shape_key_list(b, strings, next, end, (n - 1) as nat) {
                None => None,
                Some((rest, q)) => Some((seq![span] + rest, q)),
            },
        }
    }
}

/// `n` shapes (varint key count, then the keys) from `pos`, appended after `keys`
/// already parsed: all keys, the shapes as (first key, key count), and the position after.
pub open spec fn spec_shape_list(
    b: Seq<u8>,
    strings: Seq<(u32, u32)>,
    pos: int,
    end: int,
    n: nat,
    keys: Seq<(u32, u32)>,
) -> Option<(Seq<(u32, u32)>, Seq<(u32, u32)>, int)>
    decreases n,
{
    if n == 0 {
        Some((keys, seq![], pos))
    } else {
        match spec_var_u32(b, pos, end) {
            None => None,
            Some((key_count, p)) => if key_count > end - p || keys.len() > u32::MAX {
                None
            } else {
                match spec_shape_key_list(b, strings, p, end, key_count as nat) {
                    None => None,
                    Some((shape_keys, q)) => match spec_shape_list(
                        b,
                        strings,
                        q,
                        end,
                        (n - 1) as nat,
                        keys + shape_keys,
                    ) {
                        None => None,
                        Some((all_keys, rest, r)) => Some(
                            (all_keys, seq![(keys.len() as u32, key_count)] + rest, r),
                        ),
                    },
                }
            },
        }
    }
}

/// The string table, when present: varint count (no more than the bytes left), then entries.
pub open spec fn spec_string_table(b: Seq<u8>, pos: int, end: int) -> Option<(Seq<(u32, u32)>, int)> {
    match spec_var_u32(b, pos, end) {
        None => None,
        Some((count, p)) => if count > end - p {
            None
        } else {
            spec_string_entries(b, p, end, count as nat)
        },
    }
}

/// The shape table, when present: varint count (no more than the bytes left), then shapes.
pub open spec fn spec_shape_table(b: Seq<u8>, strings: Seq<(u32, u32)>, pos: int, end: int) -> Option<
    (Seq<(u32, u32)>, Seq<(u32, u32)>, int),
> {
    match spec_var_u32(b, pos, end) {
        None => None,
        Some((count, p)) => if count > end - p {
            None
        } else {
            spec_shape_list(b, strings, p, end, count as nat, seq![])
        },
    }
}

/// Whether a payload starts with a valid header: magic, version, no reserved flags.
pub open spec fn spec_header_ok(b: Seq<u8>) -> bool {
    b.len() >= 5 && b[0] == 0x46 && b[1] == 0x42 && b[2] == 0x46 && b[3] == VERSION && b[4] < 4
}

/// The prelude of a payload: header, optional string table, optional shape table,
/// and the root offset, which must lie inside the payload.
pub open spec fn spec_parse_input(b: Seq<u8>) -> Option<Prelude> {
    let end = b.len() as int;
    if b.len() > u32::MAX || !spec_header_ok(b) {
        None
    } else {
        let flags = b[4];
        let strings_part: Option<(Seq<(u32, u32)>, int)> = if flags % 2 == 1 {
            spec_string_table(b, 5, end)
        } else {
            Some((seq![], 5))
        };
        match strings_part {
            None => None,
            Some((strings, p)) => {
                let shapes_part: Option<(Seq<(u32, u32)>, Seq<(u32, u32)>, int)> = if flags / 2
                    == 1 {
                    spec_shape_table(b, strings, p, end)
                } else {
                    Some((seq![], seq![], p))
                };
                match shapes_part {
                    None => None,
                    Some((shape_keys, shapes, q)) => if q >= end {
                        None
                    } else {
                        Some(Prelude { root: q, strings, shape_keys, shapes })
                    },
                }
            },
        }
    }
}

impl InputState {
    /// Whether this state is the prelude the specification reads.
    pub open spec fn is(&self, p: Prelude) -> bool {
        &&& self.root as int == p.root
        &&& self.strings@ == p.strings
        &&& self.shape_keys@ == p.shape_keys
        &&& self.shapes@ == p.shapes
    }

    /// An empty state with some room reserved.
    pub fn preallocated() -> (r: Self)
        ensures
            r.root == 0,
            r.strings@.len() == 0,
            r.shape_keys@.len() == 0,
            r.shapes@.len() == 0,
    {
        InputState {
            root: 0,
            strings: Vec::with_capacity(8),
            shape_keys: Vec::with_capacity(8),
            shapes: Vec::with_capacity(4),
        }
    }
}

/// Parse the prelude of an FBF payload.
pub fn parse_input(bytes: &[u8]) -> (r: Result<InputState, ErrorCode>)
    ensures
        match spec_parse_input(bytes@) {
            Some(p) => r matches Ok(st) && st.is(p),
            None => r == Err::<InputState, ErrorCode>(ErrorCode::ReadError),
        },
        r matches Ok(st) ==> st.wf(),
{
    let r = parse_input_reusing(bytes, InputState::preallocated());
    proof {
        if let Some(p) = spec_parse_input(bytes@) {
            lemma_prelude_shapes_in_bounds(bytes@);
        }
    }
    r
}

/// Shape keys parsed from `n` entries are `n` spans.
proof fn lemma_shape_key_list_len(b: Seq<u8>, strings: Seq<(u32, u32)>, pos: int, end: int, n: nat)
    ensures
        spec_shape_key_list(b, strings, pos, end, n) matches Some((ks, _)) ==> ks.len() == n,
    decreases n,
{
    if n > 0 {
        if let Some((span, next)) = spec_string_span(b, strings, pos, end) {
            lemma_shape_key_list_len(b, strings, next, end, (n - 1) as nat);
        }
    }
}

/// Parsed shapes extend the key list, and each names keys inside it.
proof fn lemma_shape_list_in_bounds(
    b: Seq<u8>,
    strings: Seq<(u32, u32)>,
    pos: int,
    end: int,
    n: nat,
    keys: Seq<(u32, u32)>,
)
    ensures
        spec_shape_list(b, strings, pos, end, n, keys) matches Some((all, shapes, _)) ==> {
            &&& keys.len() <= all.len()
            &&& forall|s: int| 0 <= s < shapes.len() ==> #[trigger] shapes[s].0 + shapes[s].1 <= all.len()
        },
    decreases n,
{
    if n > 0 {
        if let Some((key_count, p)) = spec_var_u32(b, pos, end) {
            if !(key_count > end - p || keys.len() > u32::MAX) {
                lemma_shape_key_list_len(b, strings, p, end, key_count as nat);
                if let Some((shape_keys, q)) = spec_shape_key_list(b, strings, p, end, key_count as nat) {
                    lemma_shape_list_in_bounds(b, strings, q, end, (n - 1) as nat, keys + shape_keys);
                    if let Some((all, rest, r)) = spec_shape_list(b, strings, q, end, (n - 1) as nat, keys + shape_keys) {
                        let shapes = seq![(keys.len() as u32, key_count)] + rest;
                        assert forall|s: int| 0 <= s < shapes.len() implies #[trigger] shapes[s].0 + shapes[s].1 <= all.len() by {
                            if s > 0 {
                                assert(shapes[s] == rest[s - 1]);
                            }
                        }
                    }
                }
            }
        }
    }
}

/// Every shape of a parsed prelude names keys inside its key list.
pub proof fn lemma_prelude_shapes_in_bounds(b: Seq<u8>)
    ensures
        spec_parse_input(b) matches Some(p) ==> forall|s: int|
            0 <= s < p.shapes.len() ==> #[trigger] p.shapes[s].0 + p.shapes[s].1 <= p.shape_keys.len(),
{
    let end = b.len() as int;
    if b.len() <= u32::MAX && spec_header_ok(b) {
        let flags = b[4];
        let strings_part: Option<(Seq<(u32, u32)>, int)> = if flags % 2 == 1 {
            spec_string_table(b, 5, end)
        } else {
            Some((seq![], 5))
        };
        if let Some((strings, p)) = strings_part {
            if flags / 2 == 1 {
                if let Some((count, p2)) = spec_var_u32(b, p, end) {
                    lemma_shape_list_in_bounds(b, strings, p2, end, count as nat, seq![]);
                }
            }
        }
    }
}

/// Parse the prelude of an FBF payload into an empty state.
#[verifier::loop_isolation(false)]
pub fn parse_input_reusing(bytes: &[u8], state: InputState) -> (r: Result<InputState, ErrorCode>)
    requires
        state.strings@.len() == 0,
        state.shape_keys@.len() == 0,
        state.shapes@.len() == 0,
    ensures
        match spec_parse_input(bytes@) {
            Some(p) => r matches Ok(st) && st.is(p),
            None => r == Err::<InputState, ErrorCode>(ErrorCode::ReadError),
        },
{
    let mut state = state;
    if bytes.len() > u32::MAX as usize {
        return Err(ErrorCode::ReadError);
    }
    let input_len = bytes.len() as u32;
    if bytes.len() < 5 || bytes[0] != MAGIC[0] || bytes[1] != MAGIC[1] || bytes[2] != MAGIC[2]
        || bytes[3] != VERSION || bytes[4] & FLAG_RESERVED_MASK != 0 {
        proof {
            if bytes@.len() >= 5 {
                let f = bytes@[4];
                assert(f & 0xfcu8 != 0 <==> f >= 4) by (bit_vector);
            }
        }
        return Err(ErrorCode::ReadError);
    }
    let flags = bytes[4];
    proof {
        assert(flags & 0xfcu8 == 0 ==> flags < 4) by (bit_vector);
        assert(flags < 4 ==> ((flags & 1u8 != 0) <==> flags % 2 == 1)) by (bit_vector);
        assert(flags < 4 ==> ((flags & 2u8 != 0) <==> flags / 2 == 1)) by (bit_vector);
    }
    let mut pos: u32 = 5;
    let ghost end = input_len as int;
    let ghost strings_part: Option<(Seq<(u32, u32)>, int)> = if flags % 2 == 1 {
        spec_string_table(bytes@, 5, end)
    } else {
        Some((seq![], 5))
    };
    assert(spec_header_ok(bytes@));
    if flags & FLAG_STRING_TABLE != 0 {
        let count = read_var_u32(bytes, &mut pos, input_len)?;
        let remaining = input_len - pos;
        if count > remaining {
            return Err(ErrorCode::ReadError);
        }
        let ghost start = pos;
        assert(strings_part == spec_string_entries(bytes@, start as int, end, count as nat));
        let ghost prefix = state.strings@;
        let mut i: u32 = 0;
        while i < count
            invariant
                input_len == bytes@.len(),
                i <= count,
                prefix.len() == 0,
                state.strings@.len() == i,
                pos <= input_len,
                spec_string_entries(bytes@, start as int, input_len as int, count as nat)
                    == (match spec_string_entries(
                    bytes@,
                    pos as int,
                    input_len as int,
                    (count - i) as nat,
                ) {
                    None => None,
                    Some((rest, q)) => Some((state.strings@ + rest, q)),
                }),
                state.shape_keys@.len() == 0,
                state.shapes@.len() == 0,
            decreases count - i,
        {
            let ghost before = state.strings@;
            let len = read_var_u32(bytes, &mut pos, input_len)?;
            let content = pos;
            let (_, next) = bounded_span(bytes, content, len, input_len)?;
            state.strings.push((content, len));
            proof {
                let r = spec_string_entries(bytes@, next as int, input_len as int, (count - i - 1) as nat);
                if let Some((rest, q)) = r {
                    assert(before + (seq![(content, len)] + rest) =~= state.strings@ + rest);
                }
            }
            pos = next;
            i = i + 1;
        }
        assert(state.strings@ + seq![] =~= state.strings@);
    }
    assert(strings_part == Some((state.strings@, pos as int)));
    let ghost strings = state.strings@;
    let ghost shapes_part: Option<(Seq<(u32, u32)>, Seq<(u32, u32)>, int)> = if flags / 2 == 1 {
        spec_shape_table(bytes@, strings, pos as int, end)
    } else {
        Some((seq![], seq![], pos as int))
    };
    if flags & FLAG_SHAPE_TABLE != 0 {
        parse_shapes(bytes, input_len, &mut pos, &mut state)?;
    }
    assert(shapes_part == Some((state.shape_keys@, state.shapes@, pos as int)));
    if pos >= input_len {
        return Err(ErrorCode::ReadError);
    }
    state.root = pos;
    Ok(state)
}

/// Parse the shape table at `*pos` into `state`, whose string table is parsed.
#[verifier::loop_isolation(false)]
fn parse_shapes(bytes: &[u8], input_len: u32, pos: &mut u32, state: &mut InputState) -> (r: Result<(), ErrorCode>)
    requires
        input_len == bytes@.len(),
        *old(pos) <= input_len,
        old(state).shape_keys@.len() == 0,
        old(state).shapes@.len() == 0,
    ensures
        match spec_shape_table(bytes@, old(state).strings@, *old(pos) as int, input_len as int) {
            Some((keys, shapes, q)) => r is Ok && final(state).shape_keys@ == keys && final(state).shapes@
                == shapes && *final(pos) as int == q && final(state).strings@ == old(state).strings@
                && final(state).root == old(state).root && q <= input_len,
            None => r == Err::<(), ErrorCode>(ErrorCode::ReadError),
        },
{
    let count = read_var_u32(bytes, pos, input_len)?;
    let remaining = input_len - *pos;
    if count > remaining {
        return Err(ErrorCode::ReadError);
    }
    let ghost start = *pos;
    let ghost strings = state.strings@;
    let mut i: u32 = 0;
    while i < count
        invariant
            input_len == bytes@.len(),
            i <= count,
            *pos <= input_len,
            state.strings@ == strings,
            state.shapes@.len() == i,
            state.root == old(state).root,
            spec_shape_list(bytes@, strings, start as int, input_len as int, count as nat, seq![])
                == (match spec_shape_list(
                bytes@,
                strings,
                *pos as int,
                input_len as int,
                (count - i) as nat,
                state.shape_keys@,
            ) {
                None => None,
                Some((keys, rest, q)) => Some((keys, state.shapes@ + rest, q)),
            }),
        decreases count - i,
    {
        let ghost shapes_before = state.shapes@;
        let ghost keys_before = state.shape_keys@;
        let key_count = read_var_u32(bytes, pos, input_len)?;
        if key_count > input_len - *pos {
            return Err(ErrorCode::ReadError);
        }
        if state.shape_keys.len() > u32::MAX as usize {
            return Err(ErrorCode::ReadError);
        }
        let start_key = state.shape_keys.len() as u32;
        let ghost kstart = *pos;
        let mut j: u32 = 0;
        while j < key_count
            invariant
                input_len == bytes@.len(),
                j <= key_count,
                *pos <= input_len,
                state.strings@ == strings,
                state.shapes@ == shapes_before,
                state.root == old(state).root,
                state.shape_keys@.len() == keys_before.len() + j,
                state.shape_keys@.subrange(0, keys_before.len() as int) == keys_before,
                spec_shape_key_list(bytes@, strings, kstart as int, input_len as int, key_count as nat)
                    == (match spec_shape_key_list(
                    bytes@,
                    strings,
                    *pos as int,
                    input_len as int,
                    (key_count - j) as nat,
                ) {
                    None => None,
                    Some((rest, q)) => Some(
                        (state.shape_keys@.subrange(keys_before.len() as int, state.shape_keys@.len() as int) + rest, q),
                    ),
                }),
            decreases key_count - j,
        {
            let ghost keys_now = state.shape_keys@;
            let (span, next) = string_span_at(bytes, &state.strings, *pos, input_len)?;
            state.shape_keys.push(span);
            proof {
                assert(state.shape_keys@.subrange(0, keys_before.len() as int) =~= keys_before);
                let r = spec_shape_key_list(bytes@, strings, next as int, input_len as int, (key_count - j - 1) as nat);
                if let Some((rest, q)) = r {
                    assert(keys_now.subrange(keys_before.len() as int, keys_now.len() as int) + (seq![span] + rest)
                        =~= state.shape_keys@.subrange(keys_before.len() as int, state.shape_keys@.len() as int) + rest);
                }
                lemma_string_span_bounds(bytes@, strings, *pos as int, input_len as int);
            }
            *pos = next;
            j = j + 1;
        }
        let ghost new_keys = state.shape_keys@.subrange(keys_before.len() as int, state.shape_keys@.len() as int);
        proof {
            assert(new_keys + seq![] =~= new_keys);
            assert(keys_before + new_keys =~= state.shape_keys@);
        }
        state.shapes.push((start_key, key_count));
        proof {
            let r = spec_shape_list(bytes@, strings, *pos as int, input_len as int, (count - i - 1) as nat, state.shape_keys@);
            if let Some((keys, rest, q)) = r {
                assert(shapes_before + (seq![(start_key, key_count)] + rest) =~= state.shapes@ + rest);
            }
        }
        i = i + 1;
    }
    proof {
        assert(state.shapes@ + seq![] =~= state.shapes@);
    }
    Ok(())
}

/// A string ends after its tag and at or before `end`.
proof fn lemma_string_span_bounds(b: Seq<u8>, strings: Seq<(u32, u32)>, pos: int, end: int)
    ensures
        spec_string_span(b, strings, pos, end) matches Some((span, next)) ==> pos < next <= end,
{
}

// ---------------------------------------------------------------------------
// Containers and the caches
// ---------------------------------------------------------------------------

/// The kind of a container.
#[derive(Copy, Clone, PartialEq, Eq, Debug, Structural)]
pub enum ContainerKind {
    Array,
    Mapping,
    Shape,
}

/// What is known of a container from its header.
#[derive(Copy, Clone, PartialEq, Eq, Debug, Structural)]
pub struct ContainerMeta {
    /// Offset of the container's tag.
    pub tag_offset: u32,
    pub kind: ContainerKind,
    /// Elements of an array, pairs of a map, keys (and values) of a shaped object.
    pub count: u32,
    /// Offset of the first child (for a map, of the first key).
    pub first_child: u32,
    /// End of a length-framed payload, or `INVALID_OFFSET` for a sequential container.
    pub end: u32,
    /// The shape of a shaped object.
    pub shape_id: u32,
}

/// A remembered position inside a container: where child `next_index` starts.
#[derive(Copy, Clone, PartialEq, Eq, Debug, Structural)]
pub struct Cursor {
    pub container: u32,
    pub next_index: u32,
    pub next_pos: u32,
}

/// Slots of the container metadata cache.
pub const CONTAINER_CACHE_LEN: usize = 256;
/// Slots of the cursor cache.
pub const CURSOR_CACHE_LEN: usize = 2;

/// The metadata held by an empty cache slot.
pub open spec fn spec_empty_meta() -> ContainerMeta {
    ContainerMeta {
        tag_offset: INVALID_OFFSET,
        kind: ContainerKind::Array,
        count: 0,
        first_child: 0,
        end: INVALID_OFFSET,
        shape_id: 0,
    }
}

/// The cursor held by an empty cursor slot.
pub open spec fn spec_empty_cursor() -> Cursor {
    Cursor { container: INVALID_OFFSET, next_index: 0, next_pos: 0 }
}

/// The metadata held by an empty cache slot.
pub fn empty_meta() -> (m: ContainerMeta)
    ensures
        m == spec_empty_meta(),
{
    ContainerMeta {
        tag_offset: INVALID_OFFSET,
        kind: ContainerKind::Array,
        count: 0,
        first_child: 0,
        end: INVALID_OFFSET,
        shape_id: 0,
    }
}

/// A length-framed payload: the width-byte length after the tag, then the payload.
/// Gives where the payload starts and ends.
pub open spec fn spec_framed(b: Seq<u8>, pos: int, width: int, limit: int) -> Option<(int, int)> {
    match spec_read_le(b, pos + 1, width, limit) {
        None => None,
        Some(len) => match spec_span(b, pos + 1 + width, len as int, limit) {
            None => None,
            Some(stop) => Some((pos + 1 + width, stop)),
        },
    }
}

/// The width of the length field of a framed array, map or shape tag.
pub open spec fn framed_width(tag: u8) -> int {
    if tag == ARRAY8 || tag == MAP8 || tag == SHAPE8 {
        1
    } else if tag == ARRAY16 || tag == MAP16 || tag == SHAPE16 {
        2
    } else {
        4
    }
}

/// The metadata read from a container header, before the check of its child room.
pub open spec fn spec_meta_header(b: Seq<u8>, shapes: Seq<(u32, u32)>, pos: int) -> Option<ContainerMeta> {
    let limit = b.len() as int;
    if pos < 0 || pos >= limit {
        None
    } else {
        let tag = b[pos];
        let first = pos + 1;
        let base = ContainerMeta {
            tag_offset: pos as u32,
            kind: ContainerKind::Array,
            count: 0,
            first_child: first as u32,
            end: INVALID_OFFSET,
            shape_id: 0,
        };
        if tag == FIXARRAY0 {
            Some(ContainerMeta { end: first as u32, ..base })
        } else if tag == FIXMAP0 {
            Some(ContainerMeta { kind: ContainerKind::Mapping, end: first as u32, ..base })
        } else if (0xd1 <= tag <= 0xd7) || (0xd9 <= tag <= 0xdf) {
            match spec_framed(b, pos, 1, limit) {
                None => None,
                Some((p, e)) => if tag <= FIXARRAY_MAX {
                    Some(
                        ContainerMeta {
                            count: (tag - FIXARRAY0) as u32,
                            first_child: p as u32,
                            end: e as u32,
                            ..base
                        },
                    )
                } else {
                    Some(
                        ContainerMeta {
                            kind: ContainerKind::Mapping,
                            count: (tag - FIXMAP0) as u32,
                            first_child: p as u32,
                            end: e as u32,
                            ..base
                        },
                    )
                },
            }
        } else if SEQFIXARRAY_MIN <= tag <= SEQFIXARRAY_MAX {
            Some(ContainerMeta { count: (tag - SEQFIXARRAY_MIN + 1) as u32, ..base })
        } else if SEQFIXMAP_MIN <= tag <= SEQFIXMAP_MAX {
            Some(
                ContainerMeta {
                    kind: ContainerKind::Mapping,
                    count: (tag - SEQFIXMAP_MIN + 1) as u32,
                    ..base
                },
            )
        } else if (ARRAY8 <= tag <= ARRAY32) || (MAP8 <= tag <= MAP32) {
            match spec_framed(b, pos, framed_width(tag), limit) {
                None => None,
                Some((p, e)) => match spec_var_u32(b, p, e) {
                    None => None,
                    Some((count, f)) => Some(
                        ContainerMeta {
                            kind: if MAP8 <= tag <= MAP32 {
                                ContainerKind::Mapping
                            } else {
                                ContainerKind::Array
                            },
                            count,
                            first_child: f as u32,
                            end: e as u32,
                            ..base
                        },
                    ),
                },
            }
        } else if tag == SEQARRAY || tag == SEQMAP {
            match spec_var_u32(b, first, limit) {
                None => None,
                Some((count, f)) => Some(
                    ContainerMeta {
                        kind: if tag == SEQMAP {
                            ContainerKind::Mapping
                        } else {
                            ContainerKind::Array
                        },
                        count,
                        first_child: f as u32,
                        ..base
                    },
                ),
            }
        } else if (SHAPE8 <= tag <= SHAPE32) || tag == SEQSHAPE {
            let framed: Option<(int, int)> = if tag == SEQSHAPE {
                Some((first, INVALID_OFFSET as int))
            } else {
                spec_framed(b, pos, framed_width(tag), limit)
            };
            match framed {
                None => None,
                Some((f0, e)) => {
                    let shape_end = if e == INVALID_OFFSET {
                        limit
                    } else {
                        e
                    };
                    match spec_var_u32(b, f0, shape_end) {
                        None => None,
                        Some((id, f)) => if id < shapes.len() {
                            Some(
                                ContainerMeta {
                                    kind: ContainerKind::Shape,
                                    count: shapes[id as int].1,
                                    first_child: f as u32,
                                    end: e as u32,
                                    shape_id: id,
                                    ..base
                                },
                            )
                        } else {
                            None
                        },
                    }
                },
            }
        } else {
            None
        }
    }
}

/// Where the children of a container must end: its framed end, or the payload end.
pub open spec fn container_limit(b: Seq<u8>, m: ContainerMeta) -> int {
    if m.end == INVALID_OFFSET {
        b.len() as int
    } else {
        m.end as int
    }
}

/// Whether a container leaves room for at least one byte per child (two per pair).
pub open spec fn child_room_ok(b: Seq<u8>, m: ContainerMeta) -> bool {
    let end = container_limit(b, m);
    let slots: int = if m.kind == ContainerKind::Mapping {
        2 * m.count
    } else {
        m.count as int
    };
    slots <= u32::MAX && m.first_child <= end && slots <= end - m.first_child
}

/// The metadata of the container whose tag is at `pos`.
pub open spec fn spec_meta(b: Seq<u8>, shapes: Seq<(u32, u32)>, pos: int) -> Option<ContainerMeta> {
    match spec_meta_header(b, shapes, pos) {
        None => None,
        Some(m) => if child_room_ok(b, m) {
            Some(m)
        } else {
            None
        },
    }
}

/// Navigation caches: container metadata by tag offset, two cursors, the last
/// matched key per shape, and the true lengths of long strings.
pub struct Caches {
    containers: Vec<ContainerMeta>,
    cursors: Vec<Cursor>,
    cursor_victim: usize,
    shape_lookup: Vec<u32>,
    long_string_lens: HashMap<u32, u32>,
}

/// Whether a byte span holds exactly `query`.
pub open spec fn span_matches_spec(b: Seq<u8>, span: (u32, u32), query: Seq<u8>) -> bool {
    span.1 == query.len() && span.0 + span.1 <= b.len() && b.subrange(
        span.0 as int,
        span.0 + span.1,
    ) == query
}

/// The bytes of a span, if it lies inside the payload.
pub open spec fn span_bytes(b: Seq<u8>, span: (u32, u32)) -> Option<Seq<u8>> {
    if span.0 + span.1 <= b.len() {
        Some(b.subrange(span.0 as int, span.0 + span.1))
    } else {
        None
    }
}

impl InputState {
    /// Every shape's keys lie inside the key list.
    pub open spec fn wf(&self) -> bool {
        forall|s: int|
            0 <= s < self.shapes@.len() ==> #[trigger] self.shapes@[s].0 + self.shapes@[s].1
                <= self.shape_keys@.len()
    }
}

impl Caches {
    /// The cached metadata slots.
    pub closed spec fn container_slots(&self) -> Seq<ContainerMeta> {
        self.containers@
    }

    /// The cursor slots.
    pub closed spec fn cursor_slots(&self) -> Seq<Cursor> {
        self.cursors@
    }

    /// The remembered key index per shape.
    pub closed spec fn shape_memo(&self) -> Seq<u32> {
        self.shape_lookup@
    }

    /// The cursor slot that the next new container takes.
    pub closed spec fn victim(&self) -> usize {
        self.cursor_victim
    }

    /// The recorded lengths of long strings, by content offset.
    pub closed spec fn long_lens(&self) -> Map<u32, u32> {
        self.long_string_lens@
    }

    /// Whether the caches are empty, with a memo slot for each of `shape_count` shapes.
    pub closed spec fn fresh(&self, shape_count: nat) -> bool {
        &&& self.containers@.len() == CONTAINER_CACHE_LEN
        &&& self.cursors@.len() == CURSOR_CACHE_LEN
        &&& self.cursor_victim < CURSOR_CACHE_LEN
        &&& forall|i: int| 0 <= i < CONTAINER_CACHE_LEN ==> #[trigger] self.containers@[i] == spec_empty_meta()
        &&& forall|i: int| 0 <= i < CURSOR_CACHE_LEN ==> #[trigger] self.cursors@[i] == spec_empty_cursor()
        &&& self.shape_lookup@.len() == shape_count
        &&& forall|i: int| 0 <= i < self.shape_lookup@.len() ==> #[trigger] self.shape_lookup@[i] == INVALID_OFFSET
    }

    /// Every cached entry is true of the payload `b` with prelude `state`.
    pub closed spec fn wf(&self, b: Seq<u8>, state: &InputState) -> bool {
        &&& self.containers@.len() == CONTAINER_CACHE_LEN
        &&& self.cursors@.len() == CURSOR_CACHE_LEN
        &&& self.cursor_victim < CURSOR_CACHE_LEN
        &&& forall|i: int|
            0 <= i < CONTAINER_CACHE_LEN ==> {
                let m = #[trigger] self.containers@[i];
                &&& m.tag_offset == INVALID_OFFSET ==> m == spec_empty_meta()
                &&& m.tag_offset != INVALID_OFFSET ==> m.tag_offset as int % 256 == i && spec_meta(
                    b,
                    state.shapes@,
                    m.tag_offset as int,
                ) == Some(m)
            }
        &&& forall|k: int|
            0 <= k < CURSOR_CACHE_LEN ==> #[trigger] cursor_ok(
                b,
                state.strings@,
                state.shapes@,
                self.cursors@[k],
            )
        &&& self.shape_lookup@.len() == state.shapes@.len()
        &&& forall|s: int|
            0 <= s < self.shape_lookup@.len() ==> #[trigger] memo_ok(
                b,
                state,
                s,
                self.shape_lookup@[s],
            )
    }
}

/// A cursor is empty, or names a container and the true start of one of its children.
pub open spec fn cursor_ok(b: Seq<u8>, strings: Seq<(u32, u32)>, shapes: Seq<(u32, u32)>, c: Cursor) -> bool {
    c.container == INVALID_OFFSET || match spec_meta(b, shapes, c.container as int) {
        None => false,
        Some(m) => c.next_index <= m.count && spec_child_pos(b, strings, shapes, m, c.next_index as nat)
            == Some(c.next_pos as int),
    }
}

/// A remembered shape key index is unset, or the first key of its shape with its content.
pub open spec fn memo_ok(b: Seq<u8>, state: &InputState, s: int, memo: u32) -> bool {
    let (start, count) = state.shapes@[s];
    memo == INVALID_OFFSET || memo >= count || (span_bytes(b, state.shape_keys@[start + memo])
        is Some && forall|j: int|
        0 <= j < memo ==> span_bytes(b, #[trigger] state.shape_keys@[start + j]) != span_bytes(
            b,
            state.shape_keys@[start + memo],
        ))
}

/// The key at `pos` in a map and the position of its value.
pub open spec fn spec_pair_next(
    b: Seq<u8>,
    strings: Seq<(u32, u32)>,
    shapes: Seq<(u32, u32)>,
    pos: int,
    end: int,
) -> Option<(int, int)> {
    match spec_string_span(b, strings, pos, end) {
        None => None,
        Some((_, v)) => match spec_skip(b, shapes, v, end) {
            None => None,
            Some(n) => Some((v, n)),
        },
    }
}

/// Where child `i` of a container starts (for a map, pair `i`'s key).
pub open spec fn spec_child_pos(
    b: Seq<u8>,
    strings: Seq<(u32, u32)>,
    shapes: Seq<(u32, u32)>,
    m: ContainerMeta,
    i: nat,
) -> Option<int>
    decreases i,
{
    if i == 0 {
        Some(m.first_child as int)
    } else {
        match spec_child_pos(b, strings, shapes, m, (i - 1) as nat) {
            None => None,
            Some(p) => if m.kind == ContainerKind::Mapping {
                match spec_pair_next(b, strings, shapes, p, container_limit(b, m)) {
                    None => None,
                    Some((_, n)) => Some(n),
                }
            } else {
                spec_skip(b, shapes, p, container_limit(b, m))
            },
        }
    }
}

/// Decoding the value at `pos`: scalars directly, strings by content span,
/// containers by their metadata.
pub open spec fn spec_decode_value(
    b: Seq<u8>,
    strings: Seq<(u32, u32)>,
    shapes: Seq<(u32, u32)>,
    pos: int,
) -> Option<Decoded> {
    let end = b.len() as int;
    if pos < 0 || pos >= end {
        None
    } else {
        let tag = b[pos];
        if tag <= 0x7f {
            Some(Decoded::Number(Num::Int(tag as i64)))
        } else if tag >= 0xe0 {
            Some(Decoded::Number(Num::Int((tag - 256) as i64)))
        } else if tag == NIL {
            Some(Decoded::Null)
        } else if tag == FALSE {
            Some(Decoded::Bool(false))
        } else if tag == TRUE {
            Some(Decoded::Bool(true))
        } else if INT8 <= tag <= FLOAT64 {
            match spec_read_number(b, pos, tag, end) {
                None => None,
                Some(n) => Some(Decoded::Number(n)),
            }
        } else if is_string_tag(tag) {
            match spec_string_span(b, strings, pos, end) {
                None => None,
                Some(((content, len), _)) => Some(Decoded::String { content, len }),
            }
        } else {
            match spec_meta(b, shapes, pos) {
                None => None,
                Some(m) => if m.kind == ContainerKind::Array {
                    Some(Decoded::Array { pos: pos as u32, count: m.count })
                } else {
                    Some(Decoded::Object { pos: pos as u32, count: m.count })
                },
            }
        }
    }
}

/// How the lengths of long strings are updated when a string span is handed out.
pub open spec fn record_long(lens: Map<u32, u32>, content: u32, len: u32) -> Map<u32, u32> {
    if len >= 16383 {
        lens.insert(content, len)
    } else {
        lens
    }
}

/// How handing out a decoded value updates the lengths of long strings.
pub open spec fn record_decoded(lens: Map<u32, u32>, d: Decoded) -> Map<u32, u32> {
    match d {
        Decoded::String { content, len } => record_long(lens, content, len),
        _ => lens,
    }
}

impl Caches {
    /// Empty caches, with room reserved.
    pub fn new() -> (c: Caches)
        ensures
            c.fresh(0),
            c.long_lens() == Map::<u32, u32>::empty(),
            c.victim() == 0,
    {
        let mut containers: Vec<ContainerMeta> = Vec::with_capacity(CONTAINER_CACHE_LEN);
        let mut i: usize = 0;
        while i < CONTAINER_CACHE_LEN
            invariant
                i <= CONTAINER_CACHE_LEN,
                containers@.len() == i,
                forall|j: int| 0 <= j < i ==> #[trigger] containers@[j] == spec_empty_meta(),
            decreases CONTAINER_CACHE_LEN - i,
        {
            containers.push(empty_meta());
            i = i + 1;
        }
        let mut cursors: Vec<Cursor> = Vec::with_capacity(CURSOR_CACHE_LEN);
        cursors.push(Cursor { container: INVALID_OFFSET, next_index: 0, next_pos: 0 });
        cursors.push(Cursor { container: INVALID_OFFSET, next_index: 0, next_pos: 0 });
        let long_string_lens: HashMap<u32, u32> = HashMap::new();
        Caches {
            containers,
            cursors,
            cursor_victim: 0,
            shape_lookup: Vec::with_capacity(8),
            long_string_lens,
        }
    }

    /// The recorded length of the long string whose content starts at `content`.
    pub fn long_string_len(&self, content: u32) -> (r: Option<u32>)
        ensures
            r == (if self.long_lens().contains_key(content) {
                Some(self.long_lens()[content])
            } else {
                None
            }),
    {
        broadcast use vstd::std_specs::hash::group_hash_axioms;
        match self.long_string_lens.get(&content) {
            Some(v) => Some(*v),
            None => None,
        }
    }

    fn record_long(&mut self, content: u32, len: u32)
        ensures
            final(self).long_string_lens@ == record_long(old(self).long_string_lens@, content, len),
            final(self).containers@ == old(self).containers@,
            final(self).cursors@ == old(self).cursors@,
            final(self).cursor_victim == old(self).cursor_victim,
            final(self).shape_lookup@ == old(self).shape_lookup@,
    {
        broadcast use vstd::std_specs::hash::group_hash_axioms;
        if len >= 16383 {
            self.long_string_lens.insert(content, len);
        }
    }
}

/// Size the per-shape memo of fresh caches for a parsed prelude.
pub fn reset_caches_for_state(caches: &mut Caches, state: &InputState)
    requires
        old(caches).fresh(0),
    ensures
        final(caches).fresh(state.shapes@.len()),
        final(caches).long_lens() == old(caches).long_lens(),
{
    let n = state.shapes.len();
    caches.shape_lookup.resize(n, INVALID_OFFSET);
    proof {
        assert forall|i: int| 0 <= i < caches.shape_lookup@.len() implies #[trigger] caches.shape_lookup@[i] == INVALID_OFFSET by {
            assert(cloned::<u32>(INVALID_OFFSET, caches.shape_lookup@[i]));
        }
    }
}

/// Fresh caches are true of every payload.
pub proof fn lemma_fresh_caches_wf(c: &Caches, b: Seq<u8>, state: &InputState)
    requires
        c.fresh(state.shapes@.len()),
    ensures
        c.wf(b, state),
{
    assert forall|k: int| 0 <= k < CURSOR_CACHE_LEN implies #[trigger] cursor_ok(
        b,
        state.strings@,
        state.shapes@,
        c.cursors@[k],
    ) by {
        assert(c.cursors@[k] == spec_empty_cursor());
    }
    assert forall|s: int| 0 <= s < c.shape_lookup@.len() implies #[trigger] memo_ok(
        b,
        state,
        s,
        c.shape_lookup@[s],
    ) by {
        assert(c.shape_lookup@[s] == INVALID_OFFSET);
    }
    assert forall|i: int| 0 <= i < CONTAINER_CACHE_LEN implies {
        let m = #[trigger] c.containers@[i];
        &&& m.tag_offset == INVALID_OFFSET ==> m == spec_empty_meta()
        &&& m.tag_offset != INVALID_OFFSET ==> m.tag_offset as int % 256 == i && spec_meta(
            b,
            state.shapes@,
            m.tag_offset as int,
        ) == Some(m)
    } by {
        assert(c.containers@[i] == spec_empty_meta());
    }
}

/// The payload of a length-framed value at `pos`: where it starts and ends.
pub fn framed_payload(bytes: &[u8], pos: u32, width: u8, limit: u32) -> (r: Result<(u32, u32), ErrorCode>)
    requires
        limit <= bytes@.len(),
    ensures
        match spec_framed(bytes@, pos as int, width as int, limit as int) {
            Some((p, e)) => r == Ok::<(u32, u32), ErrorCode>((p as u32, e as u32)) && p <= e
                <= limit,
            None => r == Err::<(u32, u32), ErrorCode>(ErrorCode::ReadError),
        },
{
    let len_pos = checked_add(pos, 1)?;
    let len = read_le(bytes, len_pos, width, limit)?;
    let payload = len_pos + width as u32;
    let (_, end) = bounded_span(bytes, payload, len, limit)?;
    Ok((payload, end))
}

/// Check that a container leaves room for its children.
pub fn validate_child_minimum(meta: &ContainerMeta, limit: u32) -> (r: Result<(), ErrorCode>)
    ensures
        r is Ok <==> ({
            let end: int = if meta.end == INVALID_OFFSET {
                limit as int
            } else {
                meta.end as int
            };
            let slots: int = if meta.kind == ContainerKind::Mapping {
                2 * meta.count
            } else {
                meta.count as int
            };
            slots <= u32::MAX && meta.first_child <= end && slots <= end - meta.first_child
        }),
        r is Err ==> r == Err::<(), ErrorCode>(ErrorCode::ReadError),
{
    let end = if meta.end == INVALID_OFFSET {
        limit
    } else {
        meta.end
    };
    let slots = if meta.kind == ContainerKind::Mapping {
        if meta.count > u32::MAX / 2 {
            return Err(ErrorCode::ReadError);
        }
        meta.count * 2
    } else {
        meta.count
    };
    if meta.first_child > end || slots > end - meta.first_child {
        return Err(ErrorCode::ReadError);
    }
    Ok(())
}

/// Read the metadata of the container whose tag is at `pos`, with the cache's help.
fn parse_meta(bytes: &[u8], shapes: &Vec<(u32, u32)>, pos: u32) -> (r: Result<ContainerMeta, ErrorCode>)
    requires
        bytes@.len() <= u32::MAX,
    ensures
        match spec_meta(bytes@, shapes@, pos as int) {
            Some(m) => r == Ok::<ContainerMeta, ErrorCode>(m),
            None => r == Err::<ContainerMeta, ErrorCode>(ErrorCode::ReadError),
        },
{
    let limit = bytes.len() as u32;
    if pos as usize >= bytes.len() {
        return Err(ErrorCode::ReadError);
    }
    let tag = bytes[pos as usize];
    let first = pos + 1;
    let mut meta = ContainerMeta {
        tag_offset: pos,
        kind: ContainerKind::Array,
        count: 0,
        first_child: first,
        end: INVALID_OFFSET,
        shape_id: 0,
    };
    if tag == FIXARRAY0 {
        meta.end = first;
    } else if tag == FIXMAP0 {
        meta.kind = ContainerKind::Mapping;
        meta.end = first;
    } else if (0xd1 <= tag && tag <= 0xd7) || (0xd9 <= tag && tag <= 0xdf) {
        let (p, e) = framed_payload(bytes, pos, 1, limit)?;
        meta.first_child = p;
        meta.end = e;
        if tag <= FIXARRAY_MAX {
            meta.count = (tag - FIXARRAY0) as u32;
        } else {
            meta.kind = ContainerKind::Mapping;
            meta.count = (tag - FIXMAP0) as u32;
        }
    } else if SEQFIXARRAY_MIN <= tag && tag <= SEQFIXARRAY_MAX {
        meta.count = (tag - SEQFIXARRAY_MIN + 1) as u32;
    } else if SEQFIXMAP_MIN <= tag && tag <= SEQFIXMAP_MAX {
        meta.kind = ContainerKind::Mapping;
        meta.count = (tag - SEQFIXMAP_MIN + 1) as u32;
    } else if (ARRAY8 <= tag && tag <= ARRAY32) || (MAP8 <= tag && tag <= MAP32) {
        let width: u8 = if tag == ARRAY8 || tag == MAP8 {
            1
        } else if tag == ARRAY16 || tag == MAP16 {
            2
        } else {
            4
        };
        let (mut f, e) = framed_payload(bytes, pos, width, limit)?;
        meta.count = read_var_u32(bytes, &mut f, e)?;
        meta.first_child = f;
        meta.end = e;
        if MAP8 <= tag && tag <= MAP32 {
            meta.kind = ContainerKind::Mapping;
        }
    } else if tag == SEQARRAY || tag == SEQMAP {
        let mut f = first;
        meta.count = read_var_u32(bytes, &mut f, limit)?;
        meta.first_child = f;
        if tag == SEQMAP {
            meta.kind = ContainerKind::Mapping;
        }
    } else if (SHAPE8 <= tag && tag <= SHAPE32) || tag == SEQSHAPE {
        let (mut f, e) = if tag == SEQSHAPE {
            (first, INVALID_OFFSET)
        } else {
            let width: u8 = if tag == SHAPE8 {
                1
            } else if tag == SHAPE16 {
                2
            } else {
                4
            };
            framed_payload(bytes, pos, width, limit)?
        };
        let shape_end = if e == INVALID_OFFSET {
            limit
        } else {
            e
        };
        meta.shape_id = read_var_u32(bytes, &mut f, shape_end)?;
        if (meta.shape_id as usize) < shapes.len() {
            meta.count = shapes[meta.shape_id as usize].1;
        } else {
            return Err(ErrorCode::ReadError);
        }
        meta.kind = ContainerKind::Shape;
        meta.first_child = f;
        meta.end = e;
    } else {
        return Err(ErrorCode::ReadError);
    }
    assert(spec_meta_header(bytes@, shapes@, pos as int) == Some(meta));
    validate_child_minimum(&meta, limit)?;
    Ok(meta)
}

/// The metadata of the container whose tag is at `pos`, cached by tag offset. The
/// cache only speeds the lookup up: the answer is what parsing gives, also at the
/// offset that marks an empty slot.
#[verifier::spinoff_prover]
#[verifier::rlimit(30)]
pub fn container_meta(bytes: &[u8], state: &InputState, caches: &mut Caches, pos: u32) -> (r: Result<
    ContainerMeta,
    ErrorCode,
>)
    requires
        bytes@.len() <= u32::MAX,
        old(caches).wf(bytes@, state),
    ensures
        final(caches).wf(bytes@, state),
        match spec_meta(bytes@, state.shapes@, pos as int) {
            Some(m) => r == Ok::<ContainerMeta, ErrorCode>(m),
            None => r == Err::<ContainerMeta, ErrorCode>(ErrorCode::ReadError),
        },
        final(caches).long_lens() == old(caches).long_lens(),
        final(caches).cursor_slots() == old(caches).cursor_slots(),
        final(caches).victim() == old(caches).victim(),
        final(caches).shape_memo() == old(caches).shape_memo(),
{
    let slot = (pos % 256) as usize;
    proof {
        reveal(Caches::wf);
    }
    let cached = caches.containers[slot];
    if cached.tag_offset == pos && pos != INVALID_OFFSET {
        return Ok(cached);
    }
    let meta = parse_meta(bytes, &state.shapes, pos)?;
    caches.containers.set(slot, meta);
    proof {
        assert(pos < bytes@.len());
        assert forall|i: int| 0 <= i < CONTAINER_CACHE_LEN implies {
            let m = #[trigger] caches.containers@[i];
            &&& m.tag_offset == INVALID_OFFSET ==> m == spec_empty_meta()
            &&& m.tag_offset != INVALID_OFFSET ==> m.tag_offset as int % 256 == i && spec_meta(
                bytes@,
                state.shapes@,
                m.tag_offset as int,
            ) == Some(m)
        } by {
            if i == slot {
            } else {
                assert(caches.containers@[i] == old(caches).containers@[i]);
            }
        }
    }
    Ok(meta)
}

/// Decode the value at `pos`.
pub fn decode_value(bytes: &[u8], state: &InputState, caches: &mut Caches, pos: u32) -> (r: Result<
    Decoded,
    ErrorCode,
>)
    requires
        bytes@.len() <= u32::MAX,
        old(caches).wf(bytes@, state),
    ensures
        final(caches).wf(bytes@, state),
        match spec_decode_value(bytes@, state.strings@, state.shapes@, pos as int) {
            Some(d) => r == Ok::<Decoded, ErrorCode>(d),
            None => r == Err::<Decoded, ErrorCode>(ErrorCode::ReadError),
        },
        final(caches).long_lens() == (match r {
            Ok(d) => record_decoded(old(caches).long_lens(), d),
            Err(_) => old(caches).long_lens(),
        }),
        final(caches).cursor_slots() == old(caches).cursor_slots(),
        final(caches).victim() == old(caches).victim(),
        final(caches).shape_memo() == old(caches).shape_memo(),
{
    let end = bytes.len() as u32;
    if pos as usize >= bytes.len() {
        return Err(ErrorCode::ReadError);
    }
    let tag = bytes[pos as usize];
    if tag <= 0x7f {
        Ok(Decoded::Number(Num::Int(tag as i64)))
    } else if tag >= 0xe0 {
        Ok(Decoded::Number(Num::Int(tag as i64 - 256)))
    } else if tag == NIL {
        Ok(Decoded::Null)
    } else if tag == FALSE {
        Ok(Decoded::Bool(false))
    } else if tag == TRUE {
        Ok(Decoded::Bool(true))
    } else if INT8 <= tag && tag <= FLOAT64 {
        let n = read_number(bytes, pos, tag, end)?;
        Ok(Decoded::Number(n))
    } else if (FIXSTR_MIN <= tag && tag <= FIXSTR_MAX) || tag == STR8 || tag == STR16 || tag
        == STR32 || tag == STRREF8 || tag == STRREF16 || tag == STRREF32 {
        let ((content, len), _) = string_span_at(bytes, &state.strings, pos, end)?;
        caches.record_long(content, len);
        proof {
            reveal(Caches::wf);
        }
        Ok(Decoded::String { content, len })
    } else {
        proof {
            assert(pos != INVALID_OFFSET);
        }
        let meta = container_meta(bytes, state, caches, pos)?;
        if meta.kind == ContainerKind::Array {
            Ok(Decoded::Array { pos, count: meta.count })
        } else {
            Ok(Decoded::Object { pos, count: meta.count })
        }
    }
}

// ---------------------------------------------------------------------------
// Children, lookups and keys
// ---------------------------------------------------------------------------

/// What reading child `index` of a container gives: the element of an array or
/// shaped object, the value of pair `index` of a map. `check_next` also requires
/// the child to be skippable (the path that advances a cursor past it).
pub open spec fn spec_element(
    b: Seq<u8>,
    strings: Seq<(u32, u32)>,
    shapes: Seq<(u32, u32)>,
    m: ContainerMeta,
    index: u32,
    check_next: bool,
) -> Result<Decoded, ErrorCode> {
    if index >= m.count {
        Err(ErrorCode::IndexOutOfBounds)
    } else {
        let end = container_limit(b, m);
        match spec_child_pos(b, strings, shapes, m, index as nat) {
            None => Err(ErrorCode::ReadError),
            Some(p) => {
                let vpos: Option<int> = if m.kind == ContainerKind::Mapping {
                    match spec_pair_next(b, strings, shapes, p, end) {
                        None => None,
                        Some((v, _)) => Some(v),
                    }
                } else if check_next && spec_skip(b, shapes, p, end) is None {
                    None
                } else {
                    Some(p)
                };
                match vpos {
                    None => Err(ErrorCode::ReadError),
                    Some(v) => match spec_decode_value(b, strings, shapes, v) {
                        None => Err(ErrorCode::ReadError),
                        Some(d) => Ok(d),
                    },
                }
            },
        }
    }
}

/// Reading child `index` of the container whose tag is at `container`.
pub open spec fn spec_element_at(
    b: Seq<u8>,
    strings: Seq<(u32, u32)>,
    shapes: Seq<(u32, u32)>,
    container: u32,
    index: u32,
    check_next: bool,
) -> Result<Decoded, ErrorCode> {
    match spec_meta(b, shapes, container as int) {
        None => Err(ErrorCode::ReadError),
        Some(m) => spec_element(b, strings, shapes, m, index, check_next),
    }
}

/// How a result carrying a decoded value updates the lengths of long strings.
pub open spec fn record_result(lens: Map<u32, u32>, r: Result<Decoded, ErrorCode>) -> Map<u32, u32> {
    match r {
        Ok(d) => record_decoded(lens, d),
        Err(_) => lens,
    }
}

/// Where the children of a container must end.
pub fn container_end(meta: &ContainerMeta, bytes: &[u8]) -> (r: u32)
    requires
        bytes@.len() <= u32::MAX,
    ensures
        r == container_limit(bytes@, *meta),
{
    if meta.end == INVALID_OFFSET {
        bytes.len() as u32
    } else {
        meta.end
    }
}

/// The map key at `pos` (a string) and the position after it.
pub fn map_key_span_at(bytes: &[u8], strings: &Vec<(u32, u32)>, pos: u32, end: u32) -> (r: Result<
    ((u32, u32), u32),
    ErrorCode,
>)
    requires
        end <= bytes@.len(),
    ensures
        match spec_string_span(bytes@, strings@, pos as int, end as int) {
            Some((span, next)) => r == Ok::<((u32, u32), u32), ErrorCode>((span, next as u32)),
            None => r == Err::<((u32, u32), u32), ErrorCode>(ErrorCode::ReadError),
        },
{
    if pos as usize >= bytes.len() {
        return Err(ErrorCode::ReadError);
    }
    let tag = bytes[pos as usize];
    if FIXSTR_MIN <= tag && tag <= FIXSTR_MAX {
        let len = (tag - FIXSTR_MIN) as u32;
        let content = checked_add(pos, 1)?;
        let next = checked_add(content, len)?;
        if next <= end && next as usize <= bytes.len() {
            return Ok(((content, len), next));
        }
        return Err(ErrorCode::ReadError);
    }
    string_span_at(bytes, strings, pos, end)
}

/// Skip the map pair whose key is at `key_pos`: the value's position and the next pair's.
pub fn skip_map_pair(bytes: &[u8], state: &InputState, key_pos: u32, end: u32) -> (r: Result<(u32, u32), ErrorCode>)
    requires
        end <= bytes@.len(),
    ensures
        match spec_pair_next(bytes@, state.strings@, state.shapes@, key_pos as int, end as int) {
            Some((v, n)) => r == Ok::<(u32, u32), ErrorCode>((v as u32, n as u32)),
            None => r == Err::<(u32, u32), ErrorCode>(ErrorCode::ReadError),
        },
{
    let (_, value_pos) = map_key_span_at(bytes, &state.strings, key_pos, end)?;
    let next_pair = skip_value_with(bytes, &state.shapes, value_pos, end)?;
    Ok((value_pos, next_pair))
}

/// Where to start walking to child `index`: a cursor of the container at or before
/// `index`, or the first child.
fn cursor_start(caches: &Caches, container: u32, index: u32, first: u32) -> (r: (u32, u32))
    ensures
        (r.0 == 0 && r.1 == first) || exists|k: int|
            0 <= k < caches.cursor_slots().len() && (#[trigger] caches.cursor_slots()[k]).container
                == container && caches.cursor_slots()[k].next_index == r.0
                && caches.cursor_slots()[k].next_pos == r.1,
        r.0 <= index,
{
    let mut k: usize = 0;
    while k < caches.cursors.len()
        invariant
            k <= caches.cursors@.len(),
        decreases caches.cursors@.len() - k,
    {
        let c = caches.cursors[k];
        if c.container == container && index >= c.next_index {
            assert(caches.cursor_slots()[k as int] == c);
            return (c.next_index, c.next_pos);
        }
        k = k + 1;
    }
    (0, first)
}

/// Where to start walking to child `index` for a property lookup: the property
/// cursor when it is at or before `index`, or the first child.
fn property_cursor_start(caches: &Caches, container: u32, index: u32, first: u32) -> (r: (u32, u32))
    requires
        caches.cursor_slots().len() == CURSOR_CACHE_LEN,
    ensures
        (r.0 == 0 && r.1 == first) || (caches.cursor_slots()[1].container == container
            && caches.cursor_slots()[1].next_index == r.0 && caches.cursor_slots()[1].next_pos == r.1),
        r.0 <= index,
{
    let cursor = caches.cursors[1];
    if cursor.container == container && index >= cursor.next_index {
        (cursor.next_index, cursor.next_pos)
    } else {
        (0, first)
    }
}

/// Remember the start of child `index` as the property cursor.
fn update_property_cursor(caches: &mut Caches, container: u32, index: u32, pos: u32)
    requires
        caches.cursor_slots().len() == CURSOR_CACHE_LEN,
    ensures
        final(caches).cursor_slots() == old(caches).cursor_slots().update(
            1,
            Cursor { container, next_index: index, next_pos: pos },
        ),
        final(caches).container_slots() == old(caches).container_slots(),
        final(caches).shape_memo() == old(caches).shape_memo(),
        final(caches).long_lens() == old(caches).long_lens(),
        final(caches).cursor_victim == old(caches).cursor_victim,
{
    caches.cursors.set(1, Cursor { container, next_index: index, next_pos: pos });
}

/// The cursor slots and victim slot after recording `fresh`: a slot that already
/// tracks the container is refreshed and moved to the front (the victim becomes
/// slot one); otherwise the victim slot is replaced and the victim moves on.
pub open spec fn spec_cursor_update(slots: Seq<Cursor>, victim: usize, fresh: Cursor) -> (Seq<Cursor>, usize) {
    if slots[0].container == fresh.container {
        (slots.update(0, fresh), 1)
    } else if slots[1].container == fresh.container {
        (seq![fresh, slots[0]], 1)
    } else {
        (slots.update(victim as int, fresh), ((victim + 1) % (CURSOR_CACHE_LEN as int)) as usize)
    }
}

/// Remember where child `next_index` starts: refresh the container's cursor and
/// keep it first, or replace the next victim slot.
fn update_cursor(caches: &mut Caches, container: u32, next_index: u32, next_pos: u32)
    requires
        old(caches).cursor_slots().len() == CURSOR_CACHE_LEN,
        old(caches).cursor_victim < CURSOR_CACHE_LEN,
    ensures
        (final(caches).cursor_slots(), final(caches).cursor_victim) == spec_cursor_update(
            old(caches).cursor_slots(),
            old(caches).cursor_victim,
            (Cursor { container, next_index, next_pos }),
        ),
        final(caches).cursor_slots().len() == CURSOR_CACHE_LEN,
        final(caches).cursor_victim < CURSOR_CACHE_LEN,
        forall|k: int|
            0 <= k < CURSOR_CACHE_LEN ==> (#[trigger] final(caches).cursor_slots()[k] == Cursor {
                container,
                next_index,
                next_pos,
            } || exists|j: int|
                0 <= j < CURSOR_CACHE_LEN && final(caches).cursor_slots()[k] == #[trigger] old(
                    caches,
                ).cursor_slots()[j]),
        final(caches).container_slots() == old(caches).container_slots(),
        final(caches).shape_memo() == old(caches).shape_memo(),
        final(caches).long_lens() == old(caches).long_lens(),
{
    let fresh = Cursor { container, next_index, next_pos };
    let ghost before = caches.cursor_slots();
    if caches.cursors[0].container == container {
        caches.cursors.set(0, fresh);
        caches.cursor_victim = 1;
        proof {
            assert(caches.cursor_slots()[1] == before[1]);
            assert(caches.cursor_slots() =~= before.update(0, fresh));
        }
        return;
    }
    if caches.cursors[1].container == container {
        let first = caches.cursors[0];
        caches.cursors.set(0, fresh);
        caches.cursors.set(1, first);
        caches.cursor_victim = 1;
        proof {
            assert(caches.cursor_slots()[1] == before[0]);
            assert(caches.cursor_slots() =~= seq![fresh, before[0]]);
        }
        return;
    }
    let slot = caches.cursor_victim;
    caches.cursors.set(slot, fresh);
    caches.cursor_victim = (slot + 1) % CURSOR_CACHE_LEN;
    proof {
        assert(caches.cursor_slots() =~= before.update(slot as int, fresh));
        if slot == 0 {
            assert(caches.cursor_slots()[1] == before[1]);
        } else {
            assert(caches.cursor_slots()[0] == before[0]);
        }
    }
}

/// The child walk extends by one child.
proof fn lemma_child_pos_step(
    b: Seq<u8>,
    strings: Seq<(u32, u32)>,
    shapes: Seq<(u32, u32)>,
    m: ContainerMeta,
    i: nat,
    p: int,
)
    requires
        spec_child_pos(b, strings, shapes, m, i) == Some(p),
    ensures
        spec_child_pos(b, strings, shapes, m, i + 1) == (if m.kind == ContainerKind::Mapping {
            match spec_pair_next(b, strings, shapes, p, container_limit(b, m)) {
                None => None,
                Some((_, n)) => Some(n),
            }
        } else {
            spec_skip(b, shapes, p, container_limit(b, m))
        }),
{
}

/// If child `j` cannot be reached, no later child can.
proof fn lemma_child_pos_none(
    b: Seq<u8>,
    strings: Seq<(u32, u32)>,
    shapes: Seq<(u32, u32)>,
    m: ContainerMeta,
    j: nat,
    i: nat,
)
    requires
        j <= i,
        spec_child_pos(b, strings, shapes, m, j) is None,
    ensures
        spec_child_pos(b, strings, shapes, m, i) is None,
    decreases i - j,
{
    if j < i {
        lemma_child_pos_none(b, strings, shapes, m, j, (i - 1) as nat);
    }
}

/// Cursors refreshed with a valid cursor stay valid.
proof fn lemma_cursors_refreshed(
    b: Seq<u8>,
    state: &InputState,
    before: Seq<Cursor>,
    after: Seq<Cursor>,
    fresh: Cursor,
)
    requires
        before.len() == CURSOR_CACHE_LEN,
        after.len() == CURSOR_CACHE_LEN,
        cursor_ok(b, state.strings@, state.shapes@, fresh),
        forall|k: int|
            0 <= k < CURSOR_CACHE_LEN ==> #[trigger] cursor_ok(
                b,
                state.strings@,
                state.shapes@,
                before[k],
            ),
        forall|k: int|
            0 <= k < CURSOR_CACHE_LEN ==> (#[trigger] after[k] == fresh || exists|j: int|
                0 <= j < CURSOR_CACHE_LEN && after[k] == #[trigger] before[j]),
    ensures
        forall|k: int|
            0 <= k < CURSOR_CACHE_LEN ==> #[trigger] cursor_ok(b, state.strings@, state.shapes@, after[k]),
{
    assert forall|k: int| 0 <= k < CURSOR_CACHE_LEN implies #[trigger] cursor_ok(
        b,
        state.strings@,
        state.shapes@,
        after[k],
    ) by {
        if after[k] != fresh {
            let j = choose|j: int| 0 <= j < CURSOR_CACHE_LEN && after[k] == #[trigger] before[j];
            assert(cursor_ok(b, state.strings@, state.shapes@, before[j]));
        }
    }
}

/// Walk from child `current`, which starts at `pos`, to child `index`.
fn walk_to(
    bytes: &[u8],
    state: &InputState,
    meta: &ContainerMeta,
    current: u32,
    pos: u32,
    index: u32,
) -> (r: Result<u32, ErrorCode>)
    requires
        bytes@.len() <= u32::MAX,
        current <= index,
        container_limit(bytes@, *meta) <= bytes@.len(),
        spec_child_pos(bytes@, state.strings@, state.shapes@, *meta, current as nat) == Some(
            pos as int,
        ),
    ensures
        match spec_child_pos(bytes@, state.strings@, state.shapes@, *meta, index as nat) {
            Some(p) => r == Ok::<u32, ErrorCode>(p as u32),
            None => r == Err::<u32, ErrorCode>(ErrorCode::ReadError),
        },
{
    let end = container_end(meta, bytes);
    let mut current = current;
    let mut pos = pos;
    while current < index
        invariant
            bytes@.len() <= u32::MAX,
            current <= index,
            end == container_limit(bytes@, *meta),
            end <= bytes@.len(),
            spec_child_pos(bytes@, state.strings@, state.shapes@, *meta, current as nat) == Some(
                pos as int,
            ),
        decreases index - current,
    {
        let step = if meta.kind == ContainerKind::Mapping {
            match skip_map_pair(bytes, state, pos, end) {
                Ok((_, n)) => Ok(n),
                Err(e) => Err(e),
            }
        } else {
            skip_value_with(bytes, &state.shapes, pos, end)
        };
        proof {
            lemma_child_pos_step(bytes@, state.strings@, state.shapes@, *meta, current as nat, pos as int);
        }
        match step {
            Ok(n) => {
                pos = n;
                current = current + 1;
            },
            Err(e) => {
                proof {
                    lemma_child_pos_none(bytes@, state.strings@, state.shapes@, *meta, (current + 1) as nat, index as nat);
                }
                return Err(e);
            },
        }
    }
    Ok(pos)
}

/// A container's children lie inside the payload.
pub proof fn lemma_meta_bounds(b: Seq<u8>, shapes: Seq<(u32, u32)>, pos: int)
    requires
        b.len() <= u32::MAX,
    ensures
        spec_meta(b, shapes, pos) matches Some(m) ==> container_limit(b, m) <= b.len()
            && m.first_child <= container_limit(b, m) && m.tag_offset == pos && pos < b.len(),
{
}

/// Read child `index` of the container whose tag is at `container`; `advance_cursor`
/// chooses the cursor that is resumed and refreshed (iteration versus property lookup).
#[verifier::spinoff_prover]
#[verifier::rlimit(60)]
pub fn element_at(
    bytes: &[u8],
    state: &InputState,
    caches: &mut Caches,
    container: u32,
    index: u32,
    advance_cursor: bool,
) -> (r: Result<Decoded, ErrorCode>)
    requires
        bytes@.len() <= u32::MAX,
        old(caches).wf(bytes@, state),
    ensures
        final(caches).wf(bytes@, state),
        r == spec_element_at(
            bytes@,
            state.strings@,
            state.shapes@,
            container,
            index,
            advance_cursor,
        ),
        final(caches).long_lens() == record_result(old(caches).long_lens(), r),
        final(caches).shape_memo() == old(caches).shape_memo(),
        r is Err ==> final(caches).cursor_slots() == old(caches).cursor_slots() && final(caches).victim() == old(
            caches,
        ).victim(),
{
    let meta = container_meta(bytes, state, caches, container)?;
    if index >= meta.count {
        return Err(ErrorCode::IndexOutOfBounds);
    }
    proof {
        reveal(Caches::wf);
        assert(meta == spec_meta(bytes@, state.shapes@, container as int).unwrap());
        lemma_meta_bounds(bytes@, state.shapes@, container as int);
    }
    let end = container_end(&meta, bytes);
    let (current, start_pos) = if advance_cursor {
        cursor_start(caches, container, index, meta.first_child)
    } else {
        property_cursor_start(caches, container, index, meta.first_child)
    };
    proof {
        if current != 0 || start_pos != meta.first_child {
            let k = choose|k: int|
                0 <= k < caches.cursor_slots().len() && (#[trigger] caches.cursor_slots()[k]).container
                    == container && caches.cursor_slots()[k].next_index == current
                    && caches.cursor_slots()[k].next_pos == start_pos;
            assert(cursor_ok(bytes@, state.strings@, state.shapes@, caches.cursors@[k]));
        }
    }
    let pos = walk_to(bytes, state, &meta, current, start_pos, index)?;
    proof {
        lemma_child_pos_step(bytes@, state.strings@, state.shapes@, meta, index as nat, pos as int);
    }
    if meta.kind == ContainerKind::Mapping {
        let (value_pos, next) = skip_map_pair(bytes, state, pos, end)?;
        let value = decode_value(bytes, state, caches, value_pos)?;
        let ghost before = caches.cursor_slots();
        proof {
            reveal(Caches::wf);
        }
        update_cursor(caches, container, index + 1, next);
        proof {
            reveal(Caches::wf);
            lemma_cursors_refreshed(bytes@, state, before, caches.cursor_slots(), Cursor { container, next_index: (index + 1) as u32, next_pos: next });
        }
        Ok(value)
    } else if advance_cursor {
        let next = skip_value_with(bytes, &state.shapes, pos, end)?;
        let value = decode_value(bytes, state, caches, pos)?;
        let ghost before = caches.cursor_slots();
        proof {
            reveal(Caches::wf);
        }
        update_cursor(caches, container, index + 1, next);
        proof {
            reveal(Caches::wf);
            lemma_cursors_refreshed(bytes@, state, before, caches.cursor_slots(), Cursor { container, next_index: (index + 1) as u32, next_pos: next });
        }
        Ok(value)
    } else {
        let value = decode_value(bytes, state, caches, pos)?;
        let ghost before = caches.cursor_slots();
        proof {
            reveal(Caches::wf);
        }
        update_property_cursor(caches, container, index, pos);
        proof {
            reveal(Caches::wf);
            assert(caches.cursor_slots()[0] == before[0]);
            lemma_cursors_refreshed(bytes@, state, before, caches.cursor_slots(), Cursor { container, next_index: index, next_pos: pos });
        }
        Ok(value)
    }
}

/// Whether the bytes of `span` are exactly `query`.
pub fn span_matches(bytes: &[u8], span: (u32, u32), query: &[u8]) -> (r: bool)
    ensures
        r == span_matches_spec(bytes@, span, query@),
{
    if span.1 as usize != query.len() {
        return false;
    }
    let start = span.0 as u64;
    let stop = start + span.1 as u64;
    if stop > bytes.len() as u64 {
        return false;
    }
    let len = span.1 as usize;
    let s = span.0 as usize;
    let mut i: usize = 0;
    while i < len
        invariant
            len == query@.len(),
            len == span.1,
            s == span.0,
            s + len <= bytes@.len(),
            bytes@.len() == bytes.len(),
            i <= len,
            forall|k: int| 0 <= k < i ==> bytes@[s + k] == query@[k],
        decreases len - i,
    {
        if bytes[s + i] != query[i] {
            proof {
                assert(bytes@.subrange(s as int, s + len)[i as int] != query@[i as int]);
            }
            return false;
        }
        i = i + 1;
    }
    assert(bytes@.subrange(s as int, s + len) =~= query@);
    true
}

/// A span holds the query exactly when its bytes are the query.
pub proof fn lemma_span_matches_bytes(b: Seq<u8>, span: (u32, u32), q: Seq<u8>)
    ensures
        span_matches_spec(b, span, q) <==> span_bytes(b, span) == Some(q),
{
    if span_bytes(b, span) == Some(q) {
        assert(b.subrange(span.0 as int, span.0 + span.1).len() == span.1);
    }
}

/// Scanning the pairs of a map for the key `q`, from pair `index` at `pos`, for at most
/// `remaining` pairs, wrapping to the first pair after the last. `None` on malformed
/// data; otherwise the matching pair's index, key position and value position, if any.
pub open spec fn spec_map_scan(
    b: Seq<u8>,
    strings: Seq<(u32, u32)>,
    shapes: Seq<(u32, u32)>,
    m: ContainerMeta,
    q: Seq<u8>,
    index: nat,
    pos: int,
    remaining: nat,
) -> Option<Option<(nat, int, int)>>
    decreases remaining,
{
    if remaining == 0 {
        Some(None)
    } else {
        let end = container_limit(b, m);
        let i: nat = if index == m.count {
            0
        } else {
            index
        };
        let p: int = if index == m.count {
            m.first_child as int
        } else {
            pos
        };
        match spec_string_span(b, strings, p, end) {
            None => None,
            Some((span, v)) => if span_matches_spec(b, span, q) {
                Some(Some((i, p, v)))
            } else {
                match spec_skip(b, shapes, v, end) {
                    None => None,
                    Some(n) => spec_map_scan(b, strings, shapes, m, q, i + 1, n, (remaining - 1) as nat),
                }
            },
        }
    }
}

/// Looking up key `q` in a map: the scan starts at the property cursor when it is
/// inside this map, else at the first pair.
pub open spec fn spec_map_find(
    b: Seq<u8>,
    strings: Seq<(u32, u32)>,
    shapes: Seq<(u32, u32)>,
    m: ContainerMeta,
    q: Seq<u8>,
    cursor: Cursor,
) -> Result<Option<Decoded>, ErrorCode> {
    let resume = cursor.container == m.tag_offset && cursor.next_index < m.count;
    let s: nat = if resume {
        cursor.next_index as nat
    } else {
        0
    };
    let p: int = if resume {
        cursor.next_pos as int
    } else {
        m.first_child as int
    };
    match spec_map_scan(b, strings, shapes, m, q, s, p, m.count as nat) {
        None => Err(ErrorCode::ReadError),
        Some(None) => Ok(None),
        Some(Some((_, _, v))) => match spec_decode_value(b, strings, shapes, v) {
            None => Err(ErrorCode::ReadError),
            Some(d) => Ok(Some(d)),
        },
    }
}

/// The first of `count` keys at `keys[start..]`, from key `j` on, that holds `q`.
pub open spec fn first_match_from(
    b: Seq<u8>,
    keys: Seq<(u32, u32)>,
    start: int,
    count: nat,
    q: Seq<u8>,
    j: nat,
) -> Option<nat>
    decreases count - j,
{
    if j >= count {
        None
    } else if span_matches_spec(b, keys[start + j], q) {
        Some(j)
    } else {
        first_match_from(b, keys, start, count, q, j + 1)
    }
}

/// Looking up key `q` in a shaped object: the first key of its shape that holds
/// `q` gives the value at the same index.
pub open spec fn spec_shape_find(
    b: Seq<u8>,
    strings: Seq<(u32, u32)>,
    shapes: Seq<(u32, u32)>,
    keys: Seq<(u32, u32)>,
    m: ContainerMeta,
    q: Seq<u8>,
) -> Result<Option<Decoded>, ErrorCode> {
    if m.count == 0 {
        Ok(None)
    } else if shapes[m.shape_id as int].1 != m.count {
        Err(ErrorCode::ReadError)
    } else {
        match first_match_from(b, keys, shapes[m.shape_id as int].0 as int, m.count as nat, q, 0) {
            None => Ok(None),
            Some(j) => match spec_element(b, strings, shapes, m, j as u32, false) {
                Ok(d) => Ok(Some(d)),
                Err(e) => Err(e),
            },
        }
    }
}

/// Looking up property `q` of the object whose tag is at `container`.
pub open spec fn spec_find_property(
    b: Seq<u8>,
    state: &InputState,
    cursor: Cursor,
    container: u32,
    q: Seq<u8>,
) -> Result<Option<Decoded>, ErrorCode> {
    match spec_meta(b, state.shapes@, container as int) {
        None => Err(ErrorCode::ReadError),
        Some(m) => if m.kind == ContainerKind::Array {
            Err(ErrorCode::NotAnObject)
        } else if m.kind == ContainerKind::Mapping {
            spec_map_find(b, state.strings@, state.shapes@, m, q, cursor)
        } else {
            spec_shape_find(b, state.strings@, state.shapes@, state.shape_keys@, m, q)
        },
    }
}

/// The key of child `index` of the object whose tag is at `container`: a shape key,
/// or the key of pair `index` of a map (whose value must be skippable).
pub open spec fn spec_key_at(
    b: Seq<u8>,
    state: &InputState,
    container: u32,
    index: u32,
) -> Result<(u32, u32), ErrorCode> {
    match spec_meta(b, state.shapes@, container as int) {
        None => Err(ErrorCode::ReadError),
        Some(m) => if m.kind == ContainerKind::Array {
            Err(ErrorCode::NotAnObject)
        } else if index >= m.count {
            Err(ErrorCode::IndexOutOfBounds)
        } else if m.kind == ContainerKind::Shape {
            Ok(state.shape_keys@[state.shapes@[m.shape_id as int].0 + index])
        } else {
            let end = container_limit(b, m);
            match spec_child_pos(b, state.strings@, state.shapes@, m, index as nat) {
                None => Err(ErrorCode::ReadError),
                Some(p) => match spec_string_span(b, state.strings@, p, end) {
                    None => Err(ErrorCode::ReadError),
                    Some((span, v)) => if spec_skip(b, state.shapes@, v, end) is None {
                        Err(ErrorCode::ReadError)
                    } else {
                        Ok(span)
                    },
                },
            }
        },
    }
}

/// Look up key `query` in the map `meta`.
#[verifier::spinoff_prover]
#[verifier::rlimit(50)]
fn map_find(
    bytes: &[u8],
    state: &InputState,
    caches: &mut Caches,
    meta: ContainerMeta,
    query: &[u8],
) -> (r: Result<Option<Decoded>, ErrorCode>)
    requires
        bytes@.len() <= u32::MAX,
        old(caches).wf(bytes@, state),
        meta.kind == ContainerKind::Mapping,
        spec_meta(bytes@, state.shapes@, meta.tag_offset as int) == Some(meta),
    ensures
        final(caches).wf(bytes@, state),
        r == spec_map_find(bytes@, state.strings@, state.shapes@, meta, query@, old(caches).cursor_slots()[1]),
        final(caches).long_lens() == (match r {
            Ok(Some(d)) => record_decoded(old(caches).long_lens(), d),
            _ => old(caches).long_lens(),
        }),
        final(caches).shape_memo() == old(caches).shape_memo(),
{
    proof {
        reveal(Caches::wf);
        lemma_meta_bounds(bytes@, state.shapes@, meta.tag_offset as int);
    }
    let end = container_end(&meta, bytes);
    let cursor = caches.cursors[1];
    let resume = cursor.container == meta.tag_offset && cursor.next_index < meta.count;
    let (mut index, mut pos) = if resume {
        (cursor.next_index, cursor.next_pos)
    } else {
        (0, meta.first_child)
    };
    proof {
        assert(cursor_ok(bytes@, state.strings@, state.shapes@, caches.cursors@[1]));
    }
    let ghost s = index;
    let ghost p0 = pos;
    let mut t: u32 = 0;
    while t < meta.count
        invariant
            bytes@.len() <= u32::MAX,
            caches.wf(bytes@, state),
            caches == old(caches),
            meta.kind == ContainerKind::Mapping,
            spec_meta(bytes@, state.shapes@, meta.tag_offset as int) == Some(meta),
            end == container_limit(bytes@, meta),
            end <= bytes@.len(),
            t <= meta.count,
            index <= meta.count,
            spec_child_pos(bytes@, state.strings@, state.shapes@, meta, index as nat) == Some(pos as int),
            spec_map_scan(bytes@, state.strings@, state.shapes@, meta, query@, s as nat, p0 as int, meta.count as nat)
                == spec_map_scan(bytes@, state.strings@, state.shapes@, meta, query@, index as nat, pos as int, (meta.count - t) as nat),
            spec_map_find(bytes@, state.strings@, state.shapes@, meta, query@, old(caches).cursor_slots()[1])
                == (match spec_map_scan(bytes@, state.strings@, state.shapes@, meta, query@, s as nat, p0 as int, meta.count as nat) {
                    None => Err(ErrorCode::ReadError),
                    Some(None) => Ok(None),
                    Some(Some((_, _, v))) => match spec_decode_value(bytes@, state.strings@, state.shapes@, v) {
                        None => Err(ErrorCode::ReadError),
                        Some(d) => Ok(Some(d)),
                    },
                }),
        decreases meta.count - t,
    {
        if index == meta.count {
            index = 0;
            pos = meta.first_child;
        }
        let pair_pos = pos;
        let (span, value_pos) = map_key_span_at(bytes, &state.strings, pair_pos, end)?;
        if span_matches(bytes, span, query) {
            let value = decode_value(bytes, state, caches, value_pos)?;
            proof {
                reveal(Caches::wf);
            }
            update_property_cursor(caches, meta.tag_offset, index, pair_pos);
            proof {
                reveal(Caches::wf);
                assert(caches.cursors@[0] == old(caches).cursors@[0]);
                assert(cursor_ok(bytes@, state.strings@, state.shapes@, caches.cursors@[1]));
            }
            return Ok(Some(value));
        }
        proof {
            lemma_child_pos_step(bytes@, state.strings@, state.shapes@, meta, index as nat, pair_pos as int);
        }
        index = index + 1;
        pos = skip_value_with(bytes, &state.shapes, value_pos, end)?;
        t = t + 1;
    }
    Ok(None)
}

/// Look up key `query` in the shaped object `meta`: the first matching key wins.
#[verifier::spinoff_prover]
fn shape_find(
    bytes: &[u8],
    state: &InputState,
    caches: &mut Caches,
    meta: ContainerMeta,
    query: &[u8],
) -> (r: Result<Option<Decoded>, ErrorCode>)
    requires
        bytes@.len() <= u32::MAX,
        state.wf(),
        old(caches).wf(bytes@, state),
        meta.kind == ContainerKind::Shape,
        spec_meta(bytes@, state.shapes@, meta.tag_offset as int) == Some(meta),
    ensures
        final(caches).wf(bytes@, state),
        r == spec_shape_find(bytes@, state.strings@, state.shapes@, state.shape_keys@, meta, query@),
        final(caches).long_lens() == (match r {
            Ok(Some(d)) => record_decoded(old(caches).long_lens(), d),
            _ => old(caches).long_lens(),
        }),
{
    proof {
        reveal(Caches::wf);
    }
    if meta.count == 0 {
        return Ok(None);
    }
    let id = meta.shape_id as usize;
    let (keys_start, keys_len) = state.shapes[id];
    if keys_len != meta.count {
        return Err(ErrorCode::ReadError);
    }
    proof {
        assert(state.shapes@[id as int].0 + state.shapes@[id as int].1 <= state.shape_keys@.len());
    }
    let ghost keys = state.shape_keys@;
    let ghost ks = keys_start as int;
    let ghost n = meta.count as nat;
    let recent = caches.shape_lookup[id];
    let start = if recent < meta.count {
        recent
    } else {
        0
    };
    let ghost q = query@;
    let mut matched: Option<u32> = None;
    let mut index = start;
    while matched.is_none() && index < meta.count
        invariant
            start <= index <= meta.count,
            meta.count == keys_len,
            ks + keys_len <= state.shape_keys.len(),
            keys == state.shape_keys@,
            ks == keys_start,
            q == query@,
            forall|k: int| start <= k < index ==> !span_matches_spec(bytes@, #[trigger] keys[ks + k], q),
            matched matches Some(m) ==> m == index && index < meta.count && span_matches_spec(
                bytes@,
                keys[ks + index],
                q,
            ),
        decreases meta.count - index + (if matched is None { 1int } else { 0int }),
    {
        if span_matches(bytes, state.shape_keys[keys_start as usize + index as usize], query) {
            matched = Some(index);
        } else {
            index = index + 1;
        }
    }
    if matched.is_none() {
        index = 0;
        while matched.is_none() && index < start
            invariant
                index <= start < meta.count,
                meta.count == keys_len,
                ks + keys_len <= state.shape_keys.len(),
                keys == state.shape_keys@,
                ks == keys_start,
                q == query@,
                forall|k: int| start <= k < meta.count ==> !span_matches_spec(bytes@, #[trigger] keys[ks + k], q),
                forall|k: int| 0 <= k < index ==> !span_matches_spec(bytes@, #[trigger] keys[ks + k], q),
                matched matches Some(m) ==> m == index && index < start && span_matches_spec(
                    bytes@,
                    keys[ks + index],
                    q,
                ),
            decreases start - index + (if matched is None { 1int } else { 0int }),
        {
            if span_matches(bytes, state.shape_keys[keys_start as usize + index as usize], query) {
                matched = Some(index);
            } else {
                index = index + 1;
            }
        }
    }
    let hit = match matched {
        None => {
            proof {
                lemma_no_match(bytes@, keys, ks, n, q, 0);
            }
            return Ok(None);
        },
        Some(h) => h,
    };
    let mut first = hit;
    if hit != recent {
        let mut earlier: u32 = 0;
        let mut found = false;
        while !found && earlier < hit
            invariant
                earlier <= hit < meta.count,
                meta.count == keys_len,
                ks + keys_len <= state.shape_keys.len(),
                keys == state.shape_keys@,
                ks == keys_start,
                q == query@,
                forall|k: int| 0 <= k < earlier ==> !span_matches_spec(bytes@, #[trigger] keys[ks + k], q),
                found ==> earlier < hit && span_matches_spec(bytes@, keys[ks + earlier], q),
            decreases hit - earlier + (if found { 0int } else { 1int }),
        {
            if span_matches(bytes, state.shape_keys[keys_start as usize + earlier as usize], query) {
                found = true;
            } else {
                earlier = earlier + 1;
            }
        }
        if found {
            first = earlier;
        } else {
            proof {
                assert forall|k: int| 0 <= k < hit implies !span_matches_spec(bytes@, #[trigger] keys[ks + k], q) by {
                    if k >= earlier {
                        assert(k < earlier || k >= hit);
                    }
                }
            }
        }
    } else {
        proof {
            assert(memo_ok(bytes@, state, id as int, caches.shape_lookup@[id as int]));
            lemma_span_matches_bytes(bytes@, keys[ks + hit], q);
            assert forall|k: int| 0 <= k < hit implies !span_matches_spec(bytes@, #[trigger] keys[ks + k], q) by {
                lemma_span_matches_bytes(bytes@, keys[ks + k], q);
            }
        }
    }
    proof {
        lemma_first_match(bytes@, keys, ks, n, q, 0, first as nat);
        lemma_span_matches_bytes(bytes@, keys[ks + first], q);
        assert forall|k: int| 0 <= k < first implies span_bytes(bytes@, #[trigger] keys[ks + k]) != span_bytes(
            bytes@,
            keys[ks + first],
        ) by {
            lemma_span_matches_bytes(bytes@, keys[ks + k], q);
        }
        assert(memo_ok(bytes@, state, id as int, first));
    }
    let ghost memo_before = caches.shape_lookup@;
    caches.shape_lookup.set(id, first);
    proof {
        assert forall|s: int| 0 <= s < caches.shape_lookup@.len() implies #[trigger] memo_ok(
            bytes@,
            state,
            s,
            caches.shape_lookup@[s],
        ) by {
            if s != id as int {
                assert(caches.shape_lookup@[s] == memo_before[s]);
            }
        }
        lemma_meta_bounds(bytes@, state.shapes@, meta.tag_offset as int);
    }
    match element_at(bytes, state, caches, meta.tag_offset, first, false) {
        Ok(d) => Ok(Some(d)),
        Err(e) => Err(e),
    }
}

/// Look up property `query` of the object whose tag is at `container`: `Ok(None)`
/// when it has no such key.
#[verifier::spinoff_prover]
pub fn find_property(
    bytes: &[u8],
    state: &InputState,
    caches: &mut Caches,
    container: u32,
    query: &[u8],
) -> (r: Result<Option<Decoded>, ErrorCode>)
    requires
        bytes@.len() <= u32::MAX,
        state.wf(),
        old(caches).wf(bytes@, state),
    ensures
        final(caches).wf(bytes@, state),
        r == spec_find_property(
            bytes@,
            state,
            old(caches).cursor_slots()[1],
            container,
            query@,
        ),
        final(caches).long_lens() == (match r {
            Ok(Some(d)) => record_decoded(old(caches).long_lens(), d),
            _ => old(caches).long_lens(),
        }),
{
    let meta = container_meta(bytes, state, caches, container)?;
    if meta.kind == ContainerKind::Array {
        return Err(ErrorCode::NotAnObject);
    }
    proof {
        lemma_meta_bounds(bytes@, state.shapes@, container as int);
    }
    if meta.kind == ContainerKind::Mapping {
        map_find(bytes, state, caches, meta, query)
    } else {
        shape_find(bytes, state, caches, meta, query)
    }
}

/// The key of child `index` of the object whose tag is at `container`, as a byte span.
#[verifier::spinoff_prover]
#[verifier::rlimit(30)]
pub fn key_at(
    bytes: &[u8],
    state: &InputState,
    caches: &mut Caches,
    container: u32,
    index: u32,
) -> (r: Result<(u32, u32), ErrorCode>)
    requires
        bytes@.len() <= u32::MAX,
        state.wf(),
        old(caches).wf(bytes@, state),
    ensures
        final(caches).wf(bytes@, state),
        r == spec_key_at(bytes@, state, container, index),
        final(caches).long_lens() == (match r {
            Ok(span) => record_long(old(caches).long_lens(), span.0, span.1),
            Err(_) => old(caches).long_lens(),
        }),
        final(caches).shape_memo() == old(caches).shape_memo(),
{
    let meta = container_meta(bytes, state, caches, container)?;
    if meta.kind == ContainerKind::Array {
        return Err(ErrorCode::NotAnObject);
    }
    if index >= meta.count {
        return Err(ErrorCode::IndexOutOfBounds);
    }
    proof {
        lemma_meta_bounds(bytes@, state.shapes@, container as int);
    }
    if meta.kind == ContainerKind::Shape {
        let (start, _) = state.shapes[meta.shape_id as usize];
        proof {
            assert(state.shapes@[meta.shape_id as int].0 + state.shapes@[meta.shape_id as int].1
                <= state.shape_keys@.len());
            assert(start + index < state.shape_keys.len());
        }
        let span = state.shape_keys[start as usize + index as usize];
        proof {
            reveal(Caches::wf);
        }
        caches.record_long(span.0, span.1);
        proof {
            reveal(Caches::wf);
        }
        return Ok(span);
    }
    map_key_at(bytes, state, caches, meta, index)
}

/// The key of pair `index` of the map `meta`, walking from the iteration cursor.
#[verifier::spinoff_prover]
#[verifier::rlimit(30)]
fn map_key_at(
    bytes: &[u8],
    state: &InputState,
    caches: &mut Caches,
    meta: ContainerMeta,
    index: u32,
) -> (r: Result<(u32, u32), ErrorCode>)
    requires
        bytes@.len() <= u32::MAX,
        old(caches).wf(bytes@, state),
        meta.kind == ContainerKind::Mapping,
        index < meta.count,
        spec_meta(bytes@, state.shapes@, meta.tag_offset as int) == Some(meta),
    ensures
        final(caches).wf(bytes@, state),
        r == (match spec_child_pos(bytes@, state.strings@, state.shapes@, meta, index as nat) {
            None => Err(ErrorCode::ReadError),
            Some(p) => match spec_string_span(bytes@, state.strings@, p, container_limit(bytes@, meta)) {
                None => Err(ErrorCode::ReadError),
                Some((span, v)) => if spec_skip(bytes@, state.shapes@, v, container_limit(bytes@, meta)) is None {
                    Err(ErrorCode::ReadError)
                } else {
                    Ok(span)
                },
            },
        }),
        final(caches).long_lens() == (match r {
            Ok(span) => record_long(old(caches).long_lens(), span.0, span.1),
            Err(_) => old(caches).long_lens(),
        }),
        final(caches).shape_memo() == old(caches).shape_memo(),
{
    proof {
        reveal(Caches::wf);
        lemma_meta_bounds(bytes@, state.shapes@, meta.tag_offset as int);
    }
    let container = meta.tag_offset;
    let end = container_end(&meta, bytes);
    let (current, start_pos) = cursor_start(caches, container, index, meta.first_child);
    proof {
        if current != 0 || start_pos != meta.first_child {
            let k = choose|k: int|
                0 <= k < caches.cursor_slots().len() && (#[trigger] caches.cursor_slots()[k]).container
                    == container && caches.cursor_slots()[k].next_index == current
                    && caches.cursor_slots()[k].next_pos == start_pos;
            assert(cursor_ok(bytes@, state.strings@, state.shapes@, caches.cursors@[k]));
        }
    }
    let pos = walk_to(bytes, state, &meta, current, start_pos, index)?;
    proof {
        lemma_child_pos_step(bytes@, state.strings@, state.shapes@, meta, index as nat, pos as int);
    }
    let (span, value_pos) = map_key_span_at(bytes, &state.strings, pos, end)?;
    let next = skip_value_with(bytes, &state.shapes, value_pos, end)?;
    caches.record_long(span.0, span.1);
    let ghost before = caches.cursor_slots();
    proof {
        reveal(Caches::wf);
    }
    update_cursor(caches, container, index + 1, next);
    proof {
        reveal(Caches::wf);
        lemma_cursors_refreshed(
            bytes@,
            state,
            before,
            caches.cursor_slots(),
            Cursor { container, next_index: (index + 1) as u32, next_pos: next },
        );
    }
    Ok(span)
}

/// With no match among keys `j..count`, the search from `j` finds nothing.
proof fn lemma_no_match(b: Seq<u8>, keys: Seq<(u32, u32)>, start: int, count: nat, q: Seq<u8>, j: nat)
    requires
        forall|k: int| j <= k < count ==> !span_matches_spec(b, #[trigger] keys[start + k], q),
    ensures
        first_match_from(b, keys, start, count, q, j) is None,
    decreases count - j,
{
    if j < count {
        assert(!span_matches_spec(b, keys[start + j], q));
        lemma_no_match(b, keys, start, count, q, j + 1);
    }
}

/// When key `m` matches and none of keys `j..m` does, the search from `j` finds `m`.
proof fn lemma_first_match(
    b: Seq<u8>,
    keys: Seq<(u32, u32)>,
    start: int,
    count: nat,
    q: Seq<u8>,
    j: nat,
    m: nat,
)
    requires
        j <= m < count,
        span_matches_spec(b, keys[start + m], q),
        forall|k: int| j <= k < m ==> !span_matches_spec(b, #[trigger] keys[start + k], q),
    ensures
        first_match_from(b, keys, start, count, q, j) == Some(m),
    decreases m - j,
{
    if j < m {
        assert(!span_matches_spec(b, keys[start + j], q));
        lemma_first_match(b, keys, start, count, q, j + 1, m);
    }
}

// ---------------------------------------------------------------------------
// Map lookups and the property cursor
// ---------------------------------------------------------------------------

/// Whether the key of pair `k` of the map `m` holds `q`.
pub open spec fn key_matches(
    b: Seq<u8>,
    strings: Seq<(u32, u32)>,
    shapes: Seq<(u32, u32)>,
    m: ContainerMeta,
    q: Seq<u8>,
    k: nat,
) -> bool {
    match spec_child_pos(b, strings, shapes, m, k) {
        None => false,
        Some(p) => match spec_string_span(b, strings, p, container_limit(b, m)) {
            None => false,
            Some((span, _)) => span_matches_spec(b, span, q),
        },
    }
}

/// The pair whose key holds `q` that a scan meets first, starting at pair `i0`
/// (the end wrapping to the first pair) and looking at `r` pairs.
pub open spec fn first_hit(
    b: Seq<u8>,
    strings: Seq<(u32, u32)>,
    shapes: Seq<(u32, u32)>,
    m: ContainerMeta,
    q: Seq<u8>,
    i0: nat,
    r: nat,
) -> Option<nat>
    decreases r,
{
    if r == 0 {
        None
    } else {
        let i: nat = if i0 == m.count {
            0
        } else {
            i0
        };
        if key_matches(b, strings, shapes, m, q, i) {
            Some(i)
        } else {
            first_hit(b, strings, shapes, m, q, i + 1, (r - 1) as nat)
        }
    }
}

/// The value position of pair `k`.
pub open spec fn pair_value_pos(
    b: Seq<u8>,
    strings: Seq<(u32, u32)>,
    shapes: Seq<(u32, u32)>,
    m: ContainerMeta,
    k: nat,
) -> int {
    spec_string_span(b, strings, spec_child_pos(b, strings, shapes, m, k).unwrap(), container_limit(b, m)).unwrap().1
}

/// Every pair of the map can be walked: the position after the last pair exists.
pub open spec fn pairs_walkable(b: Seq<u8>, strings: Seq<(u32, u32)>, shapes: Seq<(u32, u32)>, m: ContainerMeta) -> bool {
    spec_child_pos(b, strings, shapes, m, m.count as nat) is Some
}

/// On a walkable map, a scan from pair `i0` over `r` pairs finds the first hit.
proof fn lemma_scan_is_first_hit(
    b: Seq<u8>,
    strings: Seq<(u32, u32)>,
    shapes: Seq<(u32, u32)>,
    m: ContainerMeta,
    q: Seq<u8>,
    i0: nat,
    r: nat,
)
    requires
        m.kind == ContainerKind::Mapping,
        pairs_walkable(b, strings, shapes, m),
        i0 <= m.count,
        r <= m.count,
    ensures
        spec_map_scan(b, strings, shapes, m, q, i0, spec_child_pos(b, strings, shapes, m, i0).unwrap(), r)
            == (match first_hit(b, strings, shapes, m, q, i0, r) {
            None => Some(None),
            Some(k) => Some(
                Some((k, spec_child_pos(b, strings, shapes, m, k).unwrap(), pair_value_pos(b, strings, shapes, m, k))),
            ),
        }),
    decreases r,
{
    if r > 0 {
        let i: nat = if i0 == m.count {
            0
        } else {
            i0
        };
        if spec_child_pos(b, strings, shapes, m, i + 1) is None {
            lemma_child_pos_none(b, strings, shapes, m, i + 1, m.count as nat);
        }
        if spec_child_pos(b, strings, shapes, m, i) is None {
            lemma_child_pos_none(b, strings, shapes, m, i, m.count as nat);
        }
        lemma_child_pos_step(b, strings, shapes, m, i, spec_child_pos(b, strings, shapes, m, i).unwrap());
        if !key_matches(b, strings, shapes, m, q, i) {
            lemma_scan_is_first_hit(b, strings, shapes, m, q, i + 1, (r - 1) as nat);
        }
    }
}

/// Pair `n + t`, counting on from the last pair to the first.
pub open spec fn wrap_step(count: nat, n: nat, t: nat) -> nat {
    if n + t < count {
        n + t
    } else {
        (n + t - count) as nat
    }
}

/// A hit is a pair whose key holds `q`.
proof fn lemma_first_hit_matches(
    b: Seq<u8>,
    strings: Seq<(u32, u32)>,
    shapes: Seq<(u32, u32)>,
    m: ContainerMeta,
    q: Seq<u8>,
    i0: nat,
    r: nat,
)
    requires
        i0 <= m.count,
        r <= m.count,
    ensures
        first_hit(b, strings, shapes, m, q, i0, r) matches Some(k) ==> k < m.count && key_matches(
            b,
            strings,
            shapes,
            m,
            q,
            k,
        ),
    decreases r,
{
    if r > 0 {
        let i: nat = if i0 == m.count {
            0
        } else {
            i0
        };
        if !key_matches(b, strings, shapes, m, q, i) {
            lemma_first_hit_matches(b, strings, shapes, m, q, i + 1, (r - 1) as nat);
        }
    }
}

/// A scan that looks at a pair whose key holds `q` hits something.
proof fn lemma_first_hit_found(
    b: Seq<u8>,
    strings: Seq<(u32, u32)>,
    shapes: Seq<(u32, u32)>,
    m: ContainerMeta,
    q: Seq<u8>,
    i0: nat,
    r: nat,
    t: nat,
)
    requires
        i0 <= m.count,
        r <= m.count,
        t < r,
        key_matches(b, strings, shapes, m, q, wrap_step(m.count as nat, if i0 == m.count { 0 } else { i0 }, t)),
    ensures
        first_hit(b, strings, shapes, m, q, i0, r) is Some,
    decreases r,
{
    let i: nat = if i0 == m.count {
        0
    } else {
        i0
    };
    if t > 0 && !key_matches(b, strings, shapes, m, q, i) {
        let n2: nat = if i + 1 == m.count {
            0
        } else {
            i + 1
        };
        assert(wrap_step(m.count as nat, n2, (t - 1) as nat) == wrap_step(m.count as nat, i, t));
        lemma_first_hit_found(b, strings, shapes, m, q, i + 1, (r - 1) as nat, (t - 1) as nat);
    }
}

/// A full scan from any pair hits the one pair whose key holds `q`, or nothing when
/// no key holds it.
proof fn lemma_full_scan_hit(
    b: Seq<u8>,
    strings: Seq<(u32, u32)>,
    shapes: Seq<(u32, u32)>,
    m: ContainerMeta,
    q: Seq<u8>,
    i0: nat,
)
    requires
        i0 <= m.count,
        forall|j: nat, k: nat|
            j < m.count && k < m.count && #[trigger] key_matches(b, strings, shapes, m, q, j) && #[trigger] key_matches(
                b,
                strings,
                shapes,
                m,
                q,
                k,
            ) ==> j == k,
    ensures
        first_hit(b, strings, shapes, m, q, i0, m.count as nat) == first_hit(b, strings, shapes, m, q, 0, m.count as nat),
{
    lemma_first_hit_matches(b, strings, shapes, m, q, i0, m.count as nat);
    lemma_first_hit_matches(b, strings, shapes, m, q, 0, m.count as nat);
    let n: nat = if i0 == m.count {
        0
    } else {
        i0
    };
    if let Some(k) = first_hit(b, strings, shapes, m, q, 0, m.count as nat) {
        let t: nat = if k >= n {
            (k - n) as nat
        } else {
            (k + m.count - n) as nat
        };
        assert(wrap_step(m.count as nat, n, t) == k);
        lemma_first_hit_found(b, strings, shapes, m, q, i0, m.count as nat, t);
    }
    if let Some(k) = first_hit(b, strings, shapes, m, q, i0, m.count as nat) {
        assert(wrap_step(m.count as nat, 0, k) == k);
        lemma_first_hit_found(b, strings, shapes, m, q, 0, m.count as nat, k);
    }
}

/// The scan start that a cursor gives a lookup in map `m`.
pub open spec fn scan_start(m: ContainerMeta, cursor: Cursor) -> nat {
    if cursor.container == m.tag_offset && cursor.next_index < m.count {
        cursor.next_index as nat
    } else {
        0
    }
}

/// A lookup in a shaped object answers with the value at the least key index whose
/// key holds `q`, and with none when no key holds it: with duplicate keys the first
/// one wins, on every lookup.
pub proof fn lemma_shape_lookup_first_key(
    b: Seq<u8>,
    strings: Seq<(u32, u32)>,
    shapes: Seq<(u32, u32)>,
    keys: Seq<(u32, u32)>,
    m: ContainerMeta,
    q: Seq<u8>,
    i: nat,
)
    requires
        m.count == 0 || shapes[m.shape_id as int].1 == m.count,
    ensures
        i < m.count && span_matches_spec(b, keys[shapes[m.shape_id as int].0 + i], q) && (forall|k: int|
            0 <= k < i ==> !span_matches_spec(b, #[trigger] keys[shapes[m.shape_id as int].0 + k], q))
            ==> spec_shape_find(b, strings, shapes, keys, m, q) == (match spec_element(
            b,
            strings,
            shapes,
            m,
            i as u32,
            false,
        ) {
            Ok(d) => Ok::<Option<Decoded>, ErrorCode>(Some(d)),
            Err(e) => Err(e),
        }),
        (forall|k: int|
            0 <= k < m.count ==> !span_matches_spec(b, #[trigger] keys[shapes[m.shape_id as int].0 + k], q))
            ==> spec_shape_find(b, strings, shapes, keys, m, q) == Ok::<Option<Decoded>, ErrorCode>(None),
{
    let start = shapes[m.shape_id as int].0 as int;
    if m.count > 0 {
        if i < m.count && span_matches_spec(b, keys[start + i], q) && (forall|k: int|
            0 <= k < i ==> !span_matches_spec(b, #[trigger] keys[start + k], q)) {
            lemma_first_match(b, keys, start, m.count as nat, q, 0, i);
        }
        if forall|k: int| 0 <= k < m.count ==> !span_matches_spec(b, #[trigger] keys[start + k], q) {
            lemma_no_match(b, keys, start, m.count as nat, q, 0);
        }
    }
}

/// The property cursor only speeds lookups up: in a map whose pairs can all be
/// walked and in which at most one key holds `q`, looking `q` up gives the same
/// result from any cursor that the caches may hold.
pub proof fn lemma_map_find_ignores_cursor(
    b: Seq<u8>,
    strings: Seq<(u32, u32)>,
    shapes: Seq<(u32, u32)>,
    m: ContainerMeta,
    q: Seq<u8>,
    c1: Cursor,
    c2: Cursor,
)
    requires
        b.len() <= u32::MAX,
        m.kind == ContainerKind::Mapping,
        spec_meta(b, shapes, m.tag_offset as int) == Some(m),
        pairs_walkable(b, strings, shapes, m),
        forall|j: nat, k: nat|
            j < m.count && k < m.count && #[trigger] key_matches(b, strings, shapes, m, q, j) && #[trigger] key_matches(
                b,
                strings,
                shapes,
                m,
                q,
                k,
            ) ==> j == k,
        cursor_ok(b, strings, shapes, c1),
        cursor_ok(b, strings, shapes, c2),
    ensures
        spec_map_find(b, strings, shapes, m, q, c1) == spec_map_find(b, strings, shapes, m, q, c2),
{
    lemma_map_find_from_start(b, strings, shapes, m, q, c1);
    lemma_map_find_from_start(b, strings, shapes, m, q, c2);
    lemma_full_scan_hit(b, strings, shapes, m, q, scan_start(m, c1));
    lemma_full_scan_hit(b, strings, shapes, m, q, scan_start(m, c2));
}

/// A lookup's scan starts at the pair where the cursor points, and it hits what a
/// full scan from that pair hits.
proof fn lemma_map_find_from_start(
    b: Seq<u8>,
    strings: Seq<(u32, u32)>,
    shapes: Seq<(u32, u32)>,
    m: ContainerMeta,
    q: Seq<u8>,
    c: Cursor,
)
    requires
        b.len() <= u32::MAX,
        m.kind == ContainerKind::Mapping,
        spec_meta(b, shapes, m.tag_offset as int) == Some(m),
        pairs_walkable(b, strings, shapes, m),
        cursor_ok(b, strings, shapes, c),
    ensures
        spec_map_find(b, strings, shapes, m, q, c) == (match first_hit(
            b,
            strings,
            shapes,
            m,
            q,
            scan_start(m, c),
            m.count as nat,
        ) {
            None => Ok(None),
            Some(k) => match spec_decode_value(b, strings, shapes, pair_value_pos(b, strings, shapes, m, k)) {
                None => Err(ErrorCode::ReadError),
                Some(d) => Ok(Some(d)),
            },
        }),
{
    let s = scan_start(m, c);
    lemma_meta_bounds(b, shapes, m.tag_offset as int);
    if c.container == m.tag_offset && c.next_index < m.count {
        assert(spec_child_pos(b, strings, shapes, m, s) == Some(c.next_pos as int));
    } else {
        assert(spec_child_pos(b, strings, shapes, m, 0) == Some(m.first_child as int));
    }
    lemma_scan_is_first_hit(b, strings, shapes, m, q, s, m.count as nat);
}

} // verus!
