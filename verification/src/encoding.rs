//! FBF (Functions Binary Format) v1: header constants, value tags, the tag
//! classification used to measure values, and LEB128 varints.
use vstd::prelude::*;

verus! {

/// Magic bytes at the start of every payload.
pub const MAGIC: [u8; 3] = [0x46, 0x42, 0x46];
/// The format version.
pub const VERSION: u8 = 0x01;
/// Header flag: a string table follows the header.
pub const FLAG_STRING_TABLE: u8 = 0x01;
/// Header flag: a shape table follows the header (and the string table).
pub const FLAG_SHAPE_TABLE: u8 = 0x02;
/// Header flag bits that must be clear.
pub const FLAG_RESERVED_MASK: u8 = 0xfc;

/// Largest positive fixint.
pub const POSITIVE_FIXINT_MAX: u8 = 0x7f;
/// `null`.
pub const NIL: u8 = 0x80;
/// `false`.
pub const FALSE: u8 = 0x81;
/// `true`.
pub const TRUE: u8 = 0x82;
/// Signed integers (little-endian payload).
pub const INT8: u8 = 0x83;
pub const INT16: u8 = 0x84;
pub const INT32: u8 = 0x85;
pub const INT64: u8 = 0x86;
/// Unsigned integers (little-endian payload).
pub const UINT8: u8 = 0x87;
pub const UINT16: u8 = 0x88;
pub const UINT32: u8 = 0x89;
pub const UINT64: u8 = 0x8a;
/// Floats (little-endian payload).
pub const FLOAT32: u8 = 0x8b;
pub const FLOAT64: u8 = 0x8c;
/// Strings with a little-endian byte length of 1, 2 or 4 bytes.
pub const STR8: u8 = 0x8d;
pub const STR16: u8 = 0x8e;
pub const STR32: u8 = 0x8f;
/// Sequential containers: count (or shape id) as a varint, children follow, no byte length.
pub const SEQARRAY: u8 = 0x90;
pub const SEQMAP: u8 = 0x91;
pub const SEQSHAPE: u8 = 0x92;
/// Length-framed arrays: byte length of the payload (1, 2 or 4 bytes), then a varint count.
pub const ARRAY8: u8 = 0x93;
pub const ARRAY16: u8 = 0x94;
pub const ARRAY32: u8 = 0x95;
/// Length-framed maps: byte length of the payload, then a varint pair count.
pub const MAP8: u8 = 0x96;
pub const MAP16: u8 = 0x97;
pub const MAP32: u8 = 0x98;
/// References into the string table by a little-endian id of 1, 2 or 4 bytes.
pub const STRREF8: u8 = 0x99;
pub const STRREF16: u8 = 0x9a;
pub const STRREF32: u8 = 0x9b;
/// Length-framed shaped objects: byte length, then a varint shape id, then the values.
pub const SHAPE8: u8 = 0x9c;
pub const SHAPE16: u8 = 0x9d;
pub const SHAPE32: u8 = 0x9e;
/// Strings whose length (0 to 31) is in the tag.
pub const FIXSTR_MIN: u8 = 0xa2;
pub const FIXSTR_MAX: u8 = 0xc1;
/// The longest string a fixstr tag can hold.
pub const FIXSTR_MAX_LEN: usize = 31;
/// Sequential arrays of 1 to 7 elements.
pub const SEQFIXARRAY_MIN: u8 = 0xc2;
pub const SEQFIXARRAY_MAX: u8 = 0xc8;
/// Sequential maps of 1 to 7 pairs.
pub const SEQFIXMAP_MIN: u8 = 0xc9;
pub const SEQFIXMAP_MAX: u8 = 0xcf;
/// The empty array; `FIXARRAY0 + n` (n in 1..=7) is a fixarray with a one-byte length.
pub const FIXARRAY0: u8 = 0xd0;
pub const FIXARRAY_MAX: u8 = 0xd7;
/// The empty map; `FIXMAP0 + n` (n in 1..=7) is a fixmap with a one-byte length.
pub const FIXMAP0: u8 = 0xd8;
pub const FIXMAP_MAX: u8 = 0xdf;
/// Smallest negative fixint.
pub const NEGATIVE_FIXINT_MIN: u8 = 0xe0;

/// How the extent of a value with a given tag is found.
#[derive(Copy, Clone, PartialEq, Eq, Debug, Structural)]
pub enum TagClass {
    /// A self-sized container of `arg` bytes.
    AFixed,
    /// A container whose byte length (`arg` bytes wide) follows the tag.
    BLength,
    /// A container whose children must be walked.
    CSequential,
    /// A string: `arg` is its total size when the top bit is clear, otherwise
    /// the top bit is set and the low bits give the width of the length field.
    String,
    /// A scalar of `arg` bytes, the tag included.
    Scalar,
    /// A reserved tag.
    Reserved,
}

/// The class of a tag and its argument.
#[derive(Copy, Clone, PartialEq, Eq, Debug, Structural)]
pub struct TagInfo {
    pub class: TagClass,
    pub arg: u8,
}

/// The classification of every tag byte.
pub open spec fn spec_tag_info(tag: u8) -> TagInfo {
    if tag <= 0x7f || tag >= 0xe0 || tag == NIL || tag == FALSE || tag == TRUE {
        TagInfo { class: TagClass::Scalar, arg: 1 }
    } else if tag == INT8 || tag == UINT8 {
        TagInfo { class: TagClass::Scalar, arg: 2 }
    } else if tag == INT16 || tag == UINT16 {
        TagInfo { class: TagClass::Scalar, arg: 3 }
    } else if tag == INT32 || tag == UINT32 || tag == FLOAT32 {
        TagInfo { class: TagClass::Scalar, arg: 5 }
    } else if tag == INT64 || tag == UINT64 || tag == FLOAT64 {
        TagInfo { class: TagClass::Scalar, arg: 9 }
    } else if tag == STR8 {
        TagInfo { class: TagClass::String, arg: 0x81 }
    } else if tag == STR16 {
        TagInfo { class: TagClass::String, arg: 0x82 }
    } else if tag == STR32 {
        TagInfo { class: TagClass::String, arg: 0x84 }
    } else if tag == STRREF8 {
        TagInfo { class: TagClass::String, arg: 2 }
    } else if tag == STRREF16 {
        TagInfo { class: TagClass::String, arg: 3 }
    } else if tag == STRREF32 {
        TagInfo { class: TagClass::String, arg: 5 }
    } else if FIXSTR_MIN <= tag <= FIXSTR_MAX {
        TagInfo { class: TagClass::String, arg: (tag - FIXSTR_MIN + 1) as u8 }
    } else if tag == ARRAY8 || tag == MAP8 || tag == SHAPE8 {
        TagInfo { class: TagClass::BLength, arg: 1 }
    } else if tag == ARRAY16 || tag == MAP16 || tag == SHAPE16 {
        TagInfo { class: TagClass::BLength, arg: 2 }
    } else if tag == ARRAY32 || tag == MAP32 || tag == SHAPE32 {
        TagInfo { class: TagClass::BLength, arg: 4 }
    } else if tag == SEQARRAY || tag == SEQMAP || tag == SEQSHAPE || (SEQFIXARRAY_MIN <= tag
        <= SEQFIXMAP_MAX) {
        TagInfo { class: TagClass::CSequential, arg: 0 }
    } else if tag == FIXARRAY0 || tag == FIXMAP0 {
        TagInfo { class: TagClass::AFixed, arg: 1 }
    } else if (0xd1 <= tag <= 0xd7) || (0xd9 <= tag <= 0xdf) {
        TagInfo { class: TagClass::BLength, arg: 1 }
    } else {
        TagInfo { class: TagClass::Reserved, arg: 0 }
    }
}

/// Classify a tag byte.
pub fn classify_tag(tag: u8) -> (info: TagInfo)
    ensures
        info == spec_tag_info(tag),
{
    if tag <= 0x7f || tag >= 0xe0 || tag == NIL || tag == FALSE || tag == TRUE {
        TagInfo { class: TagClass::Scalar, arg: 1 }
    } else if tag == INT8 || tag == UINT8 {
        TagInfo { class: TagClass::Scalar, arg: 2 }
    } else if tag == INT16 || tag == UINT16 {
        TagInfo { class: TagClass::Scalar, arg: 3 }
    } else if tag == INT32 || tag == UINT32 || tag == FLOAT32 {
        TagInfo { class: TagClass::Scalar, arg: 5 }
    } else if tag == INT64 || tag == UINT64 || tag == FLOAT64 {
        TagInfo { class: TagClass::Scalar, arg: 9 }
    } else if tag == STR8 {
        TagInfo { class: TagClass::String, arg: 0x81 }
    } else if tag == STR16 {
        TagInfo { class: TagClass::String, arg: 0x82 }
    } else if tag == STR32 {
        TagInfo { class: TagClass::String, arg: 0x84 }
    } else if tag == STRREF8 {
        TagInfo { class: TagClass::String, arg: 2 }
    } else if tag == STRREF16 {
        TagInfo { class: TagClass::String, arg: 3 }
    } else if tag == STRREF32 {
        TagInfo { class: TagClass::String, arg: 5 }
    } else if FIXSTR_MIN <= tag && tag <= FIXSTR_MAX {
        TagInfo { class: TagClass::String, arg: tag - FIXSTR_MIN + 1 }
    } else if tag == ARRAY8 || tag == MAP8 || tag == SHAPE8 {
        TagInfo { class: TagClass::BLength, arg: 1 }
    } else if tag == ARRAY16 || tag == MAP16 || tag == SHAPE16 {
        TagInfo { class: TagClass::BLength, arg: 2 }
    } else if tag == ARRAY32 || tag == MAP32 || tag == SHAPE32 {
        TagInfo { class: TagClass::BLength, arg: 4 }
    } else if tag == SEQARRAY || tag == SEQMAP || tag == SEQSHAPE || (SEQFIXARRAY_MIN <= tag
        && tag <= SEQFIXMAP_MAX) {
        TagInfo { class: TagClass::CSequential, arg: 0 }
    } else if tag == FIXARRAY0 || tag == FIXMAP0 {
        TagInfo { class: TagClass::AFixed, arg: 1 }
    } else if (0xd1 <= tag && tag <= 0xd7) || (0xd9 <= tag && tag <= 0xdf) {
        TagInfo { class: TagClass::BLength, arg: 1 }
    } else {
        TagInfo { class: TagClass::Reserved, arg: 0 }
    }
}

/// 128 to the power `i`: the weight of the `i`-th group of a varint.
pub open spec fn pow128(i: nat) -> nat
    decreases i,
{
    if i == 0 {
        1
    } else {
        128 * pow128((i - 1) as nat)
    }
}

/// Reading a varint from `pos` (bytes before `end` only), its `i`-th group next,
/// with `acc` accumulated so far: at most ten groups, the tenth at most 1.
/// Gives the value and the position after it.
pub open spec fn varint_from(bytes: Seq<u8>, pos: int, end: int, i: nat, acc: nat) -> Option<
    (nat, int),
>
    decreases 10 - i,
{
    if i >= 10 || pos < 0 || pos >= end || pos >= bytes.len() {
        None
    } else {
        let byte = bytes[pos];
        if i == 9 && byte > 1 {
            None
        } else {
            let acc2 = acc + (byte % 128) as nat * pow128(i);
            if byte < 128 {
                Some((acc2, pos + 1))
            } else {
                varint_from(bytes, pos + 1, end, i + 1, acc2)
            }
        }
    }
}

/// A little-endian base-128 varint at `pos`: its value and the position after it.
pub open spec fn spec_varint(bytes: Seq<u8>, pos: int, end: int) -> Option<(nat, int)> {
    varint_from(bytes, pos, end, 0, 0)
}

/// The bytes that encode `value` as a varint: seven bits per byte, low groups
/// first, the top bit set on every byte but the last.
pub open spec fn varint_bytes(value: nat) -> Seq<u8>
    decreases value,
{
    if value < 128 {
        seq![value as u8]
    } else {
        seq![((value % 128) + 128) as u8] + varint_bytes(value / 128)
    }
}

/// A varint has at least one byte.
pub proof fn lemma_varint_bytes_nonempty(value: nat)
    ensures
        varint_bytes(value).len() >= 1,
    decreases value,
{
    if value >= 128 {
        lemma_varint_bytes_nonempty(value / 128);
    }
}

proof fn lemma_pow128_values()
    ensures
        pow128(0) == 1,
        pow128(1) == 0x80,
        pow128(2) == 0x4000,
        pow128(3) == 0x20_0000,
        pow128(4) == 0x1000_0000,
        pow128(5) == 0x8_0000_0000,
        pow128(6) == 0x400_0000_0000,
        pow128(7) == 0x2_0000_0000_0000,
        pow128(8) == 0x100_0000_0000_0000,
        pow128(9) == 0x8000_0000_0000_0000,
{
    reveal_with_fuel(pow128, 10);
}

proof fn lemma_group_bound(low: nat, i: nat)
    requires
        low <= 127,
    ensures
        low * pow128(i) <= 127 * pow128(i),
        pow128(i + 1) == 128 * pow128(i),
{
    assert(low * pow128(i) <= 127 * pow128(i)) by (nonlinear_arith)
        requires
            low <= 127,
    ;
}

proof fn lemma_varint_from_bounds(bytes: Seq<u8>, pos: int, end: int, i: nat, acc: nat)
    requires
        acc < pow128(i),
    ensures
        varint_from(bytes, pos, end, i, acc) matches Some((v, p)) ==> v <= u64::MAX && pos < p
            <= end,
    decreases 10 - i,
{
    lemma_pow128_values();
    if i < 10 && 0 <= pos < end && pos < bytes.len() && !(i == 9 && bytes[pos] > 1) {
        let byte = bytes[pos];
        let low = (byte % 128) as nat;
        lemma_group_bound(low, i);
        let acc2 = acc + low * pow128(i);
        assert(acc2 < pow128(i + 1));
        if i == 9 {
            assert(low <= 1);
            assert(low * pow128(i) <= 0x8000_0000_0000_0000) by (nonlinear_arith)
                requires
                    low <= 1,
                    pow128(i) == 0x8000_0000_0000_0000,
            ;
        } else {
            assert(pow128(i + 1) <= 0x8000_0000_0000_0000) by {
                if i == 0 {
                } else if i == 1 {
                } else if i == 2 {
                } else if i == 3 {
                } else if i == 4 {
                } else if i == 5 {
                } else if i == 6 {
                } else if i == 7 {
                } else {
                }
            }
        }
        if byte >= 128 {
            lemma_varint_from_bounds(bytes, pos + 1, end, i + 1, acc2);
        }
    }
}

/// A varint's value fits in `u64`, and it ends after its first byte and at or before `end`.
pub proof fn lemma_varint_bounds(bytes: Seq<u8>, pos: int, end: int)
    ensures
        spec_varint(bytes, pos, end) matches Some((v, p)) ==> v <= u64::MAX && pos < p <= end,
{
    lemma_pow128_values();
    lemma_varint_from_bounds(bytes, pos, end, 0, 0);
}

/// Read a varint at `pos`, looking only at bytes before `end`.
pub fn read_varint(bytes: &[u8], pos: u32, end: u32) -> (r: Option<(u64, u32)>)
    requires
        end <= bytes@.len(),
    ensures
        match spec_varint(bytes@, pos as int, end as int) {
            Some((v, p)) => r == Some((v as u64, p as u32)) && v <= u64::MAX && pos < p <= end,
            None => r is None,
        },
{
    proof {
        lemma_varint_bounds(bytes@, pos as int, end as int);
    }
    let mut result: u64 = 0;
    let mut mult: u64 = 1;
    let mut position = pos;
    let mut i: u32 = 0;
    proof {
        lemma_pow128_values();
    }
    while i < 10
        invariant
            end <= bytes@.len(),
            i <= 10,
            i < 10 ==> mult == pow128(i as nat),
            result < pow128(i as nat),
            position as int == pos as int + i as int,
            spec_varint(bytes@, pos as int, end as int) == varint_from(
                bytes@,
                position as int,
                end as int,
                i as nat,
                result as nat,
            ),
        decreases 10 - i,
    {
        if position >= end {
            return None;
        }
        let byte = bytes[position as usize];
        if i == 9 && byte > 1 {
            return None;
        }
        let low = (byte % 128) as u64;
        proof {
            lemma_group_bound(low as nat, i as nat);
            lemma_pow128_values();
            if i == 9 {
                assert(low <= 1);
                assert(low * mult <= 0x8000_0000_0000_0000) by (nonlinear_arith)
                    requires
                        low <= 1,
                        mult == 0x8000_0000_0000_0000u64,
                ;
            } else {
                assert(pow128(i as nat) <= 0x100_0000_0000_0000) by {
                    if i == 0 {
                    } else if i == 1 {
                    } else if i == 2 {
                    } else if i == 3 {
                    } else if i == 4 {
                    } else if i == 5 {
                    } else if i == 6 {
                    } else if i == 7 {
                    } else {
                    }
                }
            }
        }
        let next = result + low * mult;
        if byte < 128 {
            return Some((next, position + 1));
        }
        position = position + 1;
        if i < 9 {
            mult = mult * 128;
        }
        result = next;
        i = i + 1;
    }
    None
}

/// Append the varint encoding of `value`.
pub fn write_varint(out: &mut Vec<u8>, value: u64)
    ensures
        final(out)@ == old(out)@ + varint_bytes(value as nat),
{
    let mut v = value;
    let ghost start = out@;
    while v >= 128
        invariant
            out@ + varint_bytes(v as nat) == start + varint_bytes(value as nat),
        decreases v,
    {
        let byte = ((v % 128) + 128) as u8;
        let ghost prev = out@;
        assert(varint_bytes(v as nat) == seq![byte] + varint_bytes((v / 128) as nat));
        out.push(byte);
        assert(out@ + varint_bytes((v / 128) as nat) =~= prev + varint_bytes(v as nat));
        v = v / 128;
    }
    let ghost prev = out@;
    assert(varint_bytes(v as nat) == seq![v as u8]);
    out.push(v as u8);
    assert(out@ =~= prev + varint_bytes(v as nat));
}

/// The `w` low bytes of `v`, least significant first.
pub open spec fn le_bytes(v: nat, w: nat) -> Seq<u8>
    decreases w,
{
    if w == 0 {
        seq![]
    } else {
        seq![(v % 256) as u8] + le_bytes(v / 256, (w - 1) as nat)
    }
}

/// Append the `w` low bytes of `v`, least significant first.
pub fn append_le(out: &mut Vec<u8>, v: u64, w: u8)
    requires
        w <= 8,
    ensures
        final(out)@ == old(out)@ + le_bytes(v as nat, w as nat),
{
    let mut rest = v;
    let mut i: u8 = 0;
    let ghost start = out@;
    while i < w
        invariant
            i <= w,
            out@ + le_bytes(rest as nat, (w - i) as nat) == start + le_bytes(v as nat, w as nat),
        decreases w - i,
    {
        let byte = (rest % 256) as u8;
        let ghost prev = out@;
        assert(le_bytes(rest as nat, (w - i) as nat) == seq![byte] + le_bytes(
            (rest / 256) as nat,
            (w - i - 1) as nat,
        ));
        out.push(byte);
        assert(out@ + le_bytes((rest / 256) as nat, (w - i - 1) as nat) =~= prev + le_bytes(
            rest as nat,
            (w - i) as nat,
        ));
        rest = rest / 256;
        i = i + 1;
    }
    assert(out@ =~= start + le_bytes(v as nat, w as nat));
}

/// Append the bytes of `data`.
pub fn append_bytes(out: &mut Vec<u8>, data: &[u8])
    ensures
        final(out)@ == old(out)@ + data@,
{
    let ghost start = out@;
    let mut i: usize = 0;
    while i < data.len()
        invariant
            i <= data@.len(),
            out@ == start + data@.subrange(0, i as int),
        decreases data@.len() - i,
    {
        out.push(data[i]);
        assert(data@.subrange(0, i + 1) =~= data@.subrange(0, i as int).push(data@[i as int]));
        i = i + 1;
    }
    assert(data@.subrange(0, data@.len() as int) =~= data@);
}

/// Append `n` zero bytes.
pub fn append_zeros(out: &mut Vec<u8>, n: usize)
    ensures
        final(out)@ == old(out)@ + Seq::new(n as nat, |i: int| 0u8),
{
    let ghost start = out@;
    let mut i: usize = 0;
    while i < n
        invariant
            i <= n,
            out@ == start + Seq::new(i as nat, |k: int| 0u8),
        decreases n - i,
    {
        out.push(0);
        assert(Seq::new((i + 1) as nat, |k: int| 0u8) =~= Seq::new(i as nat, |k: int| 0u8).push(0u8));
        i = i + 1;
    }
}

} // verus!
