//! What the reader gives back of what the writer wrote: the encodings of the
//! writer decode, under the reader's specification, to the values written.
use crate::encoding::{
    le_bytes, pow128, spec_varint, varint_bytes, varint_from, FALSE, MAGIC, VERSION, FIXSTR_MAX, FIXSTR_MIN, INT16,
    INT32, INT64, INT8, NIL, UINT64, STR16, STR32, STR8, STRREF16, STRREF32, STRREF8, TRUE, UINT16, UINT32, UINT8,
    FIXARRAY0, FIXMAP0, SEQARRAY, SEQFIXARRAY_MIN, SEQFIXMAP_MIN, SEQMAP, SEQSHAPE,
};
use crate::nav::{
    le, signed, span_bytes, spec_decode_value, spec_header_ok, spec_parse_input, spec_read_le, spec_string_span,
    spec_var_u32, spec_meta_header, spec_meta, spec_skip, spec_child_pos, spec_element,
    container_limit, child_room_ok, ContainerKind, ContainerMeta, Decoded, Num, Prelude,
    INVALID_OFFSET,
};
use crate::output::{
    container_header, i32_bytes, key_refs_bytes, payload_flags, shapes_bytes, spec_payload, str_header, strref_bytes,
    table_bytes,
};
use vstd::arithmetic::power2::{lemma2_to64, lemma2_to64_rest, pow2};
use vstd::prelude::*;

verus! {

/// 256 to the power `w`.
pub open spec fn pow256(w: nat) -> nat
    decreases w,
{
    if w == 0 {
        1
    } else {
        256 * pow256((w - 1) as nat)
    }
}

/// The integer value of a number read from the input, when it is an integer.
pub open spec fn num_value(n: Num) -> Option<int> {
    match n {
        Num::Int(i) => Some(i as int),
        Num::UInt(u) => Some(u as int),
        _ => None,
    }
}

proof fn lemma_pow256_values()
    ensures
        pow256(0) == 1,
        pow256(1) == 0x100,
        pow256(2) == 0x1_0000,
        pow256(4) == 0x1_0000_0000,
{
    reveal_with_fuel(pow256, 5);
}

/// `w` little-endian bytes hold `w` bytes.
pub proof fn lemma_le_bytes_len(v: nat, w: nat)
    ensures
        le_bytes(v, w).len() == w,
    decreases w,
{
    if w > 0 {
        lemma_le_bytes_len(v / 256, (w - 1) as nat);
    }
}

/// Reading back `w` little-endian bytes gives the value written, when it fits.
pub proof fn lemma_le_roundtrip(b: Seq<u8>, pos: int, v: nat, w: nat)
    requires
        0 <= pos,
        pos + w <= b.len(),
        b.subrange(pos, pos + w) == le_bytes(v, w),
        v < pow256(w),
    ensures
        le(b, pos, w) == v,
    decreases w,
{
    lemma_le_bytes_len(v, w);
    if w > 0 {
        let rest = le_bytes(v / 256, (w - 1) as nat);
        assert(le_bytes(v, w) == seq![(v % 256) as u8] + rest);
        assert(b[pos] == le_bytes(v, w)[0]);
        assert(b.subrange(pos + 1, pos + w) =~= le_bytes(v, w).subrange(1, w as int));
        assert(le_bytes(v, w).subrange(1, w as int) =~= rest);
        assert(v / 256 < pow256((w - 1) as nat)) by (nonlinear_arith)
            requires
                v < 256 * pow256((w - 1) as nat),
        ;
        lemma_le_roundtrip(b, pos + 1, v / 256, (w - 1) as nat);
        assert(v % 256 + 256 * (v / 256) == v) by (nonlinear_arith);
    }
}

/// The bytes after a tag byte.
proof fn lemma_after_tag(b: Seq<u8>, pos: int, t: u8, rest: Seq<u8>)
    requires
        0 <= pos,
        pos + 1 + rest.len() <= b.len(),
        b.subrange(pos, pos + 1 + rest.len()) == seq![t] + rest,
    ensures
        b[pos] == t,
        b.subrange(pos + 1, pos + 1 + rest.len()) == rest,
{
    assert(b[pos] == b.subrange(pos, pos + 1 + rest.len())[0]);
    assert(b.subrange(pos + 1, pos + 1 + rest.len()) =~= b.subrange(pos, pos + 1 + rest.len()).subrange(
        1,
        1 + rest.len() as int,
    ));
    assert((seq![t] + rest).subrange(1, 1 + rest.len() as int) =~= rest);
}

/// One little-endian byte is the byte itself.
proof fn lemma_le_one(v: nat)
    requires
        v < 256,
    ensures
        le_bytes(v, 1) == seq![v as u8],
{
    reveal_with_fuel(le_bytes, 2);
    assert(le_bytes(v, 1) =~= seq![v as u8]);
}

/// An `i32` written by the writer reads back as a number equal to it.
pub proof fn lemma_i32_roundtrip(
    b: Seq<u8>,
    strings: Seq<(u32, u32)>,
    shapes: Seq<(u32, u32)>,
    pos: int,
    v: i32,
)
    requires
        0 <= pos,
        pos + i32_bytes(v).len() <= b.len(),
        b.len() <= u32::MAX,
        b.subrange(pos, pos + i32_bytes(v).len()) == i32_bytes(v),
    ensures
        spec_decode_value(b, strings, shapes, pos) matches Some(Decoded::Number(n)) && num_value(n)
            == Some(v as int),
{
    let enc = i32_bytes(v);
    assert(b[pos] == enc[0]);
    lemma2_to64();
    lemma_pow256_values();
    if 0 <= v <= 127 {
    } else if -32 <= v <= -1 {
    } else if 128 <= v <= 255 {
        lemma_le_one(v as nat);
        assert(enc =~= seq![UINT8] + le_bytes(v as nat, 1));
        lemma_after_tag(b, pos, UINT8, le_bytes(v as nat, 1));
        lemma_le_roundtrip(b, pos + 1, v as nat, 1);
    } else if 256 <= v <= 65535 {
        lemma_le_bytes_len(v as nat, 2);
        lemma_after_tag(b, pos, UINT16, le_bytes(v as nat, 2));
        lemma_le_roundtrip(b, pos + 1, v as nat, 2);
    } else if v >= 65536 {
        lemma_le_bytes_len(v as nat, 4);
        lemma_after_tag(b, pos, UINT32, le_bytes(v as nat, 4));
        lemma_le_roundtrip(b, pos + 1, v as nat, 4);
    } else if -128 <= v <= -33 {
        lemma_le_one((v + 256) as nat);
        assert(enc =~= seq![INT8] + le_bytes((v + 256) as nat, 1));
        lemma_after_tag(b, pos, INT8, le_bytes((v + 256) as nat, 1));
        lemma_le_roundtrip(b, pos + 1, (v + 256) as nat, 1);
        assert(signed((v + 256) as nat, 8) == v);
    } else if -32768 <= v <= -129 {
        lemma_le_bytes_len((v + 65536) as nat, 2);
        lemma_after_tag(b, pos, INT16, le_bytes((v + 65536) as nat, 2));
        lemma_le_roundtrip(b, pos + 1, (v + 65536) as nat, 2);
        assert(signed((v + 65536) as nat, 16) == v);
    } else {
        lemma_le_bytes_len((v + 0x1_0000_0000) as nat, 4);
        lemma_after_tag(b, pos, INT32, le_bytes((v + 0x1_0000_0000) as nat, 4));
        lemma_le_roundtrip(b, pos + 1, (v + 0x1_0000_0000) as nat, 4);
        assert(signed((v + 0x1_0000_0000) as nat, 32) == v);
    }
}

/// A boolean or null written by the writer reads back as itself.
pub proof fn lemma_scalar_literals_roundtrip(
    b: Seq<u8>,
    strings: Seq<(u32, u32)>,
    shapes: Seq<(u32, u32)>,
    pos: int,
)
    requires
        0 <= pos < b.len(),
    ensures
        b[pos] == TRUE ==> spec_decode_value(b, strings, shapes, pos) == Some(Decoded::Bool(true)),
        b[pos] == FALSE ==> spec_decode_value(b, strings, shapes, pos) == Some(Decoded::Bool(false)),
        b[pos] == NIL ==> spec_decode_value(b, strings, shapes, pos) == Some(Decoded::Null),
{
}

/// A string written inline by the writer reads back as its own bytes: the content
/// span starts right after the header, has the written length, and ends the value.
pub proof fn lemma_string_roundtrip(
    b: Seq<u8>,
    strings: Seq<(u32, u32)>,
    shapes: Seq<(u32, u32)>,
    pos: int,
    data: Seq<u8>,
)
    requires
        0 <= pos,
        pos + str_header(data.len()).len() + data.len() <= b.len(),
        b.len() <= u32::MAX,
        b.subrange(pos, pos + str_header(data.len()).len() + data.len()) == str_header(data.len())
            + data,
    ensures
        ({
            let h = str_header(data.len()).len();
            &&& spec_string_span(b, strings, pos, b.len() as int) == Some(
                (((pos + h) as u32, data.len() as u32), pos + h + data.len()),
            )
            &&& b.subrange(pos + h, pos + h + data.len()) == data
            &&& spec_decode_value(b, strings, shapes, pos) == Some(
                Decoded::String { content: (pos + h) as u32, len: data.len() as u32 },
            )
        }),
{
    let n = data.len();
    let hdr = str_header(n);
    let h = hdr.len() as int;
    lemma_pow256_values();
    assert(b[pos] == (hdr + data)[0]);
    assert(b.subrange(pos + h, pos + h + n) =~= (hdr + data).subrange(h, h + n));
    assert((hdr + data).subrange(h, h + n) =~= data);
    if n <= 31 {
    } else if n <= 255 {
        lemma_le_one(n);
        assert(hdr =~= seq![STR8] + le_bytes(n, 1));
        assert(b.subrange(pos, pos + 2) =~= (hdr + data).subrange(0, 2));
        assert((hdr + data).subrange(0, 2) =~= hdr);
        lemma_after_tag(b, pos, STR8, le_bytes(n, 1));
        lemma_le_roundtrip(b, pos + 1, n, 1);
    } else if n <= 65535 {
        lemma_le_bytes_len(n, 2);
        assert(b.subrange(pos, pos + 3) =~= (hdr + data).subrange(0, 3));
        assert((hdr + data).subrange(0, 3) =~= hdr);
        lemma_after_tag(b, pos, STR16, le_bytes(n, 2));
        lemma_le_roundtrip(b, pos + 1, n, 2);
    } else {
        lemma_le_bytes_len(n, 4);
        assert(b.subrange(pos, pos + 5) =~= (hdr + data).subrange(0, 5));
        assert((hdr + data).subrange(0, 5) =~= hdr);
        lemma_after_tag(b, pos, STR32, le_bytes(n, 4));
        lemma_le_roundtrip(b, pos + 1, n, 4);
    }
}

/// A varint written by the writer reads back as its value.
pub proof fn lemma_varint_from_roundtrip(b: Seq<u8>, pos: int, end: int, i: nat, acc: nat, v: nat)
    requires
        0 <= pos,
        pos + varint_bytes(v).len() <= end <= b.len(),
        b.subrange(pos, pos + varint_bytes(v).len()) == varint_bytes(v),
        i <= 8,
        v < pow128((9 - i) as nat),
    ensures
        varint_from(b, pos, end, i, acc) == Some((acc + v * pow128(i), pos + varint_bytes(v).len())),
    decreases v,
{
    let enc = varint_bytes(v);
    assert(b[pos] == enc[0]);
    if v >= 128 {
        let rest = varint_bytes(v / 128);
        assert(enc == seq![((v % 128) + 128) as u8] + rest);
        assert(b.subrange(pos + 1, pos + 1 + rest.len()) =~= enc.subrange(1, enc.len() as int));
        assert(enc.subrange(1, enc.len() as int) =~= rest);
        assert(pow128((9 - i) as nat) == 128 * pow128((8 - i) as nat));
        assert(v / 128 < pow128((8 - i) as nat)) by (nonlinear_arith)
            requires
                v < 128 * pow128((8 - i) as nat),
        ;
        assert(i + 1 <= 8) by {
            if i == 8 {
                assert(pow128(1) == 128) by {
                    reveal_with_fuel(pow128, 2);
                }
            }
        }
        lemma_varint_from_roundtrip(b, pos + 1, end, i + 1, acc + (v % 128) * pow128(i), v / 128);
        assert(pow128(i + 1) == 128 * pow128(i));
        assert((v % 128) * pow128(i) + (v / 128) * (128 * pow128(i)) == v * pow128(i)) by (nonlinear_arith) {
            assert(v == 128 * (v / 128) + v % 128);
        }
    }
}

proof fn lemma_pow128_nine()
    ensures
        pow128(9) == 0x8000_0000_0000_0000,
{
    reveal_with_fuel(pow128, 10);
}


// ---------------------------------------------------------------------------
// The string table
// ---------------------------------------------------------------------------

/// The bytes of string-table entry `t`: its length as a varint, then its bytes.
pub open spec fn entry_bytes(strings: Seq<Seq<u8>>, table: Seq<usize>, t: int) -> Seq<u8> {
    varint_bytes(strings[table[t] as int].len()) + strings[table[t] as int]
}

/// Where the content of entry `t` starts and how long it is, for a table whose
/// entries start at `base`.
pub open spec fn entry_span(strings: Seq<Seq<u8>>, table: Seq<usize>, base: int, t: int) -> (u32, u32) {
    let s = strings[table[t] as int];
    (
        (base + table_bytes(strings, table, t as nat).len() + varint_bytes(s.len()).len()) as u32,
        s.len() as u32,
    )
}

/// A longer table starts with the bytes of a shorter one; each entry is at least a byte.
proof fn lemma_table_prefix(strings: Seq<Seq<u8>>, table: Seq<usize>, t: nat, n: nat)
    requires
        t <= n,
    ensures
        table_bytes(strings, table, n).subrange(0, table_bytes(strings, table, t).len() as int)
            == table_bytes(strings, table, t),
        table_bytes(strings, table, t).len() <= table_bytes(strings, table, n).len(),
        table_bytes(strings, table, n).len() >= n,
    decreases n,
{
    if n > 0 {
        lemma_table_prefix(strings, table, if t < n { t } else { (n - 1) as nat }, (n - 1) as nat);
        let prev = table_bytes(strings, table, (n - 1) as nat);
        let cur = table_bytes(strings, table, n);
        assert(cur == prev + entry_bytes(strings, table, n - 1));
        crate::encoding::lemma_varint_bytes_nonempty(strings[table[n - 1] as int].len());
        if t < n {
            assert(cur.subrange(0, table_bytes(strings, table, t).len() as int) =~= prev.subrange(
                0,
                table_bytes(strings, table, t).len() as int,
            ));
        } else {
            assert(cur.subrange(0, cur.len() as int) =~= cur);
        }
    }
}

/// The bytes at `pos` of `b`, for `len` bytes, are those of `whole` from `off`, when
/// `whole` sits at `base` in `b`.
proof fn lemma_sub_of_sub(b: Seq<u8>, base: int, whole: Seq<u8>, off: int, len: int)
    requires
        0 <= base,
        0 <= off,
        0 <= len,
        off + len <= whole.len(),
        base + whole.len() <= b.len(),
        b.subrange(base, base + whole.len()) == whole,
    ensures
        b.subrange(base + off, base + off + len) == whole.subrange(off, off + len),
{
    assert forall|i: int| 0 <= i < len implies #[trigger] b.subrange(base + off, base + off + len)[i]
        == whole.subrange(off, off + len)[i] by {
        assert(b.subrange(base, base + whole.len())[off + i] == whole[off + i]);
    }
    assert(b.subrange(base + off, base + off + len) =~= whole.subrange(off, off + len));
}

/// Entries `t..n` of a table written at `base` parse back as their spans.
proof fn lemma_entries_parse(
    b: Seq<u8>,
    strings: Seq<Seq<u8>>,
    table: Seq<usize>,
    base: int,
    end: int,
    t: nat,
    n: nat,
)
    requires
        0 <= base,
        t <= n,
        n <= table.len(),
        base + table_bytes(strings, table, n).len() <= end <= b.len(),
        b.len() <= u32::MAX,
        b.subrange(base, base + table_bytes(strings, table, n).len()) == table_bytes(strings, table, n),
    ensures
        crate::nav::spec_string_entries(b, base + table_bytes(strings, table, t).len(), end, (n - t) as nat)
            == Some(
            (
                Seq::new((n - t) as nat, |k: int| entry_span(strings, table, base, t + k)),
                base + table_bytes(strings, table, n).len(),
            ),
        ),
        forall|k: int|
            t <= k < n ==> crate::nav::span_bytes(b, #[trigger] entry_span(strings, table, base, k))
                == Some(strings[table[k] as int]),
    decreases n - t,
{
    if t < n {
        let tb_t = table_bytes(strings, table, t);
        let tb_n = table_bytes(strings, table, n);
        let s_t = strings[table[t as int] as int];
        let vb = varint_bytes(s_t.len());
        let e = entry_bytes(strings, table, t as int);
        lemma_table_prefix(strings, table, t + 1, n);
        lemma_table_prefix(strings, table, t, t + 1);
        assert(table_bytes(strings, table, t + 1) == tb_t + e);
        let pos = base + tb_t.len();
        lemma_sub_of_sub(b, base, tb_n, tb_t.len() as int, e.len() as int);
        assert(tb_n.subrange(tb_t.len() as int, tb_t.len() + e.len() as int) =~= e) by {
            assert(tb_n.subrange(0, (tb_t + e).len() as int) == tb_t + e);
            assert forall|i: int| 0 <= i < e.len() implies #[trigger] tb_n.subrange(
                tb_t.len() as int,
                tb_t.len() + e.len() as int,
            )[i] == e[i] by {
                assert(tb_n.subrange(0, (tb_t + e).len() as int)[tb_t.len() + i] == (tb_t + e)[tb_t.len() + i]);
            }
        }
        assert(b.subrange(pos, pos + e.len()) == e);
        assert(s_t.len() <= u32::MAX);
        lemma_sub_of_sub(b, pos, e, 0, vb.len() as int);
        assert(e.subrange(0, vb.len() as int) =~= vb);
        lemma_var_u32_roundtrip(b, pos, end, s_t.len() as u32);
        lemma_sub_of_sub(b, pos, e, vb.len() as int, s_t.len() as int);
        assert(e.subrange(vb.len() as int, vb.len() + s_t.len() as int) =~= s_t);
        lemma_entries_parse(b, strings, table, base, end, t + 1, n);
        let rest = Seq::new((n - t - 1) as nat, |k: int| entry_span(strings, table, base, t + 1 + k));
        assert(Seq::new((n - t) as nat, |k: int| entry_span(strings, table, base, t + k)) =~= seq![
            entry_span(strings, table, base, t as int),
        ] + rest);
    }
}



// ---------------------------------------------------------------------------
// The shape table
// ---------------------------------------------------------------------------

/// The number of keys of shape `s`.
pub open spec fn key_count(shapes: Seq<(usize, usize)>, s: int) -> nat {
    (shapes[s].1 - shapes[s].0) as nat
}

/// The keys of the first `n` shapes, resolved through the parsed string table `ps`.
pub open spec fn resolved_keys(
    ps: Seq<(u32, u32)>,
    keys: Seq<u32>,
    shapes: Seq<(usize, usize)>,
    n: nat,
) -> Seq<(u32, u32)>
    decreases n,
{
    if n == 0 {
        seq![]
    } else {
        let (start, _) = shapes[n - 1];
        resolved_keys(ps, keys, shapes, (n - 1) as nat) + Seq::new(
            key_count(shapes, n - 1),
            |j: int| ps[keys[start + j] as int],
        )
    }
}

/// A string reference written by the writer resolves to its table entry.
proof fn lemma_strref_roundtrip(b: Seq<u8>, ps: Seq<(u32, u32)>, pos: int, end: int, id: u32)
    requires
        0 <= pos,
        pos + strref_bytes(id).len() <= end <= b.len(),
        b.len() <= u32::MAX,
        b.subrange(pos, pos + strref_bytes(id).len()) == strref_bytes(id),
        id < ps.len(),
    ensures
        spec_string_span(b, ps, pos, end) == Some((ps[id as int], pos + strref_bytes(id).len())),
        strref_bytes(id).len() >= 2,
{
    lemma_pow256_values();
    let enc = strref_bytes(id);
    if id <= 255 {
        lemma_le_one(id as nat);
        assert(enc =~= seq![STRREF8] + le_bytes(id as nat, 1));
        lemma_after_tag(b, pos, STRREF8, le_bytes(id as nat, 1));
        lemma_le_roundtrip(b, pos + 1, id as nat, 1);
    } else if id <= 65535 {
        lemma_le_bytes_len(id as nat, 2);
        lemma_after_tag(b, pos, STRREF16, le_bytes(id as nat, 2));
        lemma_le_roundtrip(b, pos + 1, id as nat, 2);
    } else {
        lemma_le_bytes_len(id as nat, 4);
        lemma_after_tag(b, pos, STRREF32, le_bytes(id as nat, 4));
        lemma_le_roundtrip(b, pos + 1, id as nat, 4);
    }
}

/// Longer key lists start with the bytes of shorter ones; each key is at least two bytes.
proof fn lemma_key_refs_prefix(keys: Seq<u32>, start: int, j: nat, c: nat)
    requires
        j <= c,
    ensures
        key_refs_bytes(keys, start, c).subrange(0, key_refs_bytes(keys, start, j).len() as int)
            == key_refs_bytes(keys, start, j),
        key_refs_bytes(keys, start, c).len() >= 2 * c,
        key_refs_bytes(keys, start, j).len() <= key_refs_bytes(keys, start, c).len(),
    decreases c,
{
    if c > 0 {
        let jj: nat = if j < c { j } else { (c - 1) as nat };
        lemma_key_refs_prefix(keys, start, jj, (c - 1) as nat);
        let prev = key_refs_bytes(keys, start, (c - 1) as nat);
        let cur = key_refs_bytes(keys, start, c);
        let r = strref_bytes(keys[start + c - 1]);
        assert(cur == prev + r);
        assert(r.len() >= 2) by {
            lemma_le_bytes_len(keys[start + c - 1] as nat, 2);
            lemma_le_bytes_len(keys[start + c - 1] as nat, 4);
        }
        if j < c {
            assert(cur.subrange(0, key_refs_bytes(keys, start, j).len() as int) =~= prev.subrange(
                0,
                key_refs_bytes(keys, start, j).len() as int,
            ));
        } else {
            assert(cur.subrange(0, cur.len() as int) =~= cur);
        }
    }
}

/// Keys `j..c` of a key list written at `q` parse back as their resolved spans.
proof fn lemma_key_list_parse(
    b: Seq<u8>,
    ps: Seq<(u32, u32)>,
    keys: Seq<u32>,
    start: int,
    q: int,
    end: int,
    j: nat,
    c: nat,
)
    requires
        0 <= q,
        j <= c,
        0 <= start,
        start + c <= keys.len(),
        forall|k: int| start <= k < start + c ==> (#[trigger] keys[k] as int) < ps.len(),
        q + key_refs_bytes(keys, start, c).len() <= end <= b.len(),
        b.len() <= u32::MAX,
        b.subrange(q, q + key_refs_bytes(keys, start, c).len()) == key_refs_bytes(keys, start, c),
    ensures
        crate::nav::spec_shape_key_list(b, ps, q + key_refs_bytes(keys, start, j).len(), end, (c - j) as nat)
            == Some(
            (
                Seq::new((c - j) as nat, |k: int| ps[keys[start + j + k] as int]),
                q + key_refs_bytes(keys, start, c).len(),
            ),
        ),
    decreases c - j,
{
    if j < c {
        let kr_j = key_refs_bytes(keys, start, j);
        let kr_c = key_refs_bytes(keys, start, c);
        let r = strref_bytes(keys[start + j]);
        lemma_key_refs_prefix(keys, start, j + 1, c);
        assert(key_refs_bytes(keys, start, j + 1) == kr_j + r);
        let pos = q + kr_j.len();
        lemma_sub_of_sub(b, q, kr_c, kr_j.len() as int, r.len() as int);
        assert(kr_c.subrange(kr_j.len() as int, kr_j.len() + r.len() as int) =~= r) by {
            assert(kr_c.subrange(0, (kr_j + r).len() as int) == kr_j + r);
            assert forall|i: int| 0 <= i < r.len() implies #[trigger] kr_c.subrange(
                kr_j.len() as int,
                kr_j.len() + r.len() as int,
            )[i] == r[i] by {
                assert(kr_c.subrange(0, (kr_j + r).len() as int)[kr_j.len() + i] == (kr_j + r)[kr_j.len() + i]);
            }
        }
        assert((keys[start + j] as int) < ps.len());
        lemma_strref_roundtrip(b, ps, pos, end, keys[start + j]);
        lemma_key_list_parse(b, ps, keys, start, q, end, j + 1, c);
        let rest = Seq::new((c - j - 1) as nat, |k: int| ps[keys[start + (j + 1) + k] as int]);
        assert(Seq::new((c - j) as nat, |k: int| ps[keys[start + j + k] as int]) =~= seq![
            ps[keys[start + j] as int],
        ] + rest);
    }
}


/// The bytes of shape `s` in the shape table: its key count, then its key references.
pub open spec fn shape_entry_bytes(keys: Seq<u32>, shapes: Seq<(usize, usize)>, s: int) -> Seq<u8> {
    varint_bytes(key_count(shapes, s)) + key_refs_bytes(keys, shapes[s].0 as int, key_count(shapes, s))
}

/// Every shape of the first `n` names a range of the keys, and every key an entry.
pub open spec fn shapes_in_range(keys: Seq<u32>, shapes: Seq<(usize, usize)>, n: nat, entries: nat) -> bool {
    &&& n <= shapes.len()
    &&& forall|s: int| #![trigger shapes[s]] 0 <= s < n ==> shapes[s].0 <= shapes[s].1 <= keys.len()
    &&& forall|k: int| 0 <= k < keys.len() ==> (#[trigger] keys[k] as int) < entries
}

/// A longer shape table starts with the bytes of a shorter one; the shapes take at
/// least a byte each and at least as many bytes as they have keys.
proof fn lemma_shapes_prefix(
    ps: Seq<(u32, u32)>,
    keys: Seq<u32>,
    shapes: Seq<(usize, usize)>,
    t: nat,
    n: nat,
)
    requires
        t <= n,
        n <= shapes.len(),
    ensures
        shapes_bytes(keys, shapes, n).subrange(0, shapes_bytes(keys, shapes, t).len() as int)
            == shapes_bytes(keys, shapes, t),
        shapes_bytes(keys, shapes, t).len() <= shapes_bytes(keys, shapes, n).len(),
        shapes_bytes(keys, shapes, n).len() >= n,
        resolved_keys(ps, keys, shapes, n).len() <= shapes_bytes(keys, shapes, n).len(),
    decreases n,
{
    if n > 0 {
        let tt: nat = if t < n { t } else { (n - 1) as nat };
        lemma_shapes_prefix(ps, keys, shapes, tt, (n - 1) as nat);
        let prev = shapes_bytes(keys, shapes, (n - 1) as nat);
        let cur = shapes_bytes(keys, shapes, n);
        let e = shape_entry_bytes(keys, shapes, n - 1);
        assert(cur =~= prev + e);
        crate::encoding::lemma_varint_bytes_nonempty(key_count(shapes, n - 1));
        lemma_key_refs_prefix(keys, shapes[n - 1].0 as int, 0, key_count(shapes, n - 1));
        if t < n {
            assert(cur.subrange(0, shapes_bytes(keys, shapes, t).len() as int) =~= prev.subrange(
                0,
                shapes_bytes(keys, shapes, t).len() as int,
            ));
        } else {
            assert(cur.subrange(0, cur.len() as int) =~= cur);
        }
    }
}

/// Shapes `s..n` of a shape table written at `base` parse back: their key counts,
/// the start of their keys in the parsed key list, and their keys resolved.
proof fn lemma_shape_list_parse(
    b: Seq<u8>,
    ps: Seq<(u32, u32)>,
    keys: Seq<u32>,
    shapes: Seq<(usize, usize)>,
    base: int,
    end: int,
    s: nat,
    n: nat,
)
    requires
        0 <= base,
        s <= n,
        shapes_in_range(keys, shapes, n, ps.len()),
        base + shapes_bytes(keys, shapes, n).len() <= end <= b.len(),
        b.len() <= u32::MAX,
        b.subrange(base, base + shapes_bytes(keys, shapes, n).len()) == shapes_bytes(keys, shapes, n),
    ensures
        crate::nav::spec_shape_list(
            b,
            ps,
            base + shapes_bytes(keys, shapes, s).len(),
            end,
            (n - s) as nat,
            resolved_keys(ps, keys, shapes, s),
        ) == Some(
            (
                resolved_keys(ps, keys, shapes, n),
                Seq::new(
                    (n - s) as nat,
                    |k: int| (
                        resolved_keys(ps, keys, shapes, (s + k) as nat).len() as u32,
                        key_count(shapes, s + k) as u32,
                    ),
                ),
                base + shapes_bytes(keys, shapes, n).len(),
            ),
        ),
    decreases n - s,
{
    if s < n {
        let sb_s = shapes_bytes(keys, shapes, s);
        let sb_n = shapes_bytes(keys, shapes, n);
        let e = shape_entry_bytes(keys, shapes, s as int);
        let c = key_count(shapes, s as int);
        let st = shapes[s as int].0 as int;
        let vb = varint_bytes(c);
        let kr = key_refs_bytes(keys, st, c);
        lemma_shapes_prefix(ps, keys, shapes, s + 1, n);
        lemma_shapes_prefix(ps, keys, shapes, s, s + 1);
        assert(shapes_bytes(keys, shapes, s + 1) =~= sb_s + e);
        let pos = base + sb_s.len();
        lemma_sub_of_sub(b, base, sb_n, sb_s.len() as int, e.len() as int);
        assert(sb_n.subrange(sb_s.len() as int, sb_s.len() + e.len() as int) =~= e) by {
            assert(sb_n.subrange(0, (sb_s + e).len() as int) == sb_s + e);
            assert forall|i: int| 0 <= i < e.len() implies #[trigger] sb_n.subrange(
                sb_s.len() as int,
                sb_s.len() + e.len() as int,
            )[i] == e[i] by {
                assert(sb_n.subrange(0, (sb_s + e).len() as int)[sb_s.len() + i] == (sb_s + e)[sb_s.len() + i]);
            }
        }
        lemma_key_refs_prefix(keys, st, 0, c);
        assert(c <= u32::MAX);
        lemma_sub_of_sub(b, pos, e, 0, vb.len() as int);
        assert(e.subrange(0, vb.len() as int) =~= vb);
        lemma_var_u32_roundtrip(b, pos, end, c as u32);
        let p = pos + vb.len();
        lemma_sub_of_sub(b, pos, e, vb.len() as int, kr.len() as int);
        assert(e.subrange(vb.len() as int, vb.len() + kr.len() as int) =~= kr);
        assert(shapes[s as int].0 <= shapes[s as int].1 <= keys.len());
        lemma_key_list_parse(b, ps, keys, st, p, end, 0, c);
        assert(key_refs_bytes(keys, st, 0).len() == 0);
        assert(Seq::new((c - 0) as nat, |k: int| ps[keys[st + 0 + k] as int]) =~= Seq::new(
            c,
            |j: int| ps[keys[st + j] as int],
        ));
        assert(resolved_keys(ps, keys, shapes, s + 1) == resolved_keys(ps, keys, shapes, s) + Seq::new(
            c,
            |j: int| ps[keys[st + j] as int],
        ));
        lemma_shapes_prefix(ps, keys, shapes, s, s);
        lemma_shape_list_parse(b, ps, keys, shapes, base, end, s + 1, n);
        let rest = Seq::new(
            (n - (s + 1)) as nat,
            |k: int| (
                resolved_keys(ps, keys, shapes, (s + 1 + k) as nat).len() as u32,
                key_count(shapes, s + 1 + k) as u32,
            ),
        );
        assert(Seq::new(
            (n - s) as nat,
            |k: int| (
                resolved_keys(ps, keys, shapes, (s + k) as nat).len() as u32,
                key_count(shapes, s + k) as u32,
            ),
        ) =~= seq![(resolved_keys(ps, keys, shapes, s).len() as u32, c as u32)] + rest);
    }
}


/// The keys of earlier shapes stay in place as later shapes are resolved.
proof fn lemma_resolved_prefix(ps: Seq<(u32, u32)>, keys: Seq<u32>, shapes: Seq<(usize, usize)>, s: nat, n: nat)
    requires
        s <= n,
    ensures
        resolved_keys(ps, keys, shapes, n).subrange(0, resolved_keys(ps, keys, shapes, s).len() as int)
            == resolved_keys(ps, keys, shapes, s),
        resolved_keys(ps, keys, shapes, s).len() <= resolved_keys(ps, keys, shapes, n).len(),
    decreases n,
{
    if s < n {
        lemma_resolved_prefix(ps, keys, shapes, s, (n - 1) as nat);
        let prev = resolved_keys(ps, keys, shapes, (n - 1) as nat);
        let cur = resolved_keys(ps, keys, shapes, n);
        assert(cur.subrange(0, resolved_keys(ps, keys, shapes, s).len() as int) =~= prev.subrange(
            0,
            resolved_keys(ps, keys, shapes, s).len() as int,
        ));
    } else {
        assert(resolved_keys(ps, keys, shapes, n).subrange(0, resolved_keys(ps, keys, shapes, n).len() as int)
            =~= resolved_keys(ps, keys, shapes, n));
    }
}

/// Key `j` of shape `s` sits in the resolved key list right after the keys of the
/// shapes before it.
proof fn lemma_resolved_key(
    ps: Seq<(u32, u32)>,
    keys: Seq<u32>,
    shapes: Seq<(usize, usize)>,
    s: nat,
    n: nat,
    j: int,
)
    requires
        s < n,
        0 <= j < key_count(shapes, s as int),
    ensures
        resolved_keys(ps, keys, shapes, s).len() + j < resolved_keys(ps, keys, shapes, n).len(),
        resolved_keys(ps, keys, shapes, n)[resolved_keys(ps, keys, shapes, s).len() + j]
            == ps[keys[shapes[s as int].0 + j] as int],
{
    lemma_resolved_prefix(ps, keys, shapes, s + 1, n);
    let r1 = resolved_keys(ps, keys, shapes, s + 1);
    let rn = resolved_keys(ps, keys, shapes, n);
    let i = resolved_keys(ps, keys, shapes, s).len() + j;
    assert(r1[i] == ps[keys[shapes[s as int].0 + j] as int]);
    assert(rn.subrange(0, r1.len() as int)[i] == r1[i]);
}

/// The string table a reader parses of an assembled payload: the entries' spans.
pub open spec fn parsed_strings(strings: Seq<Seq<u8>>, table: Seq<usize>) -> Seq<(u32, u32)> {
    if table.len() > 0 {
        Seq::new(
            table.len(),
            |k: int| entry_span(strings, table, (5 + varint_bytes(table.len()).len()) as int, k),
        )
    } else {
        seq![]
    }
}

/// Where the shape table of an assembled payload starts.
pub open spec fn shapes_start(strings: Seq<Seq<u8>>, table: Seq<usize>) -> int {
    if table.len() > 0 {
        (5 + varint_bytes(table.len()).len() + table_bytes(strings, table, table.len()).len()) as int
    } else {
        5
    }
}

/// The shapes a reader parses of an assembled payload: where each one's keys start
/// in the parsed key list, and how many it has.
pub open spec fn parsed_shapes(ps: Seq<(u32, u32)>, keys: Seq<u32>, shapes: Seq<(usize, usize)>) -> Seq<(u32, u32)> {
    Seq::new(
        shapes.len(),
        |k: int| (resolved_keys(ps, keys, shapes, k as nat).len() as u32, key_count(shapes, k) as u32),
    )
}

proof fn lemma_payload_layout(
    strings: Seq<Seq<u8>>,
    table: Seq<usize>,
    keys: Seq<u32>,
    shapes: Seq<(usize, usize)>,
    value: Seq<u8>,
)
    ensures
        ({
            let b = spec_payload(strings, table, keys, shapes, value);
            let string_part = if table.len() > 0 {
                varint_bytes(table.len()) + table_bytes(strings, table, table.len())
            } else {
                seq![]
            };
            let shape_part = if shapes.len() > 0 {
                varint_bytes(shapes.len()) + shapes_bytes(keys, shapes, shapes.len())
            } else {
                seq![]
            };
            &&& b.len() == 5 + string_part.len() as int + shape_part.len() as int + value.len()
            &&& spec_header_ok(b)
            &&& (b[4] % 2 == 1) == (table.len() > 0)
            &&& (b[4] / 2 == 1) == (shapes.len() > 0)
            &&& b.subrange(5, 5 + string_part.len() as int) == string_part
            &&& b.subrange(5 + string_part.len() as int, 5 + string_part.len() as int + shape_part.len() as int) == shape_part
            &&& b.subrange(5 + string_part.len() as int + shape_part.len() as int, b.len() as int) == value
            &&& shapes_start(strings, table) == 5 + string_part.len() as int
        }),
{
    let b = spec_payload(strings, table, keys, shapes, value);
    let header = seq![MAGIC[0], MAGIC[1], MAGIC[2], VERSION, payload_flags(table.len() > 0, shapes.len() > 0)];
    let string_part = if table.len() > 0 {
        varint_bytes(table.len()) + table_bytes(strings, table, table.len())
    } else {
        seq![]
    };
    let shape_part = if shapes.len() > 0 {
        varint_bytes(shapes.len()) + shapes_bytes(keys, shapes, shapes.len())
    } else {
        seq![]
    };
    assert(b == header + string_part + shape_part + value);
    assert(MAGIC[0] == 0x46 && MAGIC[1] == 0x42 && MAGIC[2] == 0x46);
    assert(b[4] == header[4]);
    assert(b.subrange(5, 5 + string_part.len() as int) =~= string_part);
    assert(b.subrange(5 + string_part.len() as int, 5 + string_part.len() as int + shape_part.len() as int) =~= shape_part);
    assert(b.subrange(5 + string_part.len() as int + shape_part.len() as int, b.len() as int) =~= value);
}

proof fn lemma_payload_strings(
    strings: Seq<Seq<u8>>,
    table: Seq<usize>,
    keys: Seq<u32>,
    shapes: Seq<(usize, usize)>,
    value: Seq<u8>,
)
    requires
        spec_payload(strings, table, keys, shapes, value).len() <= u32::MAX,
        forall|t: int| 0 <= t < table.len() ==> #[trigger] table[t] < strings.len(),
    ensures
        ({
            let b = spec_payload(strings, table, keys, shapes, value);
            let end = b.len() as int;
            let part: Option<(Seq<(u32, u32)>, int)> = if b[4] % 2 == 1 {
                crate::nav::spec_string_table(b, 5, end)
            } else {
                Some((seq![], 5))
            };
            &&& part == Some((parsed_strings(strings, table), shapes_start(strings, table)))
            &&& forall|t: int|
                0 <= t < table.len() ==> span_bytes(b, #[trigger] parsed_strings(strings, table)[t])
                    == Some(strings[table[t] as int])
        }),
{
    lemma_payload_layout(strings, table, keys, shapes, value);
    let b = spec_payload(strings, table, keys, shapes, value);
    let end = b.len() as int;
    let n = table.len();
    lemma_table_prefix(strings, table, 0, n);
    if n > 0 {
        let vb = varint_bytes(n);
        let tb = table_bytes(strings, table, n);
        let string_part = vb + tb;
        lemma_sub_of_sub(b, 5, string_part, 0, vb.len() as int);
        assert(string_part.subrange(0, vb.len() as int) =~= vb);
        lemma_var_u32_roundtrip(b, 5, end, n as u32);
        let p: int = 5 + vb.len() as int;
        lemma_sub_of_sub(b, 5, string_part, vb.len() as int, tb.len() as int);
        assert(string_part.subrange(vb.len() as int, vb.len() + tb.len() as int) =~= tb);
        lemma_entries_parse(b, strings, table, p, end, 0, n);
        assert(table_bytes(strings, table, 0).len() == 0);
        assert(Seq::new((n - 0) as nat, |k: int| entry_span(strings, table, p, 0 + k)) =~= parsed_strings(
            strings,
            table,
        ));
    }
}

proof fn lemma_payload_shapes(
    strings: Seq<Seq<u8>>,
    table: Seq<usize>,
    keys: Seq<u32>,
    shapes: Seq<(usize, usize)>,
    value: Seq<u8>,
)
    requires
        spec_payload(strings, table, keys, shapes, value).len() <= u32::MAX,
        shapes_in_range(keys, shapes, shapes.len(), table.len()),
    ensures
        ({
            let b = spec_payload(strings, table, keys, shapes, value);
            let end = b.len() as int;
            let ps = parsed_strings(strings, table);
            let base2 = shapes_start(strings, table);
            let part: Option<(Seq<(u32, u32)>, Seq<(u32, u32)>, int)> = if b[4] / 2 == 1 {
                crate::nav::spec_shape_table(b, ps, base2, end)
            } else {
                Some((seq![], seq![], base2))
            };
            part == Some(
                (
                    resolved_keys(ps, keys, shapes, shapes.len()),
                    parsed_shapes(ps, keys, shapes),
                    end - value.len(),
                ),
            )
        }),
{
    lemma_payload_layout(strings, table, keys, shapes, value);
    let b = spec_payload(strings, table, keys, shapes, value);
    let end = b.len() as int;
    let ps = parsed_strings(strings, table);
    let base2 = shapes_start(strings, table);
    let m = shapes.len();
    lemma_shapes_prefix(ps, keys, shapes, 0, m);
    if m > 0 {
        let vb = varint_bytes(m);
        let sbn = shapes_bytes(keys, shapes, m);
        let shape_part = vb + sbn;
        lemma_sub_of_sub(b, base2, shape_part, 0, vb.len() as int);
        assert(shape_part.subrange(0, vb.len() as int) =~= vb);
        lemma_var_u32_roundtrip(b, base2, end, m as u32);
        let p2: int = base2 + vb.len() as int;
        lemma_sub_of_sub(b, base2, shape_part, vb.len() as int, sbn.len() as int);
        assert(shape_part.subrange(vb.len() as int, vb.len() + sbn.len() as int) =~= sbn);
        assert(ps.len() == table.len());
        lemma_shape_list_parse(b, ps, keys, shapes, p2, end, 0, m);
        assert(shapes_bytes(keys, shapes, 0).len() == 0);
        assert(resolved_keys(ps, keys, shapes, 0) =~= seq![]);
        assert(Seq::new(
            (m - 0) as nat,
            |k: int| (
                resolved_keys(ps, keys, shapes, (0 + k) as nat).len() as u32,
                key_count(shapes, 0 + k) as u32,
            ),
        ) =~= parsed_shapes(ps, keys, shapes));
    } else {
        assert(resolved_keys(ps, keys, shapes, 0) =~= seq![]);
        assert(parsed_shapes(ps, keys, shapes) =~= seq![]);
    }
}

/// What a reader parses of a payload the writer assembled: the root is the written
/// value, right after the tables; each string-table entry spans the bytes of the
/// interned string it names; each shape has its key count, and its keys are the
/// table entries that the writer referenced, in order.
#[verifier::rlimit(50)]
#[verifier::spinoff_prover]
pub proof fn lemma_payload_prelude_roundtrip(
    strings: Seq<Seq<u8>>,
    table: Seq<usize>,
    keys: Seq<u32>,
    shapes: Seq<(usize, usize)>,
    value: Seq<u8>,
)
    requires
        value.len() > 0,
        spec_payload(strings, table, keys, shapes, value).len() <= u32::MAX,
        forall|t: int| 0 <= t < table.len() ==> #[trigger] table[t] < strings.len(),
        shapes_in_range(keys, shapes, shapes.len(), table.len()),
    ensures
        ({
            let b = spec_payload(strings, table, keys, shapes, value);
            spec_parse_input(b) matches Some(p) && {
                &&& p.root == b.len() - value.len()
                &&& b.subrange(p.root, b.len() as int) == value
                &&& p.strings.len() == table.len()
                &&& forall|t: int|
                    0 <= t < table.len() ==> span_bytes(b, #[trigger] p.strings[t]) == Some(
                        strings[table[t] as int],
                    )
                &&& p.shapes.len() == shapes.len()
                &&& forall|s: int| 0 <= s < shapes.len() ==> (#[trigger] p.shapes[s]).1 == key_count(shapes, s)
                &&& forall|s: int, j: int|
                    0 <= s < shapes.len() && 0 <= j < key_count(shapes, s) ==> p.shape_keys[(
                    #[trigger] p.shapes[s]).0 + j] == p.strings[#[trigger] keys[shapes[s].0 + j] as int]
            }
        }),
{
    lemma_payload_layout(strings, table, keys, shapes, value);
    lemma_payload_strings(strings, table, keys, shapes, value);
    lemma_payload_shapes(strings, table, keys, shapes, value);
    let b = spec_payload(strings, table, keys, shapes, value);
    let ps = parsed_strings(strings, table);
    let m = shapes.len();
    let root = b.len() - value.len();
    assert(spec_parse_input(b) == Some(
        Prelude { root, strings: ps, shape_keys: resolved_keys(ps, keys, shapes, m), shapes: parsed_shapes(ps, keys, shapes) },
    ));
    lemma_shapes_prefix(ps, keys, shapes, m, m);
    lemma_parsed_shape_keys(ps, keys, shapes);
    let pr = spec_parse_input(b).unwrap();
    assert forall|t: int| 0 <= t < table.len() implies span_bytes(b, #[trigger] pr.strings[t]) == Some(
        strings[table[t] as int],
    ) by {
        assert(pr.strings[t] == parsed_strings(strings, table)[t]);
    }
    assert forall|s: int| 0 <= s < shapes.len() implies (#[trigger] pr.shapes[s]).1 == key_count(shapes, s) by {
        assert(pr.shapes[s] == parsed_shapes(ps, keys, shapes)[s]);
        lemma_shapes_prefix(ps, keys, shapes, (s + 1) as nat, m);
        lemma_key_refs_prefix(keys, shapes[s].0 as int, 0, key_count(shapes, s));
        assert(shapes_bytes(keys, shapes, (s + 1) as nat) =~= shapes_bytes(keys, shapes, s as nat)
            + shape_entry_bytes(keys, shapes, s));
    }
    assert forall|s: int, j: int| 0 <= s < shapes.len() && 0 <= j < key_count(shapes, s) implies pr.shape_keys[(
        #[trigger] pr.shapes[s]).0 + j] == pr.strings[#[trigger] keys[shapes[s].0 + j] as int] by {
        assert(pr.shapes[s] == parsed_shapes(ps, keys, shapes)[s]);
    }
}

/// The parsed key list holds, for each shape from its parsed start, the entries
/// its keys name.
proof fn lemma_parsed_shape_keys(ps: Seq<(u32, u32)>, keys: Seq<u32>, shapes: Seq<(usize, usize)>)
    requires
        resolved_keys(ps, keys, shapes, shapes.len()).len() <= u32::MAX,
    ensures
        forall|s: int, j: int|
            0 <= s < shapes.len() && 0 <= j < key_count(shapes, s) ==> resolved_keys(ps, keys, shapes, shapes.len())[(
            #[trigger] parsed_shapes(ps, keys, shapes)[s]).0 + j] == ps[#[trigger] keys[shapes[s].0 + j] as int],
{
    let m = shapes.len();
    assert forall|s: int, j: int| 0 <= s < shapes.len() && 0 <= j < key_count(shapes, s) implies resolved_keys(
        ps,
        keys,
        shapes,
        m,
    )[(#[trigger] parsed_shapes(ps, keys, shapes)[s]).0 + j] == ps[#[trigger] keys[shapes[s].0 + j] as int] by {
        lemma_resolved_key(ps, keys, shapes, s as nat, m, j);
        lemma_resolved_prefix(ps, keys, shapes, s as nat, m);
    }
}


/// A payload whose value is one `i32` reads back, root first, as that number.
pub proof fn lemma_i32_payload_roundtrip(
    strings: Seq<Seq<u8>>,
    table: Seq<usize>,
    keys: Seq<u32>,
    shapes: Seq<(usize, usize)>,
    v: i32,
)
    requires
        spec_payload(strings, table, keys, shapes, i32_bytes(v)).len() <= u32::MAX,
        forall|t: int| 0 <= t < table.len() ==> #[trigger] table[t] < strings.len(),
        shapes_in_range(keys, shapes, shapes.len(), table.len()),
    ensures
        ({
            let b = spec_payload(strings, table, keys, shapes, i32_bytes(v));
            spec_parse_input(b) matches Some(p) && spec_decode_value(b, p.strings, p.shapes, p.root) matches Some(
                Decoded::Number(n),
            ) && num_value(n) == Some(v as int)
        }),
{
    let value = i32_bytes(v);
    assert(value.len() > 0);
    lemma_payload_prelude_roundtrip(strings, table, keys, shapes, value);
    let b = spec_payload(strings, table, keys, shapes, value);
    let p = spec_parse_input(b).unwrap();
    lemma_i32_roundtrip(b, p.strings, p.shapes, p.root, v);
}

/// A payload whose value is one inline string reads back, root first, as a string
/// whose content is the bytes written.
pub proof fn lemma_string_payload_roundtrip(
    strings: Seq<Seq<u8>>,
    table: Seq<usize>,
    keys: Seq<u32>,
    shapes: Seq<(usize, usize)>,
    data: Seq<u8>,
)
    requires
        spec_payload(strings, table, keys, shapes, str_header(data.len()) + data).len() <= u32::MAX,
        forall|t: int| 0 <= t < table.len() ==> #[trigger] table[t] < strings.len(),
        shapes_in_range(keys, shapes, shapes.len(), table.len()),
    ensures
        ({
            let b = spec_payload(strings, table, keys, shapes, str_header(data.len()) + data);
            spec_parse_input(b) matches Some(p) && spec_decode_value(b, p.strings, p.shapes, p.root) matches Some(
                Decoded::String { content, len },
            ) && span_bytes(b, (content, len)) == Some(data)
        }),
{
    let value = str_header(data.len()) + data;
    assert(str_header(data.len()).len() > 0);
    lemma_payload_prelude_roundtrip(strings, table, keys, shapes, value);
    let b = spec_payload(strings, table, keys, shapes, value);
    let p = spec_parse_input(b).unwrap();
    assert(b.subrange(p.root, p.root + value.len()) == value);
    lemma_string_roundtrip(b, p.strings, p.shapes, p.root, data);
}


/// The header of an array or a map written by the writer reads back as a container
/// of that kind and count, whose children follow the header.
pub proof fn lemma_container_header_roundtrip(
    b: Seq<u8>,
    shapes: Seq<(u32, u32)>,
    pos: int,
    len: u32,
    map: bool,
)
    requires
        0 <= pos,
        pos + (if map {
            container_header(len as nat, FIXMAP0, SEQFIXMAP_MIN, SEQMAP)
        } else {
            container_header(len as nat, FIXARRAY0, SEQFIXARRAY_MIN, SEQARRAY)
        }).len() <= b.len(),
        b.len() <= u32::MAX,
        b.subrange(
            pos,
            pos + (if map {
                container_header(len as nat, FIXMAP0, SEQFIXMAP_MIN, SEQMAP)
            } else {
                container_header(len as nat, FIXARRAY0, SEQFIXARRAY_MIN, SEQARRAY)
            }).len(),
        ) == (if map {
            container_header(len as nat, FIXMAP0, SEQFIXMAP_MIN, SEQMAP)
        } else {
            container_header(len as nat, FIXARRAY0, SEQFIXARRAY_MIN, SEQARRAY)
        }),
    ensures
        ({
            let h = if map {
                container_header(len as nat, FIXMAP0, SEQFIXMAP_MIN, SEQMAP)
            } else {
                container_header(len as nat, FIXARRAY0, SEQFIXARRAY_MIN, SEQARRAY)
            };
            spec_meta_header(b, shapes, pos) == Some(
                ContainerMeta {
                    tag_offset: pos as u32,
                    kind: if map {
                        ContainerKind::Mapping
                    } else {
                        ContainerKind::Array
                    },
                    count: len,
                    first_child: (pos + h.len()) as u32,
                    end: if len == 0 {
                        (pos + 1) as u32
                    } else {
                        INVALID_OFFSET
                    },
                    shape_id: 0,
                },
            )
        }),
{
    let h = if map {
        container_header(len as nat, FIXMAP0, SEQFIXMAP_MIN, SEQMAP)
    } else {
        container_header(len as nat, FIXARRAY0, SEQFIXARRAY_MIN, SEQARRAY)
    };
    assert(b[pos] == h[0]);
    if len > 7 {
        let big = if map {
            SEQMAP
        } else {
            SEQARRAY
        };
        lemma_after_tag(b, pos, big, varint_bytes(len as nat));
        lemma_var_u32_roundtrip(b, pos + 1, b.len() as int, len);
    }
}

/// The header of a shaped object written by the writer reads back as a shaped
/// object of that shape, with as many values as the shape has keys.
pub proof fn lemma_shape_header_roundtrip(b: Seq<u8>, shapes: Seq<(u32, u32)>, pos: int, shape_id: u32)
    requires
        0 <= pos,
        pos + 1 + varint_bytes(shape_id as nat).len() <= b.len(),
        b.len() <= u32::MAX,
        b.subrange(pos, pos + 1 + varint_bytes(shape_id as nat).len()) == seq![SEQSHAPE] + varint_bytes(
            shape_id as nat,
        ),
        shape_id < shapes.len(),
    ensures
        spec_meta_header(b, shapes, pos) == Some(
            ContainerMeta {
                tag_offset: pos as u32,
                kind: ContainerKind::Shape,
                count: shapes[shape_id as int].1,
                first_child: (pos + 1 + varint_bytes(shape_id as nat).len()) as u32,
                end: INVALID_OFFSET,
                shape_id,
            },
        ),
{
    lemma_after_tag(b, pos, SEQSHAPE, varint_bytes(shape_id as nat));
    lemma_var_u32_roundtrip(b, pos + 1, b.len() as int, shape_id);
}


/// The first `k` of the `i32`s `vs`, encoded one after another.
pub open spec fn i32s_bytes(vs: Seq<i32>, k: nat) -> Seq<u8>
    decreases k,
{
    if k == 0 {
        seq![]
    } else {
        i32s_bytes(vs, (k - 1) as nat) + i32_bytes(vs[k - 1])
    }
}

/// An `i32` written by the writer is skipped as a whole.
proof fn lemma_i32_skip(b: Seq<u8>, shapes: Seq<(u32, u32)>, pos: int, end: int, v: i32)
    requires
        0 <= pos,
        pos + i32_bytes(v).len() <= end <= b.len(),
        b.len() <= u32::MAX,
        b.subrange(pos, pos + i32_bytes(v).len()) == i32_bytes(v),
    ensures
        spec_skip(b, shapes, pos, end) == Some(pos + i32_bytes(v).len()),
        i32_bytes(v).len() >= 1,
{
    let enc = i32_bytes(v);
    assert(b[pos] == enc[0]);
    lemma_le_bytes_len(v as nat, 2);
    lemma_le_bytes_len(v as nat, 4);
    lemma_le_bytes_len((v + 65536) as nat, 2);
    lemma_le_bytes_len((v + 0x1_0000_0000) as nat, 4);
}

/// Longer runs of `i32`s start with shorter ones; each takes at least a byte.
proof fn lemma_i32s_prefix(vs: Seq<i32>, j: nat, k: nat)
    requires
        j <= k,
    ensures
        i32s_bytes(vs, k).subrange(0, i32s_bytes(vs, j).len() as int) == i32s_bytes(vs, j),
        i32s_bytes(vs, k).len() >= k,
        i32s_bytes(vs, j).len() <= i32s_bytes(vs, k).len(),
    decreases k,
{
    if k > 0 {
        let jj: nat = if j < k { j } else { (k - 1) as nat };
        lemma_i32s_prefix(vs, jj, (k - 1) as nat);
        let prev = i32s_bytes(vs, (k - 1) as nat);
        let cur = i32s_bytes(vs, k);
        assert(i32_bytes(vs[k - 1]).len() >= 1);
        if j < k {
            assert(cur.subrange(0, i32s_bytes(vs, j).len() as int) =~= prev.subrange(
                0,
                i32s_bytes(vs, j).len() as int,
            ));
        } else {
            assert(cur.subrange(0, cur.len() as int) =~= cur);
        }
    }
}

/// Where element `k` of an array of `i32`s written at `start` (its children's
/// start) begins, and that its bytes are the encoding of `vs[k]`.
proof fn lemma_i32_child_pos(
    b: Seq<u8>,
    strings: Seq<(u32, u32)>,
    shapes: Seq<(u32, u32)>,
    m: ContainerMeta,
    vs: Seq<i32>,
    k: nat,
)
    requires
        m.kind == ContainerKind::Array,
        m.count == vs.len(),
        k <= vs.len(),
        0 <= m.first_child,
        m.first_child + i32s_bytes(vs, vs.len()).len() <= container_limit(b, m) <= b.len(),
        b.len() <= u32::MAX,
        b.subrange(m.first_child as int, m.first_child + i32s_bytes(vs, vs.len()).len()) == i32s_bytes(
            vs,
            vs.len(),
        ),
    ensures
        spec_child_pos(b, strings, shapes, m, k) == Some(m.first_child + i32s_bytes(vs, k).len()),
        k < vs.len() ==> b.subrange(
            m.first_child + i32s_bytes(vs, k).len(),
            m.first_child + i32s_bytes(vs, k).len() + i32_bytes(vs[k as int]).len(),
        ) == i32_bytes(vs[k as int]),
    decreases k,
{
    let all = i32s_bytes(vs, vs.len());
    let f = m.first_child as int;
    if k < vs.len() {
        lemma_i32s_prefix(vs, k + 1, vs.len());
        let before = i32s_bytes(vs, k);
        let e = i32_bytes(vs[k as int]);
        assert(i32s_bytes(vs, k + 1) == before + e);
        lemma_sub_of_sub(b, f, all, before.len() as int, e.len() as int);
        assert(all.subrange(before.len() as int, before.len() + e.len() as int) =~= e) by {
            assert(all.subrange(0, (before + e).len() as int) == before + e);
            assert forall|i: int| 0 <= i < e.len() implies #[trigger] all.subrange(
                before.len() as int,
                before.len() + e.len() as int,
            )[i] == e[i] by {
                assert(all.subrange(0, (before + e).len() as int)[before.len() + i] == (before + e)[before.len() + i]);
            }
        }
    }
    if k > 0 {
        lemma_i32_child_pos(b, strings, shapes, m, vs, (k - 1) as nat);
        let p = f + i32s_bytes(vs, (k - 1) as nat).len();
        lemma_i32s_prefix(vs, k, vs.len());
        lemma_i32_skip(b, shapes, p, container_limit(b, m), vs[k - 1]);
    }
}

/// An array of `i32`s written by the writer reads back as an array of that many
/// elements, element `k` being a number equal to `vs[k]`.
pub proof fn lemma_i32_array_roundtrip(
    b: Seq<u8>,
    strings: Seq<(u32, u32)>,
    shapes: Seq<(u32, u32)>,
    pos: int,
    vs: Seq<i32>,
)
    requires
        0 <= pos,
        vs.len() <= u32::MAX,
        pos + container_header(vs.len(), FIXARRAY0, SEQFIXARRAY_MIN, SEQARRAY).len() + i32s_bytes(vs, vs.len()).len()
            <= b.len(),
        b.len() <= u32::MAX,
        b.subrange(
            pos,
            pos + container_header(vs.len(), FIXARRAY0, SEQFIXARRAY_MIN, SEQARRAY).len() + i32s_bytes(
                vs,
                vs.len(),
            ).len(),
        ) == container_header(vs.len(), FIXARRAY0, SEQFIXARRAY_MIN, SEQARRAY) + i32s_bytes(vs, vs.len()),
    ensures
        spec_meta(b, shapes, pos) matches Some(m) && m.kind == ContainerKind::Array && m.count == vs.len()
            && forall|k: int, check_next: bool|
            0 <= k < vs.len() ==> ((#[trigger] spec_element(b, strings, shapes, m, k as u32, check_next)) matches Ok(
                Decoded::Number(n),
            ) && num_value(n) == Some(vs[k] as int)),
{
    let h = container_header(vs.len(), FIXARRAY0, SEQFIXARRAY_MIN, SEQARRAY);
    let body = i32s_bytes(vs, vs.len());
    let n = vs.len() as u32;
    lemma_sub_of_sub(b, pos, h + body, 0, h.len() as int);
    assert((h + body).subrange(0, h.len() as int) =~= h);
    lemma_container_header_roundtrip(b, shapes, pos, n, false);
    lemma_sub_of_sub(b, pos, h + body, h.len() as int, body.len() as int);
    assert((h + body).subrange(h.len() as int, h.len() + body.len() as int) =~= body);
    lemma_i32s_prefix(vs, 0, vs.len());
    let m = spec_meta_header(b, shapes, pos).unwrap();
    assert(m.first_child == pos + h.len());
    if vs.len() == 0 {
        assert(body.len() == 0);
    }
    assert(child_room_ok(b, m));
    assert forall|k: int, check_next: bool| 0 <= k < vs.len() implies ((#[trigger] spec_element(
        b,
        strings,
        shapes,
        m,
        k as u32,
        check_next,
    )) matches Ok(Decoded::Number(v)) && num_value(v) == Some(vs[k] as int)) by {
        lemma_i32_child_pos(b, strings, shapes, m, vs, k as nat);
        lemma_i32s_prefix(vs, (k + 1) as nat, vs.len());
        let p = m.first_child + i32s_bytes(vs, k as nat).len();
        assert(i32s_bytes(vs, (k + 1) as nat) == i32s_bytes(vs, k as nat) + i32_bytes(vs[k]));
        lemma_i32_skip(b, shapes, p, container_limit(b, m), vs[k]);
        lemma_i32_roundtrip(b, strings, shapes, p, vs[k]);
    }
}

/// A varint of a `u32` written by the writer reads back as that value.
pub proof fn lemma_var_u32_roundtrip(b: Seq<u8>, pos: int, end: int, v: u32)
    requires
        0 <= pos,
        pos + varint_bytes(v as nat).len() <= end <= b.len(),
        b.subrange(pos, pos + varint_bytes(v as nat).len()) == varint_bytes(v as nat),
    ensures
        spec_var_u32(b, pos, end) == Some((v, pos + varint_bytes(v as nat).len())),
        varint_bytes(v as nat).len() >= 1,
{
    lemma_pow128_nine();
    assert(pow128(0) == 1);
    lemma_varint_from_roundtrip(b, pos, end, 0, 0, v as nat);
}

/// The two's-complement bits of an `i64`, as an unsigned value below 2^64.
pub open spec fn twos_complement64(v: i64) -> nat {
    if v >= 0 {
        v as nat
    } else {
        (v + 0x1_0000_0000_0000_0000) as nat
    }
}

/// A 64-bit integer reads back as its value: the `INT64` tag followed by the eight
/// little-endian bytes of an `i64`'s two's-complement bits decodes to a number equal
/// to the `i64`, negative values included, and the `UINT64` tag followed by the
/// eight little-endian bytes of a `u64` decodes to a number equal to the `u64`.
pub proof fn lemma_int64_roundtrip(
    b: Seq<u8>,
    strings: Seq<(u32, u32)>,
    shapes: Seq<(u32, u32)>,
    pos: int,
    v: i64,
    u: u64,
)
    requires
        0 <= pos,
        pos + 9 <= b.len(),
        b.len() <= u32::MAX,
    ensures
        b.subrange(pos, pos + 9) == seq![INT64] + le_bytes(twos_complement64(v), 8) ==> (spec_decode_value(
            b,
            strings,
            shapes,
            pos,
        ) matches Some(Decoded::Number(n)) && num_value(n) == Some(v as int)),
        b.subrange(pos, pos + 9) == seq![UINT64] + le_bytes(u as nat, 8) ==> (spec_decode_value(
            b,
            strings,
            shapes,
            pos,
        ) matches Some(Decoded::Number(n)) && num_value(n) == Some(u as int)),
{
    lemma2_to64();
    lemma2_to64_rest();
    reveal_with_fuel(pow256, 9);
    assert(pow256(8) == 0x1_0000_0000_0000_0000);
    if b.subrange(pos, pos + 9) == seq![INT64] + le_bytes(twos_complement64(v), 8) {
        let t = twos_complement64(v);
        lemma_le_bytes_len(t, 8);
        lemma_after_tag(b, pos, INT64, le_bytes(t, 8));
        lemma_le_roundtrip(b, pos + 1, t, 8);
        assert(pow2(63) == 0x8000_0000_0000_0000);
        assert(pow2(64) == 0x1_0000_0000_0000_0000);
        assert(((64 - 1) as nat) == 63nat);
        if v >= 0 {
            assert(t < pow2(63));
        } else {
            assert(t >= pow2(63));
        }
        assert(signed(t, 64) == v);
    }
    if b.subrange(pos, pos + 9) == seq![UINT64] + le_bytes(u as nat, 8) {
        lemma_le_bytes_len(u as nat, 8);
        lemma_after_tag(b, pos, UINT64, le_bytes(u as nat, 8));
        lemma_le_roundtrip(b, pos + 1, u as nat, 8);
    }
}

} // verus!
