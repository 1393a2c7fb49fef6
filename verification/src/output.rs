//! The FBF writer: encodes the output value as it is written, checked by the
//! write state machine, keeps the output string table and shape table, and
//! assembles the final payload (header, tables, value).
use crate::encoding::{
    append_bytes, append_le, append_zeros, le_bytes, varint_bytes, write_varint, FALSE, FIXARRAY0,
    FIXMAP0, FIXSTR_MIN, FLAG_SHAPE_TABLE, FLAG_STRING_TABLE, FLOAT64, INT16, INT32, INT8, MAGIC,
    NIL, SEQARRAY, SEQFIXARRAY_MIN, SEQFIXMAP_MIN, SEQMAP, SEQSHAPE, STR16, STR32, STR8, STRREF16,
    STRREF32, STRREF8, TRUE, UINT16, UINT32, UINT8, VERSION,
};
use crate::interner::{InternedStringId, StringInterner, zeros};
use crate::write_state::{
    has_room, spec_finish_array, spec_finish_object, spec_finish_shape, spec_start_container,
    spec_write_scalar, states_wf, ArrayState, ObjectState, State, WriteResult,
};
use vstd::prelude::*;

verus! {

// ---------------------------------------------------------------------------
// Encodings
// ---------------------------------------------------------------------------

/// The smallest FBF encoding of an `i32`.
pub open spec fn i32_bytes(v: i32) -> Seq<u8> {
    if 0 <= v <= 127 {
        seq![v as u8]
    } else if -32 <= v <= -1 {
        seq![(v + 256) as u8]
    } else if 128 <= v <= 255 {
        seq![UINT8, v as u8]
    } else if 256 <= v <= 65535 {
        seq![UINT16] + le_bytes(v as nat, 2)
    } else if v >= 65536 {
        seq![UINT32] + le_bytes(v as nat, 4)
    } else if -128 <= v <= -33 {
        seq![INT8, (v + 256) as u8]
    } else if -32768 <= v <= -129 {
        seq![INT16] + le_bytes((v + 65536) as nat, 2)
    } else {
        seq![INT32] + le_bytes((v + 0x1_0000_0000) as nat, 4)
    }
}

/// The header of an inline string of `len` bytes: a fixstr tag, or a tag and a
/// little-endian length of one, two or four bytes.
pub open spec fn str_header(len: nat) -> Seq<u8> {
    if len <= 31 {
        seq![(FIXSTR_MIN + len) as u8]
    } else if len <= 255 {
        seq![STR8, len as u8]
    } else if len <= 65535 {
        seq![STR16] + le_bytes(len, 2)
    } else {
        seq![STR32] + le_bytes(len, 4)
    }
}

/// The header of a sequential container of `len` children: the empty tag, a small
/// tag holding the count, or a tag followed by a varint count.
pub open spec fn container_header(len: nat, empty: u8, small_min: u8, big: u8) -> Seq<u8> {
    if len == 0 {
        seq![empty]
    } else if len <= 7 {
        seq![(small_min + len - 1) as u8]
    } else {
        seq![big] + varint_bytes(len)
    }
}

/// A reference to string-table entry `id`, in the smallest width that holds it.
pub open spec fn strref_bytes(id: u32) -> Seq<u8> {
    if id <= 255 {
        seq![STRREF8, id as u8]
    } else if id <= 65535 {
        seq![STRREF16] + le_bytes(id as nat, 2)
    } else {
        seq![STRREF32] + le_bytes(id as nat, 4)
    }
}

/// Append a reference to string-table entry `id`.
pub fn append_string_reference(output: &mut Vec<u8>, id: u32)
    ensures
        final(output)@ == old(output)@ + strref_bytes(id),
{
    let ghost start = output@;
    if id <= 255 {
        output.push(STRREF8);
        output.push(id as u8);
        assert(output@ =~= start + strref_bytes(id));
    } else if id <= 65535 {
        output.push(STRREF16);
        append_le(output, id as u64, 2);
        assert(output@ =~= start + strref_bytes(id));
    } else {
        output.push(STRREF32);
        append_le(output, id as u64, 4);
        assert(output@ =~= start + strref_bytes(id));
    }
}

// ---------------------------------------------------------------------------
// The assembled payload
// ---------------------------------------------------------------------------

/// The first `n` string-table entries: each a varint length, then the bytes.
pub open spec fn table_bytes(strings: Seq<Seq<u8>>, table: Seq<InternedStringId>, n: nat) -> Seq<u8>
    decreases n,
{
    if n == 0 {
        seq![]
    } else {
        let s = strings[table[n - 1] as int];
        table_bytes(strings, table, (n - 1) as nat) + varint_bytes(s.len()) + s
    }
}

/// References to the `n` keys from `start` in `keys`.
pub open spec fn key_refs_bytes(keys: Seq<u32>, start: int, n: nat) -> Seq<u8>
    decreases n,
{
    if n == 0 {
        seq![]
    } else {
        key_refs_bytes(keys, start, (n - 1) as nat) + strref_bytes(keys[start + n - 1])
    }
}

/// The first `n` shapes: each a varint key count, then references to its keys.
pub open spec fn shapes_bytes(keys: Seq<u32>, shapes: Seq<(usize, usize)>, n: nat) -> Seq<u8>
    decreases n,
{
    if n == 0 {
        seq![]
    } else {
        let (start, end) = shapes[n - 1];
        shapes_bytes(keys, shapes, (n - 1) as nat) + varint_bytes((end - start) as nat)
            + key_refs_bytes(keys, start as int, (end - start) as nat)
    }
}

/// The flags byte: which tables are present.
pub open spec fn payload_flags(has_strings: bool, has_shapes: bool) -> u8 {
    ((if has_strings {
        FLAG_STRING_TABLE
    } else {
        0
    }) + (if has_shapes {
        FLAG_SHAPE_TABLE
    } else {
        0
    })) as u8
}

/// A complete output payload: header, the string table and shape table when they
/// are not empty, then the encoded value.
pub open spec fn spec_payload(
    strings: Seq<Seq<u8>>,
    table: Seq<InternedStringId>,
    keys: Seq<u32>,
    shapes: Seq<(usize, usize)>,
    value: Seq<u8>,
) -> Seq<u8> {
    let header = seq![MAGIC[0], MAGIC[1], MAGIC[2], VERSION, payload_flags(table.len() > 0, shapes.len() > 0)];
    let string_part = if table.len() > 0 {
        varint_bytes(table.len()) + table_bytes(strings, table, table.len())
    } else {
        seq![]
    };
    let shape_part = if shapes.len() > 0 {
        varint_bytes(shapes.len()) + shapes_bytes(keys, shapes, shapes.len())
    } else {
        seq![]
    };
    header + string_part + shape_part + value
}

// ---------------------------------------------------------------------------
// The writer
// ---------------------------------------------------------------------------

/// The output being written.
pub struct Output {
    /// The encoded value, without the header or the tables.
    bytes: Vec<u8>,
    state: State,
    stack: Vec<State>,
    /// Interned string ids in output string-table order.
    string_table: Vec<InternedStringId>,
    /// Output string-table entry by interned string id.
    table_ids: Vec<Option<u32>>,
    /// Flat shape keys, as string-table entries.
    shape_keys: Vec<u32>,
    /// Each shape's keys: a range of `shape_keys`.
    shapes: Vec<(usize, usize)>,
    /// The announced key count and the first key of the definition in progress.
    open_shape: Option<(usize, usize)>,
}

/// The count of values a container state has received.
pub open spec fn inserted(s: State) -> nat {
    match s {
        State::Object(o) => o.num_inserted as nat,
        State::Array(a) => a.num_inserted as nat,
        State::Shape(a) => a.num_inserted as nat,
        _ => 0,
    }
}

/// The table entry that an interned string gets as a shape key: the one recorded for
/// it, else the first entry with the same bytes, else a new entry at the end.
pub open spec fn spec_table_entry(
    strings: Seq<Seq<u8>>,
    table: Seq<InternedStringId>,
    table_ids: Seq<Option<u32>>,
    id: InternedStringId,
) -> u32 {
    if id < table_ids.len() && table_ids[id as int] is Some {
        table_ids[id as int]->0
    } else {
        match first_same_entry(strings, table, strings[id as int], 0) {
            Some(t) => t as u32,
            None => table.len() as u32,
        }
    }
}

/// The first table entry, from `t` on, whose string has the bytes `s`.
pub open spec fn first_same_entry(
    strings: Seq<Seq<u8>>,
    table: Seq<InternedStringId>,
    s: Seq<u8>,
    t: nat,
) -> Option<nat>
    decreases table.len() - t,
{
    if t >= table.len() {
        None
    } else if strings[table[t as int] as int] == s {
        Some(t)
    } else {
        first_same_entry(strings, table, s, t + 1)
    }
}

impl Output {
    /// The encoded value so far.
    pub closed spec fn bytes(&self) -> Seq<u8> {
        self.bytes@
    }

    /// The writer state.
    pub closed spec fn state(&self) -> State {
        self.state
    }

    /// The states of the enclosing containers.
    pub closed spec fn stack(&self) -> Seq<State> {
        self.stack@
    }

    /// The string table: interned string ids in entry order.
    pub closed spec fn string_table(&self) -> Seq<InternedStringId> {
        self.string_table@
    }

    /// The string-table entry recorded per interned string id.
    pub closed spec fn table_ids(&self) -> Seq<Option<u32>> {
        self.table_ids@
    }

    /// The flat shape keys.
    pub closed spec fn shape_keys(&self) -> Seq<u32> {
        self.shape_keys@
    }

    /// The shapes, as ranges of the shape keys.
    pub closed spec fn shapes(&self) -> Seq<(usize, usize)> {
        self.shapes@
    }

    /// The definition in progress: announced key count and first key.
    pub closed spec fn open_shape(&self) -> Option<(usize, usize)> {
        self.open_shape
    }

    /// The tables are unchanged between `self` and `other`.
    pub open spec fn same_tables(&self, other: &Output) -> bool {
        &&& self.string_table() == other.string_table()
        &&& self.table_ids() == other.table_ids()
        &&& self.shape_keys() == other.shape_keys()
        &&& self.shapes() == other.shapes()
        &&& self.open_shape() == other.open_shape()
    }

    /// The part of the invariant that concerns the value: a well-formed state stack
    /// whose counts never exceed the bytes written.
    pub closed spec fn core_wf(&self) -> bool {
        &&& states_wf(self.state, self.stack@)
        &&& inserted(self.state) <= self.bytes@.len()
        &&& forall|i: int| 0 <= i < self.stack@.len() ==> #[trigger] inserted(self.stack@[i]) <= self.bytes@.len()
    }

    /// The part of the invariant that concerns the tables, given the interned
    /// strings: entries that name interned strings, no two entries with the same
    /// bytes, a recorded entry per string that holds that string's bytes, keys that
    /// name entries, and shapes inside the keys.
    pub closed spec fn tables_wf(&self, strings: Seq<Seq<u8>>) -> bool {
        &&& self.string_table@.len() <= u32::MAX
        &&& forall|t: int| 0 <= t < self.string_table@.len() ==> #[trigger] self.string_table@[t] < strings.len()
        &&& forall|a: int, b: int|
            0 <= a < b < self.string_table@.len() ==> strings[#[trigger] self.string_table@[a] as int]
                != strings[#[trigger] self.string_table@[b] as int]
        &&& forall|i: int|
            0 <= i < self.table_ids@.len() && #[trigger] self.table_ids@[i] is Some ==> i < strings.len()
                && (self.table_ids@[i]->0 as int) < self.string_table@.len()
                && strings[self.string_table@[self.table_ids@[i]->0 as int] as int] == strings[i]
        &&& forall|k: int| 0 <= k < self.shape_keys@.len() ==> (#[trigger] self.shape_keys@[k] as int)
            < self.string_table@.len()
        &&& forall|s: int|
            #![trigger self.shapes@[s]]
            0 <= s < self.shapes@.len() ==> self.shapes@[s].0 <= self.shapes@[s].1 <= self.shape_keys@.len()
        &&& self.open_shape matches Some((count, start)) ==> start <= self.shape_keys@.len() <= start
            + count
    }

    /// Whether the tables refer to interned string `id`: as an entry, or by a
    /// recorded entry.
    pub open spec fn references(&self, id: InternedStringId) -> bool {
        ||| self.string_table().contains(id)
        ||| (id < self.table_ids().len() && self.table_ids()[id as int] is Some)
    }

    /// The table invariant survives interning more strings: it depends only on the
    /// strings that were there before.
    pub proof fn lemma_tables_wf_more_strings(&self, before: Seq<Seq<u8>>, after: Seq<Seq<u8>>)
        requires
            self.tables_wf(before),
            before.len() <= after.len(),
            forall|i: int| 0 <= i < before.len() ==> #[trigger] after[i] == before[i],
        ensures
            self.tables_wf(after),
    {
        assert forall|a: int, b: int| 0 <= a < b < self.string_table@.len() implies after[
            #[trigger] self.string_table@[a] as int] != after[#[trigger] self.string_table@[b] as int] by {
            assert(after[self.string_table@[a] as int] == before[self.string_table@[a] as int]);
            assert(after[self.string_table@[b] as int] == before[self.string_table@[b] as int]);
        }
        assert forall|i: int|
            0 <= i < self.table_ids@.len() && #[trigger] self.table_ids@[i] is Some implies i < after.len()
                && (self.table_ids@[i]->0 as int) < self.string_table@.len()
                && after[self.string_table@[self.table_ids@[i]->0 as int] as int] == after[i] by {
            let t = self.table_ids@[i]->0 as int;
            assert(self.string_table@[t] < before.len());
            assert(after[self.string_table@[t] as int] == before[self.string_table@[t] as int]);
            assert(after[i] == before[i]);
        }
    }

    /// What the table invariant says of the tables: every entry names an interned
    /// string, no two entries hold the same bytes, and the entry recorded for a
    /// string holds that string's bytes.
    pub proof fn lemma_table_entries(&self, strings: Seq<Seq<u8>>)
        requires
            self.tables_wf(strings),
        ensures
            forall|t: int| 0 <= t < self.string_table().len() ==> #[trigger] self.string_table()[t] < strings.len(),
            forall|a: int, b: int|
                0 <= a < b < self.string_table().len() ==> strings[#[trigger] self.string_table()[a] as int]
                    != strings[#[trigger] self.string_table()[b] as int],
            forall|i: int|
                0 <= i < self.table_ids().len() && #[trigger] self.table_ids()[i] is Some ==> i < strings.len()
                    && (self.table_ids()[i]->0 as int) < self.string_table().len() && strings[self.string_table()[
                    self.table_ids()[i]->0 as int] as int] == strings[i],
    {
    }

    /// Only strings below the number interned are referred to.
    pub proof fn lemma_references_bounded(&self, strings: Seq<Seq<u8>>, id: InternedStringId)
        requires
            self.tables_wf(strings),
            id >= strings.len(),
        ensures
            !self.references(id),
    {
        if self.string_table().contains(id) {
            let t = choose|t: int| 0 <= t < self.string_table@.len() && self.string_table@[t] == id;
            assert(self.string_table@[t] < strings.len());
        }
    }

    /// The table invariant survives a change of the bytes of a string the tables do
    /// not refer to.
    pub proof fn lemma_tables_wf_unreferenced_update(
        &self,
        strings: Seq<Seq<u8>>,
        id: InternedStringId,
        data: Seq<u8>,
    )
        requires
            self.tables_wf(strings),
            id < strings.len(),
            !self.references(id),
        ensures
            self.tables_wf(strings.update(id as int, data)),
    {
        let after = strings.update(id as int, data);
        assert forall|t: int| 0 <= t < self.string_table@.len() implies #[trigger] self.string_table@[t] != id by {
            assert(self.string_table().contains(self.string_table@[t]));
        }
        assert forall|a: int, b: int| 0 <= a < b < self.string_table@.len() implies after[
            #[trigger] self.string_table@[a] as int] != after[#[trigger] self.string_table@[b] as int] by {
            assert(self.string_table@[a] != id);
            assert(self.string_table@[b] != id);
        }
        assert forall|i: int|
            0 <= i < self.table_ids@.len() && #[trigger] self.table_ids@[i] is Some implies i < after.len()
                && (self.table_ids@[i]->0 as int) < self.string_table@.len()
                && after[self.string_table@[self.table_ids@[i]->0 as int] as int] == after[i] by {
            let t = self.table_ids@[i]->0 as int;
            assert(self.string_table@[t] != id);
            assert(i != id);
        }
    }

    /// Every shape's range is ordered.
    pub proof fn lemma_shapes_ordered(&self, strings: Seq<Seq<u8>>)
        requires
            self.tables_wf(strings),
        ensures
            forall|s: int| 0 <= s < self.shapes().len() ==> #[trigger] self.shapes()[s].0 <= self.shapes()[s].1,
    {
        assert forall|s: int| 0 <= s < self.shapes().len() implies #[trigger] self.shapes()[s].0 <= self.shapes()[s].1 by {
            assert(self.shapes@[s].0 <= self.shapes@[s].1);
        }
    }

    /// Writers with the same tables satisfy the table invariant alike.
    pub proof fn lemma_same_tables_wf(&self, other: &Output, strings: Seq<Seq<u8>>)
        requires
            self.same_tables(other),
            other.tables_wf(strings),
        ensures
            self.tables_wf(strings),
    {
    }

    /// The writer's invariant, given the interned strings.
    pub open spec fn wf(&self, strings: Seq<Seq<u8>>) -> bool {
        self.core_wf() && self.tables_wf(strings)
    }

    /// A writer with nothing written.
    pub fn new() -> (r: Self)
        ensures
            forall|strings: Seq<Seq<u8>>| r.wf(strings),
            r.bytes() == Seq::<u8>::empty(),
            r.state() == State::Start,
            r.stack() == Seq::<State>::empty(),
            r.string_table() == Seq::<InternedStringId>::empty(),
            r.table_ids() == Seq::<Option<u32>>::empty(),
            r.shape_keys() == Seq::<u32>::empty(),
            r.shapes() == Seq::<(usize, usize)>::empty(),
            r.open_shape() is None,
    {
        Output {
            bytes: Vec::new(),
            state: State::Start,
            stack: Vec::new(),
            string_table: Vec::new(),
            table_ids: Vec::new(),
            shape_keys: Vec::new(),
            shapes: Vec::new(),
            open_shape: None,
        }
    }

    /// The encoded value so far.
    pub fn output_bytes(&self) -> (r: &[u8])
        ensures
            r@ == self.bytes(),
    {
        self.bytes.as_slice()
    }

    /// Whether a shape definition is open and expects another key.
    pub fn shape_key_expected(&self) -> (r: bool)
        ensures
            r == (self.open_shape() matches Some((c, st)) && self.shape_keys().len() - st < c),
    {
        match self.open_shape {
            Some((count, start)) => self.shape_keys.len() < start || self.shape_keys.len() - start < count,
            None => false,
        }
    }

    /// The number of string-table entries.
    pub fn string_table_len(&self) -> (r: usize)
        ensures
            r == self.string_table().len(),
    {
        self.string_table.len()
    }

    /// The writer state.
    pub fn write_state(&self) -> (r: State)
        ensures
            r == self.state(),
    {
        self.state
    }

    /// Overwrite output bytes at `offset` (the content of a string allocated earlier).
    pub fn fill(&mut self, offset: usize, data: &[u8])
        requires
            offset + data@.len() <= old(self).bytes().len(),
        ensures
            final(self).bytes() == old(self).bytes().subrange(0, offset as int) + data@
                + old(self).bytes().subrange(offset + data@.len(), old(self).bytes().len() as int),
            final(self).state() == old(self).state(),
            final(self).stack() == old(self).stack(),
            final(self).same_tables(old(self)),
            old(self).core_wf() ==> final(self).core_wf(),
            forall|strings: Seq<Seq<u8>>| old(self).tables_wf(strings) ==> final(self).tables_wf(strings),
    {
        let mut i: usize = 0;
        let ghost before = self.bytes@;
        while i < data.len()
            invariant
                offset + data@.len() <= before.len(),
                self.bytes@.len() == before.len(),
                offset + data@.len() <= self.bytes.len(),
                i <= data@.len(),
                forall|k: int| 0 <= k < offset ==> #[trigger] self.bytes@[k] == before[k],
                forall|k: int| offset <= k < offset + i ==> #[trigger] self.bytes@[k] == data@[k - offset],
                forall|k: int| offset + i <= k < before.len() ==> #[trigger] self.bytes@[k] == before[k],
                self.state == old(self).state,
                self.stack@ == old(self).stack@,
                self.string_table@ == old(self).string_table@,
                self.table_ids@ == old(self).table_ids@,
                self.shape_keys@ == old(self).shape_keys@,
                self.shapes@ == old(self).shapes@,
                self.open_shape == old(self).open_shape,
            decreases data@.len() - i,
        {
            self.bytes.set(offset + i, data[i]);
            i = i + 1;
        }
        assert(self.bytes@ =~= before.subrange(0, offset as int) + data@ + before.subrange(
            offset + data@.len(),
            before.len() as int,
        ));
    }
}

/// The stack after a container is opened keeps counts within the bytes written.
proof fn lemma_counts_after_push(stack: Seq<State>, parent: State, len: nat, new_len: nat)
    requires
        forall|i: int| 0 <= i < stack.len() ==> #[trigger] inserted(stack[i]) <= len,
        inserted(parent) <= new_len,
        len <= new_len,
    ensures
        forall|i: int| 0 <= i < stack.push(parent).len() ==> #[trigger] inserted(stack.push(parent)[i]) <= new_len,
{
    assert forall|i: int| 0 <= i < stack.push(parent).len() implies #[trigger] inserted(stack.push(parent)[i]) <= new_len by {
        if i < stack.len() {
            assert(stack.push(parent)[i] == stack[i]);
        }
    }
}

/// Writing one scalar counts one more value than before, at most.
proof fn lemma_scalar_count(s: State, is_string: bool)
    ensures
        inserted(spec_write_scalar(s, is_string).0) <= inserted(s) + 1,
{
}

impl Output {
    /// Record a scalar in the state machine and, when it is accepted, append its encoding.
    fn write_encoded(&mut self, is_string: bool, enc: &[u8]) -> (r: WriteResult)
        requires
            old(self).core_wf(),
            old(self).bytes().len() < usize::MAX,
            enc@.len() >= 1,
        ensures
            final(self).core_wf(),
            (final(self).state(), r) == spec_write_scalar(old(self).state(), is_string),
            final(self).stack() == old(self).stack(),
            final(self).bytes() == (if r == WriteResult::Success {
                old(self).bytes() + enc@
            } else {
                old(self).bytes()
            }),
            final(self).same_tables(old(self)),
    {
        proof {
            crate::write_state::lemma_operations_keep_wf(self.state, self.stack@, 0, is_string);
            lemma_scalar_count(self.state, is_string);
        }
        let r = self.state.write_value(is_string);
        if r == WriteResult::Success {
            append_bytes(&mut self.bytes, enc);
        }
        r
    }

    /// Open a container whose state inside is `child`; on success append `enc`, its header.
    fn start_encoded(&mut self, child: State, enc: &[u8]) -> (r: WriteResult)
        requires
            old(self).core_wf(),
            old(self).bytes().len() < usize::MAX,
            enc@.len() >= 1,
            child == State::Object(ObjectState { length: child->Object_0.length, num_inserted: 0 })
                || child == State::Array(ArrayState { length: child->Array_0.length, num_inserted: 0 })
                || child == State::Shape(ArrayState { length: child->Shape_0.length, num_inserted: 0 }),
        ensures
            final(self).core_wf(),
            (final(self).state(), final(self).stack(), r) == spec_start_container(
                old(self).state(),
                old(self).stack(),
                child,
            ),
            final(self).bytes() == (if r == WriteResult::Success {
                old(self).bytes() + enc@
            } else {
                old(self).bytes()
            }),
            final(self).same_tables(old(self)),
    {
        proof {
            let len: usize = match child {
                State::Object(o) => o.length,
                State::Array(a) => a.length,
                State::Shape(a) => a.length,
                _ => 0,
            };
            crate::write_state::lemma_operations_keep_wf(self.state, self.stack@, len, false);
            lemma_scalar_count(self.state, false);
        }
        let ghost old_len = self.bytes@.len();
        let ghost old_stack = self.stack@;
        let r = self.state.start_container(child, &mut self.stack);
        if r == WriteResult::Success {
            append_bytes(&mut self.bytes, enc);
            proof {
                if old_stack.len() < self.stack@.len() {
                    lemma_counts_after_push(old_stack, self.stack@.last(), old_len, self.bytes@.len());
                    assert(self.stack@ =~= old_stack.push(self.stack@.last()));
                }
            }
        }
        r
    }

    /// Write a boolean.
    pub fn write_bool(&mut self, value: bool) -> (r: WriteResult)
        requires
            old(self).core_wf(),
            old(self).bytes().len() < usize::MAX,
        ensures
            final(self).core_wf(),
            (final(self).state(), r) == spec_write_scalar(old(self).state(), false),
            final(self).stack() == old(self).stack(),
            final(self).bytes() == (if r == WriteResult::Success {
                old(self).bytes().push(if value { TRUE } else { FALSE })
            } else {
                old(self).bytes()
            }),
            final(self).same_tables(old(self)),
    {
        let enc = [if value { TRUE } else { FALSE }];
        let r = self.write_encoded(false, &enc);
        proof {
            assert(enc@ =~= seq![if value { TRUE } else { FALSE }]);
        }
        r
    }

    /// Write null.
    pub fn write_nil(&mut self) -> (r: WriteResult)
        requires
            old(self).core_wf(),
            old(self).bytes().len() < usize::MAX,
        ensures
            final(self).core_wf(),
            (final(self).state(), r) == spec_write_scalar(old(self).state(), false),
            final(self).stack() == old(self).stack(),
            final(self).bytes() == (if r == WriteResult::Success {
                old(self).bytes().push(NIL)
            } else {
                old(self).bytes()
            }),
            final(self).same_tables(old(self)),
    {
        let enc = [NIL];
        let r = self.write_encoded(false, &enc);
        proof {
            assert(enc@ =~= seq![NIL]);
        }
        r
    }

    /// Write an `i32` in its smallest encoding.
    pub fn write_i32(&mut self, value: i32) -> (r: WriteResult)
        requires
            old(self).core_wf(),
            old(self).bytes().len() < usize::MAX,
        ensures
            final(self).core_wf(),
            (final(self).state(), r) == spec_write_scalar(old(self).state(), false),
            final(self).stack() == old(self).stack(),
            final(self).bytes() == (if r == WriteResult::Success {
                old(self).bytes() + i32_bytes(value)
            } else {
                old(self).bytes()
            }),
            final(self).same_tables(old(self)),
    {
        let enc = encode_i32(value);
        self.write_encoded(false, enc.as_slice())
    }

    /// Write a 64-bit float, given by its bits: the float tag and the bits, little-endian.
    pub fn write_f64_bits(&mut self, bits: u64) -> (r: WriteResult)
        requires
            old(self).core_wf(),
            old(self).bytes().len() < usize::MAX,
        ensures
            final(self).core_wf(),
            (final(self).state(), r) == spec_write_scalar(old(self).state(), false),
            final(self).stack() == old(self).stack(),
            final(self).bytes() == (if r == WriteResult::Success {
                old(self).bytes() + seq![FLOAT64] + le_bytes(bits as nat, 8)
            } else {
                old(self).bytes()
            }),
            final(self).same_tables(old(self)),
    {
        let mut enc: Vec<u8> = Vec::new();
        enc.push(FLOAT64);
        append_le(&mut enc, bits, 8);
        proof {
            assert(enc@ =~= seq![FLOAT64] + le_bytes(bits as nat, 8));
        }
        let r = self.write_encoded(false, enc.as_slice());
        proof {
            assert(old(self).bytes() + enc@ =~= old(self).bytes() + seq![FLOAT64] + le_bytes(bits as nat, 8));
        }
        r
    }

    /// Reserve a string of `len` bytes (zeroed, to be filled in) as the next value
    /// or key; gives the result and, on success, the offset of its bytes.
    pub fn allocate_utf8_str(&mut self, len: usize) -> (r: (WriteResult, usize))
        requires
            old(self).core_wf(),
            old(self).bytes().len() < usize::MAX,
        ensures
            final(self).core_wf(),
            (final(self).state(), r.0) == spec_write_scalar(old(self).state(), true),
            final(self).stack() == old(self).stack(),
            final(self).bytes() == (if r.0 == WriteResult::Success {
                old(self).bytes() + str_header(len as nat) + zeros(len as nat)
            } else {
                old(self).bytes()
            }),
            r.0 == WriteResult::Success ==> r.1 == old(self).bytes().len() + str_header(len as nat).len(),
            r.0 != WriteResult::Success ==> r.1 == 0,
            final(self).same_tables(old(self)),
    {
        let mut enc = encode_str_header(len);
        let header_len = enc.len();
        append_zeros(&mut enc, len);
        let start = self.bytes.len();
        let r = self.write_encoded(true, enc.as_slice());
        if r == WriteResult::Success {
            proof {
                assert(self.bytes@ =~= old(self).bytes() + str_header(len as nat) + zeros(len as nat));
            }
            proof {
                assert(start + header_len <= self.bytes.len());
            }
            (r, start + header_len)
        } else {
            (r, 0)
        }
    }

    /// Write the string `data` as the next value or key.
    pub fn write_utf8_str(&mut self, data: &[u8]) -> (r: WriteResult)
        requires
            old(self).core_wf(),
            old(self).bytes().len() < usize::MAX,
        ensures
            final(self).core_wf(),
            (final(self).state(), r) == spec_write_scalar(old(self).state(), true),
            final(self).stack() == old(self).stack(),
            final(self).bytes() == (if r == WriteResult::Success {
                old(self).bytes() + str_header(data@.len()) + data@
            } else {
                old(self).bytes()
            }),
            final(self).same_tables(old(self)),
    {
        let mut enc = encode_str_header(data.len());
        append_bytes(&mut enc, data);
        let r = self.write_encoded(true, enc.as_slice());
        proof {
            assert(old(self).bytes() + enc@ =~= old(self).bytes() + str_header(data@.len()) + data@);
        }
        r
    }

    /// Open an object of `len` key-value pairs.
    pub fn start_object(&mut self, len: usize) -> (r: WriteResult)
        requires
            old(self).core_wf(),
            old(self).bytes().len() < usize::MAX,
        ensures
            final(self).core_wf(),
            (final(self).state(), final(self).stack(), r) == spec_start_container(
                old(self).state(),
                old(self).stack(),
                State::Object(ObjectState { length: len, num_inserted: 0 }),
            ),
            final(self).bytes() == (if r == WriteResult::Success {
                old(self).bytes() + container_header(len as nat, FIXMAP0, SEQFIXMAP_MIN, SEQMAP)
            } else {
                old(self).bytes()
            }),
            final(self).same_tables(old(self)),
    {
        let enc = encode_container_header(len, FIXMAP0, SEQFIXMAP_MIN, SEQMAP);
        self.start_encoded(State::Object(ObjectState { length: len, num_inserted: 0 }), enc.as_slice())
    }

    /// Open an array of `len` values.
    pub fn start_array(&mut self, len: usize) -> (r: WriteResult)
        requires
            old(self).core_wf(),
            old(self).bytes().len() < usize::MAX,
        ensures
            final(self).core_wf(),
            (final(self).state(), final(self).stack(), r) == spec_start_container(
                old(self).state(),
                old(self).stack(),
                State::Array(ArrayState { length: len, num_inserted: 0 }),
            ),
            final(self).bytes() == (if r == WriteResult::Success {
                old(self).bytes() + container_header(len as nat, FIXARRAY0, SEQFIXARRAY_MIN, SEQARRAY)
            } else {
                old(self).bytes()
            }),
            final(self).same_tables(old(self)),
    {
        let enc = encode_container_header(len, FIXARRAY0, SEQFIXARRAY_MIN, SEQARRAY);
        self.start_encoded(State::Array(ArrayState { length: len, num_inserted: 0 }), enc.as_slice())
    }

    /// Close the current object.
    pub fn finish_object(&mut self) -> (r: WriteResult)
        requires
            old(self).core_wf(),
        ensures
            final(self).core_wf(),
            (final(self).state(), final(self).stack(), r) == spec_finish_object(
                old(self).state(),
                old(self).stack(),
            ),
            final(self).bytes() == old(self).bytes(),
            final(self).same_tables(old(self)),
    {
        proof {
            crate::write_state::lemma_operations_keep_wf(self.state, self.stack@, 0, false);
        }
        let ghost before = self.stack@;
        let r = self.state.finish_object(&mut self.stack);
        proof {
            lemma_counts_after_pop(before, self.stack@, self.bytes@.len());
        }
        r
    }

    /// Close the current array.
    pub fn finish_array(&mut self) -> (r: WriteResult)
        requires
            old(self).core_wf(),
        ensures
            final(self).core_wf(),
            (final(self).state(), final(self).stack(), r) == spec_finish_array(
                old(self).state(),
                old(self).stack(),
            ),
            final(self).bytes() == old(self).bytes(),
            final(self).same_tables(old(self)),
    {
        proof {
            crate::write_state::lemma_operations_keep_wf(self.state, self.stack@, 0, false);
        }
        let ghost before = self.stack@;
        let r = self.state.finish_array(&mut self.stack);
        proof {
            lemma_counts_after_pop(before, self.stack@, self.bytes@.len());
        }
        r
    }
}

/// Popping a state keeps every count within the bytes written.
proof fn lemma_counts_after_pop(before: Seq<State>, after: Seq<State>, len: nat)
    requires
        forall|i: int| 0 <= i < before.len() ==> #[trigger] inserted(before[i]) <= len,
        after == before || (before.len() > 0 && after == before.drop_last()),
    ensures
        forall|i: int| 0 <= i < after.len() ==> #[trigger] inserted(after[i]) <= len,
        before.len() > 0 ==> inserted(before.last()) <= len,
{
    assert forall|i: int| 0 <= i < after.len() implies #[trigger] inserted(after[i]) <= len by {
        assert(after[i] == before[i]);
    }
}

/// The smallest encoding of an `i32`.
pub fn encode_i32(v: i32) -> (r: Vec<u8>)
    ensures
        r@ == i32_bytes(v),
        r@.len() >= 1,
{
    let mut out: Vec<u8> = Vec::new();
    if 0 <= v && v <= 127 {
        out.push(v as u8);
    } else if -32 <= v && v <= -1 {
        out.push((v + 256) as u8);
    } else if 128 <= v && v <= 255 {
        out.push(UINT8);
        out.push(v as u8);
    } else if 256 <= v && v <= 65535 {
        out.push(UINT16);
        append_le(&mut out, v as u64, 2);
    } else if v >= 65536 {
        out.push(UINT32);
        append_le(&mut out, v as u64, 4);
    } else if -128 <= v && v <= -33 {
        out.push(INT8);
        out.push((v + 256) as u8);
    } else if -32768 <= v && v <= -129 {
        out.push(INT16);
        append_le(&mut out, (v + 65536) as u64, 2);
    } else {
        out.push(INT32);
        append_le(&mut out, (v as i64 + 0x1_0000_0000) as u64, 4);
    }
    assert(out@ =~= i32_bytes(v));
    out
}

/// The header of a string of `len` bytes.
pub fn encode_str_header(len: usize) -> (r: Vec<u8>)
    ensures
        r@ == str_header(len as nat),
        r@.len() >= 1,
{
    let mut out: Vec<u8> = Vec::new();
    if len <= 31 {
        out.push(FIXSTR_MIN + len as u8);
    } else if len <= 255 {
        out.push(STR8);
        out.push(len as u8);
    } else if len <= 65535 {
        out.push(STR16);
        append_le(&mut out, len as u64, 2);
    } else {
        out.push(STR32);
        append_le(&mut out, len as u64, 4);
    }
    assert(out@ =~= str_header(len as nat));
    out
}

/// The header of a sequential container of `len` children.
pub fn encode_container_header(len: usize, empty: u8, small_min: u8, big: u8) -> (r: Vec<u8>)
    requires
        small_min <= 248,
    ensures
        r@ == container_header(len as nat, empty, small_min, big),
        r@.len() >= 1,
{
    let mut out: Vec<u8> = Vec::new();
    if len == 0 {
        out.push(empty);
    } else if len <= 7 {
        out.push(small_min + (len as u8 - 1));
    } else {
        out.push(big);
        write_varint(&mut out, len as u64);
    }
    assert(out@ =~= container_header(len as nat, empty, small_min, big));
    out
}

/// Whether two byte strings are equal.
pub fn bytes_equal(a: &[u8], b: &[u8]) -> (r: bool)
    ensures
        r == (a@ == b@),
{
    if a.len() != b.len() {
        return false;
    }
    let mut i: usize = 0;
    while i < a.len()
        invariant
            a@.len() == b@.len(),
            i <= a@.len(),
            forall|k: int| 0 <= k < i ==> a@[k] == b@[k],
        decreases a@.len() - i,
    {
        if a[i] != b[i] {
            return false;
        }
        i = i + 1;
    }
    assert(a@ =~= b@);
    true
}

/// The entry `first_same_entry` finds holds the bytes, and when it finds none, no
/// entry from `t` on holds them.
proof fn lemma_first_same_entry(strings: Seq<Seq<u8>>, table: Seq<InternedStringId>, s: Seq<u8>, t: nat)
    ensures
        first_same_entry(strings, table, s, t) matches Some(f) ==> t <= f < table.len()
            && strings[table[f as int] as int] == s,
        first_same_entry(strings, table, s, t) is None ==> forall|k: int|
            t <= k < table.len() ==> strings[#[trigger] table[k] as int] != s,
    decreases table.len() - t,
{
    if t < table.len() && strings[table[t as int] as int] != s {
        lemma_first_same_entry(strings, table, s, t + 1);
    }
}

/// The recorded entries after string `id` is recorded as entry `t`.
pub open spec fn ids_with(ids: Seq<Option<u32>>, id: InternedStringId, t: u32) -> Seq<Option<u32>> {
    let grown = if ids.len() <= id {
        ids + Seq::new((id + 1 - ids.len()) as nat, |i: int| None::<u32>)
    } else {
        ids
    };
    grown.update(id as int, Some(t))
}

impl Output {
    /// Begin a shape definition of `key_count` keys.
    pub fn start_shape_definition(&mut self, key_count: usize) -> (r: WriteResult)
        ensures
            r == (if old(self).open_shape() is Some {
                WriteResult::ShapeDefinitionError
            } else {
                WriteResult::Success
            }),
            final(self).open_shape() == (if r == WriteResult::Success {
                Some((key_count, old(self).shape_keys().len() as usize))
            } else {
                old(self).open_shape()
            }),
            final(self).bytes() == old(self).bytes(),
            final(self).state() == old(self).state(),
            final(self).stack() == old(self).stack(),
            final(self).string_table() == old(self).string_table(),
            final(self).table_ids() == old(self).table_ids(),
            final(self).shape_keys() == old(self).shape_keys(),
            final(self).shapes() == old(self).shapes(),
            old(self).core_wf() ==> final(self).core_wf(),
            forall|strings: Seq<Seq<u8>>| old(self).tables_wf(strings) ==> final(self).tables_wf(strings),
    {
        if self.open_shape.is_some() {
            return WriteResult::ShapeDefinitionError;
        }
        self.open_shape = Some((key_count, self.shape_keys.len()));
        proof {
            assert forall|strings: Seq<Seq<u8>>| old(self).tables_wf(strings) implies self.tables_wf(strings) by {
                assert(self.string_table@ == old(self).string_table@);
                assert(self.table_ids@ == old(self).table_ids@);
                assert(self.shape_keys@ == old(self).shape_keys@);
                assert(self.shapes@ == old(self).shapes@);
            }
        }
        WriteResult::Success
    }

    /// Add the interned string `id` as the next key of the definition in progress.
    /// Its string-table entry is the one recorded for `id`, else the first entry with
    /// the same bytes, else a new entry.
    pub fn define_shape_key(&mut self, id: InternedStringId, interner: &StringInterner) -> (r: WriteResult)
        requires
            interner.wf(),
            old(self).tables_wf(interner.strings()),
            old(self).open_shape() matches Some((c, st)) && old(self).shape_keys().len() - st < c ==> {
                &&& id < interner.strings().len()
                &&& old(self).string_table().len() < u32::MAX
            },
        ensures
            final(self).tables_wf(interner.strings()),
            final(self).bytes() == old(self).bytes(),
            final(self).state() == old(self).state(),
            final(self).stack() == old(self).stack(),
            final(self).shapes() == old(self).shapes(),
            final(self).open_shape() == old(self).open_shape(),
            old(self).core_wf() ==> final(self).core_wf(),
            match old(self).open_shape() {
                Some((c, st)) if old(self).shape_keys().len() - st < c => {
                    let t = spec_table_entry(interner.strings(), old(self).string_table(), old(self).table_ids(), id);
                    &&& r == WriteResult::Success
                    &&& final(self).string_table() == (if t == old(self).string_table().len() {
                        old(self).string_table().push(id)
                    } else {
                        old(self).string_table()
                    })
                    &&& final(self).table_ids() == ids_with(old(self).table_ids(), id, t)
                    &&& final(self).shape_keys() == old(self).shape_keys().push(t)
                    &&& t < final(self).string_table().len()
                    &&& interner.strings()[final(self).string_table()[t as int] as int] == interner.strings()[id as int]
                    &&& t == old(self).string_table().len() ==> forall|k: int|
                        0 <= k < old(self).string_table().len() ==> interner.strings()[#[trigger] old(
                            self,
                        ).string_table()[k] as int] != interner.strings()[id as int]
                },
                _ => {
                    &&& r == WriteResult::ShapeDefinitionError
                    &&& final(self).string_table() == old(self).string_table()
                    &&& final(self).table_ids() == old(self).table_ids()
                    &&& final(self).shape_keys() == old(self).shape_keys()
                },
            },
    {
        let (key_count, key_start) = match self.open_shape {
            None => {
                return WriteResult::ShapeDefinitionError;
            },
            Some(open) => open,
        };
        if self.shape_keys.len() - key_start >= key_count {
            return WriteResult::ShapeDefinitionError;
        }
        let ghost strings = interner.strings();
        let recorded = if id < self.table_ids.len() {
            self.table_ids[id]
        } else {
            None
        };
        let table_id = match recorded {
            Some(t) => t,
            None => {
                let bytes = interner.get(id);
                let mut t: usize = 0;
                let mut found: Option<u32> = None;
                while found.is_none() && t < self.string_table.len()
                    invariant
                        interner.wf(),
                        strings == interner.strings(),
                        bytes@ == strings[id as int],
                        self.tables_wf(strings),
                        self.string_table@ == old(self).string_table@,
                        self.table_ids@ == old(self).table_ids@,
                        self.shape_keys@ == old(self).shape_keys@,
                        self.shapes@ == old(self).shapes@,
                        self.open_shape == old(self).open_shape,
                        self.bytes@ == old(self).bytes@,
                        self.state == old(self).state,
                        self.stack@ == old(self).stack@,
                        t <= self.string_table@.len() <= u32::MAX,
                        first_same_entry(strings, self.string_table@, bytes@, 0) == (match found {
                            Some(f) => Some(f as nat),
                            None => first_same_entry(strings, self.string_table@, bytes@, t as nat),
                        }),
                    decreases self.string_table@.len() - t + (if found is None { 1int } else { 0int }),
                {
                    if bytes_equal(interner.get(self.string_table[t]), bytes) {
                        found = Some(t as u32);
                    } else {
                        t = t + 1;
                    }
                }
                proof {
                    lemma_first_same_entry(strings, self.string_table@, bytes@, 0);
                }
                match found {
                    Some(f) => f,
                    None => {
                        let n = self.string_table.len() as u32;
                        self.string_table.push(id);
                        n
                    },
                }
            },
        };
        let ghost before_ids = self.table_ids@;
        proof {
            interner.lemma_count_fits();
        }
        if self.table_ids.len() <= id {
            self.table_ids.resize(id + 1, None);
            proof {
                assert forall|i: int| before_ids.len() <= i < id + 1 implies self.table_ids@[i] is None by {
                    assert(cloned::<Option<u32>>(None, self.table_ids@[i]));
                }
            }
        }
        self.table_ids.set(id, Some(table_id));
        self.shape_keys.push(table_id);
        proof {
            assert(self.table_ids@ =~= ids_with(before_ids, id, table_id));
            let ts = self.string_table@;
            assert forall|i: int|
                0 <= i < self.table_ids@.len() && #[trigger] self.table_ids@[i] is Some implies i < strings.len()
                    && (self.table_ids@[i]->0 as int) < ts.len() by {
                if i != id && i < before_ids.len() {
                    assert(self.table_ids@[i] == before_ids[i]);
                }
            }
            assert forall|k: int| 0 <= k < self.shape_keys@.len() implies (#[trigger] self.shape_keys@[k] as int)
                < ts.len() by {
                if k < old(self).shape_keys@.len() {
                    assert(self.shape_keys@[k] == old(self).shape_keys@[k]);
                }
            }
            assert forall|s2: int|
                #![trigger self.shapes@[s2]]
                0 <= s2 < self.shapes@.len() implies self.shapes@[s2].0 <= self.shapes@[s2].1
                    <= self.shape_keys@.len() by {
                assert(self.shapes@[s2] == old(self).shapes@[s2]);
            }
            assert(ts.len() <= u32::MAX);
            assert forall|t: int| 0 <= t < ts.len() implies #[trigger] ts[t] < strings.len() by {
                if t < old(self).string_table@.len() {
                    assert(ts[t] == old(self).string_table@[t]);
                }
            }
            assert(self.open_shape matches Some((count, start)) ==> start <= self.shape_keys@.len() <= start
                + count);
        }
        WriteResult::Success
    }

    /// End the definition in progress once all its keys are given; gives the new
    /// shape's id.
    pub fn finish_shape_definition(&mut self) -> (r: (WriteResult, usize))
        ensures
            match old(self).open_shape() {
                Some((c, st)) if old(self).shape_keys().len() - st == c => {
                    &&& r == (WriteResult::Success, old(self).shapes().len() as usize)
                    &&& final(self).shapes() == old(self).shapes().push((st, old(self).shape_keys().len() as usize))
                    &&& final(self).open_shape() is None
                },
                _ => {
                    &&& r == (WriteResult::ShapeDefinitionError, 0usize)
                    &&& final(self).shapes() == old(self).shapes()
                    &&& final(self).open_shape() == old(self).open_shape()
                },
            },
            final(self).bytes() == old(self).bytes(),
            final(self).state() == old(self).state(),
            final(self).stack() == old(self).stack(),
            final(self).string_table() == old(self).string_table(),
            final(self).table_ids() == old(self).table_ids(),
            final(self).shape_keys() == old(self).shape_keys(),
            old(self).core_wf() ==> final(self).core_wf(),
            forall|strings: Seq<Seq<u8>>| old(self).tables_wf(strings) ==> final(self).tables_wf(strings),
    {
        let (key_count, key_start) = match self.open_shape {
            None => {
                return (WriteResult::ShapeDefinitionError, 0);
            },
            Some(open) => open,
        };
        if self.shape_keys.len() < key_start || self.shape_keys.len() - key_start != key_count {
            return (WriteResult::ShapeDefinitionError, 0);
        }
        let shape_id = self.shapes.len();
        self.shapes.push((key_start, self.shape_keys.len()));
        self.open_shape = None;
        proof {
            assert forall|strings: Seq<Seq<u8>>| old(self).tables_wf(strings) implies self.tables_wf(strings) by {
                assert forall|s2: int|
                    #![trigger self.shapes@[s2]]
                    0 <= s2 < self.shapes@.len() implies self.shapes@[s2].0 <= self.shapes@[s2].1
                        <= self.shape_keys@.len() by {
                    if s2 < old(self).shapes@.len() {
                        assert(self.shapes@[s2] == old(self).shapes@[s2]);
                        assert(old(self).shapes@[s2].0 <= old(self).shapes@[s2].1 <= old(self).shape_keys@.len());
                    } else {
                        assert(self.shapes@[s2] == (key_start, old(self).shape_keys@.len() as usize));
                    }
                }
            }
        }
        (WriteResult::Success, shape_id)
    }

    /// Open a shaped object of shape `shape_id`: one value per key of the shape follows.
    pub fn start_shaped_object(&mut self, shape_id: usize) -> (r: WriteResult)
        requires
            old(self).core_wf(),
            old(self).bytes().len() < usize::MAX,
            forall|s: int| 0 <= s < old(self).shapes().len() ==> #[trigger] old(self).shapes()[s].0 <= old(self).shapes()[s].1,
        ensures
            final(self).core_wf(),
            shape_id >= old(self).shapes().len() ==> {
                &&& r == WriteResult::InvalidShapeId
                &&& final(self).state() == old(self).state()
                &&& final(self).stack() == old(self).stack()
                &&& final(self).bytes() == old(self).bytes()
            },
            shape_id < old(self).shapes().len() ==> {
                let (start, end) = old(self).shapes()[shape_id as int];
                &&& (final(self).state(), final(self).stack(), r) == spec_start_container(
                    old(self).state(),
                    old(self).stack(),
                    State::Shape(ArrayState { length: (end - start) as usize, num_inserted: 0 }),
                )
                &&& final(self).bytes() == (if r == WriteResult::Success {
                    old(self).bytes() + seq![SEQSHAPE] + varint_bytes(shape_id as nat)
                } else {
                    old(self).bytes()
                })
            },
            final(self).same_tables(old(self)),
    {
        if shape_id >= self.shapes.len() {
            return WriteResult::InvalidShapeId;
        }
        let (start, end) = self.shapes[shape_id];
        let mut enc: Vec<u8> = Vec::new();
        enc.push(SEQSHAPE);
        write_varint(&mut enc, shape_id as u64);
        let r = self.start_encoded(State::Shape(ArrayState { length: end - start, num_inserted: 0 }), enc.as_slice());
        proof {
            assert(old(self).bytes() + enc@ =~= old(self).bytes() + seq![SEQSHAPE] + varint_bytes(shape_id as nat));
        }
        r
    }

    /// Close the current shaped object.
    pub fn finish_shaped_object(&mut self) -> (r: WriteResult)
        requires
            old(self).core_wf(),
        ensures
            final(self).core_wf(),
            (final(self).state(), final(self).stack(), r) == spec_finish_shape(
                old(self).state(),
                old(self).stack(),
            ),
            final(self).bytes() == old(self).bytes(),
            final(self).same_tables(old(self)),
    {
        proof {
            crate::write_state::lemma_operations_keep_wf(self.state, self.stack@, 0, false);
        }
        let ghost before = self.stack@;
        let r = self.state.finish_shape(&mut self.stack);
        proof {
            lemma_counts_after_pop(before, self.stack@, self.bytes@.len());
        }
        r
    }

    /// Write the interned string `id`: a reference to its string-table entry when it
    /// has one, else its bytes inline.
    pub fn write_interned_utf8_str(&mut self, id: InternedStringId, interner: &StringInterner) -> (r: WriteResult)
        requires
            old(self).core_wf(),
            old(self).bytes().len() < usize::MAX,
            interner.wf(),
            old(self).tables_wf(interner.strings()),
            spec_write_scalar(old(self).state(), true).1 == WriteResult::Success ==> id < interner.strings().len(),
        ensures
            final(self).core_wf(),
            (final(self).state(), r) == spec_write_scalar(old(self).state(), true),
            final(self).stack() == old(self).stack(),
            final(self).bytes() == (if r == WriteResult::Success {
                old(self).bytes() + (if id < old(self).table_ids().len() && old(self).table_ids()[id as int] is Some {
                    strref_bytes(old(self).table_ids()[id as int]->0)
                } else {
                    str_header(interner.strings()[id as int].len()) + interner.strings()[id as int]
                })
            } else {
                old(self).bytes()
            }),
            final(self).same_tables(old(self)),
    {
        let r0 = self.state.check_write(true);
        if r0 != WriteResult::Success {
            return r0;
        }
        let recorded = if id < self.table_ids.len() {
            self.table_ids[id]
        } else {
            None
        };
        let mut enc: Vec<u8> = Vec::new();
        match recorded {
            Some(t) => append_string_reference(&mut enc, t),
            None => {
                let data = interner.get(id);
                enc = encode_str_header(data.len());
                append_bytes(&mut enc, data);
            },
        }
        proof {
            assert(enc@.len() >= 1);
        }
        self.write_encoded(true, enc.as_slice())
    }
}

impl Output {
    /// The complete payload: header, string table, shape table, then the value.
    pub fn assemble_output_payload(&self, interner: &StringInterner) -> (r: Vec<u8>)
        requires
            interner.wf(),
            self.tables_wf(interner.strings()),
        ensures
            r@ == spec_payload(
                interner.strings(),
                self.string_table(),
                self.shape_keys(),
                self.shapes(),
                self.bytes(),
            ),
    {
        let ghost strings = interner.strings();
        let mut payload: Vec<u8> = Vec::new();
        payload.push(MAGIC[0]);
        payload.push(MAGIC[1]);
        payload.push(MAGIC[2]);
        payload.push(VERSION);
        let has_strings = self.string_table.len() > 0;
        let has_shapes = self.shapes.len() > 0;
        let flags: u8 = (if has_strings {
            FLAG_STRING_TABLE
        } else {
            0
        }) + (if has_shapes {
            FLAG_SHAPE_TABLE
        } else {
            0
        });
        payload.push(flags);
        let ghost header = payload@;
        assert(header =~= seq![MAGIC[0], MAGIC[1], MAGIC[2], VERSION, payload_flags(has_strings, has_shapes)]);
        if has_strings {
            write_varint(&mut payload, self.string_table.len() as u64);
            let ghost prefix = payload@;
            let mut t: usize = 0;
            while t < self.string_table.len()
                invariant
                    interner.wf(),
                    strings == interner.strings(),
                    self.tables_wf(strings),
                    t <= self.string_table@.len(),
                    payload@ == prefix + table_bytes(strings, self.string_table@, t as nat),
                decreases self.string_table@.len() - t,
            {
                let entry = interner.get(self.string_table[t]);
                write_varint(&mut payload, entry.len() as u64);
                append_bytes(&mut payload, entry);
                proof {
                    assert(payload@ =~= prefix + table_bytes(strings, self.string_table@, (t + 1) as nat));
                }
                t = t + 1;
            }
        }
        let ghost after_strings = payload@;
        if has_shapes {
            write_varint(&mut payload, self.shapes.len() as u64);
            let ghost prefix = payload@;
            let mut i: usize = 0;
            while i < self.shapes.len()
                invariant
                    self.tables_wf(strings),
                    i <= self.shapes@.len(),
                    payload@ == prefix + shapes_bytes(self.shape_keys@, self.shapes@, i as nat),
                decreases self.shapes@.len() - i,
            {
                let (start, end) = self.shapes[i];
                proof {
                    assert(self.shapes@[i as int].0 <= self.shapes@[i as int].1 <= self.shape_keys@.len());
                }
                write_varint(&mut payload, (end - start) as u64);
                let ghost before_keys = payload@;
                let mut k = start;
                while k < end
                    invariant
                        start <= k <= end <= self.shape_keys@.len(),
                        payload@ == before_keys + key_refs_bytes(self.shape_keys@, start as int, (k - start) as nat),
                    decreases end - k,
                {
                    append_string_reference(&mut payload, self.shape_keys[k]);
                    proof {
                        assert(payload@ =~= before_keys + key_refs_bytes(
                            self.shape_keys@,
                            start as int,
                            (k + 1 - start) as nat,
                        ));
                    }
                    k = k + 1;
                }
                proof {
                    assert(payload@ =~= prefix + shapes_bytes(self.shape_keys@, self.shapes@, (i + 1) as nat));
                }
                i = i + 1;
            }
        }
        append_bytes(&mut payload, self.bytes.as_slice());
        proof {
            assert(payload@ =~= spec_payload(
                strings,
                self.string_table@,
                self.shape_keys@,
                self.shapes@,
                self.bytes@,
            ));
        }
        payload
    }

    /// The finished payload: refused while the value is incomplete or a shape
    /// definition is open, and then empty.
    pub fn finalize_and_return_bytes(&self, interner: &StringInterner) -> (r: (WriteResult, Vec<u8>))
        requires
            interner.wf(),
            self.tables_wf(interner.strings()),
        ensures
            self.state() != State::End ==> r.0 == WriteResult::ValueNotFinished && r.1@.len() == 0,
            self.state() == State::End && self.open_shape() is Some ==> r.0
                == WriteResult::ShapeDefinitionError && r.1@.len() == 0,
            self.state() == State::End && self.open_shape() is None ==> r.0 == WriteResult::Success
                && r.1@ == spec_payload(
                interner.strings(),
                self.string_table(),
                self.shape_keys(),
                self.shapes(),
                self.bytes(),
            ),
    {
        match self.state {
            State::End => {},
            _ => {
                return (WriteResult::ValueNotFinished, Vec::new());
            },
        }
        if self.open_shape.is_some() {
            return (WriteResult::ShapeDefinitionError, Vec::new());
        }
        (WriteResult::Success, self.assemble_output_payload(interner))
    }
}

} // verus!
