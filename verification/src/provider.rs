//! The provider context: the input payload with its parsed prelude and navigation
//! caches, the output writer, the log and the string interner, and the operations
//! a function calls on them. Values read from the input come back decoded; the
//! host boxes them.
use crate::interner::{InternedStringId, StringInterner, zeros};
use crate::log::{keep_last, LogSlices, Logs, CAPACITY};
use crate::nanbox::{
    boxed_bits, is_boxed, saturated_len, spec_decode, spec_scope, tag_field, decode_scope, ErrorCode,
    NanBox, ScopeKind, Tag, Val, ValueRef,
};
use crate::nav::{
    container_meta, decode_value, element_at, find_property, key_at, parse_input,
    reset_caches_for_state, spec_decode_value, spec_element, spec_element_at, spec_find_property, spec_key_at,
    spec_meta, spec_parse_input, Caches, Decoded, InputState,
};
use crate::encoding::{
    le_bytes, FALSE, FIXARRAY0, FIXMAP0, FLOAT64, NIL, SEQARRAY, SEQFIXARRAY_MIN, SEQFIXMAP_MIN,
    SEQMAP, SEQSHAPE, TRUE, varint_bytes,
};
use crate::output::{
    container_header, i32_bytes, ids_with, spec_payload, spec_table_entry, str_header, strref_bytes,
    Output,
};
use crate::write_state::{
    spec_finish_array, spec_finish_object, spec_finish_shape, spec_start_container,
    spec_write_scalar, ArrayState, ObjectState, State, WriteResult,
};
use vstd::prelude::*;

verus! {

/// Everything a function run reads and writes.
pub struct Context {
    input_bytes: Vec<u8>,
    /// The parsed prelude, once the root has been read.
    input_state: Option<InputState>,
    input_caches: Caches,
    output: Output,
    logs: Logs,
    string_interner: StringInterner,
}

/// A missing property reads as null.
pub open spec fn property_reply(r: Result<Option<Decoded>, ErrorCode>) -> Result<Decoded, ErrorCode> {
    match r {
        Ok(Some(d)) => Ok(d),
        Ok(None) => Ok(Decoded::Null),
        Err(e) => Err(e),
    }
}

/// What reading child `index` of the array or object that `scope` designates
/// answers (for an object, the value of its `index`-th key).
pub open spec fn spec_at_index_reply(
    input: Seq<u8>,
    parsed: Option<InputState>,
    scope: Val,
    index: usize,
) -> Result<Decoded, ErrorCode> {
    match spec_scope(scope) {
        ScopeKind::Object(container) | ScopeKind::Array(container) => if index > u32::MAX {
            Err(ErrorCode::IndexOutOfBounds)
        } else {
            match parsed {
                None => Err(ErrorCode::ReadError),
                Some(st) => spec_element_at(input, st.strings@, st.shapes@, container, index as u32, true),
            }
        },
        ScopeKind::Other => Err(ErrorCode::NotIndexable),
        ScopeKind::Invalid => Err(ErrorCode::ReadError),
    }
}

impl Context {
    /// The input payload.
    pub closed spec fn input(&self) -> Seq<u8> {
        self.input_bytes@
    }

    /// The parsed prelude, once the root has been read.
    pub closed spec fn parsed(&self) -> Option<InputState> {
        self.input_state
    }

    /// The navigation caches.
    pub closed spec fn caches(&self) -> Caches {
        self.input_caches
    }

    /// The output writer.
    pub closed spec fn output(&self) -> Output {
        self.output
    }

    /// The log.
    pub closed spec fn logs(&self) -> Logs {
        self.logs
    }

    /// The string interner.
    pub closed spec fn interner(&self) -> StringInterner {
        self.string_interner
    }

    /// The context's invariant: the parts are well formed; before the first read
    /// the caches are fresh, and after it the prelude is the payload's own and the
    /// caches are true of the payload.
    pub closed spec fn wf(&self) -> bool {
        &&& self.string_interner.wf()
        &&& self.output.wf(self.string_interner.strings())
        &&& self.logs.wf()
        &&& match self.input_state {
            None => self.input_caches.fresh(0),
            Some(st) => {
                &&& spec_parse_input(self.input_bytes@) matches Some(p) && st.is(p)
                &&& st.wf()
                &&& self.input_bytes@.len() <= u32::MAX
                &&& self.input_caches.wf(self.input_bytes@, &st)
            },
        }
    }

    /// The context is what a new run on `input` starts from: nothing parsed, empty
    /// caches, nothing written (no tables, shapes or open shape definition) and
    /// nothing logged.
    pub open spec fn starts_fresh(&self, input: Seq<u8>) -> bool {
        &&& self.input() == input
        &&& self.parsed() is None
        &&& self.caches().fresh(0)
        &&& self.caches().long_lens() == Map::<u32, u32>::empty()
        &&& self.caches().victim() == 0
        &&& self.output().bytes() == Seq::<u8>::empty()
        &&& self.output().state() == State::Start
        &&& self.output().stack() == Seq::<State>::empty()
        &&& self.output().string_table() == Seq::<InternedStringId>::empty()
        &&& self.output().table_ids() == Seq::<Option<u32>>::empty()
        &&& self.output().shape_keys() == Seq::<u32>::empty()
        &&& self.output().shapes() == Seq::<(usize, usize)>::empty()
        &&& self.output().open_shape() is None
        &&& self.logs().contents() == Seq::<u8>::empty()
        &&& self.logs().write_offset() == 0
        &&& self.logs().held() == 0
        &&& self.logs().buffer_bytes() == Seq::new(CAPACITY as nat, |i: int| 0u8)
    }

    /// In every context the output's string table never holds two strings with the
    /// same bytes, every entry names an interned string, and the entry recorded
    /// for an interned string holds that string's bytes.
    pub proof fn lemma_output_tables(&self)
        requires
            self.wf(),
        ensures
            forall|t: int|
                0 <= t < self.output().string_table().len() ==> #[trigger] self.output().string_table()[t]
                    < self.interner().strings().len(),
            forall|a: int, b: int|
                0 <= a < b < self.output().string_table().len() ==> self.interner().strings()[
                    #[trigger] self.output().string_table()[a] as int] != self.interner().strings()[
                    #[trigger] self.output().string_table()[b] as int],
            forall|i: int|
                0 <= i < self.output().table_ids().len() && #[trigger] self.output().table_ids()[i] is Some ==> i
                    < self.interner().strings().len() && (self.output().table_ids()[i]->0 as int)
                    < self.output().string_table().len() && self.interner().strings()[self.output().string_table()[
                    self.output().table_ids()[i]->0 as int] as int] == self.interner().strings()[i],
    {
        self.output.lemma_table_entries(self.string_interner.strings());
    }

    /// The output has room for one more byte.
    pub open spec fn output_room(&self) -> bool {
        self.output().bytes().len() < usize::MAX
    }

    /// A context that reads `input_bytes`, with nothing written.
    pub fn new(input_bytes: Vec<u8>) -> (r: Self)
        ensures
            r.wf(),
            r.starts_fresh(input_bytes@),
            r.interner().strings() == Seq::<Seq<u8>>::empty(),
            r.interner().byte_len() == 0,
    {
        let r = Context {
            input_bytes,
            input_state: None,
            input_caches: Caches::new(),
            output: Output::new(),
            logs: Logs::new(),
            string_interner: StringInterner::new(),
        };
        r
    }

    /// Get the root value of the input, parsing the prelude on first use.
    pub fn input_get(&mut self) -> (r: Result<Decoded, ErrorCode>)
        requires
            old(self).wf(),
        ensures
            final(self).wf(),
            r == (match spec_parse_input(old(self).input()) {
                None => Err(ErrorCode::ReadError),
                Some(p) => match spec_decode_value(old(self).input(), p.strings, p.shapes, p.root) {
                    None => Err(ErrorCode::ReadError),
                    Some(d) => Ok(d),
                },
            }),
            final(self).input() == old(self).input(),
            final(self).output() == old(self).output(),
            final(self).logs() == old(self).logs(),
            final(self).interner() == old(self).interner(),
    {
        if self.input_state.is_none() {
            let state = match parse_input(self.input_bytes.as_slice()) {
                Ok(state) => state,
                Err(_) => {
                    return Err(ErrorCode::ReadError);
                },
            };
            reset_caches_for_state(&mut self.input_caches, &state);
            proof {
                crate::nav::lemma_fresh_caches_wf(&self.input_caches, self.input_bytes@, &state);
            }
            self.input_state = Some(state);
        }
        match &self.input_state {
            Some(state) => {
                match decode_value(self.input_bytes.as_slice(), state, &mut self.input_caches, state.root) {
                    Ok(d) => Ok(d),
                    Err(_) => Err(ErrorCode::ReadError),
                }
            },
            None => Err(ErrorCode::ReadError),
        }
    }
}

impl Context {
    /// Look up property `query` of the object that `scope` designates; a missing
    /// property reads as null.
    pub fn input_get_obj_prop(&mut self, scope: Val, query: &[u8]) -> (r: Result<Decoded, ErrorCode>)
        requires
            old(self).wf(),
        ensures
            final(self).wf(),
            r == (match spec_scope(scope) {
                ScopeKind::Object(object) => match old(self).parsed() {
                    None => Err(ErrorCode::ReadError),
                    Some(st) => property_reply(
                        spec_find_property(
                            old(self).input(),
                            &st,
                            old(self).caches().cursor_slots()[1],
                            object,
                            query@,
                        ),
                    ),
                },
                ScopeKind::Invalid => Err(ErrorCode::DecodeError),
                _ => Err(ErrorCode::NotAnObject),
            }),
            final(self).input() == old(self).input(),
            final(self).parsed() == old(self).parsed(),
            final(self).output() == old(self).output(),
            final(self).logs() == old(self).logs(),
            final(self).interner() == old(self).interner(),
    {
        let object = match decode_scope(scope) {
            ScopeKind::Object(ptr) => ptr,
            ScopeKind::Invalid => {
                return Err(ErrorCode::DecodeError);
            },
            _ => {
                return Err(ErrorCode::NotAnObject);
            },
        };
        match &self.input_state {
            None => Err(ErrorCode::ReadError),
            Some(state) => {
                match find_property(self.input_bytes.as_slice(), state, &mut self.input_caches, object, query) {
                    Ok(Some(d)) => Ok(d),
                    Ok(None) => Ok(Decoded::Null),
                    Err(e) => Err(e),
                }
            },
        }
    }

    /// Look up the property named by interned string `id` of the object that
    /// `scope` designates; a missing property reads as null.
    pub fn input_get_interned_obj_prop(&mut self, scope: Val, id: InternedStringId) -> (r: Result<
        Decoded,
        ErrorCode,
    >)
        requires
            old(self).wf(),
            spec_scope(scope) is Object && old(self).parsed() is Some ==> id < old(self).interner().strings().len(),
        ensures
            final(self).wf(),
            r == (match spec_scope(scope) {
                ScopeKind::Object(object) => match old(self).parsed() {
                    None => Err(ErrorCode::ReadError),
                    Some(st) => property_reply(
                        spec_find_property(
                            old(self).input(),
                            &st,
                            old(self).caches().cursor_slots()[1],
                            object,
                            old(self).interner().strings()[id as int],
                        ),
                    ),
                },
                ScopeKind::Invalid => Err(ErrorCode::DecodeError),
                _ => Err(ErrorCode::NotAnObject),
            }),
            final(self).input() == old(self).input(),
            final(self).parsed() == old(self).parsed(),
            final(self).output() == old(self).output(),
            final(self).logs() == old(self).logs(),
            final(self).interner() == old(self).interner(),
    {
        let object = match decode_scope(scope) {
            ScopeKind::Object(ptr) => ptr,
            ScopeKind::Invalid => {
                return Err(ErrorCode::DecodeError);
            },
            _ => {
                return Err(ErrorCode::NotAnObject);
            },
        };
        match &self.input_state {
            None => Err(ErrorCode::ReadError),
            Some(state) => {
                let query = self.string_interner.get(id);
                match find_property(self.input_bytes.as_slice(), state, &mut self.input_caches, object, query) {
                    Ok(Some(d)) => Ok(d),
                    Ok(None) => Ok(Decoded::Null),
                    Err(e) => Err(e),
                }
            },
        }
    }

    /// Read element `index` of the array or object that `scope` designates (for an
    /// object, the value of its `index`-th key).
    pub fn input_get_at_index(&mut self, scope: Val, index: usize) -> (r: Result<Decoded, ErrorCode>)
        requires
            old(self).wf(),
        ensures
            final(self).wf(),
            r == spec_at_index_reply(old(self).input(), old(self).parsed(), scope, index),
            final(self).input() == old(self).input(),
            final(self).parsed() == old(self).parsed(),
            final(self).output() == old(self).output(),
            final(self).logs() == old(self).logs(),
            final(self).interner() == old(self).interner(),
            r is Err ==> final(self).caches().cursor_slots() == old(self).caches().cursor_slots()
                && final(self).caches().victim() == old(self).caches().victim(),
    {
        let container = match decode_scope(scope) {
            ScopeKind::Object(ptr) => ptr,
            ScopeKind::Array(ptr) => ptr,
            ScopeKind::Other => {
                return Err(ErrorCode::NotIndexable);
            },
            ScopeKind::Invalid => {
                return Err(ErrorCode::ReadError);
            },
        };
        if index > u32::MAX as usize {
            return Err(ErrorCode::IndexOutOfBounds);
        }
        let index = index as u32;
        match &self.input_state {
            None => Err(ErrorCode::ReadError),
            Some(state) => element_at(self.input_bytes.as_slice(), state, &mut self.input_caches, container, index, true),
        }
    }

    /// The key at `index` of the object that `scope` designates, as a string.
    pub fn input_get_obj_key_at_index(&mut self, scope: Val, index: usize) -> (r: Result<Decoded, ErrorCode>)
        requires
            old(self).wf(),
        ensures
            final(self).wf(),
            r == (match spec_scope(scope) {
                ScopeKind::Object(object) => if index > u32::MAX {
                    Err(ErrorCode::IndexOutOfBounds)
                } else {
                    match old(self).parsed() {
                        None => Err(ErrorCode::ReadError),
                        Some(st) => match spec_key_at(
                            old(self).input(),
                            &st,
                            object,
                            index as u32,
                        ) {
                            Ok((content, len)) => Ok(Decoded::String { content, len }),
                            Err(e) => Err(e),
                        },
                    }
                },
                ScopeKind::Invalid => Err(ErrorCode::ReadError),
                _ => Err(ErrorCode::NotAnObject),
            }),
            final(self).input() == old(self).input(),
            final(self).parsed() == old(self).parsed(),
            final(self).output() == old(self).output(),
            final(self).logs() == old(self).logs(),
            final(self).interner() == old(self).interner(),
    {
        let object = match decode_scope(scope) {
            ScopeKind::Object(ptr) => ptr,
            ScopeKind::Invalid => {
                return Err(ErrorCode::ReadError);
            },
            _ => {
                return Err(ErrorCode::NotAnObject);
            },
        };
        if index > u32::MAX as usize {
            return Err(ErrorCode::IndexOutOfBounds);
        }
        let index = index as u32;
        match &self.input_state {
            None => Err(ErrorCode::ReadError),
            Some(state) => match key_at(self.input_bytes.as_slice(), state, &mut self.input_caches, object, index) {
                Ok((content, len)) => Ok(Decoded::String { content, len }),
                Err(e) => Err(e),
            },
        }
    }
}

impl Context {
    /// Write a boolean.
    pub fn output_new_bool(&mut self, value: bool) -> (r: WriteResult)
        requires
            old(self).wf(),
            old(self).output_room(),
        ensures
            final(self).wf(),
            (final(self).output().state(), r) == spec_write_scalar(old(self).output().state(), false),
            final(self).output().stack() == old(self).output().stack(),
            final(self).output().bytes() == (if r == WriteResult::Success {
                old(self).output().bytes().push(if value { TRUE } else { FALSE })
            } else {
                old(self).output().bytes()
            }),
            final(self).output().same_tables(&old(self).output()),
            final(self).input() == old(self).input(),
            final(self).parsed() == old(self).parsed(),
            final(self).caches() == old(self).caches(),
            final(self).logs() == old(self).logs(),
            final(self).interner() == old(self).interner(),
    {
        let r = self.output.write_bool(value);
        proof {
            self.output.lemma_same_tables_wf(&old(self).output, self.string_interner.strings());
        }
        r
    }

    /// Write null.
    pub fn output_new_null(&mut self) -> (r: WriteResult)
        requires
            old(self).wf(),
            old(self).output_room(),
        ensures
            final(self).wf(),
            (final(self).output().state(), r) == spec_write_scalar(old(self).output().state(), false),
            final(self).output().stack() == old(self).output().stack(),
            final(self).output().bytes() == (if r == WriteResult::Success {
                old(self).output().bytes().push(NIL)
            } else {
                old(self).output().bytes()
            }),
            final(self).output().same_tables(&old(self).output()),
            final(self).input() == old(self).input(),
            final(self).parsed() == old(self).parsed(),
            final(self).caches() == old(self).caches(),
            final(self).logs() == old(self).logs(),
            final(self).interner() == old(self).interner(),
    {
        let r = self.output.write_nil();
        proof {
            self.output.lemma_same_tables_wf(&old(self).output, self.string_interner.strings());
        }
        r
    }

    /// Write an `i32` in its smallest encoding.
    pub fn output_new_i32(&mut self, value: i32) -> (r: WriteResult)
        requires
            old(self).wf(),
            old(self).output_room(),
        ensures
            final(self).wf(),
            (final(self).output().state(), r) == spec_write_scalar(old(self).output().state(), false),
            final(self).output().stack() == old(self).output().stack(),
            final(self).output().bytes() == (if r == WriteResult::Success {
                old(self).output().bytes() + i32_bytes(value)
            } else {
                old(self).output().bytes()
            }),
            final(self).output().same_tables(&old(self).output()),
            final(self).input() == old(self).input(),
            final(self).parsed() == old(self).parsed(),
            final(self).caches() == old(self).caches(),
            final(self).logs() == old(self).logs(),
            final(self).interner() == old(self).interner(),
    {
        let r = self.output.write_i32(value);
        proof {
            self.output.lemma_same_tables_wf(&old(self).output, self.string_interner.strings());
        }
        r
    }

    /// Write a 64-bit float given by its bits.
    pub fn output_new_f64_bits(&mut self, bits: u64) -> (r: WriteResult)
        requires
            old(self).wf(),
            old(self).output_room(),
        ensures
            final(self).wf(),
            (final(self).output().state(), r) == spec_write_scalar(old(self).output().state(), false),
            final(self).output().stack() == old(self).output().stack(),
            final(self).output().bytes() == (if r == WriteResult::Success {
                old(self).output().bytes() + seq![FLOAT64] + le_bytes(bits as nat, 8)
            } else {
                old(self).output().bytes()
            }),
            final(self).output().same_tables(&old(self).output()),
            final(self).input() == old(self).input(),
            final(self).parsed() == old(self).parsed(),
            final(self).caches() == old(self).caches(),
            final(self).logs() == old(self).logs(),
            final(self).interner() == old(self).interner(),
    {
        let r = self.output.write_f64_bits(bits);
        proof {
            self.output.lemma_same_tables_wf(&old(self).output, self.string_interner.strings());
        }
        r
    }

    /// Write the string `data`.
    pub fn output_new_utf8_bytes(&mut self, data: &[u8]) -> (r: WriteResult)
        requires
            old(self).wf(),
            old(self).output_room(),
        ensures
            final(self).wf(),
            (final(self).output().state(), r) == spec_write_scalar(old(self).output().state(), true),
            final(self).output().stack() == old(self).output().stack(),
            final(self).output().bytes() == (if r == WriteResult::Success {
                old(self).output().bytes() + str_header(data@.len()) + data@
            } else {
                old(self).output().bytes()
            }),
            final(self).output().same_tables(&old(self).output()),
            final(self).input() == old(self).input(),
            final(self).parsed() == old(self).parsed(),
            final(self).caches() == old(self).caches(),
            final(self).logs() == old(self).logs(),
            final(self).interner() == old(self).interner(),
    {
        let r = self.output.write_utf8_str(data);
        proof {
            self.output.lemma_same_tables_wf(&old(self).output, self.string_interner.strings());
        }
        r
    }

    /// Open an object of `len` key-value pairs.
    pub fn output_new_object(&mut self, len: usize) -> (r: WriteResult)
        requires
            old(self).wf(),
            old(self).output_room(),
        ensures
            final(self).wf(),
            (final(self).output().state(), final(self).output().stack(), r) == spec_start_container(
                old(self).output().state(),
                old(self).output().stack(),
                State::Object(ObjectState { length: len, num_inserted: 0 }),
            ),
            final(self).output().bytes() == (if r == WriteResult::Success {
                old(self).output().bytes() + container_header(len as nat, FIXMAP0, SEQFIXMAP_MIN, SEQMAP)
            } else {
                old(self).output().bytes()
            }),
            final(self).output().same_tables(&old(self).output()),
            final(self).input() == old(self).input(),
            final(self).parsed() == old(self).parsed(),
            final(self).caches() == old(self).caches(),
            final(self).logs() == old(self).logs(),
            final(self).interner() == old(self).interner(),
    {
        let r = self.output.start_object(len);
        proof {
            self.output.lemma_same_tables_wf(&old(self).output, self.string_interner.strings());
        }
        r
    }

    /// Open an array of `len` values.
    pub fn output_new_array(&mut self, len: usize) -> (r: WriteResult)
        requires
            old(self).wf(),
            old(self).output_room(),
        ensures
            final(self).wf(),
            (final(self).output().state(), final(self).output().stack(), r) == spec_start_container(
                old(self).output().state(),
                old(self).output().stack(),
                State::Array(ArrayState { length: len, num_inserted: 0 }),
            ),
            final(self).output().bytes() == (if r == WriteResult::Success {
                old(self).output().bytes() + container_header(len as nat, FIXARRAY0, SEQFIXARRAY_MIN, SEQARRAY)
            } else {
                old(self).output().bytes()
            }),
            final(self).output().same_tables(&old(self).output()),
            final(self).input() == old(self).input(),
            final(self).parsed() == old(self).parsed(),
            final(self).caches() == old(self).caches(),
            final(self).logs() == old(self).logs(),
            final(self).interner() == old(self).interner(),
    {
        let r = self.output.start_array(len);
        proof {
            self.output.lemma_same_tables_wf(&old(self).output, self.string_interner.strings());
        }
        r
    }

    /// Close the current object.
    pub fn output_finish_object(&mut self) -> (r: WriteResult)
        requires
            old(self).wf(),
        ensures
            final(self).wf(),
            (final(self).output().state(), final(self).output().stack(), r) == spec_finish_object(
                old(self).output().state(),
                old(self).output().stack(),
            ),
            final(self).output().bytes() == old(self).output().bytes(),
            final(self).output().same_tables(&old(self).output()),
            final(self).input() == old(self).input(),
            final(self).parsed() == old(self).parsed(),
            final(self).caches() == old(self).caches(),
            final(self).logs() == old(self).logs(),
            final(self).interner() == old(self).interner(),
    {
        let r = self.output.finish_object();
        proof {
            self.output.lemma_same_tables_wf(&old(self).output, self.string_interner.strings());
        }
        r
    }

    /// Close the current array.
    pub fn output_finish_array(&mut self) -> (r: WriteResult)
        requires
            old(self).wf(),
        ensures
            final(self).wf(),
            (final(self).output().state(), final(self).output().stack(), r) == spec_finish_array(
                old(self).output().state(),
                old(self).output().stack(),
            ),
            final(self).output().bytes() == old(self).output().bytes(),
            final(self).output().same_tables(&old(self).output()),
            final(self).input() == old(self).input(),
            final(self).parsed() == old(self).parsed(),
            final(self).caches() == old(self).caches(),
            final(self).logs() == old(self).logs(),
            final(self).interner() == old(self).interner(),
    {
        let r = self.output.finish_array();
        proof {
            self.output.lemma_same_tables_wf(&old(self).output, self.string_interner.strings());
        }
        r
    }

    /// Close the current shaped object.
    pub fn output_finish_shaped_object(&mut self) -> (r: WriteResult)
        requires
            old(self).wf(),
        ensures
            final(self).wf(),
            (final(self).output().state(), final(self).output().stack(), r) == spec_finish_shape(
                old(self).output().state(),
                old(self).output().stack(),
            ),
            final(self).output().bytes() == old(self).output().bytes(),
            final(self).output().same_tables(&old(self).output()),
            final(self).input() == old(self).input(),
            final(self).parsed() == old(self).parsed(),
            final(self).caches() == old(self).caches(),
            final(self).logs() == old(self).logs(),
            final(self).interner() == old(self).interner(),
    {
        let r = self.output.finish_shaped_object();
        proof {
            self.output.lemma_same_tables_wf(&old(self).output, self.string_interner.strings());
        }
        r
    }
}

impl Context {
    /// Reserve a string of `len` bytes as the next value or key, to be filled in
    /// with `output_fill`; gives the result and, on success, where its bytes start.
    pub fn output_new_utf8_str(&mut self, len: usize) -> (r: (WriteResult, usize))
        requires
            old(self).wf(),
            old(self).output_room(),
        ensures
            final(self).wf(),
            (final(self).output().state(), r.0) == spec_write_scalar(old(self).output().state(), true),
            final(self).output().stack() == old(self).output().stack(),
            final(self).output().bytes() == (if r.0 == WriteResult::Success {
                old(self).output().bytes() + str_header(len as nat) + zeros(len as nat)
            } else {
                old(self).output().bytes()
            }),
            r.0 == WriteResult::Success ==> r.1 == old(self).output().bytes().len() + str_header(len as nat).len(),
            r.0 != WriteResult::Success ==> r.1 == 0,
            final(self).output().same_tables(&old(self).output()),
            final(self).input() == old(self).input(),
            final(self).parsed() == old(self).parsed(),
            final(self).caches() == old(self).caches(),
            final(self).logs() == old(self).logs(),
            final(self).interner() == old(self).interner(),
    {
        let r = self.output.allocate_utf8_str(len);
        proof {
            self.output.lemma_same_tables_wf(&old(self).output, self.string_interner.strings());
        }
        r
    }

    /// Copy `data` into the output at `offset`, over bytes reserved for a string.
    pub fn output_fill(&mut self, offset: usize, data: &[u8])
        requires
            old(self).wf(),
            offset + data@.len() <= old(self).output().bytes().len(),
        ensures
            final(self).wf(),
            final(self).output().bytes() == old(self).output().bytes().subrange(0, offset as int) + data@
                + old(self).output().bytes().subrange(offset + data@.len(), old(self).output().bytes().len() as int),
            final(self).output().state() == old(self).output().state(),
            final(self).output().stack() == old(self).output().stack(),
            final(self).output().same_tables(&old(self).output()),
            final(self).input() == old(self).input(),
            final(self).parsed() == old(self).parsed(),
            final(self).caches() == old(self).caches(),
            final(self).logs() == old(self).logs(),
            final(self).interner() == old(self).interner(),
    {
        self.output.fill(offset, data);
    }

    /// Write the interned string `id`: a reference to its output string-table entry
    /// when it has one, else its bytes.
    pub fn output_new_interned_utf8_str(&mut self, id: InternedStringId) -> (r: WriteResult)
        requires
            old(self).wf(),
            old(self).output_room(),
            spec_write_scalar(old(self).output().state(), true).1 == WriteResult::Success ==> id
                < old(self).interner().strings().len(),
        ensures
            final(self).wf(),
            (final(self).output().state(), r) == spec_write_scalar(old(self).output().state(), true),
            final(self).output().stack() == old(self).output().stack(),
            final(self).output().bytes() == (if r == WriteResult::Success {
                old(self).output().bytes() + (if id < old(self).output().table_ids().len()
                    && old(self).output().table_ids()[id as int] is Some {
                    strref_bytes(old(self).output().table_ids()[id as int]->0)
                } else {
                    str_header(old(self).interner().strings()[id as int].len())
                        + old(self).interner().strings()[id as int]
                })
            } else {
                old(self).output().bytes()
            }),
            final(self).output().same_tables(&old(self).output()),
            final(self).input() == old(self).input(),
            final(self).parsed() == old(self).parsed(),
            final(self).caches() == old(self).caches(),
            final(self).logs() == old(self).logs(),
            final(self).interner() == old(self).interner(),
    {
        let r = self.output.write_interned_utf8_str(id, &self.string_interner);
        proof {
            self.output.lemma_same_tables_wf(&old(self).output, self.string_interner.strings());
        }
        r
    }

    /// Begin a shape definition of `key_count` keys.
    pub fn output_shape_define_new(&mut self, key_count: usize) -> (r: WriteResult)
        requires
            old(self).wf(),
        ensures
            final(self).wf(),
            r == (if old(self).output().open_shape() is Some {
                WriteResult::ShapeDefinitionError
            } else {
                WriteResult::Success
            }),
            final(self).output().open_shape() == (if r == WriteResult::Success {
                Some((key_count, old(self).output().shape_keys().len() as usize))
            } else {
                old(self).output().open_shape()
            }),
            final(self).output().bytes() == old(self).output().bytes(),
            final(self).output().state() == old(self).output().state(),
            final(self).output().stack() == old(self).output().stack(),
            final(self).output().string_table() == old(self).output().string_table(),
            final(self).output().table_ids() == old(self).output().table_ids(),
            final(self).output().shape_keys() == old(self).output().shape_keys(),
            final(self).output().shapes() == old(self).output().shapes(),
            final(self).input() == old(self).input(),
            final(self).parsed() == old(self).parsed(),
            final(self).caches() == old(self).caches(),
            final(self).logs() == old(self).logs(),
            final(self).interner() == old(self).interner(),
    {
        self.output.start_shape_definition(key_count)
    }

    /// Add the interned string `id` as the next key of the shape being defined.
    pub fn output_shape_define_key(&mut self, id: InternedStringId) -> (r: WriteResult)
        requires
            old(self).wf(),
            old(self).output().open_shape() matches Some((c, st)) && old(self).output().shape_keys().len()
                - st < c ==> {
                &&& id < old(self).interner().strings().len()
                &&& old(self).output().string_table().len() < u32::MAX
            },
        ensures
            final(self).wf(),
            final(self).output().bytes() == old(self).output().bytes(),
            final(self).output().state() == old(self).output().state(),
            final(self).output().stack() == old(self).output().stack(),
            final(self).output().shapes() == old(self).output().shapes(),
            final(self).output().open_shape() == old(self).output().open_shape(),
            match old(self).output().open_shape() {
                Some((c, st)) if old(self).output().shape_keys().len() - st < c => {
                    let t = spec_table_entry(
                        old(self).interner().strings(),
                        old(self).output().string_table(),
                        old(self).output().table_ids(),
                        id,
                    );
                    &&& r == WriteResult::Success
                    &&& final(self).output().string_table() == (if t == old(self).output().string_table().len() {
                        old(self).output().string_table().push(id)
                    } else {
                        old(self).output().string_table()
                    })
                    &&& final(self).output().table_ids() == ids_with(old(self).output().table_ids(), id, t)
                    &&& final(self).output().shape_keys() == old(self).output().shape_keys().push(t)
                    &&& t < final(self).output().string_table().len()
                    &&& old(self).interner().strings()[final(self).output().string_table()[t as int] as int]
                        == old(self).interner().strings()[id as int]
                    &&& t == old(self).output().string_table().len() ==> forall|k: int|
                        0 <= k < old(self).output().string_table().len() ==> old(self).interner().strings()[
                            #[trigger] old(self).output().string_table()[k] as int]
                            != old(self).interner().strings()[id as int]
                },
                _ => {
                    &&& r == WriteResult::ShapeDefinitionError
                    &&& final(self).output().string_table() == old(self).output().string_table()
                    &&& final(self).output().table_ids() == old(self).output().table_ids()
                    &&& final(self).output().shape_keys() == old(self).output().shape_keys()
                },
            },
            final(self).input() == old(self).input(),
            final(self).parsed() == old(self).parsed(),
            final(self).caches() == old(self).caches(),
            final(self).logs() == old(self).logs(),
            final(self).interner() == old(self).interner(),
    {
        self.output.define_shape_key(id, &self.string_interner)
    }

    /// End the shape definition once all its keys are given; gives the new shape's id.
    pub fn output_shape_define_finish(&mut self) -> (r: (WriteResult, usize))
        requires
            old(self).wf(),
        ensures
            final(self).wf(),
            match old(self).output().open_shape() {
                Some((c, st)) if old(self).output().shape_keys().len() - st == c => {
                    &&& r == (WriteResult::Success, old(self).output().shapes().len() as usize)
                    &&& final(self).output().shapes() == old(self).output().shapes().push(
                        (st, old(self).output().shape_keys().len() as usize),
                    )
                    &&& final(self).output().open_shape() is None
                },
                _ => {
                    &&& r == (WriteResult::ShapeDefinitionError, 0usize)
                    &&& final(self).output().shapes() == old(self).output().shapes()
                    &&& final(self).output().open_shape() == old(self).output().open_shape()
                },
            },
            final(self).output().bytes() == old(self).output().bytes(),
            final(self).output().state() == old(self).output().state(),
            final(self).output().stack() == old(self).output().stack(),
            final(self).output().string_table() == old(self).output().string_table(),
            final(self).output().table_ids() == old(self).output().table_ids(),
            final(self).output().shape_keys() == old(self).output().shape_keys(),
            final(self).input() == old(self).input(),
            final(self).parsed() == old(self).parsed(),
            final(self).caches() == old(self).caches(),
            final(self).logs() == old(self).logs(),
            final(self).interner() == old(self).interner(),
    {
        self.output.finish_shape_definition()
    }

    /// Open a shaped object of shape `shape_id`.
    pub fn output_new_shaped_object(&mut self, shape_id: usize) -> (r: WriteResult)
        requires
            old(self).wf(),
            old(self).output_room(),
        ensures
            final(self).wf(),
            shape_id >= old(self).output().shapes().len() ==> {
                &&& r == WriteResult::InvalidShapeId
                &&& final(self).output().state() == old(self).output().state()
                &&& final(self).output().stack() == old(self).output().stack()
                &&& final(self).output().bytes() == old(self).output().bytes()
            },
            shape_id < old(self).output().shapes().len() ==> {
                let (start, end) = old(self).output().shapes()[shape_id as int];
                &&& (final(self).output().state(), final(self).output().stack(), r) == spec_start_container(
                    old(self).output().state(),
                    old(self).output().stack(),
                    State::Shape(ArrayState { length: (end - start) as usize, num_inserted: 0 }),
                )
                &&& final(self).output().bytes() == (if r == WriteResult::Success {
                    old(self).output().bytes() + seq![SEQSHAPE] + varint_bytes(shape_id as nat)
                } else {
                    old(self).output().bytes()
                })
            },
            final(self).output().same_tables(&old(self).output()),
            final(self).input() == old(self).input(),
            final(self).parsed() == old(self).parsed(),
            final(self).caches() == old(self).caches(),
            final(self).logs() == old(self).logs(),
            final(self).interner() == old(self).interner(),
    {
        proof {
            self.output.lemma_shapes_ordered(self.string_interner.strings());
        }
        let r = self.output.start_shaped_object(shape_id);
        proof {
            self.output.lemma_same_tables_wf(&old(self).output, self.string_interner.strings());
        }
        r
    }

    /// The finished payload: refused, and empty, while the value is incomplete or a
    /// shape definition is open.
    pub fn output_finalize_and_return_bytes(&self) -> (r: (WriteResult, Vec<u8>))
        requires
            self.wf(),
        ensures
            self.output().state() != State::End ==> r.0 == WriteResult::ValueNotFinished && r.1@.len() == 0,
            self.output().state() == State::End && self.output().open_shape() is Some ==> r.0
                == WriteResult::ShapeDefinitionError && r.1@.len() == 0,
            self.output().state() == State::End && self.output().open_shape() is None ==> r.0
                == WriteResult::Success && r.1@ == spec_payload(
                self.interner().strings(),
                self.output().string_table(),
                self.output().shape_keys(),
                self.output().shapes(),
                self.output().bytes(),
            ),
    {
        self.output.finalize_and_return_bytes(&self.string_interner)
    }

    /// The complete payload written so far: header, tables, value.
    pub fn assemble_output_payload(&self) -> (r: Vec<u8>)
        requires
            self.wf(),
        ensures
            r@ == spec_payload(
                self.interner().strings(),
                self.output().string_table(),
                self.output().shape_keys(),
                self.output().shapes(),
                self.output().bytes(),
            ),
    {
        self.output.assemble_output_payload(&self.string_interner)
    }
}

/// The length that `input_get_val_len` reports for a value: a string's byte length
/// (a long string's as recorded when it was read), a container's child count, and
/// `usize::MAX` for anything else or when it cannot be told.
pub open spec fn spec_val_len(
    scope: Val,
    input: Seq<u8>,
    parsed: Option<InputState>,
    caches: Caches,
) -> usize {
    match spec_decode(scope) {
        Some(ValueRef::String { ptr, len }) => if len < 16383 {
            len
        } else if ptr > u32::MAX {
            usize::MAX
        } else if caches.long_lens().contains_key(ptr as u32) {
            caches.long_lens()[ptr as u32] as usize
        } else {
            usize::MAX
        },
        Some(ValueRef::Array { ptr, .. }) | Some(ValueRef::Object { ptr, .. }) => if ptr > u32::MAX {
            usize::MAX
        } else {
            match parsed {
                None => usize::MAX,
                Some(st) => match spec_meta(input, st.shapes@, ptr as int) {
                    Some(m) => m.count as usize,
                    None => usize::MAX,
                },
            }
        },
        _ => usize::MAX,
    }
}

/// The length of an array or object is its number of children: reading child
/// `index` of it is refused as out of bounds exactly when `index` is at or past
/// the length, so every index below the length is a child's.
pub proof fn lemma_val_len_counts_children(
    scope: Val,
    input: Seq<u8>,
    parsed: Option<InputState>,
    caches: Caches,
    index: usize,
    pos: u32,
)
    requires
        spec_scope(scope) == ScopeKind::Array(pos) || spec_scope(scope) == ScopeKind::Object(pos),
        parsed matches Some(st) && spec_meta(input, st.shapes@, pos as int) is Some,
    ensures
        (spec_at_index_reply(input, parsed, scope, index) == Err::<Decoded, ErrorCode>(
            ErrorCode::IndexOutOfBounds,
        )) <==> index >= spec_val_len(scope, input, parsed, caches),
        spec_val_len(scope, input, parsed, caches) <= u32::MAX,
{
    crate::nanbox::lemma_scope_decodes(scope);
    let st = parsed->0;
    let m = spec_meta(input, st.shapes@, pos as int)->0;
    assert(spec_val_len(scope, input, parsed, caches) == m.count as usize);
    if index <= u32::MAX {
        assert(spec_element_at(input, st.strings@, st.shapes@, pos, index as u32, true) == spec_element(
            input,
            st.strings@,
            st.shapes@,
            m,
            index as u32,
            true,
        ));
    }
}

/// The header the writer puts before `n` children: a map's, or an array's.
pub open spec fn written_header(n: nat, map: bool) -> Seq<u8> {
    if map {
        container_header(n, FIXMAP0, SEQFIXMAP_MIN, SEQMAP)
    } else {
        container_header(n, FIXARRAY0, SEQFIXARRAY_MIN, SEQARRAY)
    }
}

/// The length of an array or object whose header the writer wrote with `n`
/// children (pairs, for an object) is `n`.
pub proof fn lemma_val_len_of_written_header(
    scope: Val,
    input: Seq<u8>,
    parsed: Option<InputState>,
    caches: Caches,
    pos: u32,
    n: u32,
    map: bool,
)
    requires
        spec_scope(scope) == ScopeKind::Array(pos) || spec_scope(scope) == ScopeKind::Object(pos),
        parsed matches Some(st) && spec_meta(input, st.shapes@, pos as int) is Some,
        input.len() <= u32::MAX,
        pos + written_header(n as nat, map).len() <= input.len(),
        input.subrange(pos as int, pos + written_header(n as nat, map).len()) == written_header(n as nat, map),
    ensures
        spec_val_len(scope, input, parsed, caches) == n,
{
    crate::nanbox::lemma_scope_decodes(scope);
    let st = parsed->0;
    crate::roundtrip::lemma_container_header_roundtrip(input, st.shapes@, pos as int, n, map);
}

impl Context {
    /// The length of a value: see `spec_val_len`.
    pub fn input_get_val_len(&mut self, scope: Val) -> (r: usize)
        requires
            old(self).wf(),
            is_boxed(scope) ==> tag_field(scope) != 2,
        ensures
            final(self).wf(),
            r == spec_val_len(scope, old(self).input(), old(self).parsed(), old(self).caches()),
            final(self).input() == old(self).input(),
            final(self).parsed() == old(self).parsed(),
            final(self).output() == old(self).output(),
            final(self).logs() == old(self).logs(),
            final(self).interner() == old(self).interner(),
    {
        match NanBox::from_bits(scope).try_decode() {
            Ok(ValueRef::String { ptr, len }) => {
                if len < NanBox::MAX_VALUE_LENGTH {
                    len
                } else if ptr > u32::MAX as usize {
                    usize::MAX
                } else {
                    match self.input_caches.long_string_len(ptr as u32) {
                        Some(l) => l as usize,
                        None => usize::MAX,
                    }
                }
            },
            Ok(ValueRef::Array { ptr, .. }) | Ok(ValueRef::Object { ptr, .. }) => {
                if ptr > u32::MAX as usize {
                    return usize::MAX;
                }
                match &self.input_state {
                    None => usize::MAX,
                    Some(state) => match container_meta(
                        self.input_bytes.as_slice(),
                        state,
                        &mut self.input_caches,
                        ptr as u32,
                    ) {
                        Ok(meta) => meta.count as usize,
                        Err(_) => usize::MAX,
                    },
                }
            },
            _ => usize::MAX,
        }
    }

    /// Where the input bytes from `offset` start, when `offset` is inside the input
    /// or just past its end.
    pub fn input_get_utf8_str_addr(&self, offset: usize) -> (r: Option<usize>)
        ensures
            r == (if offset <= self.input().len() {
                Some(offset)
            } else {
                None
            }),
    {
        if offset <= self.input_bytes.len() {
            Some(offset)
        } else {
            None
        }
    }

    /// Whether the prelude has been parsed (the root has been read).
    pub fn input_parsed(&self) -> (r: bool)
        ensures
            r == self.parsed() is Some,
    {
        self.input_state.is_some()
    }

    /// The number of interned strings.
    pub fn interned_count(&self) -> (r: usize)
        ensures
            r == self.interner().strings().len(),
    {
        self.string_interner.len()
    }

    /// The number of bytes the interned strings take.
    pub fn interned_byte_len(&self) -> (r: usize)
        ensures
            r == self.interner().byte_len(),
    {
        self.string_interner.byte_len_exec()
    }

    /// Whether a shape definition is open and expects another key.
    pub fn shape_key_expected(&self) -> (r: bool)
        ensures
            r == (self.output().open_shape() matches Some((c, st)) && self.output().shape_keys().len() - st < c),
    {
        self.output.shape_key_expected()
    }

    /// The number of output string-table entries.
    pub fn output_string_table_len(&self) -> (r: usize)
        ensures
            r == self.output().string_table().len(),
    {
        self.output.string_table_len()
    }

    /// The writer state.
    pub fn output_state(&self) -> (r: State)
        ensures
            r == self.output().state(),
    {
        self.output.write_state()
    }

    /// The encoded output value so far, without header or tables.
    pub fn output_bytes(&self) -> (r: &[u8])
        ensures
            r@ == self.output().bytes(),
    {
        self.output.output_bytes()
    }

    /// The input bytes.
    pub fn input_bytes(&self) -> (r: &[u8])
        ensures
            r@ == self.input(),
    {
        self.input_bytes.as_slice()
    }

    /// Intern a string of `len` bytes, zeroed until filled with `fill_interned`;
    /// gives its id and the offset of its bytes in the interner.
    pub fn intern_utf8_str(&mut self, len: usize) -> (r: (InternedStringId, usize))
        requires
            old(self).wf(),
            old(self).interner().byte_len() + len <= usize::MAX,
        ensures
            final(self).wf(),
            r.0 == old(self).interner().strings().len(),
            r.1 == old(self).interner().byte_len(),
            final(self).interner().strings() == old(self).interner().strings().push(zeros(len as nat)),
            final(self).interner().byte_len() == old(self).interner().byte_len() + len,
            final(self).input() == old(self).input(),
            final(self).parsed() == old(self).parsed(),
            final(self).caches() == old(self).caches(),
            final(self).output() == old(self).output(),
            final(self).logs() == old(self).logs(),
    {
        let r = self.string_interner.preallocate(len);
        proof {
            self.output.lemma_tables_wf_more_strings(old(self).string_interner.strings(), self.string_interner.strings());
        }
        r
    }

    /// Fill the bytes of interned string `id`, which the output does not refer to
    /// yet: a string is filled when it is interned, before any use of it.
    pub fn fill_interned(&mut self, id: InternedStringId, data: &[u8])
        requires
            old(self).wf(),
            id < old(self).interner().strings().len(),
            data@.len() == old(self).interner().strings()[id as int].len(),
            !old(self).output().references(id),
        ensures
            final(self).wf(),
            final(self).interner().strings() == old(self).interner().strings().update(id as int, data@),
            final(self).interner().byte_len() == old(self).interner().byte_len(),
            final(self).input() == old(self).input(),
            final(self).parsed() == old(self).parsed(),
            final(self).caches() == old(self).caches(),
            final(self).output() == old(self).output(),
            final(self).logs() == old(self).logs(),
    {
        self.string_interner.fill(id, data);
        proof {
            self.output.lemma_tables_wf_unreferenced_update(old(self).string_interner.strings(), id, data@);
        }
    }

    /// Intern the string `data`; gives its id.
    pub fn intern_bytes(&mut self, data: &[u8]) -> (r: InternedStringId)
        requires
            old(self).wf(),
            old(self).interner().byte_len() + data@.len() <= usize::MAX,
        ensures
            final(self).wf(),
            r == old(self).interner().strings().len(),
            final(self).interner().strings() == old(self).interner().strings().push(data@),
            final(self).interner().byte_len() == old(self).interner().byte_len() + data@.len(),
            final(self).input() == old(self).input(),
            final(self).parsed() == old(self).parsed(),
            final(self).caches() == old(self).caches(),
            final(self).output() == old(self).output(),
            final(self).logs() == old(self).logs(),
    {
        proof {
            self.string_interner.lemma_count_fits();
            self.output.lemma_references_bounded(self.string_interner.strings(), self.string_interner.strings().len() as usize);
        }
        let (id, _) = self.intern_utf8_str(data.len());
        self.fill_interned(id, data);
        proof {
            assert(self.string_interner.strings() =~= old(self).string_interner.strings().push(data@));
        }
        id
    }

    /// The bytes of interned string `id`.
    pub fn interned_bytes(&self, id: InternedStringId) -> (r: &[u8])
        requires
            self.wf(),
            id < self.interner().strings().len(),
        ensures
            r@ == self.interner().strings()[id as int],
    {
        self.string_interner.get(id)
    }

    /// Reserve room for `len` log bytes and say where they go.
    pub fn log_new_utf8_str(&mut self, len: usize) -> (r: LogSlices)
        requires
            old(self).wf(),
        ensures
            final(self).wf(),
            r == crate::log::spec_slices(old(self).logs().write_offset(), len),
            final(self).logs().write_offset() == (old(self).logs().write_offset() + (if len > CAPACITY {
                CAPACITY
            } else {
                len
            })) % (CAPACITY as int),
            final(self).logs().held() == ({
                let n: int = if len > CAPACITY {
                    CAPACITY as int
                } else {
                    len as int
                };
                if n <= CAPACITY - old(self).logs().write_offset() {
                    if old(self).logs().held() + n < CAPACITY {
                        old(self).logs().held() + n
                    } else {
                        CAPACITY as int
                    }
                } else {
                    CAPACITY as int
                }
            }),
            final(self).logs().buffer_bytes() == old(self).logs().buffer_bytes(),
            final(self).input() == old(self).input(),
            final(self).parsed() == old(self).parsed(),
            final(self).caches() == old(self).caches(),
            final(self).output() == old(self).output(),
            final(self).interner() == old(self).interner(),
    {
        self.logs.append(len)
    }

    /// Append `data` to the log, which keeps the most recent `CAPACITY` bytes.
    pub fn log_utf8_bytes(&mut self, data: &[u8])
        requires
            old(self).wf(),
        ensures
            final(self).wf(),
            final(self).logs().contents() == keep_last(old(self).logs().contents() + data@, CAPACITY as nat),
            final(self).input() == old(self).input(),
            final(self).parsed() == old(self).parsed(),
            final(self).caches() == old(self).caches(),
            final(self).output() == old(self).output(),
            final(self).interner() == old(self).interner(),
    {
        self.logs.write(data)
    }

    /// The log's ring buffer.
    pub fn log_buffer(&self) -> (r: &[u8])
        ensures
            r@ == self.logs().buffer_bytes(),
    {
        self.logs.buffer()
    }

    /// Where the logged bytes lie in the ring buffer, oldest first.
    pub fn log_read_ranges(&self) -> (r: (usize, usize, Option<usize>, usize))
        requires
            self.wf(),
        ensures
            r.0 + r.1 <= CAPACITY,
            r.2 is Some ==> r.2 == Some(0usize) && r.3 <= CAPACITY,
            r.2 is None ==> r.3 == 0,
            r.1 + r.3 == self.logs().contents().len(),
            self.logs().buffer_bytes().subrange(r.0 as int, r.0 + r.1) + self.logs().buffer_bytes().subrange(
                0,
                r.3 as int,
            ) == self.logs().contents(),
    {
        self.logs.read_ranges()
    }
}

/// Start a new run on `bytes`: everything is reset but the interned strings, which
/// stay valid across runs.
pub fn initialize_from_fbf_bytes(context: &mut Context, bytes: Vec<u8>)
    requires
        old(context).wf(),
    ensures
        final(context).wf(),
        final(context).starts_fresh(bytes@),
        final(context).interner() == old(context).interner(),
{
    let mut fresh = Context::new(bytes);
    proof {
        fresh.output.lemma_tables_wf_more_strings(Seq::<Seq<u8>>::empty(), context.string_interner.strings());
    }
    std::mem::swap(&mut fresh.string_interner, &mut context.string_interner);
    *context = fresh;
}

/// The NaN-box of a decoded value; numbers are boxed by the host, which converts
/// them to `f64`.
pub fn boxed(d: Decoded) -> (r: Option<NanBox>)
    ensures
        match d {
            Decoded::Null => r matches Some(b) && b.bits() == boxed_bits(0, 0, Tag::Null),
            Decoded::Bool(v) => r matches Some(b) && b.bits() == boxed_bits(if v { 1 } else { 0 }, 0, Tag::Bool),
            Decoded::Number(_) => r is None,
            Decoded::String { content, len } => r matches Some(b) && b.bits() == boxed_bits(
                content as u64,
                saturated_len(len as usize),
                Tag::String,
            ),
            Decoded::Array { pos, count } => r matches Some(b) && b.bits() == boxed_bits(
                pos as u64,
                saturated_len(count as usize),
                Tag::Array,
            ),
            Decoded::Object { pos, count } => r matches Some(b) && b.bits() == boxed_bits(
                pos as u64,
                saturated_len(count as usize),
                Tag::Object,
            ),
        },
{
    match d {
        Decoded::Null => Some(NanBox::null()),
        Decoded::Bool(v) => Some(NanBox::bool(v)),
        Decoded::Number(_) => None,
        Decoded::String { content, len } => Some(NanBox::string(content as usize, len as usize)),
        Decoded::Array { pos, count } => Some(NanBox::array(pos as usize, count as usize)),
        Decoded::Object { pos, count } => Some(NanBox::obj(pos as usize, count as usize)),
    }
}

} // verus!
