//! The state machine that checks the shape of the value being written: one
//! top-level value, objects that alternate keys and values, arrays and shaped
//! objects that receive exactly the number of values they announced.
use vstd::prelude::*;

verus! {

/// The outcome of a write operation.
#[derive(Copy, Clone, PartialEq, Eq, Debug, Structural)]
pub enum WriteResult {
    /// The write operation was successful.
    Success,
    /// An error occurred while writing to the output.
    IoError,
    /// Tried to write a value when a key was expected.
    ExpectedKey,
    /// The object length was not honoured.
    ObjectLengthError,
    /// Tried to write a value when a value was already written.
    ValueAlreadyWritten,
    /// The value is not an object, but an operation expected an object.
    NotAnObject,
    /// Value not finished.
    ValueNotFinished,
    /// The array length was not honoured.
    ArrayLengthError,
    /// The value is not an array, but an operation expected an array.
    NotAnArray,
    /// The value is not a shaped object, but an operation expected one.
    NotAShape,
    /// The number of values written for a shaped object did not match the shape's key count.
    ShapeLengthError,
    /// The shape ID does not refer to a defined shape.
    InvalidShapeId,
    /// A shape definition operation was invalid (no definition in progress, key count
    /// mismatch, or a definition was already in progress).
    ShapeDefinitionError,
}

/// The numeric value of a write result.
pub open spec fn write_result_value(r: WriteResult) -> usize {
    match r {
        WriteResult::Success => 0,
        WriteResult::IoError => 1,
        WriteResult::ExpectedKey => 2,
        WriteResult::ObjectLengthError => 3,
        WriteResult::ValueAlreadyWritten => 4,
        WriteResult::NotAnObject => 5,
        WriteResult::ValueNotFinished => 6,
        WriteResult::ArrayLengthError => 7,
        WriteResult::NotAnArray => 8,
        WriteResult::NotAShape => 9,
        WriteResult::ShapeLengthError => 10,
        WriteResult::InvalidShapeId => 11,
        WriteResult::ShapeDefinitionError => 12,
    }
}

/// The write result with a numeric value, if any.
pub open spec fn write_result_of(v: usize) -> Option<WriteResult> {
    if v == 0 {
        Some(WriteResult::Success)
    } else if v == 1 {
        Some(WriteResult::IoError)
    } else if v == 2 {
        Some(WriteResult::ExpectedKey)
    } else if v == 3 {
        Some(WriteResult::ObjectLengthError)
    } else if v == 4 {
        Some(WriteResult::ValueAlreadyWritten)
    } else if v == 5 {
        Some(WriteResult::NotAnObject)
    } else if v == 6 {
        Some(WriteResult::ValueNotFinished)
    } else if v == 7 {
        Some(WriteResult::ArrayLengthError)
    } else if v == 8 {
        Some(WriteResult::NotAnArray)
    } else if v == 9 {
        Some(WriteResult::NotAShape)
    } else if v == 10 {
        Some(WriteResult::ShapeLengthError)
    } else if v == 11 {
        Some(WriteResult::InvalidShapeId)
    } else if v == 12 {
        Some(WriteResult::ShapeDefinitionError)
    } else {
        None
    }
}

impl WriteResult {
    /// The numeric value of the result.
    pub fn as_usize(&self) -> (v: usize)
        ensures
            v == write_result_value(*self),
    {
        match self {
            WriteResult::Success => 0,
            WriteResult::IoError => 1,
            WriteResult::ExpectedKey => 2,
            WriteResult::ObjectLengthError => 3,
            WriteResult::ValueAlreadyWritten => 4,
            WriteResult::NotAnObject => 5,
            WriteResult::ValueNotFinished => 6,
            WriteResult::ArrayLengthError => 7,
            WriteResult::NotAnArray => 8,
            WriteResult::NotAShape => 9,
            WriteResult::ShapeLengthError => 10,
            WriteResult::InvalidShapeId => 11,
            WriteResult::ShapeDefinitionError => 12,
        }
    }

    /// The result with the given numeric value.
    pub fn from_repr(v: usize) -> (r: Option<WriteResult>)
        ensures
            r == write_result_of(v),
    {
        if v == 0 {
            Some(WriteResult::Success)
        } else if v == 1 {
            Some(WriteResult::IoError)
        } else if v == 2 {
            Some(WriteResult::ExpectedKey)
        } else if v == 3 {
            Some(WriteResult::ObjectLengthError)
        } else if v == 4 {
            Some(WriteResult::ValueAlreadyWritten)
        } else if v == 5 {
            Some(WriteResult::NotAnObject)
        } else if v == 6 {
            Some(WriteResult::ValueNotFinished)
        } else if v == 7 {
            Some(WriteResult::ArrayLengthError)
        } else if v == 8 {
            Some(WriteResult::NotAnArray)
        } else if v == 9 {
            Some(WriteResult::NotAShape)
        } else if v == 10 {
            Some(WriteResult::ShapeLengthError)
        } else if v == 11 {
            Some(WriteResult::InvalidShapeId)
        } else if v == 12 {
            Some(WriteResult::ShapeDefinitionError)
        } else {
            None
        }
    }
}

/// Each result's number names it again.
pub proof fn lemma_write_result_roundtrip(r: WriteResult)
    ensures
        write_result_of(write_result_value(r)) == Some(r),
{
}

/// Progress through an object: `length` key-value pairs announced, `num_inserted`
/// keys and values written so far.
#[derive(Copy, Clone, PartialEq, Eq, Debug, Structural)]
pub struct ObjectState {
    /// The number of key-value pairs.
    pub length: usize,
    /// Keys and values written so far; approaches `length * 2`.
    pub num_inserted: usize,
}

/// Progress through an array or a shaped object: `length` values announced,
/// `num_inserted` written so far.
#[derive(Copy, Clone, PartialEq, Eq, Debug, Structural)]
pub struct ArrayState {
    /// The number of values.
    pub length: usize,
    /// Values written so far.
    pub num_inserted: usize,
}

/// Where the writer stands.
#[derive(Copy, Clone, PartialEq, Eq, Debug, Structural)]
pub enum State {
    /// Nothing written yet.
    Start,
    /// Inside an object.
    Object(ObjectState),
    /// Inside an array.
    Array(ArrayState),
    /// Inside a shaped object.
    Shape(ArrayState),
    /// The top-level value is complete.
    End,
}

/// Counts never run past what was announced.
pub open spec fn state_wf(s: State) -> bool {
    match s {
        State::Object(o) => o.num_inserted <= 2 * o.length,
        State::Array(a) => a.num_inserted <= a.length,
        State::Shape(a) => a.num_inserted <= a.length,
        _ => true,
    }
}

/// The current container can count one more value without overflow.
pub open spec fn has_room(s: State) -> bool {
    match s {
        State::Object(o) => o.num_inserted < usize::MAX,
        State::Array(a) => a.num_inserted < usize::MAX,
        State::Shape(a) => a.num_inserted < usize::MAX,
        _ => true,
    }
}

/// Whether a state is inside a container.
pub open spec fn is_container(s: State) -> bool {
    s is Object || s is Array || s is Shape
}

/// A writer state with the stack of its enclosing containers, as the operations
/// leave them: counts within bounds, only containers on the stack, and an empty
/// stack before and after the top-level value.
pub open spec fn states_wf(s: State, stack: Seq<State>) -> bool {
    &&& state_wf(s)
    &&& forall|i: int| 0 <= i < stack.len() ==> #[trigger] state_wf(stack[i]) && is_container(stack[i])
    &&& (s is Start || s is End) ==> stack.len() == 0
}

/// Writing a key (a string) into an object.
pub open spec fn object_key_step(o: ObjectState) -> (ObjectState, WriteResult) {
    if o.num_inserted / 2 >= o.length {
        (o, WriteResult::ObjectLengthError)
    } else {
        (ObjectState { num_inserted: (o.num_inserted + 1) as usize, ..o }, WriteResult::Success)
    }
}

/// Writing a value that cannot be a key into an object.
pub open spec fn object_value_step(o: ObjectState) -> (ObjectState, WriteResult) {
    if o.num_inserted % 2 == 0 {
        (o, WriteResult::ExpectedKey)
    } else {
        (ObjectState { num_inserted: (o.num_inserted + 1) as usize, ..o }, WriteResult::Success)
    }
}

/// Writing a value into an array or a shaped object; `overflow` is the error when
/// all announced values are already written.
pub open spec fn sequence_step(a: ArrayState, overflow: WriteResult) -> (ArrayState, WriteResult) {
    if a.num_inserted >= a.length {
        (a, overflow)
    } else {
        (ArrayState { num_inserted: (a.num_inserted + 1) as usize, ..a }, WriteResult::Success)
    }
}

/// The state after writing a scalar, and the result; `is_string` tells a string
/// (which may be an object key) from other scalars.
pub open spec fn spec_write_scalar(s: State, is_string: bool) -> (State, WriteResult) {
    match s {
        State::Start => (State::End, WriteResult::Success),
        State::Object(o) => {
            let (o2, r) = if is_string {
                object_key_step(o)
            } else {
                object_value_step(o)
            };
            (State::Object(o2), r)
        },
        State::Array(a) => {
            let (a2, r) = sequence_step(a, WriteResult::ArrayLengthError);
            (State::Array(a2), r)
        },
        State::Shape(a) => {
            let (a2, r) = sequence_step(a, WriteResult::ShapeLengthError);
            (State::Shape(a2), r)
        },
        State::End => (s, WriteResult::ValueAlreadyWritten),
    }
}

/// Opening a container: `child` is the state inside it. From `Start` the container
/// is the top-level value; inside a container it counts as one value and the parent
/// goes on the stack; after the top-level value nothing more can be written.
pub open spec fn spec_start_container(s: State, stack: Seq<State>, child: State) -> (
    State,
    Seq<State>,
    WriteResult,
) {
    match s {
        State::Start => (child, stack, WriteResult::Success),
        State::End => (s, stack, WriteResult::ValueAlreadyWritten),
        _ => {
            let (parent, r) = spec_write_scalar(s, false);
            if r == WriteResult::Success {
                (child, stack.push(parent), WriteResult::Success)
            } else {
                (parent, stack, r)
            }
        },
    }
}

/// The state that a finished container hands back to: its parent, or `End`.
pub open spec fn spec_pop(stack: Seq<State>) -> (State, Seq<State>) {
    if stack.len() == 0 {
        (State::End, stack)
    } else {
        (stack.last(), stack.drop_last())
    }
}

/// Closing an object.
pub open spec fn spec_finish_object(s: State, stack: Seq<State>) -> (State, Seq<State>, WriteResult) {
    match s {
        State::Object(o) => if o.num_inserted != o.length * 2 {
            (s, stack, WriteResult::ObjectLengthError)
        } else {
            (spec_pop(stack).0, spec_pop(stack).1, WriteResult::Success)
        },
        _ => (s, stack, WriteResult::NotAnObject),
    }
}

/// Closing an array.
pub open spec fn spec_finish_array(s: State, stack: Seq<State>) -> (State, Seq<State>, WriteResult) {
    match s {
        State::Array(a) => if a.num_inserted != a.length {
            (s, stack, WriteResult::ArrayLengthError)
        } else {
            (spec_pop(stack).0, spec_pop(stack).1, WriteResult::Success)
        },
        _ => (s, stack, WriteResult::NotAnArray),
    }
}

/// Closing a shaped object.
pub open spec fn spec_finish_shape(s: State, stack: Seq<State>) -> (State, Seq<State>, WriteResult) {
    match s {
        State::Shape(a) => if a.num_inserted != a.length {
            (s, stack, WriteResult::ShapeLengthError)
        } else {
            (spec_pop(stack).0, spec_pop(stack).1, WriteResult::Success)
        },
        _ => (s, stack, WriteResult::NotAShape),
    }
}

impl ObjectState {
    fn write_string(&mut self) -> (r: WriteResult)
        requires
            old(self).num_inserted < usize::MAX,
        ensures
            (*final(self), r) == object_key_step(*old(self)),
    {
        if self.num_inserted / 2 >= self.length {
            return WriteResult::ObjectLengthError;
        }
        self.num_inserted = self.num_inserted + 1;
        WriteResult::Success
    }

    fn write_non_string_value(&mut self) -> (r: WriteResult)
        requires
            old(self).num_inserted < usize::MAX,
        ensures
            (*final(self), r) == object_value_step(*old(self)),
    {
        if self.num_inserted % 2 == 0 {
            return WriteResult::ExpectedKey;
        }
        self.num_inserted = self.num_inserted + 1;
        WriteResult::Success
    }
}

impl ArrayState {
    fn write_value(&mut self, overflow: WriteResult) -> (r: WriteResult)
        requires
            old(self).num_inserted < usize::MAX,
        ensures
            (*final(self), r) == sequence_step(*old(self), overflow),
    {
        if self.num_inserted >= self.length {
            return overflow;
        }
        self.num_inserted = self.num_inserted + 1;
        WriteResult::Success
    }
}

impl State {
    /// Record a value written into the current container, or as the top-level value.
    pub(crate) fn write_value(&mut self, is_string: bool) -> (r: WriteResult)
        requires
            has_room(*old(self)),
        ensures
            (*final(self), r) == spec_write_scalar(*old(self), is_string),
    {
        match self {
            State::Start => {
                *self = State::End;
                WriteResult::Success
            },
            State::Object(object_state) => if is_string {
                object_state.write_string()
            } else {
                object_state.write_non_string_value()
            },
            State::Array(array_state) => array_state.write_value(WriteResult::ArrayLengthError),
            State::Shape(shape_state) => shape_state.write_value(WriteResult::ShapeLengthError),
            State::End => WriteResult::ValueAlreadyWritten,
        }
    }

    /// Whether writing a scalar would be accepted, without recording it; a refused
    /// write leaves the state as it is.
    pub fn check_write(&self, is_string: bool) -> (r: WriteResult)
        requires
            has_room(*self),
        ensures
            r == spec_write_scalar(*self, is_string).1,
            r != WriteResult::Success ==> spec_write_scalar(*self, is_string).0 == *self,
    {
        let mut probe = *self;
        probe.write_value(is_string)
    }

    /// Record a string: a key in an object, a value anywhere else.
    pub fn write_string(&mut self) -> (r: WriteResult)
        requires
            has_room(*old(self)),
        ensures
            (*final(self), r) == spec_write_scalar(*old(self), true),
    {
        self.write_value(true)
    }

    /// Record a scalar that is not a string.
    pub fn write_non_string_scalar(&mut self) -> (r: WriteResult)
        requires
            has_room(*old(self)),
        ensures
            (*final(self), r) == spec_write_scalar(*old(self), false),
    {
        self.write_value(false)
    }

    pub(crate) fn start_container(&mut self, child: State, parent_state_stack: &mut Vec<State>) -> (r: WriteResult)
        requires
            has_room(*old(self)),
        ensures
            (*final(self), final(parent_state_stack)@, r) == spec_start_container(
                *old(self),
                old(parent_state_stack)@,
                child,
            ),
    {
        match self {
            State::Start => {
                *self = child;
                return WriteResult::Success;
            },
            State::End => {
                return WriteResult::ValueAlreadyWritten;
            },
            _ => {},
        }
        let result = self.write_value(false);
        if result != WriteResult::Success {
            return result;
        }
        self.swap_and_push(child, parent_state_stack);
        WriteResult::Success
    }

    /// Open an object of `length` key-value pairs.
    pub fn start_object(&mut self, length: usize, parent_state_stack: &mut Vec<State>) -> (r: WriteResult)
        requires
            has_room(*old(self)),
        ensures
            (*final(self), final(parent_state_stack)@, r) == spec_start_container(
                *old(self),
                old(parent_state_stack)@,
                State::Object(ObjectState { length, num_inserted: 0 }),
            ),
    {
        self.start_container(State::Object(ObjectState { length, num_inserted: 0 }), parent_state_stack)
    }

    /// Open an array of `length` values.
    pub fn start_array(&mut self, length: usize, parent_state_stack: &mut Vec<State>) -> (r: WriteResult)
        requires
            has_room(*old(self)),
        ensures
            (*final(self), final(parent_state_stack)@, r) == spec_start_container(
                *old(self),
                old(parent_state_stack)@,
                State::Array(ArrayState { length, num_inserted: 0 }),
            ),
    {
        self.start_container(State::Array(ArrayState { length, num_inserted: 0 }), parent_state_stack)
    }

    /// Open a shaped object of `length` values, one per key of its shape.
    pub fn start_shape(&mut self, length: usize, parent_state_stack: &mut Vec<State>) -> (r: WriteResult)
        requires
            has_room(*old(self)),
        ensures
            (*final(self), final(parent_state_stack)@, r) == spec_start_container(
                *old(self),
                old(parent_state_stack)@,
                State::Shape(ArrayState { length, num_inserted: 0 }),
            ),
    {
        self.start_container(State::Shape(ArrayState { length, num_inserted: 0 }), parent_state_stack)
    }

    fn pop_parent(&mut self, parent_state_stack: &mut Vec<State>)
        ensures
            (*final(self), final(parent_state_stack)@) == spec_pop(old(parent_state_stack)@),
    {
        match parent_state_stack.pop() {
            Some(parent) => {
                *self = parent;
            },
            None => {
                *self = State::End;
            },
        }
    }

    /// Close the current object.
    pub fn finish_object(&mut self, parent_state_stack: &mut Vec<State>) -> (r: WriteResult)
        ensures
            (*final(self), final(parent_state_stack)@, r) == spec_finish_object(
                *old(self),
                old(parent_state_stack)@,
            ),
    {
        match self {
            State::Object(object_state) => {
                if object_state.num_inserted as u128 != object_state.length as u128 * 2 {
                    return WriteResult::ObjectLengthError;
                }
            },
            _ => {
                return WriteResult::NotAnObject;
            },
        }
        self.pop_parent(parent_state_stack);
        WriteResult::Success
    }

    /// Close the current array.
    pub fn finish_array(&mut self, parent_state_stack: &mut Vec<State>) -> (r: WriteResult)
        ensures
            (*final(self), final(parent_state_stack)@, r) == spec_finish_array(
                *old(self),
                old(parent_state_stack)@,
            ),
    {
        match self {
            State::Array(array_state) => {
                if array_state.num_inserted != array_state.length {
                    return WriteResult::ArrayLengthError;
                }
            },
            _ => {
                return WriteResult::NotAnArray;
            },
        }
        self.pop_parent(parent_state_stack);
        WriteResult::Success
    }

    /// Close the current shaped object.
    pub fn finish_shape(&mut self, parent_state_stack: &mut Vec<State>) -> (r: WriteResult)
        ensures
            (*final(self), final(parent_state_stack)@, r) == spec_finish_shape(
                *old(self),
                old(parent_state_stack)@,
            ),
    {
        match self {
            State::Shape(shape_state) => {
                if shape_state.num_inserted != shape_state.length {
                    return WriteResult::ShapeLengthError;
                }
            },
            _ => {
                return WriteResult::NotAShape;
            },
        }
        self.pop_parent(parent_state_stack);
        WriteResult::Success
    }

    /// Make `new_state` current and push the state it replaces onto the stack.
    pub fn swap_and_push(&mut self, new_state: State, parent_state_stack: &mut Vec<State>)
        ensures
            *final(self) == new_state,
            final(parent_state_stack)@ == old(parent_state_stack)@.push(*old(self)),
    {
        let mut new_state = new_state;
        std::mem::swap(self, &mut new_state);
        parent_state_stack.push(new_state);
    }
}

/// Every operation keeps the writer state and its stack well formed.
pub proof fn lemma_operations_keep_wf(s: State, stack: Seq<State>, length: usize, is_string: bool)
    requires
        states_wf(s, stack),
    ensures
        has_room(s) ==> states_wf(spec_write_scalar(s, is_string).0, stack),
        ({
            let (s2, st2, _) = spec_start_container(s, stack, State::Object(ObjectState { length, num_inserted: 0 }));
            has_room(s) ==> states_wf(s2, st2)
        }),
        ({
            let (s2, st2, _) = spec_start_container(s, stack, State::Array(ArrayState { length, num_inserted: 0 }));
            has_room(s) ==> states_wf(s2, st2)
        }),
        ({
            let (s2, st2, _) = spec_start_container(s, stack, State::Shape(ArrayState { length, num_inserted: 0 }));
            has_room(s) ==> states_wf(s2, st2)
        }),
        ({
            let (s2, st2, _) = spec_finish_object(s, stack);
            states_wf(s2, st2)
        }),
        ({
            let (s2, st2, _) = spec_finish_array(s, stack);
            states_wf(s2, st2)
        }),
        ({
            let (s2, st2, _) = spec_finish_shape(s, stack);
            states_wf(s2, st2)
        }),
{
    let parent = spec_write_scalar(s, false).0;
    assert(is_container(s) ==> is_container(parent));
    assert forall|i: int| 0 <= i < stack.push(parent).len() implies #[trigger] state_wf(stack.push(parent)[i])
        && (is_container(s) ==> is_container(stack.push(parent)[i])) by {
        if i < stack.len() {
            assert(stack.push(parent)[i] == stack[i]);
        }
    }
    if stack.len() > 0 {
        assert(state_wf(stack[stack.len() - 1]) && is_container(stack[stack.len() - 1]));
        assert forall|i: int| 0 <= i < stack.drop_last().len() implies #[trigger] state_wf(stack.drop_last()[i])
            && is_container(stack.drop_last()[i]) by {
            assert(stack.drop_last()[i] == stack[i]);
        }
    }
}

/// After the top-level value is complete, every write is refused and changes nothing.
pub proof fn lemma_end_is_final(stack: Seq<State>, child: State, is_string: bool)
    ensures
        spec_write_scalar(State::End, is_string) == (State::End, WriteResult::ValueAlreadyWritten),
        spec_start_container(State::End, stack, child) == (State::End, stack, WriteResult::ValueAlreadyWritten),
        spec_finish_object(State::End, stack).2 == WriteResult::NotAnObject,
        spec_finish_array(State::End, stack).2 == WriteResult::NotAnArray,
        spec_finish_shape(State::End, stack).2 == WriteResult::NotAShape,
{
}

/// `k` non-string scalars written one after another.
pub open spec fn write_scalars(s: State, k: nat) -> State
    decreases k,
{
    if k == 0 {
        s
    } else {
        spec_write_scalar(write_scalars(s, (k - 1) as nat), false).0
    }
}

/// `k` key-value pairs (a string, then a non-string scalar) written one after another.
pub open spec fn write_pairs(s: State, k: nat) -> State
    decreases k,
{
    if k == 0 {
        s
    } else {
        spec_write_scalar(spec_write_scalar(write_pairs(s, (k - 1) as nat), true).0, false).0
    }
}

proof fn lemma_sequence_fills(length: usize, k: nat, shape: bool)
    requires
        k <= length,
    ensures
        write_scalars(
            if shape {
                State::Shape(ArrayState { length, num_inserted: 0 })
            } else {
                State::Array(ArrayState { length, num_inserted: 0 })
            },
            k,
        ) == (if shape {
            State::Shape(ArrayState { length, num_inserted: k as usize })
        } else {
            State::Array(ArrayState { length, num_inserted: k as usize })
        }),
    decreases k,
{
    if k > 0 {
        lemma_sequence_fills(length, (k - 1) as nat, shape);
    }
}

proof fn lemma_object_fills(length: usize, k: nat)
    requires
        k <= length,
        length <= usize::MAX / 2,
    ensures
        write_pairs(State::Object(ObjectState { length, num_inserted: 0 }), k) == State::Object(
            ObjectState { length, num_inserted: (2 * k) as usize },
        ),
    decreases k,
{
    if k > 0 {
        lemma_object_fills(length, (k - 1) as nat);
        let m = (2 * (k - 1)) as usize;
        assert(m / 2 == k - 1);
        assert((m + 1) % 2 == 1);
    }
}

/// A complete container is one value: opening an array or a shaped object of
/// `length` values, writing that many scalars and closing it leaves the writer
/// where writing a single scalar would, with the same stack; likewise an object
/// of `length` key-value pairs.
pub proof fn lemma_complete_container_is_one_value(s: State, stack: Seq<State>, length: usize)
    requires
        states_wf(s, stack),
        has_room(s),
        spec_write_scalar(s, false).1 == WriteResult::Success,
    ensures
        ({
            let (inner, st, r) = spec_start_container(s, stack, State::Array(ArrayState { length, num_inserted: 0 }));
            &&& r == WriteResult::Success
            &&& spec_finish_array(write_scalars(inner, length as nat), st) == (
                spec_write_scalar(s, false).0,
                stack,
                WriteResult::Success,
            )
        }),
        ({
            let (inner, st, r) = spec_start_container(s, stack, State::Shape(ArrayState { length, num_inserted: 0 }));
            &&& r == WriteResult::Success
            &&& spec_finish_shape(write_scalars(inner, length as nat), st) == (
                spec_write_scalar(s, false).0,
                stack,
                WriteResult::Success,
            )
        }),
        ({
            let (inner, st, r) = spec_start_container(s, stack, State::Object(ObjectState { length, num_inserted: 0 }));
            &&& r == WriteResult::Success
            &&& length <= usize::MAX / 2 ==> spec_finish_object(write_pairs(inner, length as nat), st) == (
                spec_write_scalar(s, false).0,
                stack,
                WriteResult::Success,
            )
        }),
{
    lemma_sequence_fills(length, length as nat, false);
    lemma_sequence_fills(length, length as nat, true);
    if length <= usize::MAX / 2 {
        lemma_object_fills(length, length as nat);
    }
    assert(stack.push(spec_write_scalar(s, false).0).drop_last() =~= stack);
}

} // verus!
