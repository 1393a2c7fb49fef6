//! NaN-boxed values exchanged between a guest module and the provider.
//!
//! The layout is the 64-bit one used on the 32-bit Wasm target:
//!
//! ```text
//!  63  62        52 51 50 49    46 45       32 31                 0
//! | 0 | 11111111111| 1 | 1 | TTTT  |   LENGTH  |       VALUE        |
//! ```
//!
//! A value whose exponent and quiet bits are not all set is a plain `f64`.
use vstd::prelude::*;

verus! {

/// The raw representation of a NaN-boxed value.
pub type Val = u64;

/// A NaN-boxed value.
#[derive(Copy, Clone, PartialEq, Eq, Debug, Structural)]
pub struct NanBox(Val);

/// The type tag stored in the payload of a boxed value.
#[derive(Copy, Clone, PartialEq, Eq, Debug, Structural)]
pub enum Tag {
    /// Null type.
    Null,
    /// Boolean type.
    Bool,
    /// Number type, encoded as a 64-bit floating point; never boxed.
    Number,
    /// String type, encoded as UTF-8.
    String,
    /// An object pointer.
    Object,
    /// An array pointer.
    Array,
    /// An error code; the last tag.
    Error,
}

/// An error code carried by an error value.
#[derive(Copy, Clone, PartialEq, Eq, Debug, Structural)]
pub enum ErrorCode {
    /// The NanBox could not be decoded.
    DecodeError,
    /// The value is not an object, but an operation expected an object.
    NotAnObject,
    /// Index is out of bounds on the byte array.
    ByteArrayOutOfBounds,
    /// An error occurred while attempting to read a value.
    ReadError,
    /// The value is not an array, but an operation expected an array.
    NotAnArray,
    /// The index is out of bounds for the array.
    IndexOutOfBounds,
    /// The value is not indexable. Indexable values are objects and arrays.
    NotIndexable,
    /// An unknown error code.
    Unknown,
}

/// An unwrapped representation of a NaN-boxed value. Numbers are carried as
/// the raw bits of their `f64`.
#[derive(Copy, Clone, PartialEq, Eq, Debug, Structural)]
pub enum ValueRef {
    Null,
    Bool(bool),
    Number(u64),
    String { ptr: usize, len: usize },
    Object { ptr: usize, len: usize },
    Array { ptr: usize, len: usize },
    Error(ErrorCode),
}

/// A tag value that names no [`Tag`].
#[derive(Copy, Clone, PartialEq, Eq, Debug, Structural)]
pub struct UnknownTag(pub u64);

/// The numeric value of a tag.
pub open spec fn tag_value(tag: Tag) -> u64 {
    match tag {
        Tag::Null => 0,
        Tag::Bool => 1,
        Tag::Number => 2,
        Tag::String => 3,
        Tag::Object => 4,
        Tag::Array => 5,
        Tag::Error => 15,
    }
}

/// The numeric value of an error code.
pub open spec fn error_code_value(code: ErrorCode) -> usize {
    match code {
        ErrorCode::DecodeError => 0,
        ErrorCode::NotAnObject => 1,
        ErrorCode::ByteArrayOutOfBounds => 2,
        ErrorCode::ReadError => 3,
        ErrorCode::NotAnArray => 4,
        ErrorCode::IndexOutOfBounds => 5,
        ErrorCode::NotIndexable => 6,
        ErrorCode::Unknown => 7,
    }
}

/// The error code with the given number, if any.
pub open spec fn error_code_of(v: usize) -> Option<ErrorCode> {
    if v == 0 {
        Some(ErrorCode::DecodeError)
    } else if v == 1 {
        Some(ErrorCode::NotAnObject)
    } else if v == 2 {
        Some(ErrorCode::ByteArrayOutOfBounds)
    } else if v == 3 {
        Some(ErrorCode::ReadError)
    } else if v == 4 {
        Some(ErrorCode::NotAnArray)
    } else if v == 5 {
        Some(ErrorCode::IndexOutOfBounds)
    } else if v == 6 {
        Some(ErrorCode::NotIndexable)
    } else if v == 7 {
        Some(ErrorCode::Unknown)
    } else {
        None
    }
}

/// The tag with the given number, if any.
pub open spec fn tag_of(v: u64) -> Option<Tag> {
    if v == 0 {
        Some(Tag::Null)
    } else if v == 1 {
        Some(Tag::Bool)
    } else if v == 2 {
        Some(Tag::Number)
    } else if v == 3 {
        Some(Tag::String)
    } else if v == 4 {
        Some(Tag::Object)
    } else if v == 5 {
        Some(Tag::Array)
    } else if v == 15 {
        Some(Tag::Error)
    } else {
        None
    }
}

/// The bits of a boxed value with the given tag, pointer and length.
pub open spec fn boxed_bits(ptr: u64, len: u64, tag: Tag) -> u64 {
    0x7ffc_0000_0000_0000u64 | (tag_value(tag) << 46u64) | (len << 32u64) | (ptr & 0xffff_ffffu64)
}

/// The length stored for a requested length: it saturates at the field's maximum.
pub open spec fn saturated_len(len: usize) -> u64 {
    if len < 16383 {
        len as u64
    } else {
        16383u64
    }
}

/// Whether the bits carry a boxed (non-number) value.
pub open spec fn is_boxed(bits: u64) -> bool {
    bits & 0x7ffc_0000_0000_0000u64 == 0x7ffc_0000_0000_0000u64
}

/// The tag field of a value.
pub open spec fn tag_field(bits: u64) -> u64 {
    (bits & 0x0003_ffff_ffff_ffffu64) >> 46u64
}

/// The value field of a value: length and pointer.
pub open spec fn value_field(bits: u64) -> u64 {
    bits & 0x0000_3fff_ffff_ffffu64
}

/// The pointer field of a value.
pub open spec fn ptr_field(bits: u64) -> u64 {
    value_field(bits) & 0xffff_ffffu64
}

/// The length field of a value.
pub open spec fn len_field(bits: u64) -> u64 {
    value_field(bits) >> 32u64
}

/// Whether the bits of an `f64` are a NaN.
pub open spec fn f64_bits_is_nan(bits: u64) -> bool {
    (bits >> 52u64) & 0x7ffu64 == 0x7ffu64 && bits & 0x000f_ffff_ffff_ffffu64 != 0
}

/// What decoding a value gives: `None` for an unknown tag.
pub open spec fn spec_decode(bits: u64) -> Option<ValueRef> {
    if !is_boxed(bits) {
        Some(ValueRef::Number(bits))
    } else {
        match tag_of(tag_field(bits)) {
            None => None,
            Some(tag) => {
                let ptr = ptr_field(bits) as usize;
                let len = len_field(bits) as usize;
                Some(
                    match tag {
                        Tag::Bool => ValueRef::Bool(ptr != 0),
                        Tag::Null => ValueRef::Null,
                        Tag::Number => ValueRef::Null,
                        Tag::Array => ValueRef::Array { ptr, len },
                        Tag::String => ValueRef::String { ptr, len },
                        Tag::Object => ValueRef::Object { ptr, len },
                        Tag::Error => ValueRef::Error(
                            match error_code_of(value_field(bits) as usize) {
                                Some(code) => code,
                                None => ErrorCode::Unknown,
                            },
                        ),
                    },
                )
            },
        }
    }
}

impl Tag {
    /// All tags, in order.
    pub fn all() -> (tags: Vec<Tag>)
        ensures
            tags@ == seq![
                Tag::Null,
                Tag::Bool,
                Tag::Number,
                Tag::String,
                Tag::Object,
                Tag::Array,
                Tag::Error,
            ],
    {
        vec![Tag::Null, Tag::Bool, Tag::Number, Tag::String, Tag::Object, Tag::Array, Tag::Error]
    }

    /// The numeric value of the tag.
    pub fn as_val(&self) -> (v: Val)
        ensures
            v == tag_value(*self),
    {
        match self {
            Tag::Null => 0,
            Tag::Bool => 1,
            Tag::Number => 2,
            Tag::String => 3,
            Tag::Object => 4,
            Tag::Array => 5,
            Tag::Error => 15,
        }
    }

    /// The tag with the given numeric value.
    pub fn from_val(v: Val) -> (r: Result<Tag, UnknownTag>)
        ensures
            match tag_of(v) {
                Some(t) => r == Ok::<Tag, UnknownTag>(t),
                None => r == Err::<Tag, UnknownTag>(UnknownTag(v)),
            },
    {
        if v == 0 {
            Ok(Tag::Null)
        } else if v == 1 {
            Ok(Tag::Bool)
        } else if v == 2 {
            Ok(Tag::Number)
        } else if v == 3 {
            Ok(Tag::String)
        } else if v == 4 {
            Ok(Tag::Object)
        } else if v == 5 {
            Ok(Tag::Array)
        } else if v == 15 {
            Ok(Tag::Error)
        } else {
            Err(UnknownTag(v))
        }
    }
}

impl ErrorCode {
    /// All error codes, in order.
    pub fn all() -> (codes: Vec<ErrorCode>)
        ensures
            codes@ == seq![
                ErrorCode::DecodeError,
                ErrorCode::NotAnObject,
                ErrorCode::ByteArrayOutOfBounds,
                ErrorCode::ReadError,
                ErrorCode::NotAnArray,
                ErrorCode::IndexOutOfBounds,
                ErrorCode::NotIndexable,
                ErrorCode::Unknown,
            ],
    {
        vec![
            ErrorCode::DecodeError,
            ErrorCode::NotAnObject,
            ErrorCode::ByteArrayOutOfBounds,
            ErrorCode::ReadError,
            ErrorCode::NotAnArray,
            ErrorCode::IndexOutOfBounds,
            ErrorCode::NotIndexable,
            ErrorCode::Unknown,
        ]
    }

    /// The numeric value of the code.
    pub fn as_usize(&self) -> (v: usize)
        ensures
            v == error_code_value(*self),
    {
        match self {
            ErrorCode::DecodeError => 0,
            ErrorCode::NotAnObject => 1,
            ErrorCode::ByteArrayOutOfBounds => 2,
            ErrorCode::ReadError => 3,
            ErrorCode::NotAnArray => 4,
            ErrorCode::IndexOutOfBounds => 5,
            ErrorCode::NotIndexable => 6,
            ErrorCode::Unknown => 7,
        }
    }

    /// The error code with the given numeric value.
    pub fn from_repr(v: usize) -> (r: Option<ErrorCode>)
        ensures
            r == error_code_of(v),
    {
        if v == 0 {
            Some(ErrorCode::DecodeError)
        } else if v == 1 {
            Some(ErrorCode::NotAnObject)
        } else if v == 2 {
            Some(ErrorCode::ByteArrayOutOfBounds)
        } else if v == 3 {
            Some(ErrorCode::ReadError)
        } else if v == 4 {
            Some(ErrorCode::NotAnArray)
        } else if v == 5 {
            Some(ErrorCode::IndexOutOfBounds)
        } else if v == 6 {
            Some(ErrorCode::NotIndexable)
        } else if v == 7 {
            Some(ErrorCode::Unknown)
        } else {
            None
        }
    }
}

impl NanBox {
    /// Bits a number is shifted by inside a value; zero with a 64-bit value.
    pub const F64_OFFSET: u8 = 0;
    /// Bits reserved for the payload: value encoding, its length and the tag.
    pub const PAYLOAD_SIZE: u8 = 50;
    /// Bits of an `f64` mantissa.
    pub const MANTISSA_SIZE: u8 = 52;
    /// Bits reserved for the quiet NaN marker.
    pub const QUIET_NAN_SIZE: u8 = 2;
    /// Bits of an `f64` exponent.
    pub const EXPONENT_SIZE: u8 = 11;
    /// The pattern that marks boxed values: exponent all set and both quiet bits set.
    pub const NAN_MASK: Val = 0x7ffc_0000_0000_0000;
    /// Mask of the payload bits.
    pub const PAYLOAD_MASK: Val = 0x0003_ffff_ffff_ffff;
    /// Bits reserved for the tag.
    pub const TAG_SIZE: u8 = 4;
    /// The largest tag value.
    pub const MAX_TAG_VALUE: u8 = 15;
    /// Mask of the tag bits.
    pub const TAG_MASK: Val = 0x0003_c000_0000_0000;
    /// Bits reserved for the value encoding: length and pointer.
    pub const VALUE_SIZE: u8 = 46;
    /// Bits reserved for the pointer.
    pub const VALUE_ENCODING_SIZE: u8 = 32;
    /// Bits reserved for the length.
    pub const VALUE_LENGTH_SIZE: u8 = 14;
    /// The largest length that a value can carry; longer lengths saturate to it.
    pub const MAX_VALUE_LENGTH: usize = 16383;
    /// Mask of the value encoding.
    pub const VALUE_MASK: Val = 0x0000_3fff_ffff_ffff;
    /// Mask of the pointer within the value encoding.
    pub const POINTER_MASK: Val = 0xffff_ffff;

    /// The raw bits of the value.
    pub closed spec fn bits(&self) -> Val {
        self.0
    }

    /// Retrieves the inner representation of the value.
    pub fn to_bits(&self) -> (v: Val)
        ensures
            v == self.bits(),
    {
        self.0
    }

    /// Creates a NaN-boxed value from a raw `Val`.
    pub fn from_bits(val: Val) -> (r: Self)
        ensures
            r.bits() == val,
    {
        Self(val)
    }

    /// Create a new NaN-boxed boolean.
    pub fn bool(val: bool) -> (r: Self)
        ensures
            r.bits() == boxed_bits(if val { 1 } else { 0 }, 0, Tag::Bool),
    {
        let v: usize = if val {
            1
        } else {
            0
        };
        Self::encode(v, 0, Tag::Bool)
    }

    /// Create the representation of `null`.
    pub fn null() -> (r: Self)
        ensures
            r.bits() == boxed_bits(0, 0, Tag::Null),
    {
        Self::encode(0, 0, Tag::Null)
    }

    /// Create a number from the bits of an `f64`, which must not be a NaN.
    pub fn number_from_f64_bits(bits: u64) -> (r: Self)
        requires
            !f64_bits_is_nan(bits),
        ensures
            r.bits() == bits,
    {
        Self(bits)
    }

    /// Create a new NaN-boxed string.
    pub fn string(ptr: usize, len: usize) -> (r: Self)
        ensures
            r.bits() == boxed_bits(ptr as u64, saturated_len(len), Tag::String),
    {
        Self::encode(ptr, len, Tag::String)
    }

    /// Create a new NaN-boxed object.
    pub fn obj(ptr: usize, len: usize) -> (r: Self)
        ensures
            r.bits() == boxed_bits(ptr as u64, saturated_len(len), Tag::Object),
    {
        Self::encode(ptr, len, Tag::Object)
    }

    /// Create a new NaN-boxed error.
    pub fn error(code: ErrorCode) -> (r: Self)
        ensures
            r.bits() == boxed_bits(error_code_value(code) as u64, 0, Tag::Error),
    {
        Self::encode(code.as_usize(), 0, Tag::Error)
    }

    /// Create a new NaN-boxed array.
    pub fn array(ptr: usize, len: usize) -> (r: Self)
        ensures
            r.bits() == boxed_bits(ptr as u64, saturated_len(len), Tag::Array),
    {
        Self::encode(ptr, len, Tag::Array)
    }

    /// Pack a pointer, a length (saturated) and a tag into a boxed value.
    pub fn encode(ptr: usize, len: usize, tag: Tag) -> (r: Self)
        ensures
            r.bits() == boxed_bits(ptr as u64, saturated_len(len), tag),
    {
        let trimmed_len: u64 = if len < Self::MAX_VALUE_LENGTH {
            len as u64
        } else {
            Self::MAX_VALUE_LENGTH as u64
        };
        let t = tag.as_val();
        let p = ptr as u64;
        let val: u64 = (trimmed_len << 32u64) | (p & Self::POINTER_MASK);
        let r = Self::NAN_MASK | (t << 46u64) | val;
        assert(r == 0x7ffc_0000_0000_0000u64 | (t << 46u64) | (trimmed_len << 32u64) | (p
            & 0xffff_ffffu64)) by (bit_vector)
            requires
                val == (trimmed_len << 32u64) | (p & 0xffff_ffffu64),
                r == 0x7ffc_0000_0000_0000u64 | (t << 46u64) | val,
        ;
        Self(r)
    }

    /// The tag of a boxed value.
    pub fn tag(&self) -> (r: Result<Tag, UnknownTag>)
        ensures
            match tag_of(tag_field(self.bits())) {
                Some(t) => r == Ok::<Tag, UnknownTag>(t),
                None => r == Err::<Tag, UnknownTag>(UnknownTag(tag_field(self.bits()))),
            },
    {
        let tag = (self.0 & Self::PAYLOAD_MASK) >> 46u64;
        Tag::from_val(tag)
    }

    /// Unwrap the value. A boxed value must not carry the number tag.
    pub fn try_decode(&self) -> (r: Result<ValueRef, UnknownTag>)
        requires
            is_boxed(self.bits()) ==> tag_field(self.bits()) != 2,
        ensures
            match spec_decode(self.bits()) {
                Some(v) => r == Ok::<ValueRef, UnknownTag>(v),
                None => r == Err::<ValueRef, UnknownTag>(UnknownTag(tag_field(self.bits()))),
            },
    {
        let b = self.0;
        if b & Self::NAN_MASK != Self::NAN_MASK {
            return Ok(ValueRef::Number(b));
        }
        let val = b & Self::VALUE_MASK;
        let p = val & Self::POINTER_MASK;
        let l = val >> 32u64;
        proof {
            assert(val <= 0x0000_3fff_ffff_ffffu64) by (bit_vector)
                requires
                    val == b & 0x0000_3fff_ffff_ffffu64,
            ;
        }
        let ptr = p as usize;
        let len = l as usize;
        let tag = self.tag()?;
        match tag {
            Tag::Bool => Ok(ValueRef::Bool(ptr != 0)),
            Tag::Null => Ok(ValueRef::Null),
            Tag::Number => Ok(ValueRef::Null),
            Tag::Array => Ok(ValueRef::Array { ptr, len }),
            Tag::String => Ok(ValueRef::String { ptr, len }),
            Tag::Object => Ok(ValueRef::Object { ptr, len }),
            Tag::Error => {
                let code = match ErrorCode::from_repr(val as usize) {
                    Some(code) => code,
                    None => ErrorCode::Unknown,
                };
                Ok(ValueRef::Error(code))
            },
        }
    }
}

/// Whether the bits are a boxed value carrying the number tag, which no value
/// this library boxes ever does.
pub fn is_boxed_number_tag(bits: Val) -> (r: bool)
    ensures
        r == (is_boxed(bits) && tag_field(bits) == 2),
{
    bits & NanBox::NAN_MASK == NanBox::NAN_MASK && (bits & NanBox::PAYLOAD_MASK) >> 46u64 == 2
}

/// What a scope value handed in by a guest designates.
#[derive(Copy, Clone, PartialEq, Eq, Debug, Structural)]
pub enum ScopeKind {
    /// An object at this input offset.
    Object(u32),
    /// An array at this input offset.
    Array(u32),
    /// A number, or another boxed value that is neither object nor array.
    Other,
    /// A boxed value with an unknown tag (the number tag included).
    Invalid,
}

/// What `decode_scope` gives for the bits of a scope.
pub open spec fn spec_scope(bits: u64) -> ScopeKind {
    if !is_boxed(bits) {
        ScopeKind::Other
    } else {
        let t = tag_field(bits);
        if !(t == 0 || t == 1 || t == 3 || t == 4 || t == 5 || t == 15) {
            ScopeKind::Invalid
        } else if t == 4 {
            ScopeKind::Object(ptr_field(bits) as u32)
        } else if t == 5 {
            ScopeKind::Array(ptr_field(bits) as u32)
        } else {
            ScopeKind::Other
        }
    }
}

/// Classify a scope value: object or array with its offset, another value, or an invalid tag.
pub fn decode_scope(scope: Val) -> (r: ScopeKind)
    ensures
        r == spec_scope(scope),
{
    if scope & NanBox::NAN_MASK != NanBox::NAN_MASK {
        return ScopeKind::Other;
    }
    let tag = (scope & NanBox::PAYLOAD_MASK) >> 46u64;
    if !(tag == 0 || tag == 1 || tag == 3 || tag == 4 || tag == 5 || tag == 15) {
        return ScopeKind::Invalid;
    }
    let p = (scope & NanBox::VALUE_MASK) & NanBox::POINTER_MASK;
    proof {
        assert(p <= 0xffff_ffffu64) by (bit_vector)
            requires
                p == (scope & 0x0000_3fff_ffff_ffffu64) & 0xffff_ffffu64,
        ;
    }
    let ptr = p as u32;
    if tag == 4 {
        ScopeKind::Object(ptr)
    } else if tag == 5 {
        ScopeKind::Array(ptr)
    } else {
        ScopeKind::Other
    }
}

/// The constants of the layout are related as their definitions say: the NaN
/// pattern covers the exponent and the quiet bits above the payload, the payload
/// mask is the low payload bits, the tag mask sits right above the value bits, and
/// the value mask is the payload without the tag.
pub proof fn lemma_layout_constants()
    ensures
        NanBox::NAN_MASK == (((1u64 << 13u64) - 1) as u64) << 50u64,
        NanBox::PAYLOAD_MASK == !(NanBox::NAN_MASK | (1u64 << 63u64)),
        NanBox::TAG_MASK == 15u64 << 46u64,
        NanBox::VALUE_MASK == NanBox::PAYLOAD_MASK & !NanBox::TAG_MASK,
        NanBox::POINTER_MASK == (1u64 << 32u64) - 1,
        NanBox::MAX_VALUE_LENGTH == (1usize << 14usize) - 1,
{
    assert(0x7ffc_0000_0000_0000u64 == (((1u64 << 13u64) - 1) as u64) << 50u64) by (bit_vector);
    assert(0x0003_ffff_ffff_ffffu64 == !(0x7ffc_0000_0000_0000u64 | (1u64 << 63u64)))
        by (bit_vector);
    assert(0x0003_c000_0000_0000u64 == 15u64 << 46u64) by (bit_vector);
    assert(0x0000_3fff_ffff_ffffu64 == 0x0003_ffff_ffff_ffffu64 & !0x0003_c000_0000_0000u64)
        by (bit_vector);
    assert(0xffff_ffffu64 == (1u64 << 32u64) - 1) by (bit_vector);
    assert(16383usize == (1usize << 14usize) - 1) by (bit_vector);
}

/// Decoding gives back what encoding packed: for every tag but the number tag,
/// the tag, the pointer (its low 32 bits) and the saturated length come back.
pub proof fn lemma_encode_fields(ptr: u64, len: usize, tag: Tag)
    ensures
        is_boxed(boxed_bits(ptr, saturated_len(len), tag)),
        tag_field(boxed_bits(ptr, saturated_len(len), tag)) == tag_value(tag),
        ptr_field(boxed_bits(ptr, saturated_len(len), tag)) == ptr & 0xffff_ffffu64,
        len_field(boxed_bits(ptr, saturated_len(len), tag)) == saturated_len(len),
        value_field(boxed_bits(ptr, saturated_len(len), tag)) == (saturated_len(len) << 32u64) | (
        ptr & 0xffff_ffffu64),
{
    let l = saturated_len(len);
    let t = tag_value(tag);
    assert(l <= 16383);
    assert(t <= 15);
    assert(is_boxed(0x7ffc_0000_0000_0000u64 | (t << 46u64) | (l << 32u64) | (ptr & 0xffff_ffffu64)))
        by (bit_vector)
        requires
            t <= 15,
            l <= 16383,
    ;
    assert(((0x7ffc_0000_0000_0000u64 | (t << 46u64) | (l << 32u64) | (ptr & 0xffff_ffffu64))
        & 0x0003_ffff_ffff_ffffu64) >> 46u64 == t) by (bit_vector)
        requires
            t <= 15,
            l <= 16383,
    ;
    assert(((0x7ffc_0000_0000_0000u64 | (t << 46u64) | (l << 32u64) | (ptr & 0xffff_ffffu64))
        & 0x0000_3fff_ffff_ffffu64) & 0xffff_ffffu64 == ptr & 0xffff_ffffu64) by (bit_vector)
        requires
            t <= 15,
            l <= 16383,
    ;
    assert(((0x7ffc_0000_0000_0000u64 | (t << 46u64) | (l << 32u64) | (ptr & 0xffff_ffffu64))
        & 0x0000_3fff_ffff_ffffu64) >> 32u64 == l) by (bit_vector)
        requires
            t <= 15,
            l <= 16383,
    ;
    assert((0x7ffc_0000_0000_0000u64 | (t << 46u64) | (l << 32u64) | (ptr & 0xffff_ffffu64))
        & 0x0000_3fff_ffff_ffffu64 == (l << 32u64) | (ptr & 0xffff_ffffu64)) by (bit_vector)
        requires
            t <= 15,
            l <= 16383,
    ;
}

/// A string, object or array value decodes to the pointer it was built with
/// (for pointers that fit in 32 bits) and to its saturated length.
pub proof fn lemma_pointer_roundtrip(ptr: usize, len: usize)
    requires
        ptr <= 0xffff_ffff,
    ensures
        spec_decode(boxed_bits(ptr as u64, saturated_len(len), Tag::String)) == Some(
            ValueRef::String { ptr, len: saturated_len(len) as usize },
        ),
        spec_decode(boxed_bits(ptr as u64, saturated_len(len), Tag::Object)) == Some(
            ValueRef::Object { ptr, len: saturated_len(len) as usize },
        ),
        spec_decode(boxed_bits(ptr as u64, saturated_len(len), Tag::Array)) == Some(
            ValueRef::Array { ptr, len: saturated_len(len) as usize },
        ),
{
    let p = ptr as u64;
    assert(p & 0xffff_ffffu64 == p) by (bit_vector)
        requires
            p <= 0xffff_ffffu64,
    ;
    lemma_encode_fields(p, len, Tag::String);
    lemma_encode_fields(p, len, Tag::Object);
    lemma_encode_fields(p, len, Tag::Array);
}

/// Null, booleans and every error code decode to themselves.
pub proof fn lemma_scalar_roundtrip(b: bool, code: ErrorCode)
    ensures
        spec_decode(boxed_bits(0, 0, Tag::Null)) == Some(ValueRef::Null),
        spec_decode(boxed_bits(if b { 1 } else { 0 }, 0, Tag::Bool)) == Some(ValueRef::Bool(b)),
        spec_decode(boxed_bits(error_code_value(code) as u64, 0, Tag::Error)) == Some(
            ValueRef::Error(code),
        ),
{
    assert(saturated_len(0) == 0);
    lemma_encode_fields(0, 0, Tag::Null);
    lemma_encode_fields(if b { 1 } else { 0 }, 0, Tag::Bool);
    let c = error_code_value(code) as u64;
    assert(c <= 7);
    lemma_encode_fields(c, 0, Tag::Error);
    assert(c & 0xffff_ffffu64 == c) by (bit_vector)
        requires
            c <= 7,
    ;
    assert((0u64 << 32u64) | c == c) by (bit_vector);
    assert(1u64 & 0xffff_ffffu64 == 1) by (bit_vector);
    assert(0u64 & 0xffff_ffffu64 == 0) by (bit_vector);
}

/// A number that is not a NaN is never mistaken for a boxed value.
pub proof fn lemma_numbers_are_not_boxed(bits: u64)
    requires
        !f64_bits_is_nan(bits),
    ensures
        !is_boxed(bits),
{
    assert(!(bits & 0x7ffc_0000_0000_0000u64 == 0x7ffc_0000_0000_0000u64)) by (bit_vector)
        requires
            !((bits >> 52u64) & 0x7ffu64 == 0x7ffu64 && bits & 0x000f_ffff_ffff_ffffu64 != 0),
    ;
}

/// The bits determine the value: two NaN-boxes are equal exactly when their bits
/// are.
pub proof fn lemma_bits_determine(a: NanBox, b: NanBox)
    ensures
        (a.bits() == b.bits()) <==> (a == b),
{
}

/// Decoding gives back what each constructor was given: null, the boolean, the
/// error code, and for strings, objects and arrays the pointer (one that fits the
/// 32-bit pointer field) and the length, saturated at `MAX_VALUE_LENGTH`.
pub proof fn lemma_constructors_decode(n: NanBox, ptr: usize, len: usize, b: bool, code: ErrorCode)
    requires
        ptr <= 0xffff_ffff,
    ensures
        n.bits() == boxed_bits(0, 0, Tag::Null) ==> spec_decode(n.bits()) == Some(ValueRef::Null),
        n.bits() == boxed_bits(if b { 1 } else { 0 }, 0, Tag::Bool) ==> spec_decode(n.bits()) == Some(
            ValueRef::Bool(b),
        ),
        n.bits() == boxed_bits(error_code_value(code) as u64, 0, Tag::Error) ==> spec_decode(n.bits())
            == Some(ValueRef::Error(code)),
        n.bits() == boxed_bits(ptr as u64, saturated_len(len), Tag::String) ==> spec_decode(n.bits()) == Some(
            ValueRef::String { ptr, len: if len < NanBox::MAX_VALUE_LENGTH { len } else { NanBox::MAX_VALUE_LENGTH } },
        ),
        n.bits() == boxed_bits(ptr as u64, saturated_len(len), Tag::Object) ==> spec_decode(n.bits()) == Some(
            ValueRef::Object { ptr, len: if len < NanBox::MAX_VALUE_LENGTH { len } else { NanBox::MAX_VALUE_LENGTH } },
        ),
        n.bits() == boxed_bits(ptr as u64, saturated_len(len), Tag::Array) ==> spec_decode(n.bits()) == Some(
            ValueRef::Array { ptr, len: if len < NanBox::MAX_VALUE_LENGTH { len } else { NanBox::MAX_VALUE_LENGTH } },
        ),
{
    lemma_scalar_roundtrip(b, code);
    lemma_pointer_roundtrip(ptr, len);
}

/// A scope that designates an array or object at an offset decodes to an array or
/// object value at that offset.
pub proof fn lemma_scope_decodes(bits: u64)
    ensures
        spec_scope(bits) matches ScopeKind::Array(p) ==> spec_decode(bits) matches Some(
            ValueRef::Array { ptr, .. },
        ) && ptr == p as usize,
        spec_scope(bits) matches ScopeKind::Object(p) ==> spec_decode(bits) matches Some(
            ValueRef::Object { ptr, .. },
        ) && ptr == p as usize,
{
    let v = bits & 0x0000_3fff_ffff_ffffu64;
    assert(v & 0xffff_ffffu64 <= 0xffff_ffffu64) by (bit_vector);
}

} // verus!
