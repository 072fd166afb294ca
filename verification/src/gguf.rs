//! The container parser: a typed key-value metadata block and a tensor
//! descriptor table decoded from a byte stream, with the aligned offset at
//! which tensor payload data begins.

use vstd::bytes::{spec_u16_from_le_bytes, spec_u32_from_le_bytes, spec_u64_from_le_bytes};
use vstd::bytes::{u16_from_le_bytes, u32_from_le_bytes, u64_from_le_bytes};
use vstd::prelude::*;
use vstd::slice::{slice_subrange, slice_to_vec};
use vstd::utf8::{decode_utf8, valid_utf8};

verus! {

/// The default boundary to which the tensor-data segment start is rounded.
pub const DEFAULT_ALIGNMENT: u32 = 32;

/// A container format identifier together with its numeric sub-version.
#[derive(Clone, Copy, Debug, PartialEq, Eq, Structural)]
pub enum ContainerType {
    /// The key-value container format, by sub-version.
    Gguf(u32),
}

/// The closed enumeration of supported tensor element encodings.
#[derive(Clone, Copy, Debug, PartialEq, Eq, Structural)]
pub enum ElementType {
    F32,
    F16,
    Q4_0,
    Q4_1,
    Q5_0,
    Q5_1,
    Q8_0,
    Q8_1,
    Q2K,
    Q3K,
    Q4K,
    Q5K,
    Q6K,
    Q8K,
    I8,
    I16,
    I32,
}

/// The element encoding a raw 32-bit tensor-type code names, if recognized.
pub open spec fn element_type_of(code: u32) -> Option<ElementType> {
    match code {
        0u32 => Some(ElementType::F32),
        1u32 => Some(ElementType::F16),
        2u32 => Some(ElementType::Q4_0),
        3u32 => Some(ElementType::Q4_1),
        6u32 => Some(ElementType::Q5_0),
        7u32 => Some(ElementType::Q5_1),
        8u32 => Some(ElementType::Q8_0),
        9u32 => Some(ElementType::Q8_1),
        10u32 => Some(ElementType::Q2K),
        11u32 => Some(ElementType::Q3K),
        12u32 => Some(ElementType::Q4K),
        13u32 => Some(ElementType::Q5K),
        14u32 => Some(ElementType::Q6K),
        15u32 => Some(ElementType::Q8K),
        16u32 => Some(ElementType::I8),
        17u32 => Some(ElementType::I16),
        18u32 => Some(ElementType::I32),
        _ => None,
    }
}

/// The kind of one metadata value, as its 1-byte wire tag names it.
#[derive(Clone, Copy, Debug, PartialEq, Eq, Structural)]
pub enum MetadataValueType {
    UInt8,
    Int8,
    UInt16,
    Int16,
    UInt32,
    Int32,
    Float32,
    Bool,
    Str,
    Array,
    UInt64,
    Int64,
    Float64,
}

/// The kind a raw type tag names, if known.
pub open spec fn value_type_of(tag: u8) -> Option<MetadataValueType> {
    match tag {
        0u8 => Some(MetadataValueType::UInt8),
        1u8 => Some(MetadataValueType::Int8),
        2u8 => Some(MetadataValueType::UInt16),
        3u8 => Some(MetadataValueType::Int16),
        4u8 => Some(MetadataValueType::UInt32),
        5u8 => Some(MetadataValueType::Int32),
        6u8 => Some(MetadataValueType::Float32),
        7u8 => Some(MetadataValueType::Bool),
        8u8 => Some(MetadataValueType::Str),
        9u8 => Some(MetadataValueType::Array),
        10u8 => Some(MetadataValueType::UInt64),
        11u8 => Some(MetadataValueType::Int64),
        12u8 => Some(MetadataValueType::Float64),
        _ => None,
    }
}

/// One scalar metadata value.  The stored bits of the two floating-point
/// kinds are carried as integers: this core never does float arithmetic, and
/// callers that need the number reinterpret the bits at the edge.
#[derive(Debug, PartialEq)]
pub enum MetadataScalar {
    UInt8(u8),
    Int8(i8),
    UInt16(u16),
    Int16(i16),
    UInt32(u32),
    Int32(i32),
    Float32Bits(u32),
    Bool(bool),
    Str(String),
    UInt64(u64),
    Int64(i64),
    Float64Bits(u64),
}

/// One metadata value: a scalar, or a homogeneous array of scalars of a
/// recorded element kind.
#[derive(Debug, PartialEq)]
pub enum MetadataValue {
    Scalar(MetadataScalar),
    Array(MetadataValueType, Vec<MetadataScalar>),
}

/// Mathematical form of a scalar: as the scalar itself, strings as their
/// character sequences.
pub enum MetadataScalarV {
    UInt8(u8),
    Int8(i8),
    UInt16(u16),
    Int16(i16),
    UInt32(u32),
    Int32(i32),
    Float32Bits(u32),
    Bool(bool),
    Str(Seq<char>),
    UInt64(u64),
    Int64(i64),
    Float64Bits(u64),
}

/// Mathematical form of a metadata value.
pub enum MetadataValueV {
    Scalar(MetadataScalarV),
    Array(MetadataValueType, Seq<MetadataScalarV>),
}

impl View for MetadataScalar {
    type V = MetadataScalarV;

    open spec fn view(&self) -> MetadataScalarV {
        match self {
            MetadataScalar::UInt8(v) => MetadataScalarV::UInt8(*v),
            MetadataScalar::Int8(v) => MetadataScalarV::Int8(*v),
            MetadataScalar::UInt16(v) => MetadataScalarV::UInt16(*v),
            MetadataScalar::Int16(v) => MetadataScalarV::Int16(*v),
            MetadataScalar::UInt32(v) => MetadataScalarV::UInt32(*v),
            MetadataScalar::Int32(v) => MetadataScalarV::Int32(*v),
            MetadataScalar::Float32Bits(v) => MetadataScalarV::Float32Bits(*v),
            MetadataScalar::Bool(v) => MetadataScalarV::Bool(*v),
            MetadataScalar::Str(s) => MetadataScalarV::Str(s@),
            MetadataScalar::UInt64(v) => MetadataScalarV::UInt64(*v),
            MetadataScalar::Int64(v) => MetadataScalarV::Int64(*v),
            MetadataScalar::Float64Bits(v) => MetadataScalarV::Float64Bits(*v),
        }
    }
}

impl View for MetadataValue {
    type V = MetadataValueV;

    open spec fn view(&self) -> MetadataValueV {
        match self {
            MetadataValue::Scalar(s) => MetadataValueV::Scalar(s@),
            MetadataValue::Array(t, vs) => MetadataValueV::Array(
                *t,
                Seq::new(vs@.len(), |i: int| vs@[i]@),
            ),
        }
    }
}

impl MetadataValue {
    /// The value as an unsigned 32-bit integer, if it is one.
    pub fn as_uint32(&self) -> (r: Option<u32>)
        ensures
            r == spec_as_uint32(self@),
    {
        match self {
            MetadataValue::Scalar(MetadataScalar::UInt32(v)) => Some(*v),
            _ => None,
        }
    }
}

/// The value behind `MetadataValue::as_uint32`.
pub open spec fn spec_as_uint32(v: MetadataValueV) -> Option<u32> {
    match v {
        MetadataValueV::Scalar(MetadataScalarV::UInt32(x)) => Some(x),
        _ => None,
    }
}

/// Errors that can occur while loading a model container.
#[derive(Debug, PartialEq)]
pub enum GgufLoadError {
    /// The file magic number is invalid; carries the four bytes read.
    InvalidMagic { magic: Vec<u8> },
    /// An unsupported format version was found.
    InvalidFormatVersion(ContainerType),
    /// The stream ended before a field could be read whole.
    UnexpectedEof,
    /// One of the strings encountered was not valid UTF-8.
    InvalidUtf8,
    /// One of the integers encountered could not be converted to a more
    /// appropriate type.
    InvalidIntegerConversion,
    /// One of the tensors encountered had an unsupported data type.
    UnsupportedElementType {
        /// The name of the tensor.
        tensor_name: String,
        /// The format type that was encountered.
        ftype: u32,
    },
    /// An invariant was broken.
    InvariantBroken(String),
}

/// The four magic bytes that open a container stream.
pub open spec fn magic_bytes() -> Seq<u8> {
    seq![71u8, 71u8, 85u8, 70u8]
}

/// Reading one little-endian `u8` / `u16` / `u32` / `u64` at `p`: the value
/// and the position after it, or nothing if the stream is too short.
pub open spec fn sp_u8(b: Seq<u8>, p: int) -> Option<(u8, int)> {
    if 0 <= p && p + 1 <= b.len() {
        Some((b[p], p + 1))
    } else {
        None
    }
}

pub open spec fn sp_u16(b: Seq<u8>, p: int) -> Option<(u16, int)> {
    if 0 <= p && p + 2 <= b.len() {
        Some((spec_u16_from_le_bytes(b.subrange(p, p + 2)), p + 2))
    } else {
        None
    }
}

pub open spec fn sp_u32(b: Seq<u8>, p: int) -> Option<(u32, int)> {
    if 0 <= p && p + 4 <= b.len() {
        Some((spec_u32_from_le_bytes(b.subrange(p, p + 4)), p + 4))
    } else {
        None
    }
}

pub open spec fn sp_u64(b: Seq<u8>, p: int) -> Option<(u64, int)> {
    if 0 <= p && p + 8 <= b.len() {
        Some((spec_u64_from_le_bytes(b.subrange(p, p + 8)), p + 8))
    } else {
        None
    }
}

/// A length field: 32 or 64 bits wide per the active mode, and usable as an
/// in-memory size, so it must fit `usize`.
pub open spec fn sp_len(b: Seq<u8>, p: int, wide: bool) -> Option<(int, int)> {
    if wide {
        match sp_u64(b, p) {
            Some((v, q)) => if v <= usize::MAX {
                Some((v as int, q))
            } else {
                None
            },
            None => None,
        }
    } else {
        match sp_u32(b, p) {
            Some((v, q)) => if v <= usize::MAX {
                Some((v as int, q))
            } else {
                None
            },
            None => None,
        }
    }
}

/// A length-prefixed UTF-8 string.
pub open spec fn sp_string(b: Seq<u8>, p: int, wide: bool) -> Option<(Seq<char>, int)> {
    match sp_len(b, p, wide) {
        Some((n, q)) => if q + n <= b.len() && valid_utf8(b.subrange(q, q + n)) {
            Some((decode_utf8(b.subrange(q, q + n)), q + n))
        } else {
            None
        },
        None => None,
    }
}

/// A string field whose length header and bytes are all there, but whose
/// bytes are not valid UTF-8: the one failure of string decoding that is
/// not a short stream.
pub open spec fn sp_string_utf8_bad(b: Seq<u8>, p: int, wide: bool) -> bool {
    match sp_len(b, p, wide) {
        Some((n, q)) => q + n <= b.len() && !valid_utf8(b.subrange(q, q + n)),
        None => false,
    }
}

/// The signed reading of an unsigned value of the same width, by two's
/// complement.
pub open spec fn spec_i8(u: u8) -> i8 {
    if u < 0x80 {
        u as i8
    } else {
        ((u as int) - 0x100) as i8
    }
}

pub open spec fn spec_i16(u: u16) -> i16 {
    if u < 0x8000 {
        u as i16
    } else {
        ((u as int) - 0x10000) as i16
    }
}

pub open spec fn spec_i32(u: u32) -> i32 {
    if u < 0x80000000 {
        u as i32
    } else {
        ((u as int) - 0x100000000) as i32
    }
}

pub open spec fn spec_i64(u: u64) -> i64 {
    if u < 0x8000000000000000 {
        u as i64
    } else {
        ((u as int) - 0x10000000000000000) as i64
    }
}

/// Reading one scalar of kind `ty` at `p`.  `Array` is not a scalar kind.
pub open spec fn sp_scalar(b: Seq<u8>, p: int, wide: bool, ty: MetadataValueType) -> Option<
    (MetadataScalarV, int),
> {
    match ty {
        MetadataValueType::UInt8 => match sp_u8(b, p) {
            Some((v, q)) => Some((MetadataScalarV::UInt8(v), q)),
            None => None,
        },
        MetadataValueType::Int8 => match sp_u8(b, p) {
            Some((v, q)) => Some((MetadataScalarV::Int8(spec_i8(v)), q)),
            None => None,
        },
        MetadataValueType::UInt16 => match sp_u16(b, p) {
            Some((v, q)) => Some((MetadataScalarV::UInt16(v), q)),
            None => None,
        },
        MetadataValueType::Int16 => match sp_u16(b, p) {
            Some((v, q)) => Some((MetadataScalarV::Int16(spec_i16(v)), q)),
            None => None,
        },
        MetadataValueType::UInt32 => match sp_u32(b, p) {
            Some((v, q)) => Some((MetadataScalarV::UInt32(v), q)),
            None => None,
        },
        MetadataValueType::Int32 => match sp_u32(b, p) {
            Some((v, q)) => Some((MetadataScalarV::Int32(spec_i32(v)), q)),
            None => None,
        },
        MetadataValueType::Float32 => match sp_u32(b, p) {
            Some((v, q)) => Some((MetadataScalarV::Float32Bits(v), q)),
            None => None,
        },
        MetadataValueType::Bool => match sp_u8(b, p) {
            Some((v, q)) => Some((MetadataScalarV::Bool(v != 0), q)),
            None => None,
        },
        MetadataValueType::Str => match sp_string(b, p, wide) {
            Some((s, q)) => Some((MetadataScalarV::Str(s), q)),
            None => None,
        },
        MetadataValueType::Array => None,
        MetadataValueType::UInt64 => match sp_u64(b, p) {
            Some((v, q)) => Some((MetadataScalarV::UInt64(v), q)),
            None => None,
        },
        MetadataValueType::Int64 => match sp_u64(b, p) {
            Some((v, q)) => Some((MetadataScalarV::Int64(spec_i64(v)), q)),
            None => None,
        },
        MetadataValueType::Float64 => match sp_u64(b, p) {
            Some((v, q)) => Some((MetadataScalarV::Float64Bits(v), q)),
            None => None,
        },
    }
}

/// Reading `n` scalars of kind `ty` in a row.
pub open spec fn sp_scalars(b: Seq<u8>, p: int, wide: bool, ty: MetadataValueType, n: nat) -> Option<
    (Seq<MetadataScalarV>, int),
>
    decreases n,
{
    if n == 0 {
        Some((Seq::empty(), p))
    } else {
        match sp_scalar(b, p, wide, ty) {
            Some((s, q)) => match sp_scalars(b, q, wide, ty, (n - 1) as nat) {
                Some((vs, r)) => Some((seq![s] + vs, r)),
                None => None,
            },
            None => None,
        }
    }
}

/// Reading one typed value: a 1-byte type tag, then a scalar of that kind,
/// or, for an array, a 1-byte element kind tag and a length-width element
/// count followed by that many scalars of the element kind.
pub open spec fn sp_value(b: Seq<u8>, p: int, wide: bool) -> Option<(MetadataValueV, int)> {
    match sp_u8(b, p) {
        Some((tag, q)) => match value_type_of(tag) {
            Some(MetadataValueType::Array) => match sp_u8(b, q) {
                Some((etag, q2)) => match value_type_of(etag) {
                    Some(MetadataValueType::Array) => None,
                    Some(ety) => match sp_len(b, q2, wide) {
                        Some((n, q3)) => match sp_scalars(b, q3, wide, ety, n as nat) {
                            Some((vs, q4)) => Some((MetadataValueV::Array(ety, vs), q4)),
                            None => None,
                        },
                        None => None,
                    },
                    None => None,
                },
                None => None,
            },
            Some(ty) => match sp_scalar(b, q, wide, ty) {
                Some((s, q2)) => Some((MetadataValueV::Scalar(s), q2)),
                None => None,
            },
            None => None,
        },
        None => None,
    }
}

/// Reading `n` length-width dimension sizes in a row.
pub open spec fn sp_dims(b: Seq<u8>, p: int, wide: bool, n: nat) -> Option<(Seq<usize>, int)>
    decreases n,
{
    if n == 0 {
        Some((Seq::empty(), p))
    } else {
        match sp_len(b, p, wide) {
            Some((d, q)) => match sp_dims(b, q, wide, (n - 1) as nat) {
                Some((ds, r)) => Some((seq![d as usize] + ds, r)),
                None => None,
            },
            None => None,
        }
    }
}

/// The head of one tensor descriptor: name, dimensions and the raw element
/// type code, before the code is checked against the enumeration.
pub open spec fn sp_tensor_head(b: Seq<u8>, p: int, wide: bool) -> Option<
    ((Seq<char>, Seq<usize>, u32), int),
> {
    match sp_string(b, p, wide) {
        Some((name, q)) => match sp_u32(b, q) {
            Some((dc, q2)) => match sp_dims(b, q2, wide, dc as nat) {
                Some((dims, q3)) => match sp_u32(b, q3) {
                    Some((code, q4)) => Some(((name, dims, code), q4)),
                    None => None,
                },
                None => None,
            },
            None => None,
        },
        None => None,
    }
}

/// Mathematical form of one tensor descriptor.
pub struct TensorInfoV {
    pub dimensions: Seq<usize>,
    pub element_type: ElementType,
    pub offset: u64,
}

/// Reading one full tensor descriptor: the head, a recognized element type,
/// and the 64-bit byte offset.
pub open spec fn sp_tensor(b: Seq<u8>, p: int, wide: bool) -> Option<((Seq<char>, TensorInfoV), int)> {
    match sp_tensor_head(b, p, wide) {
        Some(((name, dims, code), q)) => match element_type_of(code) {
            Some(et) => match sp_u64(b, q) {
                Some((off, q2)) => Some(
                    ((name, TensorInfoV { dimensions: dims, element_type: et, offset: off }), q2),
                ),
                None => None,
            },
            None => None,
        },
        None => None,
    }
}

/// Reading one metadata key-value pair.
pub open spec fn sp_kv(b: Seq<u8>, p: int, wide: bool) -> Option<((Seq<char>, MetadataValueV), int)> {
    match sp_string(b, p, wide) {
        Some((k, q)) => match sp_value(b, q, wide) {
            Some((v, q2)) => Some(((k, v), q2)),
            None => None,
        },
        None => None,
    }
}

/// Reading `n` key-value pairs in a row, in stream order, duplicates kept.
pub open spec fn sp_kvs(b: Seq<u8>, p: int, wide: bool, n: nat) -> Option<
    (Seq<(Seq<char>, MetadataValueV)>, int),
>
    decreases n,
{
    if n == 0 {
        Some((Seq::empty(), p))
    } else {
        match sp_kv(b, p, wide) {
            Some((kv, q)) => match sp_kvs(b, q, wide, (n - 1) as nat) {
                Some((kvs, r)) => Some((seq![kv] + kvs, r)),
                None => None,
            },
            None => None,
        }
    }
}

/// Reading `n` tensor descriptors in a row, in stream order.
pub open spec fn sp_tensors(b: Seq<u8>, p: int, wide: bool, n: nat) -> Option<
    (Seq<(Seq<char>, TensorInfoV)>, int),
>
    decreases n,
{
    if n == 0 {
        Some((Seq::empty(), p))
    } else {
        match sp_tensor(b, p, wide) {
            Some((t, q)) => match sp_tensors(b, q, wide, (n - 1) as nat) {
                Some((ts, r)) => Some((seq![t] + ts, r)),
                None => None,
            },
            None => None,
        }
    }
}

/// Scanning the tensor block for the first descriptor whose element-type
/// code is unrecognized: its name and raw code, passing over descriptors
/// that decode whole; nothing when an earlier, different failure cuts the
/// block short.
pub open spec fn sp_tensors_unsupported(b: Seq<u8>, p: int, wide: bool, n: nat) -> Option<
    (Seq<char>, u32),
>
    decreases n,
{
    if n == 0 {
        None
    } else {
        match sp_tensor(b, p, wide) {
            Some((t, q)) => sp_tensors_unsupported(b, q, wide, (n - 1) as nat),
            None => match sp_tensor_head(b, p, wide) {
                Some(((name, dims, code), q)) => if element_type_of(code) is None {
                    Some((name, code))
                } else {
                    None
                },
                None => None,
            },
        }
    }
}

/// The same scan placed in a whole stream: header, counts and metadata
/// block first, then the tensor block.
pub open spec fn sp_load_unsupported(b: Seq<u8>) -> Option<(Seq<char>, u32)> {
    if b.len() < 4 || b.subrange(0, 4) != magic_bytes() {
        None
    } else {
        match sp_u32(b, 4) {
            Some((version, p)) => if version != 1 && version != 2 {
                None
            } else {
                let wide = version == 2;
                match sp_len(b, p, wide) {
                    Some((tc, p2)) => match sp_len(b, p2, wide) {
                        Some((kvc, p3)) => match sp_kvs(b, p3, wide, kvc as nat) {
                            Some((kvs, p4)) => sp_tensors_unsupported(b, p4, wide, tc as nat),
                            None => None,
                        },
                        None => None,
                    },
                    None => None,
                }
            },
            None => None,
        }
    }
}

/// Map reading of a raw key-value stream: the value of the latest pair with
/// key `k`, as repeated inserts into a map would leave it.
pub open spec fn kvs_lookup<V>(kvs: Seq<(Seq<char>, V)>, k: Seq<char>) -> Option<V>
    decreases kvs.len(),
{
    if kvs.len() == 0 {
        None
    } else if kvs.last().0 == k {
        Some(kvs.last().1)
    } else {
        kvs_lookup(kvs.drop_last(), k)
    }
}

/// Insert-or-overwrite on an association list: the first entry with key `k`
/// is replaced in place, a missing key appends at the end, so first-arrival
/// order of keys is kept.
pub open spec fn upsert_entries<V>(es: Seq<(Seq<char>, V)>, k: Seq<char>, v: V) -> Seq<
    (Seq<char>, V),
>
    decreases es.len(),
{
    if es.len() == 0 {
        seq![(k, v)]
    } else if es.first().0 == k {
        seq![(k, v)] + es.drop_first()
    } else {
        seq![es.first()] + upsert_entries(es.drop_first(), k, v)
    }
}

/// The association list a raw key-value stream folds into, one upsert per
/// pair in stream order: unique keys in first-arrival order, later
/// duplicates having overwritten earlier values.
pub open spec fn entries_of<V>(kvs: Seq<(Seq<char>, V)>) -> Seq<(Seq<char>, V)>
    decreases kvs.len(),
{
    if kvs.len() == 0 {
        Seq::empty()
    } else {
        upsert_entries(entries_of(kvs.drop_last()), kvs.last().0, kvs.last().1)
    }
}

/// Association-list reading: the value at the first entry with key `k`.
pub open spec fn lookup_entry<V>(es: Seq<(Seq<char>, V)>, k: Seq<char>) -> Option<V>
    decreases es.len(),
{
    if es.len() == 0 {
        None
    } else if es.first().0 == k {
        Some(es.first().1)
    } else {
        lookup_entry(es.drop_first(), k)
    }
}

/// No two entries share a key.
pub open spec fn unique_keys<V>(es: Seq<(Seq<char>, V)>) -> bool {
    forall|i: int, j: int|
        0 <= i < j < es.len() ==> (#[trigger] es[i]).0 != (#[trigger] es[j]).0
}

/// The alignment a raw metadata stream prescribes: the value of the
/// reserved key when it is an unsigned 32-bit integer, the default
/// otherwise.
pub open spec fn alignment_of(kvs: Seq<(Seq<char>, MetadataValueV)>) -> int {
    match kvs_lookup(kvs, "general.alignment"@) {
        Some(v) => match spec_as_uint32(v) {
            Some(a) => a as int,
            None => DEFAULT_ALIGNMENT as int,
        },
        None => DEFAULT_ALIGNMENT as int,
    }
}

/// The smallest multiple of `a` at or after `pos`, if `a` is positive and
/// the result fits.
pub open spec fn sp_data_position(pos: int, a: int) -> Option<u64> {
    if a <= 0 {
        None
    } else {
        let d = pos + ((a - pos % a) % a);
        if d <= u64::MAX {
            Some(d as u64)
        } else {
            None
        }
    }
}

/// Mathematical form of a parsed container: the raw metadata and tensor
/// streams (duplicates kept, map reading via `kvs_lookup`) and the aligned
/// tensor-data start.
pub struct GgufV {
    pub metadata: Seq<(Seq<char>, MetadataValueV)>,
    pub tensor_infos: Seq<(Seq<char>, TensorInfoV)>,
    pub tensor_data_position: u64,
}

/// The whole container grammar: magic, version (which fixes the length
/// width), the two counts, the metadata block, the tensor descriptor block,
/// and the aligned data offset computed from the final cursor.
pub open spec fn sp_gguf(b: Seq<u8>) -> Option<GgufV> {
    if b.len() < 4 || b.subrange(0, 4) != magic_bytes() {
        None
    } else {
        match sp_u32(b, 4) {
            Some((version, p)) => if version != 1 && version != 2 {
                None
            } else {
                let wide = version == 2;
                match sp_len(b, p, wide) {
                    Some((tensor_count, p2)) => match sp_len(b, p2, wide) {
                        Some((kv_count, p3)) => match sp_kvs(b, p3, wide, kv_count as nat) {
                            Some((kvs, p4)) => match sp_tensors(b, p4, wide, tensor_count as nat) {
                                Some((ts, p5)) => match sp_data_position(p5, alignment_of(kvs)) {
                                    Some(dp) => Some(
                                        GgufV {
                                            metadata: kvs,
                                            tensor_infos: ts,
                                            tensor_data_position: dp,
                                        },
                                    ),
                                    None => None,
                                },
                                None => None,
                            },
                            None => None,
                        },
                        None => None,
                    },
                    None => None,
                }
            },
            None => None,
        }
    }
}

/// Relies on String::from_utf8: it succeeds exactly on valid UTF-8 input and
/// decodes that input.
#[verifier::external_body]
fn bytes_to_string(v: Vec<u8>) -> (r: Option<String>)
    ensures
        r is Some <==> valid_utf8(v@),
        r is Some ==> r->0@ == decode_utf8(v@),
{
    String::from_utf8(v).ok()
}

fn read_u8(data: &[u8], pos: usize) -> (r: Result<(u8, usize), GgufLoadError>)
    ensures
        r is Ok <==> sp_u8(data@, pos as int) is Some,
        r is Ok ==> Some((r->Ok_0.0, r->Ok_0.1 as int)) == sp_u8(data@, pos as int) && r->Ok_0.1
            <= data@.len(),
        r is Err ==> r->Err_0 is UnexpectedEof,
{
    if pos < data.len() {
        Ok((*vstd::slice::slice_index_get(data, pos), pos + 1))
    } else {
        Err(GgufLoadError::UnexpectedEof)
    }
}

fn read_u16(data: &[u8], pos: usize) -> (r: Result<(u16, usize), GgufLoadError>)
    ensures
        r is Ok <==> sp_u16(data@, pos as int) is Some,
        r is Ok ==> Some((r->Ok_0.0, r->Ok_0.1 as int)) == sp_u16(data@, pos as int) && r->Ok_0.1
            <= data@.len(),
        r is Err ==> r->Err_0 is UnexpectedEof,
{
    if data.len() >= 2 && pos <= data.len() - 2 {
        Ok((u16_from_le_bytes(slice_subrange(data, pos, pos + 2)), pos + 2))
    } else {
        Err(GgufLoadError::UnexpectedEof)
    }
}

fn read_u32(data: &[u8], pos: usize) -> (r: Result<(u32, usize), GgufLoadError>)
    ensures
        r is Ok <==> sp_u32(data@, pos as int) is Some,
        r is Ok ==> Some((r->Ok_0.0, r->Ok_0.1 as int)) == sp_u32(data@, pos as int) && r->Ok_0.1
            <= data@.len(),
        r is Err ==> r->Err_0 is UnexpectedEof,
{
    if data.len() >= 4 && pos <= data.len() - 4 {
        Ok((u32_from_le_bytes(slice_subrange(data, pos, pos + 4)), pos + 4))
    } else {
        Err(GgufLoadError::UnexpectedEof)
    }
}

fn read_u64(data: &[u8], pos: usize) -> (r: Result<(u64, usize), GgufLoadError>)
    ensures
        r is Ok <==> sp_u64(data@, pos as int) is Some,
        r is Ok ==> Some((r->Ok_0.0, r->Ok_0.1 as int)) == sp_u64(data@, pos as int) && r->Ok_0.1
            <= data@.len(),
        r is Err ==> r->Err_0 is UnexpectedEof,
{
    if data.len() >= 8 && pos <= data.len() - 8 {
        Ok((u64_from_le_bytes(slice_subrange(data, pos, pos + 8)), pos + 8))
    } else {
        Err(GgufLoadError::UnexpectedEof)
    }
}

/// A length field in the active width, narrowed to a usable in-memory size.
fn read_length(data: &[u8], pos: usize, wide: bool) -> (r: Result<(usize, usize), GgufLoadError>)
    ensures
        r is Ok <==> sp_len(data@, pos as int, wide) is Some,
        r is Ok ==> Some((r->Ok_0.0 as int, r->Ok_0.1 as int)) == sp_len(data@, pos as int, wide)
            && r->Ok_0.1 <= data@.len(),
        r is Err ==> (r->Err_0 is UnexpectedEof || r->Err_0 is InvalidIntegerConversion),
{
    if wide {
        match read_u64(data, pos) {
            Ok((v, q)) => {
                if v <= usize::MAX as u64 {
                    Ok((v as usize, q))
                } else {
                    Err(GgufLoadError::InvalidIntegerConversion)
                }
            },
            Err(e) => Err(e),
        }
    } else {
        match read_u32(data, pos) {
            Ok((v, q)) => Ok((v as usize, q)),
            Err(e) => Err(e),
        }
    }
}

/// A length-prefixed UTF-8 string.
fn read_string(data: &[u8], pos: usize, wide: bool) -> (r: Result<(String, usize), GgufLoadError>)
    ensures
        r is Ok <==> sp_string(data@, pos as int, wide) is Some,
        r is Ok ==> (r->Ok_0.0@, r->Ok_0.1 as int) == sp_string(data@, pos as int, wide)->0 && r->Ok_0.1
            <= data@.len(),
        r is Err ==> (r->Err_0 is UnexpectedEof || r->Err_0 is InvalidIntegerConversion || r->Err_0
            is InvalidUtf8),
        r matches Err(GgufLoadError::InvalidUtf8) <==> sp_string_utf8_bad(data@, pos as int, wide),
{
    match read_length(data, pos, wide) {
        Ok((n, q)) => {
            if n > data.len() - q {
                return Err(GgufLoadError::UnexpectedEof);
            }
            let raw = slice_to_vec(slice_subrange(data, q, q + n));
            match bytes_to_string(raw) {
                Some(s) => Ok((s, q + n)),
                None => Err(GgufLoadError::InvalidUtf8),
            }
        },
        Err(e) => Err(e),
    }
}

fn i8_from_u8(u: u8) -> (r: i8)
    ensures
        r == spec_i8(u),
{
    if u < 0x80 {
        u as i8
    } else {
        -((255u8 - u) as i8) - 1
    }
}

fn i16_from_u16(u: u16) -> (r: i16)
    ensures
        r == spec_i16(u),
{
    if u < 0x8000 {
        u as i16
    } else {
        -((65535u16 - u) as i16) - 1
    }
}

fn i32_from_u32(u: u32) -> (r: i32)
    ensures
        r == spec_i32(u),
{
    if u < 0x80000000 {
        u as i32
    } else {
        -((0xffffffffu32 - u) as i32) - 1
    }
}

fn i64_from_u64(u: u64) -> (r: i64)
    ensures
        r == spec_i64(u),
{
    if u < 0x8000000000000000 {
        u as i64
    } else {
        -((0xffffffffffffffffu64 - u) as i64) - 1
    }
}

/// The kind a raw type tag names, if known.
fn value_type_from_tag(tag: u8) -> (r: Option<MetadataValueType>)
    ensures
        r == value_type_of(tag),
{
    match tag {
        0u8 => Some(MetadataValueType::UInt8),
        1u8 => Some(MetadataValueType::Int8),
        2u8 => Some(MetadataValueType::UInt16),
        3u8 => Some(MetadataValueType::Int16),
        4u8 => Some(MetadataValueType::UInt32),
        5u8 => Some(MetadataValueType::Int32),
        6u8 => Some(MetadataValueType::Float32),
        7u8 => Some(MetadataValueType::Bool),
        8u8 => Some(MetadataValueType::Str),
        9u8 => Some(MetadataValueType::Array),
        10u8 => Some(MetadataValueType::UInt64),
        11u8 => Some(MetadataValueType::Int64),
        12u8 => Some(MetadataValueType::Float64),
        _ => None,
    }
}

/// The element encoding a raw tensor-type code names, if recognized.
fn element_type_from_code(code: u32) -> (r: Option<ElementType>)
    ensures
        r == element_type_of(code),
{
    match code {
        0u32 => Some(ElementType::F32),
        1u32 => Some(ElementType::F16),
        2u32 => Some(ElementType::Q4_0),
        3u32 => Some(ElementType::Q4_1),
        6u32 => Some(ElementType::Q5_0),
        7u32 => Some(ElementType::Q5_1),
        8u32 => Some(ElementType::Q8_0),
        9u32 => Some(ElementType::Q8_1),
        10u32 => Some(ElementType::Q2K),
        11u32 => Some(ElementType::Q3K),
        12u32 => Some(ElementType::Q4K),
        13u32 => Some(ElementType::Q5K),
        14u32 => Some(ElementType::Q6K),
        15u32 => Some(ElementType::Q8K),
        16u32 => Some(ElementType::I8),
        17u32 => Some(ElementType::I16),
        18u32 => Some(ElementType::I32),
        _ => None,
    }
}

/// One scalar of kind `ty`; `Array` is not a scalar kind.
fn read_scalar(data: &[u8], pos: usize, wide: bool, ty: MetadataValueType) -> (r: Result<
    (MetadataScalar, usize),
    GgufLoadError,
>)
    ensures
        r is Ok <==> sp_scalar(data@, pos as int, wide, ty) is Some,
        r is Ok ==> (r->Ok_0.0@, r->Ok_0.1 as int) == sp_scalar(data@, pos as int, wide, ty)->0
            && r->Ok_0.1 <= data@.len(),
{
    match ty {
        MetadataValueType::UInt8 => match read_u8(data, pos) {
            Ok((v, q)) => Ok((MetadataScalar::UInt8(v), q)),
            Err(e) => Err(e),
        },
        MetadataValueType::Int8 => match read_u8(data, pos) {
            Ok((v, q)) => Ok((MetadataScalar::Int8(i8_from_u8(v)), q)),
            Err(e) => Err(e),
        },
        MetadataValueType::UInt16 => match read_u16(data, pos) {
            Ok((v, q)) => Ok((MetadataScalar::UInt16(v), q)),
            Err(e) => Err(e),
        },
        MetadataValueType::Int16 => match read_u16(data, pos) {
            Ok((v, q)) => Ok((MetadataScalar::Int16(i16_from_u16(v)), q)),
            Err(e) => Err(e),
        },
        MetadataValueType::UInt32 => match read_u32(data, pos) {
            Ok((v, q)) => Ok((MetadataScalar::UInt32(v), q)),
            Err(e) => Err(e),
        },
        MetadataValueType::Int32 => match read_u32(data, pos) {
            Ok((v, q)) => Ok((MetadataScalar::Int32(i32_from_u32(v)), q)),
            Err(e) => Err(e),
        },
        MetadataValueType::Float32 => match read_u32(data, pos) {
            Ok((v, q)) => Ok((MetadataScalar::Float32Bits(v), q)),
            Err(e) => Err(e),
        },
        MetadataValueType::Bool => match read_u8(data, pos) {
            Ok((v, q)) => Ok((MetadataScalar::Bool(v != 0), q)),
            Err(e) => Err(e),
        },
        MetadataValueType::Str => match read_string(data, pos, wide) {
            Ok((s, q)) => Ok((MetadataScalar::Str(s), q)),
            Err(e) => Err(e),
        },
        MetadataValueType::Array => Err(
            GgufLoadError::InvariantBroken("an array is not a scalar metadata kind".to_owned()),
        ),
        MetadataValueType::UInt64 => match read_u64(data, pos) {
            Ok((v, q)) => Ok((MetadataScalar::UInt64(v), q)),
            Err(e) => Err(e),
        },
        MetadataValueType::Int64 => match read_u64(data, pos) {
            Ok((v, q)) => Ok((MetadataScalar::Int64(i64_from_u64(v)), q)),
            Err(e) => Err(e),
        },
        MetadataValueType::Float64 => match read_u64(data, pos) {
            Ok((v, q)) => Ok((MetadataScalar::Float64Bits(v), q)),
            Err(e) => Err(e),
        },
    }
}

/// The views of a collected scalar list.
pub open spec fn scalars_view(vs: Seq<MetadataScalar>) -> Seq<MetadataScalarV> {
    Seq::new(vs.len(), |i: int| vs[i]@)
}

/// One typed metadata value.
fn read_value(data: &[u8], pos: usize, wide: bool) -> (r: Result<(MetadataValue, usize), GgufLoadError>)
    ensures
        r is Ok <==> sp_value(data@, pos as int, wide) is Some,
        r is Ok ==> (r->Ok_0.0@, r->Ok_0.1 as int) == sp_value(data@, pos as int, wide)->0
            && r->Ok_0.1 <= data@.len(),
{
    let (tag, q) = match read_u8(data, pos) {
        Ok(v) => v,
        Err(e) => {
            return Err(e);
        },
    };
    let ty = match value_type_from_tag(tag) {
        Some(t) => t,
        None => {
            return Err(
                GgufLoadError::InvariantBroken("unknown metadata value type tag".to_owned()),
            );
        },
    };
    match ty {
        MetadataValueType::Array => {
            let (etag, q2) = match read_u8(data, q) {
                Ok(v) => v,
                Err(e) => {
                    return Err(e);
                },
            };
            let ety = match value_type_from_tag(etag) {
                Some(MetadataValueType::Array) => {
                    return Err(
                        GgufLoadError::InvariantBroken(
                            "nested metadata arrays are not supported".to_owned(),
                        ),
                    );
                },
                Some(t) => t,
                None => {
                    return Err(
                        GgufLoadError::InvariantBroken(
                            "unknown metadata array element tag".to_owned(),
                        ),
                    );
                },
            };
            let (n, q3) = match read_length(data, q2, wide) {
                Ok(v) => v,
                Err(e) => {
                    return Err(e);
                },
            };
            let mut vs: Vec<MetadataScalar> = Vec::new();
            let mut cur: usize = q3;
            let mut k: usize = 0;
            proof {
                let whole = sp_scalars(data@, q3 as int, wide, ety, n as nat);
                assert(scalars_view(vs@) =~= Seq::<MetadataScalarV>::empty());
                if whole is Some {
                    assert(scalars_view(vs@) + (whole->0).0 =~= (whole->0).0);
                }
            }
            while k < n
                invariant
                    k <= n,
                    cur <= data@.len(),
                    vs@.len() == k,
                    ety != MetadataValueType::Array,
                    sp_u8(data@, pos as int) == Some((tag, q as int)),
                    value_type_of(tag) == Some(MetadataValueType::Array),
                    sp_u8(data@, q as int) == Some((etag, q2 as int)),
                    value_type_of(etag) == Some(ety),
                    sp_len(data@, q2 as int, wide) == Some((n as int, q3 as int)),
                    (match sp_scalars(data@, cur as int, wide, ety, (n - k) as nat) {
                        Some((tail, end)) => sp_scalars(data@, q3 as int, wide, ety, n as nat)
                            == Some((scalars_view(vs@) + tail, end)),
                        None => sp_scalars(data@, q3 as int, wide, ety, n as nat) is None,
                    }),
                decreases n - k,
            {
                let (s, q4) = match read_scalar(data, cur, wide, ety) {
                    Ok(v) => v,
                    Err(e) => {
                        proof {
                            assert(sp_scalars(data@, cur as int, wide, ety, (n - k) as nat)
                                is None);
                            assert(sp_value(data@, pos as int, wide) is None);
                        }
                        return Err(e);
                    },
                };
                let ghost old_vs = vs@;
                vs.push(s);
                proof {
                    let rest = sp_scalars(data@, q4 as int, wide, ety, (n - k - 1) as nat);
                    assert(scalars_view(vs@) =~= scalars_view(old_vs).push(vs@.last()@));
                    if rest is Some {
                        assert(scalars_view(old_vs).push(vs@.last()@) + (rest->0).0
                            =~= scalars_view(old_vs) + (seq![vs@.last()@] + (rest->0).0));
                    }
                }
                cur = q4;
                k = k + 1;
            }
            Ok((MetadataValue::Array(ety, vs), cur))
        },
        _ => {
            let (s, q2) = match read_scalar(data, q, wide, ty) {
                Ok(v) => v,
                Err(e) => {
                    return Err(e);
                },
            };
            Ok((MetadataValue::Scalar(s), q2))
        },
    }
}

/// One metadata key-value pair: a length-prefixed string key and a typed
/// value.
pub fn read_key_value(data: &[u8], pos: usize, wide: bool) -> (r: Result<
    ((String, MetadataValue), usize),
    GgufLoadError,
>)
    ensures
        r is Ok <==> sp_kv(data@, pos as int, wide) is Some,
        r is Ok ==> ((r->Ok_0.0.0@, r->Ok_0.0.1@), r->Ok_0.1 as int) == sp_kv(
            data@,
            pos as int,
            wide,
        )->0 && r->Ok_0.1 <= data@.len(),
{
    let (key, q) = match read_string(data, pos, wide) {
        Ok(v) => v,
        Err(e) => {
            return Err(e);
        },
    };
    let (value, q2) = match read_value(data, q, wide) {
        Ok(v) => v,
        Err(e) => {
            return Err(e);
        },
    };
    Ok(((key, value), q2))
}

/// One tensor descriptor: dimensions outer-to-inner as encoded, the element
/// encoding, and the byte offset relative to the tensor-data segment start.
#[derive(Debug, Clone, PartialEq)]
pub struct TensorInfo {
    pub dimensions: Vec<usize>,
    pub element_type: ElementType,
    pub offset: u64,
}

impl View for TensorInfo {
    type V = TensorInfoV;

    open spec fn view(&self) -> TensorInfoV {
        TensorInfoV {
            dimensions: self.dimensions@,
            element_type: self.element_type,
            offset: self.offset,
        }
    }
}

impl TensorInfo {
    /// One tensor descriptor: name, 32-bit dimension count, that many
    /// length-width dimension sizes, the element-type code, and a 64-bit
    /// offset.  An unrecognized element-type code fails with an error naming
    /// the tensor and the raw code, exactly when everything before the code
    /// reads back well-formed.
    pub fn read_name_value(data: &[u8], pos: usize, wide: bool) -> (r: Result<
        ((String, Self), usize),
        GgufLoadError,
    >)
        ensures
            r is Ok <==> sp_tensor(data@, pos as int, wide) is Some,
            (r matches Ok(((name, info), q)) ==> ({
                let ((nm, ti), qq) = sp_tensor(data@, pos as int, wide)->0;
                name@ == nm && info@ == ti && q as int == qq && q <= data@.len()
            })),
            (r matches Err(GgufLoadError::UnsupportedElementType { tensor_name, ftype }) <==> (
            sp_tensor_head(data@, pos as int, wide) is Some && element_type_of(
                ((sp_tensor_head(data@, pos as int, wide)->0).0).2,
            ) is None)),
            (r matches Err(GgufLoadError::UnsupportedElementType { tensor_name, ftype }) ==> ({
                let ((nm, dims, code), qq) = sp_tensor_head(data@, pos as int, wide)->0;
                tensor_name@ == nm && ftype == code
            })),
            sp_string_utf8_bad(data@, pos as int, wide) ==> r matches Err(
                GgufLoadError::InvalidUtf8,
            ),
    {
        let (name, q) = match read_string(data, pos, wide) {
            Ok(v) => v,
            Err(e) => {
                return Err(e);
            },
        };
        let (dim_count, q2) = match read_u32(data, q) {
            Ok(v) => v,
            Err(e) => {
                return Err(e);
            },
        };
        let mut dims: Vec<usize> = Vec::new();
        let mut cur: usize = q2;
        let mut k: u32 = 0;
        proof {
            let whole = sp_dims(data@, q2 as int, wide, dim_count as nat);
            if whole is Some {
                assert(dims@ + (whole->0).0 =~= (whole->0).0);
            }
        }
        while k < dim_count
            invariant
                k <= dim_count,
                cur <= data@.len(),
                dims@.len() == k,
                sp_string(data@, pos as int, wide) == Some((name@, q as int)),
                sp_u32(data@, q as int) == Some((dim_count, q2 as int)),
                (match sp_dims(data@, cur as int, wide, (dim_count - k) as nat) {
                    Some((tail, end)) => sp_dims(data@, q2 as int, wide, dim_count as nat) == Some(
                        (dims@ + tail, end),
                    ),
                    None => sp_dims(data@, q2 as int, wide, dim_count as nat) is None,
                }),
            decreases dim_count - k,
        {
            let (d, q3) = match read_length(data, cur, wide) {
                Ok(v) => v,
                Err(e) => {
                    proof {
                        assert(sp_dims(data@, cur as int, wide, (dim_count - k) as nat) is None);
                        assert(sp_tensor_head(data@, pos as int, wide) is None);
                    }
                    return Err(e);
                },
            };
            let ghost old_dims = dims@;
            dims.push(d);
            proof {
                let rest = sp_dims(data@, q3 as int, wide, (dim_count - k - 1) as nat);
                if rest is Some {
                    assert(old_dims.push(d) + (rest->0).0 =~= old_dims + (seq![d] + (rest->0).0));
                }
            }
            cur = q3;
            k = k + 1;
        }
        let (code, q4) = match read_u32(data, cur) {
            Ok(v) => v,
            Err(e) => {
                return Err(e);
            },
        };
        let element_type = match element_type_from_code(code) {
            Some(et) => et,
            None => {
                return Err(GgufLoadError::UnsupportedElementType { tensor_name: name, ftype: code });
            },
        };
        let (offset, q5) = match read_u64(data, q4) {
            Ok(v) => v,
            Err(e) => {
                return Err(e);
            },
        };
        Ok(((name, TensorInfo { dimensions: dims, element_type, offset }), q5))
    }
}

/// The mathematical entries of an association list with `String` keys.
pub open spec fn entries_view<V: View>(es: Seq<(String, V)>) -> Seq<(Seq<char>, V::V)> {
    Seq::new(es.len(), |i: int| (es[i].0@, es[i].1@))
}

proof fn lemma_kvs_lookup_push<V>(kvs: Seq<(Seq<char>, V)>, p: (Seq<char>, V))
    ensures
        forall|k: Seq<char>| #[trigger] kvs_lookup(kvs.push(p), k) == if p.0 == k {
            Some(p.1)
        } else {
            kvs_lookup(kvs, k)
        },
{
    assert forall|k: Seq<char>| #[trigger] kvs_lookup(kvs.push(p), k) == if p.0 == k {
        Some(p.1)
    } else {
        kvs_lookup(kvs, k)
    } by {
        assert(kvs.push(p).drop_last() =~= kvs);
        assert(kvs.push(p).last() == p);
    }
}

proof fn lemma_lookup_push_absent<V>(es: Seq<(Seq<char>, V)>, p: (Seq<char>, V))
    requires
        forall|t: int| 0 <= t < es.len() ==> (#[trigger] es[t]).0 != p.0,
    ensures
        forall|k: Seq<char>| #[trigger] lookup_entry(es.push(p), k) == if p.0 == k {
            Some(p.1)
        } else {
            lookup_entry(es, k)
        },
    decreases es.len(),
{
    if es.len() == 0 {
        assert forall|k: Seq<char>| #[trigger] lookup_entry(es.push(p), k) == if p.0 == k {
            Some(p.1)
        } else {
            lookup_entry(es, k)
        } by {
            assert(es.push(p).first() == p);
            assert(es.push(p).drop_first() =~= es);
            if p.0 == k {
                assert(lookup_entry(es.push(p), k) == Some(p.1));
            } else {
                assert(lookup_entry(es.push(p), k) == lookup_entry(es, k));
            }
        }
    } else {
        assert forall|t: int| 0 <= t < es.drop_first().len() implies (
        #[trigger] es.drop_first()[t]).0 != p.0 by {
            assert(es.drop_first()[t] == es[t + 1]);
        }
        lemma_lookup_push_absent(es.drop_first(), p);
        assert forall|k: Seq<char>| #[trigger] lookup_entry(es.push(p), k) == if p.0 == k {
            Some(p.1)
        } else {
            lookup_entry(es, k)
        } by {
            assert(es.push(p).first() == es.first());
            assert(es.push(p).drop_first() =~= es.drop_first().push(p));
            if es.first().0 == k {
                assert(es[0].0 == k && k != p.0);
                assert(lookup_entry(es.push(p), k) == Some(es.first().1));
                assert(lookup_entry(es, k) == Some(es.first().1));
            } else {
                assert(lookup_entry(es.drop_first().push(p), k) == if p.0 == k {
                    Some(p.1)
                } else {
                    lookup_entry(es.drop_first(), k)
                });
                assert(lookup_entry(es.push(p), k) == lookup_entry(es.drop_first().push(p), k));
                assert(lookup_entry(es, k) == lookup_entry(es.drop_first(), k));
            }
        }
    }
}

proof fn lemma_lookup_update<V>(es: Seq<(Seq<char>, V)>, i: int, p: (Seq<char>, V))
    requires
        unique_keys(es),
        0 <= i < es.len(),
        es[i].0 == p.0,
    ensures
        forall|k: Seq<char>| #[trigger] lookup_entry(es.update(i, p), k) == if p.0 == k {
            Some(p.1)
        } else {
            lookup_entry(es, k)
        },
    decreases i,
{
    if i == 0 {
        assert forall|k: Seq<char>| #[trigger] lookup_entry(es.update(i, p), k) == if p.0 == k {
            Some(p.1)
        } else {
            lookup_entry(es, k)
        } by {
            assert(es.update(0, p).first() == p);
            assert(es.update(0, p).drop_first() =~= es.drop_first());
            if p.0 != k && es.first().0 == k {
                assert(lookup_entry(es, k) == Some(es.first().1));
            }
        }
    } else {
        assert(es.drop_first().update(i - 1, p) =~= es.update(i, p).drop_first());
        assert(unique_keys(es.drop_first())) by {
            assert forall|a: int, b: int| 0 <= a < b < es.drop_first().len() implies (
            #[trigger] es.drop_first()[a]).0 != (#[trigger] es.drop_first()[b]).0 by {
                assert(es[a + 1].0 != es[b + 1].0);
            }
        }
        assert(es.drop_first()[i - 1] == es[i]);
        lemma_lookup_update(es.drop_first(), i - 1, p);
        assert forall|k: Seq<char>| #[trigger] lookup_entry(es.update(i, p), k) == if p.0 == k {
            Some(p.1)
        } else {
            lookup_entry(es, k)
        } by {
            assert(es.update(i, p).first() == es.first());
            if es.first().0 == k {
                assert(es[0].0 != es[i].0);
                assert(lookup_entry(es.update(i, p), k) == Some(es.first().1));
                assert(lookup_entry(es, k) == Some(es.first().1));
            } else {
                assert(lookup_entry(es.update(i, p), k) == lookup_entry(
                    es.update(i, p).drop_first(),
                    k,
                ));
                assert(lookup_entry(es, k) == lookup_entry(es.drop_first(), k));
            }
        }
    }
}

proof fn lemma_upsert_at<V>(es: Seq<(Seq<char>, V)>, i: int, k: Seq<char>, v: V)
    requires
        0 <= i < es.len(),
        es[i].0 == k,
        forall|t: int| 0 <= t < i ==> (#[trigger] es[t]).0 != k,
    ensures
        upsert_entries(es, k, v) == es.update(i, (k, v)),
    decreases i,
{
    if i == 0 {
        assert(upsert_entries(es, k, v) =~= es.update(0, (k, v)));
    } else {
        assert(es.first().0 != k);
        assert(es.drop_first()[i - 1] == es[i]);
        assert(forall|t: int|
            0 <= t < i - 1 ==> (#[trigger] es.drop_first()[t]).0 != k) by {
            assert forall|t: int| 0 <= t < i - 1 implies (#[trigger] es.drop_first()[t]).0 != k by {
                assert(es.drop_first()[t] == es[t + 1]);
            }
        }
        lemma_upsert_at(es.drop_first(), i - 1, k, v);
        assert(seq![es.first()] + es.drop_first().update(i - 1, (k, v)) =~= es.update(i, (k, v)));
    }
}

proof fn lemma_upsert_absent<V>(es: Seq<(Seq<char>, V)>, k: Seq<char>, v: V)
    requires
        forall|t: int| 0 <= t < es.len() ==> (#[trigger] es[t]).0 != k,
    ensures
        upsert_entries(es, k, v) == es.push((k, v)),
    decreases es.len(),
{
    if es.len() == 0 {
        assert(upsert_entries(es, k, v) =~= es.push((k, v)));
    } else {
        assert(es[0].0 != k);
        assert(forall|t: int|
            0 <= t < es.drop_first().len() ==> (#[trigger] es.drop_first()[t]).0 != k) by {
            assert forall|t: int|
                0 <= t < es.drop_first().len() implies (#[trigger] es.drop_first()[t]).0 != k by {
                assert(es.drop_first()[t] == es[t + 1]);
            }
        }
        lemma_upsert_absent(es.drop_first(), k, v);
        assert(seq![es.first()] + es.drop_first().push((k, v)) =~= es.push((k, v)));
    }
}

proof fn lemma_lookup_at<V>(es: Seq<(Seq<char>, V)>, i: int)
    requires
        0 <= i < es.len(),
        forall|t: int| 0 <= t < i ==> (#[trigger] es[t]).0 != es[i].0,
    ensures
        lookup_entry(es, es[i].0) == Some(es[i].1),
    decreases i,
{
    if i > 0 {
        assert(es.first().0 != es[i].0);
        assert(es.drop_first()[i - 1] == es[i]);
        lemma_lookup_at(es.drop_first(), i - 1);
    }
}

proof fn lemma_lookup_absent<V>(es: Seq<(Seq<char>, V)>, k: Seq<char>)
    requires
        forall|t: int| 0 <= t < es.len() ==> (#[trigger] es[t]).0 != k,
    ensures
        lookup_entry(es, k) is None,
    decreases es.len(),
{
    if es.len() > 0 {
        lemma_lookup_absent(es.drop_first(), k);
    }
}

/// The index of the first entry whose key equals `key`, if any.
fn find_key<V: View>(es: &Vec<(String, V)>, key: &String) -> (r: Option<usize>)
    ensures
        (match r {
            Some(i) => i < es@.len() && entries_view(es@)[i as int].0 == key@ && forall|t: int|
                0 <= t < i ==> (#[trigger] entries_view(es@)[t]).0 != key@,
            None => forall|t: int|
                0 <= t < es@.len() ==> (#[trigger] entries_view(es@)[t]).0 != key@,
        }),
{
    let mut i: usize = 0;
    while i < es.len()
        invariant
            i <= es@.len(),
            forall|t: int| 0 <= t < i ==> (#[trigger] entries_view(es@)[t]).0 != key@,
        decreases es@.len() - i,
    {
        if es[i].0 == *key {
            return Some(i);
        }
        i = i + 1;
    }
    None
}

/// Insert or overwrite: the single place where a decoded pair reaches the
/// mapping, so later duplicate keys overwrite earlier ones.
fn upsert_entry<V: View>(es: &mut Vec<(String, V)>, key: String, value: V)
    requires
        unique_keys(entries_view(old(es)@)),
    ensures
        unique_keys(entries_view(final(es)@)),
        entries_view(final(es)@) == upsert_entries(entries_view(old(es)@), key@, value@),
        forall|k: Seq<char>| #[trigger] lookup_entry(entries_view(final(es)@), k) == if k == key@ {
            Some(value@)
        } else {
            lookup_entry(entries_view(old(es)@), k)
        },
{
    let ghost kv = (key@, value@);
    match find_key(es, &key) {
        Some(i) => {
            es.set(i, (key, value));
            proof {
                assert(entries_view(es@) =~= entries_view(old(es)@).update(i as int, kv));
                lemma_lookup_update(entries_view(old(es)@), i as int, kv);
                lemma_upsert_at(entries_view(old(es)@), i as int, kv.0, kv.1);
                assert forall|a: int, b: int| 0 <= a < b < entries_view(es@).len() implies (
                #[trigger] entries_view(es@)[a]).0 != (#[trigger] entries_view(es@)[b]).0 by {
                    let ov = entries_view(old(es)@);
                    if a != i && b != i {
                        assert(ov[a].0 != ov[b].0);
                    } else if a == i {
                        assert(ov[i as int].0 == kv.0 && ov[b].0 != ov[i as int].0);
                    } else {
                        assert(ov[i as int].0 == kv.0 && ov[a].0 != ov[i as int].0);
                    }
                }
            }
        },
        None => {
            es.push((key, value));
            proof {
                assert(entries_view(es@) =~= entries_view(old(es)@).push(kv));
                lemma_lookup_push_absent(entries_view(old(es)@), kv);
                lemma_upsert_absent(entries_view(old(es)@), kv.0, kv.1);
            }
        },
    }
}

/// The smallest multiple of `alignment` at or after `pos`, when `alignment`
/// is positive and the result fits: `pos` itself when already aligned,
/// rounded up otherwise.
pub fn compute_data_position(pos: u64, alignment: u64) -> (r: Option<u64>)
    ensures
        r == sp_data_position(pos as int, alignment as int),
{
    if alignment == 0 {
        None
    } else {
        let rem = pos % alignment;
        let pad = (alignment - rem) % alignment;
        if pos <= u64::MAX - pad {
            Some(pos + pad)
        } else {
            None
        }
    }
}

/// The parsed container: typed metadata, tensor descriptors (both mappings
/// with unique keys, later duplicates in the stream having overwritten
/// earlier ones), and the aligned offset where tensor payload data begins.
/// Constructed once by `load`; immutable thereafter.
#[derive(Debug, PartialEq)]
pub struct Gguf {
    pub metadata: Vec<(String, MetadataValue)>,
    pub tensor_infos: Vec<(String, TensorInfo)>,
    pub tensor_data_position: u64,
}

impl Gguf {
    /// Load a container from its serialized bytes: magic, version (which
    /// selects the 32- or 64-bit length mode), the typed metadata block, the
    /// tensor descriptor block, and the aligned tensor-data start computed
    /// from the final cursor with the alignment the metadata prescribes.
    /// Loading succeeds exactly when the whole stream is well-formed; any
    /// failure discards all progress, so no partial container ever escapes.
    pub fn load(data: &[u8]) -> (r: Result<Gguf, GgufLoadError>)
        ensures
            r is Ok <==> sp_gguf(data@) is Some,
            (r matches Ok(g) ==> ({
                let gv = sp_gguf(data@);
                let me = entries_view(g.metadata@);
                let te = entries_view(g.tensor_infos@);
                &&& unique_keys(me)
                &&& unique_keys(te)
                &&& me == entries_of((gv->0).metadata)
                &&& te == entries_of((gv->0).tensor_infos)
                &&& (forall|k: Seq<char>| #[trigger] lookup_entry(me, k) == kvs_lookup(
                    (gv->0).metadata,
                    k,
                ))
                &&& (forall|k: Seq<char>| #[trigger] lookup_entry(te, k) == kvs_lookup(
                    (gv->0).tensor_infos,
                    k,
                ))
                &&& g.tensor_data_position == (gv->0).tensor_data_position
            })),
            data@.len() < 4 ==> r matches Err(GgufLoadError::UnexpectedEof),
            (data@.len() >= 4 && data@.subrange(0, 4) != magic_bytes()) ==> (r matches Err(
                GgufLoadError::InvalidMagic { magic },
            ) && magic@ == data@.subrange(0, 4)),
            (data@.len() >= 4 && data@.subrange(0, 4) == magic_bytes() && sp_u32(data@, 4) is Some
                && (sp_u32(data@, 4)->0).0 != 1 && (sp_u32(data@, 4)->0).0 != 2) ==> (r matches Err(
                GgufLoadError::InvalidFormatVersion(ContainerType::Gguf(v)),
            ) && v == (sp_u32(data@, 4)->0).0),
            (sp_load_unsupported(data@) matches Some(nc) ==> (r matches Err(
                GgufLoadError::UnsupportedElementType { tensor_name, ftype },
            ) && tensor_name@ == nc.0 && ftype == nc.1)),
    {
        if data.len() < 4 {
            return Err(GgufLoadError::UnexpectedEof);
        }
        let m0 = *vstd::slice::slice_index_get(data, 0);
        let m1 = *vstd::slice::slice_index_get(data, 1);
        let m2 = *vstd::slice::slice_index_get(data, 2);
        let m3 = *vstd::slice::slice_index_get(data, 3);
        if !(m0 == 71 && m1 == 71 && m2 == 85 && m3 == 70) {
            proof {
                if data@.subrange(0, 4) == magic_bytes() {
                    assert(data@.subrange(0, 4)[0] == 71u8 && data@.subrange(0, 4)[1] == 71u8
                        && data@.subrange(0, 4)[2] == 85u8 && data@.subrange(0, 4)[3] == 70u8);
                }
            }
            let magic = slice_to_vec(slice_subrange(data, 0, 4));
            return Err(GgufLoadError::InvalidMagic { magic });
        }
        proof {
            assert(data@.subrange(0, 4) =~= magic_bytes());
        }
        let (version, p) = match read_u32(data, 4) {
            Ok(v) => v,
            Err(e) => {
                return Err(e);
            },
        };
        if version != 1 && version != 2 {
            return Err(GgufLoadError::InvalidFormatVersion(ContainerType::Gguf(version)));
        }
        let wide = version == 2;
        let (tensor_count, p2) = match read_length(data, p, wide) {
            Ok(v) => v,
            Err(e) => {
                return Err(e);
            },
        };
        let (kv_count, p3) = match read_length(data, p2, wide) {
            Ok(v) => v,
            Err(e) => {
                return Err(e);
            },
        };

        let mut metadata: Vec<(String, MetadataValue)> = Vec::new();
        let ghost mut raw_kvs: Seq<(Seq<char>, MetadataValueV)> = Seq::empty();
        let mut cur: usize = p3;
        let mut k: usize = 0;
        proof {
            let whole = sp_kvs(data@, p3 as int, wide, kv_count as nat);
            assert(entries_view(metadata@) =~= Seq::<(Seq<char>, MetadataValueV)>::empty());
            assert(entries_of(raw_kvs) =~= Seq::<(Seq<char>, MetadataValueV)>::empty());
            if whole is Some {
                assert(raw_kvs + (whole->0).0 =~= (whole->0).0);
            }
        }
        while k < kv_count
            invariant
                k <= kv_count,
                cur <= data@.len(),
                data@.len() >= 4,
                data@.subrange(0, 4) == magic_bytes(),
                sp_u32(data@, 4) == Some((version, p as int)),
                version == 1 || version == 2,
                wide == (version == 2),
                sp_len(data@, p as int, wide) == Some((tensor_count as int, p2 as int)),
                sp_len(data@, p2 as int, wide) == Some((kv_count as int, p3 as int)),
                raw_kvs.len() == k,
                unique_keys(entries_view(metadata@)),
                entries_view(metadata@) == entries_of(raw_kvs),
                forall|kk: Seq<char>| #[trigger] lookup_entry(entries_view(metadata@), kk)
                    == kvs_lookup(raw_kvs, kk),
                (match sp_kvs(data@, cur as int, wide, (kv_count - k) as nat) {
                    Some((tail, end)) => sp_kvs(data@, p3 as int, wide, kv_count as nat) == Some(
                        (raw_kvs + tail, end),
                    ),
                    None => sp_kvs(data@, p3 as int, wide, kv_count as nat) is None,
                }),
            decreases kv_count - k,
        {
            let ((key, value), q) = match read_key_value(data, cur, wide) {
                Ok(v) => v,
                Err(e) => {
                    proof {
                        assert(sp_kvs(data@, cur as int, wide, (kv_count - k) as nat) is None);
                        assert(sp_gguf(data@) is None);
                    }
                    return Err(e);
                },
            };
            let ghost kv = (key@, value@);
            upsert_entry(&mut metadata, key, value);
            proof {
                lemma_kvs_lookup_push(raw_kvs, kv);
                let rest = sp_kvs(data@, q as int, wide, (kv_count - k - 1) as nat);
                if rest is Some {
                    assert(raw_kvs.push(kv) + (rest->0).0 =~= raw_kvs + (seq![kv] + (rest->0).0));
                }
                assert(raw_kvs.push(kv).drop_last() =~= raw_kvs);
                assert(entries_of(raw_kvs.push(kv)) == upsert_entries(
                    entries_of(raw_kvs),
                    kv.0,
                    kv.1,
                ));
                raw_kvs = raw_kvs.push(kv);
            }
            cur = q;
            k = k + 1;
        }
        let ghost kvs_end = cur as int;
        proof {
            assert(sp_kvs(data@, p3 as int, wide, kv_count as nat) == Some((raw_kvs, kvs_end)))
                by {
                assert(raw_kvs + Seq::<(Seq<char>, MetadataValueV)>::empty() =~= raw_kvs);
            }
        }

        let alignment_key: String = "general.alignment".to_owned();
        let alignment: u32 = match find_key(&metadata, &alignment_key) {
            Some(i) => {
                proof {
                    lemma_lookup_at(entries_view(metadata@), i as int);
                }
                match metadata[i].1.as_uint32() {
                    Some(a) => a,
                    None => DEFAULT_ALIGNMENT,
                }
            },
            None => {
                proof {
                    lemma_lookup_absent(entries_view(metadata@), alignment_key@);
                }
                DEFAULT_ALIGNMENT
            },
        };
        proof {
            assert(alignment as int == alignment_of(raw_kvs));
        }

        let mut tensor_infos: Vec<(String, TensorInfo)> = Vec::new();
        let ghost mut raw_ts: Seq<(Seq<char>, TensorInfoV)> = Seq::empty();
        let mut tk: usize = 0;
        proof {
            let whole = sp_tensors(data@, kvs_end, wide, tensor_count as nat);
            assert(entries_view(tensor_infos@) =~= Seq::<(Seq<char>, TensorInfoV)>::empty());
            assert(entries_of(raw_ts) =~= Seq::<(Seq<char>, TensorInfoV)>::empty());
            if whole is Some {
                assert(raw_ts + (whole->0).0 =~= (whole->0).0);
            }
        }
        let ghost p4 = cur as int;
        while tk < tensor_count
            invariant
                tk <= tensor_count,
                cur <= data@.len(),
                data@.len() >= 4,
                data@.subrange(0, 4) == magic_bytes(),
                sp_u32(data@, 4) == Some((version, p as int)),
                version == 1 || version == 2,
                wide == (version == 2),
                sp_len(data@, p as int, wide) == Some((tensor_count as int, p2 as int)),
                sp_len(data@, p2 as int, wide) == Some((kv_count as int, p3 as int)),
                sp_kvs(data@, p3 as int, wide, kv_count as nat) == Some((raw_kvs, p4)),
                alignment as int == alignment_of(raw_kvs),
                unique_keys(entries_view(metadata@)),
                forall|kk: Seq<char>| #[trigger] lookup_entry(entries_view(metadata@), kk)
                    == kvs_lookup(raw_kvs, kk),
                raw_ts.len() == tk,
                unique_keys(entries_view(tensor_infos@)),
                entries_view(tensor_infos@) == entries_of(raw_ts),
                forall|kk: Seq<char>| #[trigger] lookup_entry(entries_view(tensor_infos@), kk)
                    == kvs_lookup(raw_ts, kk),
                (match sp_tensors(data@, cur as int, wide, (tensor_count - tk) as nat) {
                    Some((tail, end)) => sp_tensors(data@, p4, wide, tensor_count as nat) == Some(
                        (raw_ts + tail, end),
                    ),
                    None => sp_tensors(data@, p4, wide, tensor_count as nat) is None,
                }),
                sp_tensors_unsupported(data@, p4, wide, tensor_count as nat)
                    == sp_tensors_unsupported(data@, cur as int, wide, (tensor_count - tk) as nat),
            decreases tensor_count - tk,
        {
            let ((name, info), q) = match TensorInfo::read_name_value(data, cur, wide) {
                Ok(v) => v,
                Err(e) => {
                    proof {
                        assert(sp_tensors(data@, cur as int, wide, (tensor_count - tk) as nat)
                            is None);
                        assert(sp_gguf(data@) is None);
                        assert(sp_load_unsupported(data@) == sp_tensors_unsupported(
                            data@,
                            cur as int,
                            wide,
                            (tensor_count - tk) as nat,
                        ));
                    }
                    return Err(e);
                },
            };
            let ghost tv = (name@, info@);
            upsert_entry(&mut tensor_infos, name, info);
            proof {
                lemma_kvs_lookup_push(raw_ts, tv);
                let rest = sp_tensors(data@, q as int, wide, (tensor_count - tk - 1) as nat);
                if rest is Some {
                    assert(raw_ts.push(tv) + (rest->0).0 =~= raw_ts + (seq![tv] + (rest->0).0));
                }
                assert(raw_ts.push(tv).drop_last() =~= raw_ts);
                assert(entries_of(raw_ts.push(tv)) == upsert_entries(
                    entries_of(raw_ts),
                    tv.0,
                    tv.1,
                ));
                raw_ts = raw_ts.push(tv);
            }
            cur = q;
            tk = tk + 1;
        }
        proof {
            assert(sp_tensors(data@, p4, wide, tensor_count as nat) == Some((raw_ts, cur as int)))
                by {
                assert(raw_ts + Seq::<(Seq<char>, TensorInfoV)>::empty() =~= raw_ts);
            }
        }

        match compute_data_position(cur as u64, alignment as u64) {
            Some(tensor_data_position) => Ok(Gguf { metadata, tensor_infos, tensor_data_position }),
            None => Err(
                GgufLoadError::InvariantBroken(
                    "the tensor data position cannot be represented".to_owned(),
                ),
            ),
        }
    }
}

} // verus!
