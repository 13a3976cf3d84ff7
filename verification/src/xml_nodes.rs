//! Reading GenICam node declarations from the elements of an XML description: the names
//! the parsers know, the state kept while a node is read, what each child element does
//! to it, and the declarations a finished node yields.
use vstd::prelude::*;
use vstd::utf8::encode_utf8;
use crate::builders::{
    addressing_lengths, av_apply_length, av_attach, av_empty, av_push_value, av_register_selector, av_set_fixed, av_set_length, av_set_p_address,
    bitfield_msg, node_msg, opt_view, spec_addressing_lengths, spec_finalize, spec_finish, AddrView, AddressingBuilder,
    BitfieldBuilder, BitfieldSource, SelectorState,
};
use crate::text::{
    bytes_eq, first_index, lossy_string, spec_parse_signed, spec_parse_unsigned, trim, trimmed, uppered, utf8_lossy,
};
use crate::xml_events::{attr_text, attribute_value, attribute_value_required, missing_attr_msg, ElementHead};
use crate::xml_model::{build_enum_entry, entry_missing_value_msg, number_digits, number_error_msg, number_radix, parse_i64, parse_u64, parse_scale, spec_access_mode, spec_byte_order, spec_parse_scale, unknown_access_msg, AccessMode, Addressing, BitField,
    ByteOrder, ScaleSpec, SkOutput, SwissKnifeDecl, spec_sk_output, EnumEntryDecl, EnumValueSrc,
    XmlError};

verus! {

/// Element and attribute names the node parsers know.
#[derive(Debug, Clone, Copy, PartialEq, Eq, Structural)]
pub enum Tag {
    Address,
    PAddress,
    Length,
    AccessMode,
    Min,
    Max,
    Inc,
    Unit,
    Lsb,
    Msb,
    Bit,
    Mask,
    Endianness,
    Endianess,
    ByteOrder,
    PSelected,
    Selected,
    Scale,
    ScaleNumerator,
    ScaleDenominator,
    Offset,
    EnumEntry,
    PValueDefault,
    Value,
    PValue,
    DisplayName,
    Name,
    Expression,
    PVariable,
    Output,
    PFeature,
    RegisterDescription,
    Integer,
    Float,
    Enumeration,
    Boolean,
    Command,
    Category,
    SwissKnife,
    SchemaMajorVersion,
    SchemaMinorVersion,
    SchemaSubMinorVersion,
}

/// The bytes of a known name.
pub open spec fn tag_bytes(t: Tag) -> Seq<u8> {
    match t {
        Tag::Address => seq![65u8, 100, 100, 114, 101, 115, 115],
        Tag::PAddress => seq![112u8, 65, 100, 100, 114, 101, 115, 115],
        Tag::Length => seq![76u8, 101, 110, 103, 116, 104],
        Tag::AccessMode => seq![65u8, 99, 99, 101, 115, 115, 77, 111, 100, 101],
        Tag::Min => seq![77u8, 105, 110],
        Tag::Max => seq![77u8, 97, 120],
        Tag::Inc => seq![73u8, 110, 99],
        Tag::Unit => seq![85u8, 110, 105, 116],
        Tag::Lsb => seq![76u8, 115, 98],
        Tag::Msb => seq![77u8, 115, 98],
        Tag::Bit => seq![66u8, 105, 116],
        Tag::Mask => seq![77u8, 97, 115, 107],
        Tag::Endianness => seq![69u8, 110, 100, 105, 97, 110, 110, 101, 115, 115],
        Tag::Endianess => seq![69u8, 110, 100, 105, 97, 110, 101, 115, 115],
        Tag::ByteOrder => seq![66u8, 121, 116, 101, 79, 114, 100, 101, 114],
        Tag::PSelected => seq![112u8, 83, 101, 108, 101, 99, 116, 101, 100],
        Tag::Selected => seq![83u8, 101, 108, 101, 99, 116, 101, 100],
        Tag::Scale => seq![83u8, 99, 97, 108, 101],
        Tag::ScaleNumerator => seq![83u8, 99, 97, 108, 101, 78, 117, 109, 101, 114, 97, 116, 111, 114],
        Tag::ScaleDenominator => seq![83u8, 99, 97, 108, 101, 68, 101, 110, 111, 109, 105, 110, 97, 116, 111, 114],
        Tag::Offset => seq![79u8, 102, 102, 115, 101, 116],
        Tag::EnumEntry => seq![69u8, 110, 117, 109, 69, 110, 116, 114, 121],
        Tag::PValueDefault => seq![112u8, 86, 97, 108, 117, 101, 68, 101, 102, 97, 117, 108, 116],
        Tag::Value => seq![86u8, 97, 108, 117, 101],
        Tag::PValue => seq![112u8, 86, 97, 108, 117, 101],
        Tag::DisplayName => seq![68u8, 105, 115, 112, 108, 97, 121, 78, 97, 109, 101],
        Tag::Name => seq![78u8, 97, 109, 101],
        Tag::Expression => seq![69u8, 120, 112, 114, 101, 115, 115, 105, 111, 110],
        Tag::PVariable => seq![112u8, 86, 97, 114, 105, 97, 98, 108, 101],
        Tag::Output => seq![79u8, 117, 116, 112, 117, 116],
        Tag::PFeature => seq![112u8, 70, 101, 97, 116, 117, 114, 101],
        Tag::RegisterDescription => seq![82u8, 101, 103, 105, 115, 116, 101, 114, 68, 101, 115, 99, 114, 105, 112, 116, 105, 111, 110],
        Tag::Integer => seq![73u8, 110, 116, 101, 103, 101, 114],
        Tag::Float => seq![70u8, 108, 111, 97, 116],
        Tag::Enumeration => seq![69u8, 110, 117, 109, 101, 114, 97, 116, 105, 111, 110],
        Tag::Boolean => seq![66u8, 111, 111, 108, 101, 97, 110],
        Tag::Command => seq![67u8, 111, 109, 109, 97, 110, 100],
        Tag::Category => seq![67u8, 97, 116, 101, 103, 111, 114, 121],
        Tag::SwissKnife => seq![83u8, 119, 105, 115, 115, 75, 110, 105, 102, 101],
        Tag::SchemaMajorVersion => seq![83u8, 99, 104, 101, 109, 97, 77, 97, 106, 111, 114, 86, 101, 114, 115, 105, 111, 110],
        Tag::SchemaMinorVersion => seq![83u8, 99, 104, 101, 109, 97, 77, 105, 110, 111, 114, 86, 101, 114, 115, 105, 111, 110],
        Tag::SchemaSubMinorVersion => seq![83u8, 99, 104, 101, 109, 97, 83, 117, 98, 77, 105, 110, 111, 114, 86, 101, 114, 115, 105, 111, 110],
    }
}

/// The known name spelled by `n`, if any.
pub open spec fn spec_tag_of(n: Seq<u8>) -> Option<Tag> {
    if n == tag_bytes(Tag::Address) {
        Some(Tag::Address)
    } else if n == tag_bytes(Tag::PAddress) {
        Some(Tag::PAddress)
    } else if n == tag_bytes(Tag::Length) {
        Some(Tag::Length)
    } else if n == tag_bytes(Tag::AccessMode) {
        Some(Tag::AccessMode)
    } else if n == tag_bytes(Tag::Min) {
        Some(Tag::Min)
    } else if n == tag_bytes(Tag::Max) {
        Some(Tag::Max)
    } else if n == tag_bytes(Tag::Inc) {
        Some(Tag::Inc)
    } else if n == tag_bytes(Tag::Unit) {
        Some(Tag::Unit)
    } else if n == tag_bytes(Tag::Lsb) {
        Some(Tag::Lsb)
    } else if n == tag_bytes(Tag::Msb) {
        Some(Tag::Msb)
    } else if n == tag_bytes(Tag::Bit) {
        Some(Tag::Bit)
    } else if n == tag_bytes(Tag::Mask) {
        Some(Tag::Mask)
    } else if n == tag_bytes(Tag::Endianness) {
        Some(Tag::Endianness)
    } else if n == tag_bytes(Tag::Endianess) {
        Some(Tag::Endianess)
    } else if n == tag_bytes(Tag::ByteOrder) {
        Some(Tag::ByteOrder)
    } else if n == tag_bytes(Tag::PSelected) {
        Some(Tag::PSelected)
    } else if n == tag_bytes(Tag::Selected) {
        Some(Tag::Selected)
    } else if n == tag_bytes(Tag::Scale) {
        Some(Tag::Scale)
    } else if n == tag_bytes(Tag::ScaleNumerator) {
        Some(Tag::ScaleNumerator)
    } else if n == tag_bytes(Tag::ScaleDenominator) {
        Some(Tag::ScaleDenominator)
    } else if n == tag_bytes(Tag::Offset) {
        Some(Tag::Offset)
    } else if n == tag_bytes(Tag::EnumEntry) {
        Some(Tag::EnumEntry)
    } else if n == tag_bytes(Tag::PValueDefault) {
        Some(Tag::PValueDefault)
    } else if n == tag_bytes(Tag::Value) {
        Some(Tag::Value)
    } else if n == tag_bytes(Tag::PValue) {
        Some(Tag::PValue)
    } else if n == tag_bytes(Tag::DisplayName) {
        Some(Tag::DisplayName)
    } else if n == tag_bytes(Tag::Name) {
        Some(Tag::Name)
    } else if n == tag_bytes(Tag::Expression) {
        Some(Tag::Expression)
    } else if n == tag_bytes(Tag::PVariable) {
        Some(Tag::PVariable)
    } else if n == tag_bytes(Tag::Output) {
        Some(Tag::Output)
    } else if n == tag_bytes(Tag::PFeature) {
        Some(Tag::PFeature)
    } else if n == tag_bytes(Tag::RegisterDescription) {
        Some(Tag::RegisterDescription)
    } else if n == tag_bytes(Tag::Integer) {
        Some(Tag::Integer)
    } else if n == tag_bytes(Tag::Float) {
        Some(Tag::Float)
    } else if n == tag_bytes(Tag::Enumeration) {
        Some(Tag::Enumeration)
    } else if n == tag_bytes(Tag::Boolean) {
        Some(Tag::Boolean)
    } else if n == tag_bytes(Tag::Command) {
        Some(Tag::Command)
    } else if n == tag_bytes(Tag::Category) {
        Some(Tag::Category)
    } else if n == tag_bytes(Tag::SwissKnife) {
        Some(Tag::SwissKnife)
    } else if n == tag_bytes(Tag::SchemaMajorVersion) {
        Some(Tag::SchemaMajorVersion)
    } else if n == tag_bytes(Tag::SchemaMinorVersion) {
        Some(Tag::SchemaMinorVersion)
    } else if n == tag_bytes(Tag::SchemaSubMinorVersion) {
        Some(Tag::SchemaSubMinorVersion)
    } else {
        None
    }
}

/// The bytes of a known name, as a vector.
pub fn tag_vec(t: Tag) -> (v: Vec<u8>)
    ensures
        v@ == tag_bytes(t),
{
    match t {
        Tag::Address => {
            let a: [u8; 7] = [65, 100, 100, 114, 101, 115, 115];
            assert(a@ =~= tag_bytes(Tag::Address));
            vstd::slice::slice_to_vec(a.as_slice())
        },
        Tag::PAddress => {
            let a: [u8; 8] = [112, 65, 100, 100, 114, 101, 115, 115];
            assert(a@ =~= tag_bytes(Tag::PAddress));
            vstd::slice::slice_to_vec(a.as_slice())
        },
        Tag::Length => {
            let a: [u8; 6] = [76, 101, 110, 103, 116, 104];
            assert(a@ =~= tag_bytes(Tag::Length));
            vstd::slice::slice_to_vec(a.as_slice())
        },
        Tag::AccessMode => {
            let a: [u8; 10] = [65, 99, 99, 101, 115, 115, 77, 111, 100, 101];
            assert(a@ =~= tag_bytes(Tag::AccessMode));
            vstd::slice::slice_to_vec(a.as_slice())
        },
        Tag::Min => {
            let a: [u8; 3] = [77, 105, 110];
            assert(a@ =~= tag_bytes(Tag::Min));
            vstd::slice::slice_to_vec(a.as_slice())
        },
        Tag::Max => {
            let a: [u8; 3] = [77, 97, 120];
            assert(a@ =~= tag_bytes(Tag::Max));
            vstd::slice::slice_to_vec(a.as_slice())
        },
        Tag::Inc => {
            let a: [u8; 3] = [73, 110, 99];
            assert(a@ =~= tag_bytes(Tag::Inc));
            vstd::slice::slice_to_vec(a.as_slice())
        },
        Tag::Unit => {
            let a: [u8; 4] = [85, 110, 105, 116];
            assert(a@ =~= tag_bytes(Tag::Unit));
            vstd::slice::slice_to_vec(a.as_slice())
        },
        Tag::Lsb => {
            let a: [u8; 3] = [76, 115, 98];
            assert(a@ =~= tag_bytes(Tag::Lsb));
            vstd::slice::slice_to_vec(a.as_slice())
        },
        Tag::Msb => {
            let a: [u8; 3] = [77, 115, 98];
            assert(a@ =~= tag_bytes(Tag::Msb));
            vstd::slice::slice_to_vec(a.as_slice())
        },
        Tag::Bit => {
            let a: [u8; 3] = [66, 105, 116];
            assert(a@ =~= tag_bytes(Tag::Bit));
            vstd::slice::slice_to_vec(a.as_slice())
        },
        Tag::Mask => {
            let a: [u8; 4] = [77, 97, 115, 107];
            assert(a@ =~= tag_bytes(Tag::Mask));
            vstd::slice::slice_to_vec(a.as_slice())
        },
        Tag::Endianness => {
            let a: [u8; 10] = [69, 110, 100, 105, 97, 110, 110, 101, 115, 115];
            assert(a@ =~= tag_bytes(Tag::Endianness));
            vstd::slice::slice_to_vec(a.as_slice())
        },
        Tag::Endianess => {
            let a: [u8; 9] = [69, 110, 100, 105, 97, 110, 101, 115, 115];
            assert(a@ =~= tag_bytes(Tag::Endianess));
            vstd::slice::slice_to_vec(a.as_slice())
        },
        Tag::ByteOrder => {
            let a: [u8; 9] = [66, 121, 116, 101, 79, 114, 100, 101, 114];
            assert(a@ =~= tag_bytes(Tag::ByteOrder));
            vstd::slice::slice_to_vec(a.as_slice())
        },
        Tag::PSelected => {
            let a: [u8; 9] = [112, 83, 101, 108, 101, 99, 116, 101, 100];
            assert(a@ =~= tag_bytes(Tag::PSelected));
            vstd::slice::slice_to_vec(a.as_slice())
        },
        Tag::Selected => {
            let a: [u8; 8] = [83, 101, 108, 101, 99, 116, 101, 100];
            assert(a@ =~= tag_bytes(Tag::Selected));
            vstd::slice::slice_to_vec(a.as_slice())
        },
        Tag::Scale => {
            let a: [u8; 5] = [83, 99, 97, 108, 101];
            assert(a@ =~= tag_bytes(Tag::Scale));
            vstd::slice::slice_to_vec(a.as_slice())
        },
        Tag::ScaleNumerator => {
            let a: [u8; 14] = [83, 99, 97, 108, 101, 78, 117, 109, 101, 114, 97, 116, 111, 114];
            assert(a@ =~= tag_bytes(Tag::ScaleNumerator));
            vstd::slice::slice_to_vec(a.as_slice())
        },
        Tag::ScaleDenominator => {
            let a: [u8; 16] = [83, 99, 97, 108, 101, 68, 101, 110, 111, 109, 105, 110, 97, 116, 111, 114];
            assert(a@ =~= tag_bytes(Tag::ScaleDenominator));
            vstd::slice::slice_to_vec(a.as_slice())
        },
        Tag::Offset => {
            let a: [u8; 6] = [79, 102, 102, 115, 101, 116];
            assert(a@ =~= tag_bytes(Tag::Offset));
            vstd::slice::slice_to_vec(a.as_slice())
        },
        Tag::EnumEntry => {
            let a: [u8; 9] = [69, 110, 117, 109, 69, 110, 116, 114, 121];
            assert(a@ =~= tag_bytes(Tag::EnumEntry));
            vstd::slice::slice_to_vec(a.as_slice())
        },
        Tag::PValueDefault => {
            let a: [u8; 13] = [112, 86, 97, 108, 117, 101, 68, 101, 102, 97, 117, 108, 116];
            assert(a@ =~= tag_bytes(Tag::PValueDefault));
            vstd::slice::slice_to_vec(a.as_slice())
        },
        Tag::Value => {
            let a: [u8; 5] = [86, 97, 108, 117, 101];
            assert(a@ =~= tag_bytes(Tag::Value));
            vstd::slice::slice_to_vec(a.as_slice())
        },
        Tag::PValue => {
            let a: [u8; 6] = [112, 86, 97, 108, 117, 101];
            assert(a@ =~= tag_bytes(Tag::PValue));
            vstd::slice::slice_to_vec(a.as_slice())
        },
        Tag::DisplayName => {
            let a: [u8; 11] = [68, 105, 115, 112, 108, 97, 121, 78, 97, 109, 101];
            assert(a@ =~= tag_bytes(Tag::DisplayName));
            vstd::slice::slice_to_vec(a.as_slice())
        },
        Tag::Name => {
            let a: [u8; 4] = [78, 97, 109, 101];
            assert(a@ =~= tag_bytes(Tag::Name));
            vstd::slice::slice_to_vec(a.as_slice())
        },
        Tag::Expression => {
            let a: [u8; 10] = [69, 120, 112, 114, 101, 115, 115, 105, 111, 110];
            assert(a@ =~= tag_bytes(Tag::Expression));
            vstd::slice::slice_to_vec(a.as_slice())
        },
        Tag::PVariable => {
            let a: [u8; 9] = [112, 86, 97, 114, 105, 97, 98, 108, 101];
            assert(a@ =~= tag_bytes(Tag::PVariable));
            vstd::slice::slice_to_vec(a.as_slice())
        },
        Tag::Output => {
            let a: [u8; 6] = [79, 117, 116, 112, 117, 116];
            assert(a@ =~= tag_bytes(Tag::Output));
            vstd::slice::slice_to_vec(a.as_slice())
        },
        Tag::PFeature => {
            let a: [u8; 8] = [112, 70, 101, 97, 116, 117, 114, 101];
            assert(a@ =~= tag_bytes(Tag::PFeature));
            vstd::slice::slice_to_vec(a.as_slice())
        },
        Tag::RegisterDescription => {
            let a: [u8; 19] = [82, 101, 103, 105, 115, 116, 101, 114, 68, 101, 115, 99, 114, 105, 112, 116, 105, 111, 110];
            assert(a@ =~= tag_bytes(Tag::RegisterDescription));
            vstd::slice::slice_to_vec(a.as_slice())
        },
        Tag::Integer => {
            let a: [u8; 7] = [73, 110, 116, 101, 103, 101, 114];
            assert(a@ =~= tag_bytes(Tag::Integer));
            vstd::slice::slice_to_vec(a.as_slice())
        },
        Tag::Float => {
            let a: [u8; 5] = [70, 108, 111, 97, 116];
            assert(a@ =~= tag_bytes(Tag::Float));
            vstd::slice::slice_to_vec(a.as_slice())
        },
        Tag::Enumeration => {
            let a: [u8; 11] = [69, 110, 117, 109, 101, 114, 97, 116, 105, 111, 110];
            assert(a@ =~= tag_bytes(Tag::Enumeration));
            vstd::slice::slice_to_vec(a.as_slice())
        },
        Tag::Boolean => {
            let a: [u8; 7] = [66, 111, 111, 108, 101, 97, 110];
            assert(a@ =~= tag_bytes(Tag::Boolean));
            vstd::slice::slice_to_vec(a.as_slice())
        },
        Tag::Command => {
            let a: [u8; 7] = [67, 111, 109, 109, 97, 110, 100];
            assert(a@ =~= tag_bytes(Tag::Command));
            vstd::slice::slice_to_vec(a.as_slice())
        },
        Tag::Category => {
            let a: [u8; 8] = [67, 97, 116, 101, 103, 111, 114, 121];
            assert(a@ =~= tag_bytes(Tag::Category));
            vstd::slice::slice_to_vec(a.as_slice())
        },
        Tag::SwissKnife => {
            let a: [u8; 10] = [83, 119, 105, 115, 115, 75, 110, 105, 102, 101];
            assert(a@ =~= tag_bytes(Tag::SwissKnife));
            vstd::slice::slice_to_vec(a.as_slice())
        },
        Tag::SchemaMajorVersion => {
            let a: [u8; 18] = [83, 99, 104, 101, 109, 97, 77, 97, 106, 111, 114, 86, 101, 114, 115, 105, 111, 110];
            assert(a@ =~= tag_bytes(Tag::SchemaMajorVersion));
            vstd::slice::slice_to_vec(a.as_slice())
        },
        Tag::SchemaMinorVersion => {
            let a: [u8; 18] = [83, 99, 104, 101, 109, 97, 77, 105, 110, 111, 114, 86, 101, 114, 115, 105, 111, 110];
            assert(a@ =~= tag_bytes(Tag::SchemaMinorVersion));
            vstd::slice::slice_to_vec(a.as_slice())
        },
        Tag::SchemaSubMinorVersion => {
            let a: [u8; 21] = [83, 99, 104, 101, 109, 97, 83, 117, 98, 77, 105, 110, 111, 114, 86, 101, 114, 115, 105, 111, 110];
            assert(a@ =~= tag_bytes(Tag::SchemaSubMinorVersion));
            vstd::slice::slice_to_vec(a.as_slice())
        },
    }
}

/// Classify an element name.
pub fn tag_of(n: &[u8]) -> (t: Option<Tag>)
    ensures
        t == spec_tag_of(n@),
{
    if bytes_eq(n, tag_vec(Tag::Address).as_slice()) {
        return Some(Tag::Address);
    }
    if bytes_eq(n, tag_vec(Tag::PAddress).as_slice()) {
        return Some(Tag::PAddress);
    }
    if bytes_eq(n, tag_vec(Tag::Length).as_slice()) {
        return Some(Tag::Length);
    }
    if bytes_eq(n, tag_vec(Tag::AccessMode).as_slice()) {
        return Some(Tag::AccessMode);
    }
    if bytes_eq(n, tag_vec(Tag::Min).as_slice()) {
        return Some(Tag::Min);
    }
    if bytes_eq(n, tag_vec(Tag::Max).as_slice()) {
        return Some(Tag::Max);
    }
    if bytes_eq(n, tag_vec(Tag::Inc).as_slice()) {
        return Some(Tag::Inc);
    }
    if bytes_eq(n, tag_vec(Tag::Unit).as_slice()) {
        return Some(Tag::Unit);
    }
    if bytes_eq(n, tag_vec(Tag::Lsb).as_slice()) {
        return Some(Tag::Lsb);
    }
    if bytes_eq(n, tag_vec(Tag::Msb).as_slice()) {
        return Some(Tag::Msb);
    }
    if bytes_eq(n, tag_vec(Tag::Bit).as_slice()) {
        return Some(Tag::Bit);
    }
    if bytes_eq(n, tag_vec(Tag::Mask).as_slice()) {
        return Some(Tag::Mask);
    }
    if bytes_eq(n, tag_vec(Tag::Endianness).as_slice()) {
        return Some(Tag::Endianness);
    }
    if bytes_eq(n, tag_vec(Tag::Endianess).as_slice()) {
        return Some(Tag::Endianess);
    }
    if bytes_eq(n, tag_vec(Tag::ByteOrder).as_slice()) {
        return Some(Tag::ByteOrder);
    }
    if bytes_eq(n, tag_vec(Tag::PSelected).as_slice()) {
        return Some(Tag::PSelected);
    }
    if bytes_eq(n, tag_vec(Tag::Selected).as_slice()) {
        return Some(Tag::Selected);
    }
    if bytes_eq(n, tag_vec(Tag::Scale).as_slice()) {
        return Some(Tag::Scale);
    }
    if bytes_eq(n, tag_vec(Tag::ScaleNumerator).as_slice()) {
        return Some(Tag::ScaleNumerator);
    }
    if bytes_eq(n, tag_vec(Tag::ScaleDenominator).as_slice()) {
        return Some(Tag::ScaleDenominator);
    }
    if bytes_eq(n, tag_vec(Tag::Offset).as_slice()) {
        return Some(Tag::Offset);
    }
    if bytes_eq(n, tag_vec(Tag::EnumEntry).as_slice()) {
        return Some(Tag::EnumEntry);
    }
    if bytes_eq(n, tag_vec(Tag::PValueDefault).as_slice()) {
        return Some(Tag::PValueDefault);
    }
    if bytes_eq(n, tag_vec(Tag::Value).as_slice()) {
        return Some(Tag::Value);
    }
    if bytes_eq(n, tag_vec(Tag::PValue).as_slice()) {
        return Some(Tag::PValue);
    }
    if bytes_eq(n, tag_vec(Tag::DisplayName).as_slice()) {
        return Some(Tag::DisplayName);
    }
    if bytes_eq(n, tag_vec(Tag::Name).as_slice()) {
        return Some(Tag::Name);
    }
    if bytes_eq(n, tag_vec(Tag::Expression).as_slice()) {
        return Some(Tag::Expression);
    }
    if bytes_eq(n, tag_vec(Tag::PVariable).as_slice()) {
        return Some(Tag::PVariable);
    }
    if bytes_eq(n, tag_vec(Tag::Output).as_slice()) {
        return Some(Tag::Output);
    }
    if bytes_eq(n, tag_vec(Tag::PFeature).as_slice()) {
        return Some(Tag::PFeature);
    }
    if bytes_eq(n, tag_vec(Tag::RegisterDescription).as_slice()) {
        return Some(Tag::RegisterDescription);
    }
    if bytes_eq(n, tag_vec(Tag::Integer).as_slice()) {
        return Some(Tag::Integer);
    }
    if bytes_eq(n, tag_vec(Tag::Float).as_slice()) {
        return Some(Tag::Float);
    }
    if bytes_eq(n, tag_vec(Tag::Enumeration).as_slice()) {
        return Some(Tag::Enumeration);
    }
    if bytes_eq(n, tag_vec(Tag::Boolean).as_slice()) {
        return Some(Tag::Boolean);
    }
    if bytes_eq(n, tag_vec(Tag::Command).as_slice()) {
        return Some(Tag::Command);
    }
    if bytes_eq(n, tag_vec(Tag::Category).as_slice()) {
        return Some(Tag::Category);
    }
    if bytes_eq(n, tag_vec(Tag::SwissKnife).as_slice()) {
        return Some(Tag::SwissKnife);
    }
    if bytes_eq(n, tag_vec(Tag::SchemaMajorVersion).as_slice()) {
        return Some(Tag::SchemaMajorVersion);
    }
    if bytes_eq(n, tag_vec(Tag::SchemaMinorVersion).as_slice()) {
        return Some(Tag::SchemaMinorVersion);
    }
    if bytes_eq(n, tag_vec(Tag::SchemaSubMinorVersion).as_slice()) {
        return Some(Tag::SchemaSubMinorVersion);
    }
    None
}

// ---------------------------------------------------------------------------
// Errors and texts as the contracts see them
// ---------------------------------------------------------------------------

/// An error with its message as a character sequence.
pub enum Fail {
    Xml(Seq<char>),
    Invalid(Seq<char>),
    Transport(Seq<char>),
    Unsupported(Seq<char>),
}

/// The message of an error, by variant.
pub open spec fn fail_of(e: XmlError) -> Fail {
    match e {
        XmlError::Xml(m) => Fail::Xml(m@),
        XmlError::Invalid(m) => Fail::Invalid(m@),
        XmlError::Transport(m) => Fail::Transport(m@),
        XmlError::Unsupported(m) => Fail::Unsupported(m@),
    }
}

/// Whether `r` is the outcome `s`: the same value, or an error with the same message.
pub open spec fn same<T>(r: Result<T, XmlError>, s: Result<T, Fail>) -> bool {
    match s {
        Ok(v) => r == Ok::<T, XmlError>(v),
        Err(f) => r is Err && fail_of(r->Err_0) == f,
    }
}

/// A text read from the document, or why reading it failed.
pub open spec fn text_of(r: Result<String, XmlError>) -> Result<Seq<char>, Fail> {
    match r {
        Ok(s) => Ok(s@),
        Err(e) => Err(fail_of(e)),
    }
}

/// The UTF-8 bytes of a text.
pub open spec fn tb(t: Seq<char>) -> Seq<u8> {
    encode_utf8(t)
}

/// A text trimmed, or nothing when only whitespace is left.
pub open spec fn trim_text(t: Seq<char>) -> Option<Seq<char>> {
    if trimmed(tb(t)).len() > 0 {
        Some(utf8_lossy(trimmed(tb(t))))
    } else {
        None
    }
}

/// An unsigned 64-bit number written in `t` (decimal, or hex after `0x`; `_` ignored).
pub open spec fn num_u64(t: Seq<u8>) -> Result<u64, Fail> {
    let x = trimmed(t);
    match spec_parse_unsigned(number_digits(x), number_radix(x), u64::MAX as nat) {
        Ok(v) => Ok(v as u64),
        Err(k) => Err(Fail::Invalid(number_error_msg(x, k))),
    }
}

/// A signed 64-bit number written in `t` (decimal, or hex after `0x`; `_` ignored).
pub open spec fn num_i64(t: Seq<u8>) -> Result<i64, Fail> {
    let x = trimmed(t);
    match spec_parse_signed(number_digits(x), number_radix(x)) {
        Ok(v) => Ok(v),
        Err(k) => Err(Fail::Invalid(number_error_msg(x, k))),
    }
}

/// `v` as a 32-bit number, or the error `msg` when it does not fit.
pub open spec fn as_u32(v: u64, msg: Seq<char>) -> Result<u32, Fail> {
    if v <= u32::MAX {
        Ok(v as u32)
    } else {
        Err(Fail::Invalid(msg))
    }
}

/// A 32-bit number written in `t`, or the error `msg` when it does not fit.
pub open spec fn num_u32(t: Seq<u8>, msg: Seq<char>) -> Result<u32, Fail> {
    match num_u64(t) {
        Err(f) => Err(f),
        Ok(v) => as_u32(v, msg),
    }
}

/// Message for a register length that does not fit in 32 bits.
pub open spec fn len_msg(node: Seq<char>) -> Seq<char> {
    "length out of range for node "@ + node
}

/// The message for a register length that does not fit in 32 bits.
pub fn len_message(node: &str) -> (m: String)
    ensures
        m@ == len_msg(node@),
{
    let mut m = String::from_str("length out of range for node ");
    m.append(node);
    m
}

/// Parse an unsigned 64-bit number.
pub fn u64_of(text: &str) -> (r: Result<u64, XmlError>)
    ensures
        same(r, num_u64(tb(text@))),
{
    parse_u64(text)
}

/// Parse a signed 64-bit number.
pub fn i64_of(text: &str) -> (r: Result<i64, XmlError>)
    ensures
        same(r, num_i64(tb(text@))),
{
    parse_i64(text)
}

/// Parse a 32-bit number; `msg` is the error when it does not fit.
pub fn u32_of(text: &str, msg: String) -> (r: Result<u32, XmlError>)
    ensures
        same(r, num_u32(tb(text@), msg@)),
{
    match parse_u64(text) {
        Err(e) => Err(e),
        Ok(v) => if v <= 0xffff_ffffu64 {
            Ok(v as u32)
        } else {
            Err(XmlError::Invalid(msg))
        },
    }
}

/// The text trimmed, or `None` when only whitespace is left.
pub fn trim_string(text: &str) -> (r: Option<String>)
    ensures
        opt_view(r) == trim_text(text@),
{
    let t = trim(text.as_bytes());
    if t.len() > 0 {
        Some(lossy_string(t))
    } else {
        None
    }
}

/// `prefix`, then `node`, then `suffix`.
pub fn message(prefix: &str, node: &str, suffix: &str) -> (m: String)
    ensures
        m@ == prefix@ + node@ + suffix@,
{
    let mut m = String::from_str(prefix);
    m.append(node);
    m.append(suffix);
    m
}

/// `prefix`, then `node`.
pub fn prefixed(prefix: &str, node: &str) -> (m: String)
    ensures
        m@ == prefix@ + node@,
{
    let mut m = String::from_str(prefix);
    m.append(node);
    m
}

/// An `XmlError::Invalid` with the message `prefix`, `node`, `suffix`.
pub fn invalid(prefix: &str, node: &str, suffix: &str) -> (e: XmlError)
    ensures
        fail_of(e) == Fail::Invalid(prefix@ + node@ + suffix@),
{
    XmlError::Invalid(message(prefix, node, suffix))
}

/// The attribute `name` of a tag, trimmed, `None` when absent or blank.
pub open spec fn attr_of(h: ElementHead, name: Tag) -> Result<Option<Seq<char>>, Fail> {
    match attr_text(h, tag_bytes(name)) {
        Err(m) => Err(Fail::Xml(m)),
        Ok(v) => Ok(v),
    }
}

/// Look up the attribute `name` of a tag.
pub fn attr(h: &ElementHead, name: Tag) -> (r: Result<Option<String>, XmlError>)
    ensures
        match attr_of(*h, name) {
            Err(f) => r is Err && fail_of(r->Err_0) == f,
            Ok(v) => r is Ok && opt_view(r->Ok_0) == v,
        },
{
    let key = tag_vec(name);
    attribute_value(h, key.as_slice())
}

/// The required attribute `name` of a tag.
pub open spec fn required_of(h: ElementHead, name: Tag) -> Result<Seq<char>, Fail> {
    match attr_of(h, name) {
        Err(f) => Err(f),
        Ok(None) => Err(Fail::Invalid(missing_attr_msg(tag_bytes(name)))),
        Ok(Some(v)) => Ok(v),
    }
}

/// Look up the required attribute `name` of a tag.
pub fn required(h: &ElementHead, name: Tag) -> (r: Result<String, XmlError>)
    ensures
        match required_of(*h, name) {
            Err(f) => r is Err && fail_of(r->Err_0) == f,
            Ok(v) => r is Ok && r->Ok_0@ == v,
        },
{
    let key = tag_vec(name);
    attribute_value_required(h, key.as_slice())
}

// ---------------------------------------------------------------------------
// The state of a register-backed node while its children are read
// ---------------------------------------------------------------------------

/// The kinds of register-backed nodes.
#[derive(Debug, Clone, Copy, PartialEq, Eq, Structural)]
pub enum NodeKind {
    Integer,
    Float,
    Enumeration,
    Boolean,
}

/// How the numerator of a float scale was written.
#[derive(Debug, Clone, PartialEq, Eq)]
pub enum ScaleNum {
    /// An integer numerator.
    Int(i64),
    /// A decimal scale: the numerator is this number times `1_000_000`, rounded (the
    /// denominator then is `1_000_000`).
    Decimal(String),
}

/// What is known of a register-backed node while its children are read.
pub struct NodeState {
    pub kind: NodeKind,
    pub name: String,
    pub addressing: AddressingBuilder,
    pub access: AccessMode,
    /// Integer bounds and increment.
    pub min: Option<i64>,
    pub max: Option<i64>,
    pub inc: Option<i64>,
    pub unit: Option<String>,
    pub bitfield: BitfieldBuilder,
    /// A `<Bit>` was seen and the next `<Length>` gives its width.
    pub pending_bit_length: bool,
    pub selectors: SelectorState,
    /// Float bounds and offset, as written.
    pub float_min: Option<String>,
    pub float_max: Option<String>,
    pub offset: Option<String>,
    pub scale_num: Option<ScaleNum>,
    pub scale_den: Option<i64>,
    /// Enumeration entries and default.
    pub entries: Vec<EnumEntryDecl>,
    pub default: Option<String>,
}

/// A scale numerator with its text as a character sequence.
pub enum NumView {
    Int(i64),
    Decimal(Seq<char>),
}

/// The selector state with texts as character sequences.
pub struct SelView {
    pub selectors: Seq<Seq<char>>,
    pub selected_if: Seq<(Seq<char>, Seq<Seq<char>>)>,
    pub last: Option<usize>,
}

/// Where an enumeration entry's value comes from.
pub enum SrcView {
    Literal(i64),
    FromNode(Seq<char>),
}

/// An enumeration entry with texts as character sequences.
pub struct EntryView {
    pub name: Seq<char>,
    pub value: SrcView,
    pub display_name: Option<Seq<char>>,
}

/// What a node state holds, with texts as character sequences.
pub struct NodeView {
    pub kind: NodeKind,
    pub name: Seq<char>,
    pub addr: AddrView,
    pub access: AccessMode,
    pub min: Option<i64>,
    pub max: Option<i64>,
    pub inc: Option<i64>,
    pub unit: Option<Seq<char>>,
    pub bits: BitfieldBuilder,
    pub pending: bool,
    pub sel: SelView,
    pub float_min: Option<Seq<char>>,
    pub float_max: Option<Seq<char>>,
    pub offset: Option<Seq<char>>,
    pub scale_num: Option<NumView>,
    pub scale_den: Option<i64>,
    pub entries: Seq<EntryView>,
    pub default: Option<Seq<char>>,
}

/// The texts of a list of strings.
pub open spec fn texts(v: Seq<String>) -> Seq<Seq<char>> {
    v.map_values(|s: String| s@)
}

/// The selector state's contents.
pub open spec fn sel_view(s: SelectorState) -> SelView {
    SelView {
        selectors: texts(s.selectors@),
        selected_if: s.selected_if@.map_values(|p: (String, Vec<String>)| (p.0@, texts(p.1@))),
        last: s.last_selector,
    }
}

/// An enumeration entry's contents.
pub open spec fn entry_view(e: EnumEntryDecl) -> EntryView {
    EntryView {
        name: e.name@,
        value: match e.value {
            EnumValueSrc::Literal(v) => SrcView::Literal(v),
            EnumValueSrc::FromNode(n) => SrcView::FromNode(n@),
        },
        display_name: opt_view(e.display_name),
    }
}

/// A scale numerator's contents.
pub open spec fn num_view(n: Option<ScaleNum>) -> Option<NumView> {
    match n {
        None => None,
        Some(ScaleNum::Int(v)) => Some(NumView::Int(v)),
        Some(ScaleNum::Decimal(t)) => Some(NumView::Decimal(t@)),
    }
}

impl NodeState {
    /// The state's contents.
    pub open spec fn view(&self) -> NodeView {
        NodeView {
            kind: self.kind,
            name: self.name@,
            addr: self.addressing.view(),
            access: self.access,
            min: self.min,
            max: self.max,
            inc: self.inc,
            unit: opt_view(self.unit),
            bits: self.bitfield,
            pending: self.pending_bit_length,
            sel: sel_view(self.selectors),
            float_min: opt_view(self.float_min),
            float_max: opt_view(self.float_max),
            offset: opt_view(self.offset),
            scale_num: num_view(self.scale_num),
            scale_den: self.scale_den,
            entries: self.entries@.map_values(|e: EnumEntryDecl| entry_view(e)),
            default: opt_view(self.default),
        }
    }

    /// The last selector named, if any, is one of the gating rules.
    pub open spec fn wf(&self) -> bool {
        self.selectors.last_selector matches Some(i) ==> i < self.selectors.selected_if@.len()
    }
}

/// A state with nothing read yet but the node's name and addressing.
pub open spec fn fresh(kind: NodeKind, name: Seq<char>, addr: AddrView) -> NodeView {
    NodeView {
        kind,
        name,
        addr,
        access: AccessMode::RW,
        min: None,
        max: None,
        inc: None,
        unit: None,
        bits: BitfieldBuilder {
            lsb: None,
            msb: None,
            bit: None,
            bit_length: None,
            mask: None,
            byte_order: None,
            source: None,
        },
        pending: false,
        sel: SelView { selectors: Seq::empty(), selected_if: Seq::empty(), last: None },
        float_min: None,
        float_max: None,
        offset: None,
        scale_num: None,
        scale_den: None,
        entries: Seq::empty(),
        default: None,
    }
}

/// The addressing given by the attributes of the node's own tag.
pub open spec fn head_addressing(h: ElementHead, name: Seq<char>) -> Result<AddrView, Fail> {
    match attr_of(h, Tag::Address) {
        Err(f) => Err(f),
        Ok(a) => {
            let a1 = match a {
                None => Ok(av_empty()),
                Some(at) => match num_u64(tb(at)) {
                    Err(f) => Err(f),
                    Ok(x) => Ok(av_set_fixed(av_empty(), x)),
                },
            };
            match a1 {
                Err(f) => Err(f),
                Ok(addr1) => match attr_of(h, Tag::Length) {
                    Err(f) => Err(f),
                    Ok(None) => Ok(addr1),
                    Ok(Some(lt)) => match num_u32(tb(lt), len_msg(name)) {
                        Err(f) => Err(f),
                        Ok(l) => Ok(av_set_length(addr1, l)),
                    },
                },
            }
        },
    }
}

/// The state at the start of a node: its name, and the addressing of its own tag.
pub open spec fn begin_spec(kind: NodeKind, h: ElementHead) -> Result<NodeView, Fail> {
    match required_of(h, Tag::Name) {
        Err(f) => Err(f),
        Ok(name) => match head_addressing(h, name) {
            Err(f) => Err(f),
            Ok(addr) => Ok(fresh(kind, name, addr)),
        },
    }
}

impl NodeState {
    /// Start reading a node of `kind` from its own tag.
    pub fn begin(kind: NodeKind, head: &ElementHead) -> (r: Result<NodeState, XmlError>)
        ensures
            match begin_spec(kind, *head) {
                Err(f) => r is Err && fail_of(r->Err_0) == f,
                Ok(v) => r is Ok && r->Ok_0.view() == v && r->Ok_0.wf(),
            },
    {
        let name = match required(head, Tag::Name) {
            Ok(n) => n,
            Err(e) => return Err(e),
        };
        let mut addressing = AddressingBuilder::default();
        match attr(head, Tag::Address) {
            Err(e) => return Err(e),
            Ok(None) => {},
            Ok(Some(a)) => match u64_of(a.as_str()) {
                Err(e) => return Err(e),
                Ok(x) => addressing.set_fixed_address(x),
            },
        }
        match attr(head, Tag::Length) {
            Err(e) => return Err(e),
            Ok(None) => {},
            Ok(Some(l)) => {
                let msg = len_message(name.as_str());
                match u32_of(l.as_str(), msg) {
                    Err(e) => return Err(e),
                    Ok(x) => addressing.set_length(x),
                }
            },
        }
        let st = NodeState {
            kind,
            name,
            addressing,
            access: AccessMode::RW,
            min: None,
            max: None,
            inc: None,
            unit: None,
            bitfield: BitfieldBuilder::default(),
            pending_bit_length: false,
            selectors: SelectorState::new(),
            float_min: None,
            float_max: None,
            offset: None,
            scale_num: None,
            scale_den: None,
            entries: Vec::new(),
            default: None,
        };
        assert(st.view().sel.selectors =~= Seq::<Seq<char>>::empty());
        assert(st.view().sel.selected_if =~= Seq::<(Seq<char>, Seq<Seq<char>>)>::empty());
        assert(st.view().entries =~= Seq::<EntryView>::empty());
        Ok(st)
    }
}

// ---------------------------------------------------------------------------
// What each child element does to a node state
// ---------------------------------------------------------------------------

/// Integers and booleans read bitfield elements, and a `<Length>` after `<Bit>` is its width.
pub open spec fn bit_aware(kind: NodeKind) -> bool {
    kind == NodeKind::Integer || kind == NodeKind::Boolean
}

/// Whether a child start tag of a node of `kind` is read as text (others are skipped; an
/// enumeration's `<EnumEntry>` is read as an entry).
pub open spec fn reads_child(kind: NodeKind, t: Tag) -> bool {
    match t {
        Tag::Address | Tag::PAddress | Tag::Length | Tag::AccessMode | Tag::PSelected
        | Tag::Selected => true,
        Tag::Min | Tag::Max | Tag::Unit => kind == NodeKind::Integer || kind == NodeKind::Float,
        Tag::Inc => kind == NodeKind::Integer,
        Tag::Lsb | Tag::Msb | Tag::Bit | Tag::Mask | Tag::Endianness | Tag::Endianess
        | Tag::ByteOrder => bit_aware(kind),
        Tag::Scale | Tag::ScaleNumerator | Tag::ScaleDenominator | Tag::Offset => kind
            == NodeKind::Float,
        Tag::PValueDefault => kind == NodeKind::Enumeration,
        _ => false,
    }
}

/// `reads_child`, computed.
pub fn reads(kind: NodeKind, t: Tag) -> (b: bool)
    ensures
        b == reads_child(kind, t),
{
    match t {
        Tag::Address | Tag::PAddress | Tag::Length | Tag::AccessMode | Tag::PSelected
        | Tag::Selected => true,
        Tag::Min | Tag::Max | Tag::Unit => kind == NodeKind::Integer || kind == NodeKind::Float,
        Tag::Inc => kind == NodeKind::Integer,
        Tag::Lsb | Tag::Msb | Tag::Bit | Tag::Mask | Tag::Endianness | Tag::Endianess
        | Tag::ByteOrder => kind == NodeKind::Integer || kind == NodeKind::Boolean,
        Tag::Scale | Tag::ScaleNumerator | Tag::ScaleDenominator | Tag::Offset => kind
            == NodeKind::Float,
        Tag::PValueDefault => kind == NodeKind::Enumeration,
        _ => false,
    }
}

/// The bitfield builder after `note_lsb`.
pub open spec fn bb_lsb(b: BitfieldBuilder, v: u32) -> BitfieldBuilder {
    if b.source is Some && b.source != Some(BitfieldSource::LsbMsb) {
        b
    } else {
        BitfieldBuilder { source: Some(BitfieldSource::LsbMsb), lsb: Some(v), ..b }
    }
}

/// The bitfield builder after `note_msb`.
pub open spec fn bb_msb(b: BitfieldBuilder, v: u32) -> BitfieldBuilder {
    if b.source is Some && b.source != Some(BitfieldSource::LsbMsb) {
        b
    } else {
        BitfieldBuilder { source: Some(BitfieldSource::LsbMsb), msb: Some(v), ..b }
    }
}

/// The bitfield builder after `note_bit`.
pub open spec fn bb_bit(b: BitfieldBuilder, v: u32) -> BitfieldBuilder {
    if b.source is Some && b.source != Some(BitfieldSource::BitLength) {
        b
    } else {
        BitfieldBuilder { source: Some(BitfieldSource::BitLength), bit: Some(v), ..b }
    }
}

/// The bitfield builder after `note_bit_length`.
pub open spec fn bb_bit_length(b: BitfieldBuilder, v: u32) -> BitfieldBuilder {
    if b.source is Some && b.source != Some(BitfieldSource::BitLength) {
        b
    } else {
        BitfieldBuilder { source: Some(BitfieldSource::BitLength), bit_length: Some(v), ..b }
    }
}

/// The bitfield builder after `note_mask`.
pub open spec fn bb_mask(b: BitfieldBuilder, m: u64) -> BitfieldBuilder {
    if b.source is Some {
        b
    } else {
        BitfieldBuilder { source: Some(BitfieldSource::Mask), mask: Some(m), ..b }
    }
}

/// A scale factor as written, with its decimal text as a character sequence.
pub enum ScaleView {
    Ratio(i64, i64),
    Decimal(Seq<char>),
}

/// The scale factor written in `text`: `num/den` with a non-zero denominator, or decimal text.
pub open spec fn scale_of(text: Seq<u8>) -> Result<ScaleView, Fail> {
    let t = trimmed(text);
    let k = first_index(t, 47);
    if t.len() == 0 {
        Err(Fail::Invalid("empty scale value"@))
    } else if k < t.len() {
        match num_i64(t.subrange(0, k)) {
            Err(f) => Err(f),
            Ok(n) => match num_i64(t.subrange(k + 1, t.len() as int)) {
                Err(f) => Err(f),
                Ok(d) => if d == 0 {
                    Err(Fail::Invalid("scale denominator is zero"@))
                } else {
                    Ok(ScaleView::Ratio(n, d))
                },
            },
        }
    } else {
        Ok(ScaleView::Decimal(utf8_lossy(t)))
    }
}

/// Message for a bitfield bound that does not fit in 32 bits: `<Lsb>`, `<Msb>` or `<Bit>`.
pub open spec fn bound_msg(t: Tag, node: Seq<char>) -> Seq<char> {
    if t == Tag::Lsb {
        "<Lsb> out of range for node "@ + node
    } else if t == Tag::Msb {
        "<Msb> out of range for node "@ + node
    } else {
        "<Bit> out of range for node "@ + node
    }
}

/// A selector named: it is listed, opens a gating rule, and addresses may switch on it.
pub open spec fn sel_add(v: NodeView, s: Seq<char>) -> NodeView {
    NodeView {
        addr: av_register_selector(v.addr, s),
        sel: SelView {
            selectors: v.sel.selectors.push(s),
            selected_if: v.sel.selected_if.push((s, Seq::empty())),
            last: Some(v.sel.selected_if.len() as usize),
        },
        ..v
    }
}

/// A value allowed by gating rule `i`.
pub open spec fn push_gate(s: SelView, i: int, x: Seq<char>) -> SelView {
    SelView {
        selected_if: s.selected_if.update(i, (s.selected_if[i].0, s.selected_if[i].1.push(x))),
        ..s
    }
}

/// What a child element read as text `x` does to the state.
pub open spec fn text_step(v: NodeView, t: Tag, x: Seq<char>) -> Result<NodeView, Fail> {
    match t {
        Tag::Address => match num_u64(tb(x)) {
            Err(f) => Err(f),
            Ok(a) => Ok(NodeView { addr: av_attach(v.addr, a, None), ..v }),
        },
        Tag::PAddress => Ok(
            match trim_text(x) {
                Some(p) => NodeView { addr: av_set_p_address(v.addr, p), ..v },
                None => v,
            },
        ),
        Tag::Length => match num_u64(tb(x)) {
            Err(f) => Err(f),
            Ok(n) => if bit_aware(v.kind) && v.pending {
                if n <= u32::MAX {
                    Ok(NodeView { bits: bb_bit_length(v.bits, n as u32), pending: false, ..v })
                } else {
                    Err(Fail::Invalid("bitfield length out of range for node "@ + v.name))
                }
            } else {
                match as_u32(n, len_msg(v.name)) {
                    Err(f) => Err(f),
                    Ok(l) => Ok(NodeView { addr: av_apply_length(v.addr, l), ..v }),
                }
            },
        },
        Tag::AccessMode => match spec_access_mode(tb(x)) {
            Some(m) => Ok(NodeView { access: m, ..v }),
            None => Err(Fail::Invalid(unknown_access_msg(uppered(trimmed(tb(x)))))),
        },
        Tag::Min => if v.kind == NodeKind::Float {
            Ok(NodeView { float_min: Some(x), ..v })
        } else {
            match num_i64(tb(x)) {
                Err(f) => Err(f),
                Ok(n) => Ok(NodeView { min: Some(n), ..v }),
            }
        },
        Tag::Max => if v.kind == NodeKind::Float {
            Ok(NodeView { float_max: Some(x), ..v })
        } else {
            match num_i64(tb(x)) {
                Err(f) => Err(f),
                Ok(n) => Ok(NodeView { max: Some(n), ..v }),
            }
        },
        Tag::Inc => match num_i64(tb(x)) {
            Err(f) => Err(f),
            Ok(n) => Ok(NodeView { inc: Some(n), ..v }),
        },
        Tag::Unit => Ok(
            match trim_text(x) {
                Some(u) => NodeView { unit: Some(u), ..v },
                None => v,
            },
        ),
        Tag::Lsb => match num_u32(tb(x), bound_msg(t, v.name)) {
            Err(f) => Err(f),
            Ok(n) => Ok(NodeView { bits: bb_lsb(v.bits, n), ..v }),
        },
        Tag::Msb => match num_u32(tb(x), bound_msg(t, v.name)) {
            Err(f) => Err(f),
            Ok(n) => Ok(NodeView { bits: bb_msb(v.bits, n), ..v }),
        },
        Tag::Bit => match num_u32(tb(x), bound_msg(t, v.name)) {
            Err(f) => Err(f),
            Ok(n) => Ok(NodeView { bits: bb_bit(v.bits, n), pending: true, ..v }),
        },
        Tag::Mask => match num_u64(tb(x)) {
            Err(f) => Err(f),
            Ok(m) => Ok(NodeView { bits: bb_mask(v.bits, m), pending: false, ..v }),
        },
        Tag::Endianness | Tag::Endianess | Tag::ByteOrder => Ok(
            match spec_byte_order(tb(x)) {
                Some(o) => NodeView { bits: BitfieldBuilder { byte_order: Some(o), ..v.bits }, ..v },
                None => v,
            },
        ),
        Tag::PSelected => Ok(
            match trim_text(x) {
                Some(s) => sel_add(v, s),
                None => v,
            },
        ),
        Tag::Scale => match scale_of(tb(x)) {
            Err(f) => Err(f),
            Ok(ScaleView::Ratio(n, d)) => Ok(
                NodeView { scale_num: Some(NumView::Int(n)), scale_den: Some(d), ..v },
            ),
            Ok(ScaleView::Decimal(s)) => Ok(
                NodeView { scale_num: Some(NumView::Decimal(s)), scale_den: Some(1_000_000), ..v },
            ),
        },
        Tag::ScaleNumerator => match num_i64(tb(x)) {
            Err(f) => Err(f),
            Ok(n) => Ok(NodeView { scale_num: Some(NumView::Int(n)), ..v }),
        },
        Tag::ScaleDenominator => match num_i64(tb(x)) {
            Err(f) => Err(f),
            Ok(n) => Ok(NodeView { scale_den: Some(n), ..v }),
        },
        Tag::Offset => Ok(NodeView { offset: Some(x), ..v }),
        Tag::PValueDefault => Ok(
            match trim_text(x) {
                Some(d) => NodeView { default: Some(d), ..v },
                None => v,
            },
        ),
        _ => Ok(v),
    }
}

/// The outcome of `parse_scale` on `text` is `scale_of` it.
proof fn lemma_scale(text: Seq<u8>, r: Result<ScaleSpec, XmlError>)
    requires
        spec_parse_scale(text, r),
    ensures
        match scale_of(text) {
            Err(f) => r is Err && fail_of(r->Err_0) == f,
            Ok(ScaleView::Ratio(n, d)) => r == Ok::<ScaleSpec, XmlError>(ScaleSpec::Ratio(n, d)),
            Ok(ScaleView::Decimal(s)) => r matches Ok(ScaleSpec::Decimal(x)) && x@ == s,
        },
{
}

impl NodeState {
    /// Name a selector: list it, open a gating rule for it, and let addresses switch on it.
    pub fn add_selector(&mut self, s: String)
        requires
            old(self).wf(),
        ensures
            final(self).kind == old(self).kind,
            final(self).name == old(self).name,
            final(self).wf(),
            final(self).view() == sel_add(old(self).view(), s@),
    {
        let ghost v0 = self.view();
        self.addressing.register_selector(s.as_str());
        self.selectors.selectors.push(s.clone());
        self.selectors.selected_if.push((s, Vec::new()));
        self.selectors.last_selector = Some(self.selectors.selected_if.len() - 1);
        let ghost rule = self.selectors.selected_if@.last();
        assert(texts(rule.1@) =~= Seq::<Seq<char>>::empty());
        assert(sel_view(self.selectors).selectors =~= v0.sel.selectors.push(s@));
        assert(sel_view(self.selectors).selected_if =~= v0.sel.selected_if.push(
            (s@, Seq::<Seq<char>>::empty()),
        ));
    }

    /// Allow the value `x` in gating rule `i`.
    pub fn add_gate(&mut self, i: usize, x: String)
        requires
            old(self).wf(),
            i < old(self).selectors.selected_if@.len(),
        ensures
            final(self).kind == old(self).kind,
            final(self).name == old(self).name,
            final(self).wf(),
            final(self).view() == (NodeView { sel: push_gate(old(self).view().sel, i as int, x@), ..old(self).view() }),
    {
        let ghost v0 = self.view();
        let mut rule = self.selectors.selected_if.remove(i);
        rule.1.push(x);
        self.selectors.selected_if.insert(i, rule);
        assert(texts(rule.1@) =~= v0.sel.selected_if[i as int].1.push(x@));
        assert(sel_view(self.selectors).selected_if =~= push_gate(v0.sel, i as int, x@).selected_if);
    }

    /// Apply a child element read as the text `x`.
    pub fn apply_text(&mut self, t: Tag, x: &str) -> (r: Result<(), XmlError>)
        requires
            old(self).wf(),
        ensures
            final(self).kind == old(self).kind,
            final(self).name == old(self).name,
            match text_step(old(self).view(), t, x@) {
                Err(f) => r is Err && fail_of(r->Err_0) == f,
                Ok(v) => r is Ok && final(self).view() == v && final(self).wf(),
            },
    {
        match t {
            Tag::Address => match u64_of(x) {
                Err(e) => Err(e),
                Ok(a) => {
                    self.addressing.attach_selected_address(a, None);
                    Ok(())
                },
            },
            Tag::PAddress => {
                match trim_string(x) {
                    Some(p) => self.addressing.set_p_address_node(p.as_str()),
                    None => {},
                }
                Ok(())
            },
            Tag::Length => match u64_of(x) {
                Err(e) => Err(e),
                Ok(n) => {
                    let bits = self.kind == NodeKind::Integer || self.kind == NodeKind::Boolean;
                    if bits && self.pending_bit_length {
                        if n <= 0xffff_ffffu64 {
                            self.bitfield.note_bit_length(n as u32);
                            self.pending_bit_length = false;
                            Ok(())
                        } else {
                            Err(XmlError::Invalid(prefixed("bitfield length out of range for node ", self.name.as_str())))
                        }
                    } else if n <= 0xffff_ffffu64 {
                        self.addressing.apply_length(n as u32);
                        Ok(())
                    } else {
                        Err(XmlError::Invalid(len_message(self.name.as_str())))
                    }
                },
            },
            Tag::AccessMode => match AccessMode::parse(x) {
                Err(e) => Err(e),
                Ok(m) => {
                    self.access = m;
                    Ok(())
                },
            },
            Tag::Min => if self.kind == NodeKind::Float {
                self.float_min = Some(String::from_str(x));
                Ok(())
            } else {
                match i64_of(x) {
                    Err(e) => Err(e),
                    Ok(n) => {
                        self.min = Some(n);
                        Ok(())
                    },
                }
            },
            Tag::Max => if self.kind == NodeKind::Float {
                self.float_max = Some(String::from_str(x));
                Ok(())
            } else {
                match i64_of(x) {
                    Err(e) => Err(e),
                    Ok(n) => {
                        self.max = Some(n);
                        Ok(())
                    },
                }
            },
            Tag::Inc => match i64_of(x) {
                Err(e) => Err(e),
                Ok(n) => {
                    self.inc = Some(n);
                    Ok(())
                },
            },
            Tag::Unit => {
                match trim_string(x) {
                    Some(u) => self.unit = Some(u),
                    None => {},
                }
                Ok(())
            },
            Tag::Lsb => match u32_of(x, prefixed("<Lsb> out of range for node ", self.name.as_str())) {
                Err(e) => Err(e),
                Ok(n) => {
                    self.bitfield.note_lsb(n);
                    Ok(())
                },
            },
            Tag::Msb => match u32_of(x, prefixed("<Msb> out of range for node ", self.name.as_str())) {
                Err(e) => Err(e),
                Ok(n) => {
                    self.bitfield.note_msb(n);
                    Ok(())
                },
            },
            Tag::Bit => match u32_of(x, prefixed("<Bit> out of range for node ", self.name.as_str())) {
                Err(e) => Err(e),
                Ok(n) => {
                    self.bitfield.note_bit(n);
                    self.pending_bit_length = true;
                    Ok(())
                },
            },
            Tag::Mask => match u64_of(x) {
                Err(e) => Err(e),
                Ok(m) => {
                    self.bitfield.note_mask(m);
                    self.pending_bit_length = false;
                    Ok(())
                },
            },
            Tag::Endianness | Tag::Endianess | Tag::ByteOrder => {
                match ByteOrder::parse(x) {
                    Some(o) => self.bitfield.note_byte_order(o),
                    None => {},
                }
                Ok(())
            },
            Tag::PSelected => {
                match trim_string(x) {
                    Some(s) => self.add_selector(s),
                    None => {},
                }
                Ok(())
            },
            Tag::Scale => {
                let r = parse_scale(x);
                proof {
                    lemma_scale(tb(x@), r);
                }
                match r {
                    Err(e) => Err(e),
                    Ok(ScaleSpec::Ratio(n, d)) => {
                        self.scale_num = Some(ScaleNum::Int(n));
                        self.scale_den = Some(d);
                        Ok(())
                    },
                    Ok(ScaleSpec::Decimal(s)) => {
                        self.scale_num = Some(ScaleNum::Decimal(s));
                        self.scale_den = Some(1_000_000);
                        Ok(())
                    },
                }
            },
            Tag::ScaleNumerator => match i64_of(x) {
                Err(e) => Err(e),
                Ok(n) => {
                    self.scale_num = Some(ScaleNum::Int(n));
                    Ok(())
                },
            },
            Tag::ScaleDenominator => match i64_of(x) {
                Err(e) => Err(e),
                Ok(n) => {
                    self.scale_den = Some(n);
                    Ok(())
                },
            },
            Tag::Offset => {
                self.offset = Some(String::from_str(x));
                Ok(())
            },
            Tag::PValueDefault => {
                match trim_string(x) {
                    Some(d) => self.default = Some(d),
                    None => {},
                }
                Ok(())
            },
            _ => Ok(()),
        }
    }
}

/// The addressing after a `<Selected>` element with `value`: the value opens a selector
/// entry, placed by the tag's `Address` (with its `Length`) or sized by `Length` alone.
pub open spec fn selected_addr(a: AddrView, name: Seq<char>, h: ElementHead, value: Option<Seq<char>>) -> Result<
    AddrView,
    Fail,
> {
    match value {
        None => Ok(a),
        Some(val) => {
            let a1 = av_push_value(a, val);
            match attr_of(h, Tag::Address) {
                Err(f) => Err(f),
                Ok(Some(at)) => match attr_of(h, Tag::Length) {
                    Err(f) => Err(f),
                    Ok(lo) => {
                        let lo2 = match lo {
                            None => Ok(None),
                            Some(lt) => match num_u32(tb(lt), len_msg(name)) {
                                Err(f) => Err(f),
                                Ok(l) => Ok(Some(l)),
                            },
                        };
                        match lo2 {
                            Err(f) => Err(f),
                            Ok(lo3) => match num_u64(tb(at)) {
                                Err(f) => Err(f),
                                Ok(x) => Ok(av_attach(a1, x, lo3)),
                            },
                        }
                    },
                },
                Ok(None) => match attr_of(h, Tag::Length) {
                    Err(f) => Err(f),
                    Ok(None) => Ok(a1),
                    Ok(Some(lt)) => match num_u32(tb(lt), len_msg(name)) {
                        Err(f) => Err(f),
                        Ok(l) => Ok(av_apply_length(a1, l)),
                    },
                },
            }
        },
    }
}

/// The value a `<Selected>` start tag names: its `Value` attribute, else its `Name`.
pub open spec fn selected_value(h: ElementHead) -> Result<Option<Seq<char>>, Fail> {
    match attr_of(h, Tag::Value) {
        Err(f) => Err(f),
        Ok(Some(x)) => Ok(Some(x)),
        Ok(None) => attr_of(h, Tag::Name),
    }
}

/// What a `<Selected>` element with text `text` does: its value (from the attributes, else
/// the text) opens a selector entry and is allowed by the last gating rule.
pub open spec fn selected_start(v: NodeView, h: ElementHead, text: Result<Seq<char>, Fail>) -> Result<NodeView, Fail> {
    match selected_value(h) {
        Err(f) => Err(f),
        Ok(val0) => match text {
            Err(f) => Err(f),
            Ok(t) => {
                let value = if val0 is None {
                    trim_text(t)
                } else {
                    val0
                };
                match selected_addr(v.addr, v.name, h, value) {
                    Err(f) => Err(f),
                    Ok(a2) => Ok(
                        NodeView {
                            addr: a2,
                            sel: match v.sel.last {
                                None => v.sel,
                                Some(i) => match (match value {
                                    Some(val) => trim_text(val),
                                    None => trim_text(t),
                                }) {
                                    Some(x) => push_gate(v.sel, i as int, x),
                                    None => v.sel,
                                },
                            },
                            ..v
                        },
                    ),
                }
            },
        },
    }
}

/// What a child start tag read as text does to the state.
pub open spec fn start_spec(v: NodeView, t: Tag, h: ElementHead, text: Result<Seq<char>, Fail>) -> Result<
    NodeView,
    Fail,
> {
    if t == Tag::Selected {
        selected_start(v, h, text)
    } else {
        match text {
            Err(f) => Err(f),
            Ok(x) => text_step(v, t, x),
        }
    }
}

/// What an empty `<Selected/>` element does: its `Value` opens a selector entry and is
/// allowed by the last gating rule.
pub open spec fn selected_empty(v: NodeView, h: ElementHead) -> Result<NodeView, Fail> {
    match attr_of(h, Tag::Value) {
        Err(f) => Err(f),
        Ok(None) => Ok(v),
        Ok(Some(val)) => match selected_addr(v.addr, v.name, h, Some(val)) {
            Err(f) => Err(f),
            Ok(a2) => Ok(
                NodeView {
                    addr: a2,
                    sel: match v.sel.last {
                        Some(i) => push_gate(v.sel, i as int, val),
                        None => v.sel,
                    },
                    ..v
                },
            ),
        },
    }
}

/// A text trimmed as bytes, or nothing when only whitespace is left.
pub open spec fn trimmed_c(o: Option<Seq<char>>) -> Option<Seq<u8>> {
    match o {
        Some(s) => if trimmed(tb(s)).len() > 0 {
            Some(trimmed(tb(s)))
        } else {
            None
        },
        None => None,
    }
}

/// An enumeration entry from its parts: a `pValue` provider wins over a literal `Value`.
pub open spec fn entry_build(
    name: Seq<char>,
    literal: Option<Seq<char>>,
    provider: Option<Seq<char>>,
    display: Option<Seq<char>>,
) -> Result<EntryView, Fail> {
    match trimmed_c(provider) {
        Some(p) => Ok(EntryView { name, value: SrcView::FromNode(utf8_lossy(p)), display_name: display }),
        None => match trimmed_c(literal) {
            Some(l) => {
                let t = trimmed(l);
                match spec_parse_signed(number_digits(t), number_radix(t)) {
                    Ok(n) => Ok(EntryView { name, value: SrcView::Literal(n), display_name: display }),
                    Err(k) => Err(Fail::Invalid(number_error_msg(t, k))),
                }
            },
            None => Err(Fail::Invalid(entry_missing_value_msg(name))),
        },
    }
}

/// An enumeration entry written as an empty tag: all its parts are attributes.
pub open spec fn entry_empty_spec(h: ElementHead) -> Result<EntryView, Fail> {
    match required_of(h, Tag::Name) {
        Err(f) => Err(f),
        Ok(n) => match attr_of(h, Tag::Value) {
            Err(f) => Err(f),
            Ok(l) => match attr_of(h, Tag::PValue) {
                Err(f) => Err(f),
                Ok(p) => match attr_of(h, Tag::DisplayName) {
                    Err(f) => Err(f),
                    Ok(d) => entry_build(n, l, p, d),
                },
            },
        },
    }
}

/// What an empty child tag does to the state.
pub open spec fn empty_spec(v: NodeView, t: Option<Tag>, h: ElementHead) -> Result<NodeView, Fail> {
    match t {
        Some(Tag::PSelected) => match attr_of(h, Tag::Name) {
            Err(f) => Err(f),
            Ok(None) => Ok(v),
            Ok(Some(x)) => Ok(sel_add(v, x)),
        },
        Some(Tag::Selected) => selected_empty(v, h),
        Some(Tag::PAddress) => if v.kind == NodeKind::Enumeration {
            Ok(v)
        } else {
            match attr_of(h, Tag::Name) {
                Err(f) => Err(f),
                Ok(None) => Ok(v),
                Ok(Some(x)) => text_step(v, Tag::PAddress, x),
            }
        },
        Some(Tag::Lsb) | Some(Tag::Msb) | Some(Tag::Bit) | Some(Tag::Mask) | Some(Tag::Endianness)
        | Some(Tag::Endianess) | Some(Tag::ByteOrder) => if bit_aware(v.kind) {
            match attr_of(h, Tag::Value) {
                Err(f) => Err(f),
                Ok(None) => Ok(v),
                Ok(Some(x)) => text_step(v, t->Some_0, x),
            }
        } else {
            Ok(v)
        },
        Some(Tag::EnumEntry) => if v.kind == NodeKind::Enumeration {
            match entry_empty_spec(h) {
                Err(f) => Err(f),
                Ok(e) => Ok(NodeView { entries: v.entries.push(e), ..v }),
            }
        } else {
            Ok(v)
        },
        _ => Ok(v),
    }
}

/// Build an enumeration entry from its parts.
pub fn build_entry(
    name: String,
    literal: Option<String>,
    provider: Option<String>,
    display: Option<String>,
) -> (r: Result<EnumEntryDecl, XmlError>)
    ensures
        match entry_build(name@, opt_view(literal), opt_view(provider), opt_view(display)) {
            Err(f) => r is Err && fail_of(r->Err_0) == f,
            Ok(e) => r is Ok && entry_view(r->Ok_0) == e,
        },
{
    build_enum_entry(name, literal, provider, display)
}

/// Read an enumeration entry written as an empty tag.
pub fn parse_enum_entry_empty(h: &ElementHead) -> (r: Result<EnumEntryDecl, XmlError>)
    ensures
        match entry_empty_spec(*h) {
            Err(f) => r is Err && fail_of(r->Err_0) == f,
            Ok(e) => r is Ok && entry_view(r->Ok_0) == e,
        },
{
    let name = match required(h, Tag::Name) {
        Err(e) => return Err(e),
        Ok(n) => n,
    };
    let literal = match attr(h, Tag::Value) {
        Err(e) => return Err(e),
        Ok(v) => v,
    };
    let provider = match attr(h, Tag::PValue) {
        Err(e) => return Err(e),
        Ok(v) => v,
    };
    let display = match attr(h, Tag::DisplayName) {
        Err(e) => return Err(e),
        Ok(v) => v,
    };
    build_entry(name, literal, provider, display)
}

impl NodeState {
    /// Apply the addressing of a `<Selected>` element with `value`.
    pub fn selected_address(&mut self, h: &ElementHead, value: &Option<String>) -> (r: Result<(), XmlError>)
        requires
            old(self).wf(),
        ensures
            final(self).kind == old(self).kind,
            final(self).name == old(self).name,
            match selected_addr(old(self).view().addr, old(self).view().name, *h, opt_view(*value)) {
                Err(f) => r is Err && fail_of(r->Err_0) == f,
                Ok(a) => r is Ok && final(self).view() == (NodeView { addr: a, ..old(self).view() })
                    && final(self).wf(),
            },
    {
        let val = match value {
            None => return Ok(()),
            Some(v) => v.clone(),
        };
        self.addressing.push_selected_value(val);
        match attr(h, Tag::Address) {
            Err(e) => Err(e),
            Ok(Some(at)) => {
                let lo = match attr(h, Tag::Length) {
                    Err(e) => return Err(e),
                    Ok(None) => None,
                    Ok(Some(lt)) => match u32_of(lt.as_str(), len_message(self.name.as_str())) {
                        Err(e) => return Err(e),
                        Ok(l) => Some(l),
                    },
                };
                match u64_of(at.as_str()) {
                    Err(e) => Err(e),
                    Ok(x) => {
                        self.addressing.attach_selected_address(x, lo);
                        Ok(())
                    },
                }
            },
            Ok(None) => match attr(h, Tag::Length) {
                Err(e) => Err(e),
                Ok(None) => Ok(()),
                Ok(Some(lt)) => match u32_of(lt.as_str(), len_message(self.name.as_str())) {
                    Err(e) => Err(e),
                    Ok(l) => {
                        self.addressing.apply_length(l);
                        Ok(())
                    },
                },
            },
        }
    }

    /// Apply a `<Selected>` element whose text was read as `text`.
    pub fn on_selected(&mut self, h: &ElementHead, text: Result<String, XmlError>) -> (r: Result<(), XmlError>)
        requires
            old(self).wf(),
        ensures
            final(self).kind == old(self).kind,
            final(self).name == old(self).name,
            match selected_start(old(self).view(), *h, text_of(text)) {
                Err(f) => r is Err && fail_of(r->Err_0) == f,
                Ok(v) => r is Ok && final(self).view() == v && final(self).wf(),
            },
    {
        let mut value = match attr(h, Tag::Value) {
            Err(e) => return Err(e),
            Ok(v) => v,
        };
        if value.is_none() {
            value = match attr(h, Tag::Name) {
                Err(e) => return Err(e),
                Ok(v) => v,
            };
        }
        let text = match text {
            Err(e) => return Err(e),
            Ok(t) => t,
        };
        let tr = trim_string(text.as_str());
        if value.is_none() {
            value = tr.clone();
        }
        match self.selected_address(h, &value) {
            Err(e) => return Err(e),
            Ok(()) => {},
        }
        match self.selectors.last_selector {
            None => {},
            Some(i) => {
                let gate = match &value {
                    Some(val) => trim_string(val.as_str()),
                    None => tr,
                };
                match gate {
                    Some(x) => self.add_gate(i, x),
                    None => {},
                }
            },
        }
        Ok(())
    }

    /// Apply a `<Selected/>` element.
    pub fn on_selected_empty(&mut self, h: &ElementHead) -> (r: Result<(), XmlError>)
        requires
            old(self).wf(),
        ensures
            final(self).kind == old(self).kind,
            final(self).name == old(self).name,
            match selected_empty(old(self).view(), *h) {
                Err(f) => r is Err && fail_of(r->Err_0) == f,
                Ok(v) => r is Ok && final(self).view() == v && final(self).wf(),
            },
    {
        let val = match attr(h, Tag::Value) {
            Err(e) => return Err(e),
            Ok(None) => return Ok(()),
            Ok(Some(v)) => v,
        };
        match self.selected_address(h, &Some(val.clone())) {
            Err(e) => return Err(e),
            Ok(()) => {},
        }
        match self.selectors.last_selector {
            None => {},
            Some(i) => self.add_gate(i, val),
        }
        Ok(())
    }

    /// Apply a child start tag of a kind read as text; `text` is what reading it gave.
    pub fn on_start(&mut self, t: Tag, h: &ElementHead, text: Result<String, XmlError>) -> (r: Result<(), XmlError>)
        requires
            old(self).wf(),
        ensures
            final(self).kind == old(self).kind,
            final(self).name == old(self).name,
            match start_spec(old(self).view(), t, *h, text_of(text)) {
                Err(f) => r is Err && fail_of(r->Err_0) == f,
                Ok(v) => r is Ok && final(self).view() == v && final(self).wf(),
            },
    {
        if t == Tag::Selected {
            self.on_selected(h, text)
        } else {
            match text {
                Err(e) => Err(e),
                Ok(x) => self.apply_text(t, x.as_str()),
            }
        }
    }

    /// Add an enumeration entry read from its own element.
    pub fn add_entry(&mut self, e: EnumEntryDecl)
        requires
            old(self).wf(),
        ensures
            final(self).kind == old(self).kind,
            final(self).name == old(self).name,
            final(self).wf(),
            final(self).view() == (NodeView { entries: old(self).view().entries.push(entry_view(e)), ..old(self).view() }),
    {
        let ghost v0 = self.view();
        self.entries.push(e);
        assert(self.view().entries =~= v0.entries.push(entry_view(e)));
    }

    /// Apply an empty child tag named `t` (`None` for a name the parsers do not know).
    pub fn on_empty(&mut self, t: Option<Tag>, h: &ElementHead) -> (r: Result<(), XmlError>)
        requires
            old(self).wf(),
        ensures
            final(self).kind == old(self).kind,
            final(self).name == old(self).name,
            match empty_spec(old(self).view(), t, *h) {
                Err(f) => r is Err && fail_of(r->Err_0) == f,
                Ok(v) => r is Ok && final(self).view() == v && final(self).wf(),
            },
    {
        match t {
            Some(Tag::PSelected) => match attr(h, Tag::Name) {
                Err(e) => Err(e),
                Ok(None) => Ok(()),
                Ok(Some(x)) => {
                    self.add_selector(x);
                    Ok(())
                },
            },
            Some(Tag::Selected) => self.on_selected_empty(h),
            Some(Tag::PAddress) => if self.kind == NodeKind::Enumeration {
                Ok(())
            } else {
                match attr(h, Tag::Name) {
                    Err(e) => Err(e),
                    Ok(None) => Ok(()),
                    Ok(Some(x)) => self.apply_text(Tag::PAddress, x.as_str()),
                }
            },
            Some(Tag::Lsb) | Some(Tag::Msb) | Some(Tag::Bit) | Some(Tag::Mask) | Some(Tag::Endianness)
            | Some(Tag::Endianess) | Some(Tag::ByteOrder) => {
                if self.kind == NodeKind::Integer || self.kind == NodeKind::Boolean {
                    match attr(h, Tag::Value) {
                        Err(e) => Err(e),
                        Ok(None) => Ok(()),
                        Ok(Some(x)) => self.apply_text(t.unwrap(), x.as_str()),
                    }
                } else {
                    Ok(())
                }
            },
            Some(Tag::EnumEntry) => if self.kind == NodeKind::Enumeration {
                match parse_enum_entry_empty(h) {
                    Err(e) => Err(e),
                    Ok(e) => {
                        self.add_entry(e);
                        Ok(())
                    },
                }
            } else {
                Ok(())
            },
            _ => Ok(()),
        }
    }
}

// ---------------------------------------------------------------------------
// Declarations
// ---------------------------------------------------------------------------

/// Declaration of a node extracted from the GenICam XML description.
#[derive(Debug)]
pub enum NodeDecl {
    /// Integer feature backed by a fixed register block.
    Integer {
        name: String,
        addressing: Addressing,
        /// Length in bytes of the register payload.
        len: u32,
        access: AccessMode,
        min: i64,
        max: i64,
        inc: Option<i64>,
        unit: Option<String>,
        bitfield: Option<BitField>,
        /// Selector nodes referencing this feature.
        selectors: Vec<String>,
        /// Selector gating rules in the form (selector name, allowed values).
        selected_if: Vec<(String, Vec<String>)>,
    },
    /// Floating point feature backed by a register with scaling; the bounds and the offset
    /// are the numbers as written.
    Float {
        name: String,
        addressing: Addressing,
        access: AccessMode,
        min: String,
        max: String,
        unit: Option<String>,
        /// Rational scale `(numerator, denominator)` applied to the raw register value.
        scale: Option<(ScaleNum, i64)>,
        offset: Option<String>,
        selectors: Vec<String>,
        selected_if: Vec<(String, Vec<String>)>,
    },
    /// Enumeration feature exposing a list of named integer values.
    Enum {
        name: String,
        addressing: Addressing,
        access: AccessMode,
        entries: Vec<EnumEntryDecl>,
        default: Option<String>,
        selectors: Vec<String>,
        selected_if: Vec<(String, Vec<String>)>,
    },
    /// Boolean feature backed by a single bit/byte register.
    Boolean {
        name: String,
        addressing: Addressing,
        len: u32,
        access: AccessMode,
        bitfield: BitField,
        selectors: Vec<String>,
        selected_if: Vec<(String, Vec<String>)>,
    },
    /// Command feature that triggers an action when written.
    Command { name: String, address: u64, len: u32 },
    /// Category used to organise features.
    Category { name: String, children: Vec<String> },
    /// Computed value backed by an arithmetic expression referencing other nodes.
    SwissKnife(SwissKnifeDecl),
}

/// Whether `r` is an error with the message `f`.
pub open spec fn fails<T>(r: Result<T, XmlError>, f: Fail) -> bool {
    r is Err && fail_of(r->Err_0) == f
}

/// The scale of a float node: numerator over a non-zero denominator, or over 1 when only a
/// numerator was given.
pub open spec fn scale_pair(num: Option<ScaleNum>, den: Option<i64>) -> Option<(ScaleNum, i64)> {
    match num {
        None => None,
        Some(n) => match den {
            None => Some((n, 1i64)),
            Some(d) => if d != 0 {
                Some((n, d))
            } else {
                None
            },
        },
    }
}

/// The integer declaration of a state whose addressing finalized to `a`.
pub open spec fn integer_decl(s: NodeState, a: Addressing, mn: i64, mx: i64, r: Result<NodeDecl, XmlError>) -> bool {
    let ls = spec_addressing_lengths(a);
    if ls.len() == 0 {
        fails(r, Fail::Invalid(node_msg(s.name@, " is missing <Length>"@)))
    } else {
        match spec_finish(s.bitfield, ls) {
            Err(p) => fails(r, Fail::Invalid(bitfield_msg(s.name@, p))),
            Ok(bf) => r == Ok::<NodeDecl, XmlError>(
                NodeDecl::Integer {
                    name: s.name,
                    addressing: a,
                    len: ls[0],
                    access: s.access,
                    min: mn,
                    max: mx,
                    inc: s.inc,
                    unit: s.unit,
                    bitfield: bf,
                    selectors: s.selectors.selectors,
                    selected_if: s.selectors.selected_if,
                },
            ),
        }
    }
}

/// The boolean declaration of a state whose addressing finalized to `a`: a one-byte register
/// without bitfield elements is its lowest bit.
pub open spec fn boolean_decl(s: NodeState, a: Addressing, r: Result<NodeDecl, XmlError>) -> bool {
    let ls = spec_addressing_lengths(a);
    if ls.len() == 0 {
        fails(r, Fail::Invalid(node_msg(s.name@, " is missing <Length>"@)))
    } else {
        match spec_finish(s.bitfield, ls) {
            Err(p) => fails(r, Fail::Invalid(bitfield_msg(s.name@, p))),
            Ok(bf) => {
                let field = match bf {
                    Some(f) => Some(f),
                    None => if ls[0] == 1 {
                        Some(BitField { bit_offset: 0, bit_length: 1, byte_order: ByteOrder::Little })
                    } else {
                        None
                    },
                };
                match field {
                    None => fails(
                        r,
                        Fail::Invalid("Boolean node "@ + s.name@ + " requires explicit bitfield metadata"@),
                    ),
                    Some(f) => r == Ok::<NodeDecl, XmlError>(
                        NodeDecl::Boolean {
                            name: s.name,
                            addressing: a,
                            len: ls[0],
                            access: s.access,
                            bitfield: f,
                            selectors: s.selectors.selectors,
                            selected_if: s.selectors.selected_if,
                        },
                    ),
                }
            },
        }
    }
}

/// The outcome of finalizing the addressing with `default_len`, then of `next` on it.
pub open spec fn after_finalize(
    s: NodeState,
    default_len: Option<u32>,
    r: Result<NodeDecl, XmlError>,
    next: spec_fn(Addressing) -> bool,
) -> bool {
    exists|ra: Result<Addressing, XmlError>|
        spec_finalize(s.addressing, s.name@, default_len, ra) && match ra {
            Err(e) => r == Err::<NodeDecl, XmlError>(e),
            Ok(a) => next(a),
        }
}

/// The declaration a finished node yields: the required parts must be there, the addressing
/// must finalize, and a bitfield must fit its register.
pub open spec fn finish_spec(s: NodeState, r: Result<NodeDecl, XmlError>) -> bool {
    let name = s.name@;
    match s.kind {
        NodeKind::Integer => match s.min {
            None => fails(r, Fail::Invalid("Integer node "@ + name + " is missing <Min>"@)),
            Some(mn) => match s.max {
                None => fails(r, Fail::Invalid("Integer node "@ + name + " is missing <Max>"@)),
                Some(mx) => after_finalize(s, Some(4u32), r, |a: Addressing| integer_decl(s, a, mn, mx, r)),
            },
        },
        NodeKind::Float => match s.float_min {
            None => fails(r, Fail::Invalid("Float node "@ + name + " is missing <Min>"@)),
            Some(mn) => match s.float_max {
                None => fails(r, Fail::Invalid("Float node "@ + name + " is missing <Max>"@)),
                Some(mx) => after_finalize(
                    s,
                    Some(8u32),
                    r,
                    |a: Addressing|
                        r == Ok::<NodeDecl, XmlError>(
                            NodeDecl::Float {
                                name: s.name,
                                addressing: a,
                                access: s.access,
                                min: mn,
                                max: mx,
                                unit: s.unit,
                                scale: scale_pair(s.scale_num, s.scale_den),
                                offset: s.offset,
                                selectors: s.selectors.selectors,
                                selected_if: s.selectors.selected_if,
                            },
                        ),
                ),
            },
        },
        NodeKind::Enumeration => if s.entries@.len() == 0 {
            fails(r, Fail::Invalid("Enumeration node "@ + name + " declares no <EnumEntry> elements"@))
        } else {
            after_finalize(
                s,
                Some(4u32),
                r,
                |a: Addressing|
                    r == Ok::<NodeDecl, XmlError>(
                        NodeDecl::Enum {
                            name: s.name,
                            addressing: a,
                            access: s.access,
                            entries: s.entries,
                            default: s.default,
                            selectors: s.selectors.selectors,
                            selected_if: s.selectors.selected_if,
                        },
                    ),
            )
        },
        NodeKind::Boolean => after_finalize(s, Some(4u32), r, |a: Addressing| boolean_decl(s, a, r)),
    }
}

/// The declaration of an integer node whose addressing finalized to `a`.
fn integer_from(s: NodeState, a: Addressing, mn: i64, mx: i64) -> (r: Result<NodeDecl, XmlError>)
    ensures
        integer_decl(s, a, mn, mx, r),
{
    let lengths = addressing_lengths(&a);
    if lengths.len() == 0 {
        return Err(invalid("node ", s.name.as_str(), " is missing <Length>"));
    }
    let len = lengths[0];
    let bitfield = match s.bitfield.finish(s.name.as_str(), lengths.as_slice()) {
        Err(e) => return Err(e),
        Ok(b) => b,
    };
    Ok(
        NodeDecl::Integer {
            name: s.name,
            addressing: a,
            len,
            access: s.access,
            min: mn,
            max: mx,
            inc: s.inc,
            unit: s.unit,
            bitfield,
            selectors: s.selectors.selectors,
            selected_if: s.selectors.selected_if,
        },
    )
}

/// The declaration of a boolean node whose addressing finalized to `a`.
fn boolean_from(s: NodeState, a: Addressing) -> (r: Result<NodeDecl, XmlError>)
    ensures
        boolean_decl(s, a, r),
{
    let lengths = addressing_lengths(&a);
    if lengths.len() == 0 {
        return Err(invalid("node ", s.name.as_str(), " is missing <Length>"));
    }
    let len = lengths[0];
    let bitfield = match s.bitfield.finish(s.name.as_str(), lengths.as_slice()) {
        Err(e) => return Err(e),
        Ok(Some(f)) => f,
        Ok(None) => if len == 1 {
            BitField { bit_offset: 0, bit_length: 1, byte_order: ByteOrder::Little }
        } else {
            return Err(invalid("Boolean node ", s.name.as_str(), " requires explicit bitfield metadata"));
        },
    };
    Ok(
        NodeDecl::Boolean {
            name: s.name,
            addressing: a,
            len,
            access: s.access,
            bitfield,
            selectors: s.selectors.selectors,
            selected_if: s.selectors.selected_if,
        },
    )
}

impl NodeState {
    /// The declaration of the finished node.
    pub fn finish(self) -> (r: Result<NodeDecl, XmlError>)
        ensures
            finish_spec(self, r),
    {
        let ghost s0 = self;
        match self.kind {
            NodeKind::Integer => {
                let mn = match self.min {
                    None => return Err(invalid("Integer node ", self.name.as_str(), " is missing <Min>")),
                    Some(v) => v,
                };
                let mx = match self.max {
                    None => return Err(invalid("Integer node ", self.name.as_str(), " is missing <Max>")),
                    Some(v) => v,
                };
                let mut st = self;
                let mut b = AddressingBuilder::default();
                core::mem::swap(&mut b, &mut st.addressing);
                let ra = b.finalize(st.name.as_str(), Some(4));
                let r = match ra {
                    Err(e) => Err(e),
                    Ok(a) => integer_from(st, a, mn, mx),
                };
                assert(spec_finalize(s0.addressing, s0.name@, Some(4u32), ra));
                r
            },
            NodeKind::Float => {
                let mn = match self.float_min {
                    None => return Err(invalid("Float node ", self.name.as_str(), " is missing <Min>")),
                    Some(v) => v,
                };
                let mx = match self.float_max {
                    None => return Err(invalid("Float node ", self.name.as_str(), " is missing <Max>")),
                    Some(v) => v,
                };
                let scale = match self.scale_num {
                    None => None,
                    Some(n) => match self.scale_den {
                        None => Some((n, 1i64)),
                        Some(d) => if d != 0 {
                            Some((n, d))
                        } else {
                            None
                        },
                    },
                };
                let ra = self.addressing.finalize(self.name.as_str(), Some(8));
                let r = match ra {
                    Err(e) => Err(e),
                    Ok(a) => Ok(
                        NodeDecl::Float {
                            name: self.name,
                            addressing: a,
                            access: self.access,
                            min: mn,
                            max: mx,
                            unit: self.unit,
                            scale,
                            offset: self.offset,
                            selectors: self.selectors.selectors,
                            selected_if: self.selectors.selected_if,
                        },
                    ),
                };
                assert(spec_finalize(s0.addressing, s0.name@, Some(8u32), ra));
                r
            },
            NodeKind::Enumeration => {
                if self.entries.len() == 0 {
                    return Err(invalid("Enumeration node ", self.name.as_str(), " declares no <EnumEntry> elements"));
                }
                let ra = self.addressing.finalize(self.name.as_str(), Some(4));
                let r = match ra {
                    Err(e) => Err(e),
                    Ok(a) => Ok(
                        NodeDecl::Enum {
                            name: self.name,
                            addressing: a,
                            access: self.access,
                            entries: self.entries,
                            default: self.default,
                            selectors: self.selectors.selectors,
                            selected_if: self.selectors.selected_if,
                        },
                    ),
                };
                assert(spec_finalize(s0.addressing, s0.name@, Some(4u32), ra));
                r
            },
            NodeKind::Boolean => {
                let mut st = self;
                let mut b = AddressingBuilder::default();
                core::mem::swap(&mut b, &mut st.addressing);
                let ra = b.finalize(st.name.as_str(), Some(4));
                let r = match ra {
                    Err(e) => Err(e),
                    Ok(a) => boolean_from(st, a),
                };
                assert(spec_finalize(s0.addressing, s0.name@, Some(4u32), ra));
                r
            },
        }
    }
}

// ---------------------------------------------------------------------------
// Enumeration entries written with child elements
// ---------------------------------------------------------------------------

/// The parts of an enumeration entry while its children are read.
pub struct EntryState {
    pub name: String,
    pub literal: Option<String>,
    pub provider: Option<String>,
    pub display_name: Option<String>,
}

/// The parts of an enumeration entry, with texts as character sequences.
pub struct EntryParts {
    pub name: Seq<char>,
    pub literal: Option<Seq<char>>,
    pub provider: Option<Seq<char>>,
    pub display_name: Option<Seq<char>>,
}

impl EntryState {
    /// The parts read so far.
    pub open spec fn view(&self) -> EntryParts {
        EntryParts {
            name: self.name@,
            literal: opt_view(self.literal),
            provider: opt_view(self.provider),
            display_name: opt_view(self.display_name),
        }
    }
}

/// The parts an entry's own tag gives.
pub open spec fn entry_begin(h: ElementHead) -> Result<EntryParts, Fail> {
    match required_of(h, Tag::Name) {
        Err(f) => Err(f),
        Ok(n) => match attr_of(h, Tag::Value) {
            Err(f) => Err(f),
            Ok(l) => match attr_of(h, Tag::PValue) {
                Err(f) => Err(f),
                Ok(p) => match attr_of(h, Tag::DisplayName) {
                    Err(f) => Err(f),
                    Ok(d) => Ok(EntryParts { name: n, literal: l, provider: p, display_name: d }),
                },
            },
        },
    }
}

/// What a child element of an entry read as text `x` does: a non-blank text replaces the part.
pub open spec fn entry_step(e: EntryParts, t: Tag, x: Seq<char>) -> EntryParts {
    match trim_text(x) {
        None => e,
        Some(y) => if t == Tag::Value {
            EntryParts { literal: Some(y), ..e }
        } else if t == Tag::PValue {
            EntryParts { provider: Some(y), ..e }
        } else if t == Tag::DisplayName {
            EntryParts { display_name: Some(y), ..e }
        } else if t == Tag::Name {
            EntryParts { name: y, ..e }
        } else {
            e
        },
    }
}

impl EntryState {
    /// Start reading an entry from its own tag.
    pub fn begin(h: &ElementHead) -> (r: Result<EntryState, XmlError>)
        ensures
            match entry_begin(*h) {
                Err(f) => fails(r, f),
                Ok(e) => r is Ok && r->Ok_0.view() == e,
            },
    {
        let name = match required(h, Tag::Name) {
            Err(e) => return Err(e),
            Ok(n) => n,
        };
        let literal = match attr(h, Tag::Value) {
            Err(e) => return Err(e),
            Ok(v) => v,
        };
        let provider = match attr(h, Tag::PValue) {
            Err(e) => return Err(e),
            Ok(v) => v,
        };
        let display_name = match attr(h, Tag::DisplayName) {
            Err(e) => return Err(e),
            Ok(v) => v,
        };
        Ok(EntryState { name, literal, provider, display_name })
    }

    /// Apply a child element read as the text `x`.
    pub fn apply_text(&mut self, t: Tag, x: &str)
        ensures
            final(self).view() == entry_step(old(self).view(), t, x@),
    {
        match trim_string(x) {
            None => {},
            Some(y) => if t == Tag::Value {
                self.literal = Some(y);
            } else if t == Tag::PValue {
                self.provider = Some(y);
            } else if t == Tag::DisplayName {
                self.display_name = Some(y);
            } else if t == Tag::Name {
                self.name = y;
            },
        }
    }

    /// The entry built from its parts.
    pub fn finish(self) -> (r: Result<EnumEntryDecl, XmlError>)
        ensures
            match entry_build(self.view().name, self.view().literal, self.view().provider, self.view().display_name) {
                Err(f) => fails(r, f),
                Ok(e) => r is Ok && entry_view(r->Ok_0) == e,
            },
    {
        build_entry(self.name, self.literal, self.provider, self.display_name)
    }
}

// ---------------------------------------------------------------------------
// Commands, categories and SwissKnife nodes
// ---------------------------------------------------------------------------

/// What is known of a command node while its children are read.
pub struct CommandState {
    pub name: String,
    pub address: Option<u64>,
    pub length: Option<u32>,
}

/// What a child element of a command read as text `x` does.
pub open spec fn command_step(name: Seq<char>, address: Option<u64>, length: Option<u32>, t: Tag, x: Seq<char>) -> Result<
    (Option<u64>, Option<u32>),
    Fail,
> {
    if t == Tag::Address {
        match num_u64(tb(x)) {
            Err(f) => Err(f),
            Ok(a) => Ok((Some(a), length)),
        }
    } else if t == Tag::Length {
        match num_u32(tb(x), len_msg(name)) {
            Err(f) => Err(f),
            Ok(l) => Ok((address, Some(l))),
        }
    } else {
        Ok((address, length))
    }
}

/// The declaration of a finished command: the address is required, the length defaults to 1.
pub open spec fn command_finish(name: String, address: Option<u64>, length: Option<u32>, r: Result<NodeDecl, XmlError>) -> bool {
    match address {
        None => fails(r, Fail::Invalid("Command node "@ + name@ + " is missing <Address>"@)),
        Some(a) => r == Ok::<NodeDecl, XmlError>(
            NodeDecl::Command { name, address: a, len: if length is Some { length->Some_0 } else { 1u32 } },
        ),
    }
}

impl CommandState {
    /// Start reading a command from its own tag.
    pub fn begin(h: &ElementHead) -> (r: Result<CommandState, XmlError>)
        ensures
            match required_of(*h, Tag::Name) {
                Err(f) => fails(r, f),
                Ok(n) => r is Ok && r->Ok_0.name@ == n && r->Ok_0.address is None && r->Ok_0.length is None,
            },
    {
        match required(h, Tag::Name) {
            Err(e) => Err(e),
            Ok(name) => Ok(CommandState { name, address: None, length: None }),
        }
    }

    /// Apply a child element read as the text `x`.
    pub fn apply_text(&mut self, t: Tag, x: &str) -> (r: Result<(), XmlError>)
        ensures
            match command_step(old(self).name@, old(self).address, old(self).length, t, x@) {
                Err(f) => fails(r, f),
                Ok(p) => r is Ok && final(self).address == p.0 && final(self).length == p.1
                    && final(self).name == old(self).name,
            },
    {
        if t == Tag::Address {
            match u64_of(x) {
                Err(e) => Err(e),
                Ok(a) => {
                    self.address = Some(a);
                    Ok(())
                },
            }
        } else if t == Tag::Length {
            match u32_of(x, len_message(self.name.as_str())) {
                Err(e) => Err(e),
                Ok(l) => {
                    self.length = Some(l);
                    Ok(())
                },
            }
        } else {
            Ok(())
        }
    }

    /// The declaration of the finished command.
    pub fn finish(self) -> (r: Result<NodeDecl, XmlError>)
        ensures
            command_finish(self.name, self.address, self.length, r),
    {
        match self.address {
            None => Err(invalid("Command node ", self.name.as_str(), " is missing <Address>")),
            Some(a) => Ok(
                NodeDecl::Command {
                    name: self.name,
                    address: a,
                    len: match self.length {
                        Some(l) => l,
                        None => 1,
                    },
                },
            ),
        }
    }
}

/// A command written as an empty tag: name and address are required attributes.
pub open spec fn command_empty_spec(h: ElementHead, r: Result<NodeDecl, XmlError>) -> bool {
    match required_of(h, Tag::Name) {
        Err(f) => fails(r, f),
        Ok(n) => match required_of(h, Tag::Address) {
            Err(f) => fails(r, f),
            Ok(at) => match num_u64(tb(at)) {
                Err(f) => fails(r, f),
                Ok(a) => match attr_of(h, Tag::Length) {
                    Err(f) => fails(r, f),
                    Ok(lo) => match (match lo {
                        None => Ok(1u32),
                        Some(lt) => num_u32(tb(lt), "command length out of range"@),
                    }) {
                        Err(f) => fails(r, f),
                        Ok(l) => r matches Ok(NodeDecl::Command { name, address, len }) && name@ == n
                            && address == a && len == l,
                    },
                },
            },
        },
    }
}

/// Read a command written as an empty tag.
pub fn parse_command_empty(h: &ElementHead) -> (r: Result<NodeDecl, XmlError>)
    ensures
        command_empty_spec(*h, r),
{
    let name = match required(h, Tag::Name) {
        Err(e) => return Err(e),
        Ok(n) => n,
    };
    let at = match required(h, Tag::Address) {
        Err(e) => return Err(e),
        Ok(a) => a,
    };
    let address = match u64_of(at.as_str()) {
        Err(e) => return Err(e),
        Ok(a) => a,
    };
    let len = match attr(h, Tag::Length) {
        Err(e) => return Err(e),
        Ok(None) => 1u32,
        Ok(Some(lt)) => match u32_of(lt.as_str(), String::from_str("command length out of range")) {
            Err(e) => return Err(e),
            Ok(l) => l,
        },
    };
    Ok(NodeDecl::Command { name, address, len })
}

/// What is known of a category while its children are read.
pub struct CategoryState {
    pub name: String,
    pub children: Vec<String>,
}

/// What a `<pFeature>` start tag read as text `x` does to the children named so far.
pub open spec fn category_step(children: Seq<Seq<char>>, x: Seq<char>) -> Seq<Seq<char>> {
    match trim_text(x) {
        Some(c) => children.push(c),
        None => children,
    }
}

/// What an empty `<pFeature/>` tag does to the children named so far.
pub open spec fn category_empty_step(children: Seq<Seq<char>>, h: ElementHead) -> Result<Seq<Seq<char>>, Fail> {
    match attr_of(h, Tag::Name) {
        Err(f) => Err(f),
        Ok(None) => Ok(children),
        Ok(Some(c)) => Ok(if c.len() > 0 { children.push(c) } else { children }),
    }
}

impl CategoryState {
    /// Start reading a category from its own tag.
    pub fn begin(h: &ElementHead) -> (r: Result<CategoryState, XmlError>)
        ensures
            match required_of(*h, Tag::Name) {
                Err(f) => fails(r, f),
                Ok(n) => r is Ok && r->Ok_0.name@ == n && r->Ok_0.children@.len() == 0,
            },
    {
        match required(h, Tag::Name) {
            Err(e) => Err(e),
            Ok(name) => Ok(CategoryState { name, children: Vec::new() }),
        }
    }

    /// Apply a `<pFeature>` element read as the text `x`.
    pub fn feature_text(&mut self, x: &str)
        ensures
            final(self).name == old(self).name,
            texts(final(self).children@) == category_step(texts(old(self).children@), x@),
    {
        let ghost c0 = texts(self.children@);
        match trim_string(x) {
            Some(c) => {
                self.children.push(c);
                assert(texts(self.children@) =~= c0.push(trim_text(x@)->Some_0));
            },
            None => {},
        }
    }

    /// Apply an empty `<pFeature/>` tag.
    pub fn feature_empty(&mut self, h: &ElementHead) -> (r: Result<(), XmlError>)
        ensures
            match category_empty_step(texts(old(self).children@), *h) {
                Err(f) => fails(r, f),
                Ok(c) => r is Ok && texts(final(self).children@) == c && final(self).name == old(self).name,
            },
    {
        let ghost c0 = texts(self.children@);
        match attr(h, Tag::Name) {
            Err(e) => Err(e),
            Ok(None) => Ok(()),
            Ok(Some(c)) => {
                if !c.as_str().is_empty() {
                    let ghost cv = c@;
                    self.children.push(c);
                    assert(texts(self.children@) =~= c0.push(cv));
                }
                Ok(())
            },
        }
    }

    /// The declaration of the finished category.
    pub fn finish(self) -> (r: NodeDecl)
        ensures
            r == (NodeDecl::Category { name: self.name, children: self.children }),
    {
        NodeDecl::Category { name: self.name, children: self.children }
    }
}

/// Read a category written as an empty tag: it has no children.
pub fn parse_category_empty(h: &ElementHead) -> (r: Result<NodeDecl, XmlError>)
    ensures
        match required_of(*h, Tag::Name) {
            Err(f) => fails(r, f),
            Ok(n) => r matches Ok(NodeDecl::Category { name, children }) && name@ == n && children@.len() == 0,
        },
{
    match required(h, Tag::Name) {
        Err(e) => Err(e),
        Ok(name) => Ok(NodeDecl::Category { name, children: Vec::new() }),
    }
}

/// What is known of a SwissKnife node while its children are read.
pub struct SwissKnifeState {
    pub name: String,
    pub expr: Option<String>,
    pub variables: Vec<(String, String)>,
    pub output: SkOutput,
}

/// A SwissKnife state with texts as character sequences.
pub struct SkView {
    pub name: Seq<char>,
    pub expr: Option<Seq<char>>,
    pub variables: Seq<(Seq<char>, Seq<char>)>,
    pub output: SkOutput,
}

impl SwissKnifeState {
    /// The state's contents.
    pub open spec fn view(&self) -> SkView {
        SkView {
            name: self.name@,
            expr: opt_view(self.expr),
            variables: self.variables@.map_values(|p: (String, String)| (p.0@, p.1@)),
            output: self.output,
        }
    }
}

/// A message about a SwissKnife node: `SwissKnife node <name><rest>`.
pub open spec fn sk_msg(name: Seq<char>, rest: Seq<char>) -> Seq<char> {
    "SwissKnife node "@ + name + rest
}

/// What a child start tag read as text does: the expression and variable targets must not
/// be blank, a variable is named by the tag's `Name`.
pub open spec fn sk_start(v: SkView, t: Tag, h: ElementHead, text: Result<Seq<char>, Fail>) -> Result<SkView, Fail> {
    if t == Tag::Expression {
        match text {
            Err(f) => Err(f),
            Ok(x) => match trim_text(x) {
                None => Err(Fail::Invalid(sk_msg(v.name, " has empty <Expression>"@))),
                Some(e) => Ok(SkView { expr: Some(e), ..v }),
            },
        }
    } else if t == Tag::PVariable {
        match required_of(h, Tag::Name) {
            Err(f) => Err(f),
            Ok(var) => match text {
                Err(f) => Err(f),
                Ok(x) => match trim_text(x) {
                    None => Err(Fail::Invalid(sk_msg(v.name, " has empty <pVariable>"@))),
                    Some(target) => Ok(SkView { variables: v.variables.push((var, target)), ..v }),
                },
            },
        }
    } else if t == Tag::Output {
        match text {
            Err(f) => Err(f),
            Ok(x) => Ok(
                match spec_sk_output(tb(x)) {
                    Some(o) => SkView { output: o, ..v },
                    None => v,
                },
            ),
        }
    } else {
        Ok(v)
    }
}

/// What an empty child tag does: the attributes stand for the text.
pub open spec fn sk_empty(v: SkView, t: Option<Tag>, h: ElementHead) -> Result<SkView, Fail> {
    match t {
        Some(Tag::PVariable) => match required_of(h, Tag::Name) {
            Err(f) => Err(f),
            Ok(var) => match attr_of(h, Tag::Value) {
                Err(f) => Err(f),
                Ok(None) => Err(Fail::Invalid(sk_msg(v.name, " missing variable target"@))),
                Ok(Some(target)) => if target.len() == 0 {
                    Err(Fail::Invalid(sk_msg(v.name, " has empty <pVariable/>"@)))
                } else {
                    Ok(SkView { variables: v.variables.push((var, target)), ..v })
                },
            },
        },
        Some(Tag::Expression) => match required_of(h, Tag::Value) {
            Err(f) => Err(f),
            Ok(x) => match trim_text(x) {
                None => Err(Fail::Invalid(sk_msg(v.name, " has empty <Expression/>"@))),
                Some(e) => Ok(SkView { expr: Some(e), ..v }),
            },
        },
        Some(Tag::Output) => match attr_of(h, Tag::Value) {
            Err(f) => Err(f),
            Ok(None) => Ok(v),
            Ok(Some(x)) => Ok(
                match spec_sk_output(tb(x)) {
                    Some(o) => SkView { output: o, ..v },
                    None => v,
                },
            ),
        },
        _ => Ok(v),
    }
}

/// The declaration of a finished SwissKnife node: it needs an expression and a variable.
pub open spec fn sk_finish(s: SwissKnifeState, r: Result<NodeDecl, XmlError>) -> bool {
    match s.expr {
        None => fails(r, Fail::Invalid(sk_msg(s.name@, " is missing <Expression>"@))),
        Some(e) => if s.variables@.len() == 0 {
            fails(r, Fail::Invalid(sk_msg(s.name@, " must declare at least one <pVariable>"@)))
        } else {
            r == Ok::<NodeDecl, XmlError>(
                NodeDecl::SwissKnife(
                    SwissKnifeDecl { name: s.name, expr: e, variables: s.variables, output: s.output },
                ),
            )
        },
    }
}

impl SwissKnifeState {
    /// Start reading a SwissKnife node from its own tag.
    pub fn begin(h: &ElementHead) -> (r: Result<SwissKnifeState, XmlError>)
        ensures
            match required_of(*h, Tag::Name) {
                Err(f) => fails(r, f),
                Ok(n) => r is Ok && r->Ok_0.view() == (SkView {
                    name: n,
                    expr: None,
                    variables: Seq::empty(),
                    output: SkOutput::Float,
                }),
            },
    {
        match required(h, Tag::Name) {
            Err(e) => Err(e),
            Ok(name) => {
                let s = SwissKnifeState { name, expr: None, variables: Vec::new(), output: SkOutput::Float };
                assert(s.view().variables =~= Seq::<(Seq<char>, Seq<char>)>::empty());
                Ok(s)
            },
        }
    }

    fn add_variable(&mut self, var: String, target: String)
        ensures
            final(self).view() == (SkView {
                variables: old(self).view().variables.push((var@, target@)),
                ..old(self).view()
            }),
    {
        let ghost v0 = self.view();
        self.variables.push((var, target));
        assert(self.view().variables =~= v0.variables.push((var@, target@)));
    }

    /// Apply a child start tag read as text; `text` is what reading it gave.
    pub fn on_start(&mut self, t: Tag, h: &ElementHead, text: Result<String, XmlError>) -> (r: Result<(), XmlError>)
        ensures
            match sk_start(old(self).view(), t, *h, text_of(text)) {
                Err(f) => fails(r, f),
                Ok(v) => r is Ok && final(self).view() == v,
            },
    {
        if t == Tag::Expression {
            let x = match text {
                Err(e) => return Err(e),
                Ok(x) => x,
            };
            match trim_string(x.as_str()) {
                None => Err(invalid("SwissKnife node ", self.name.as_str(), " has empty <Expression>")),
                Some(e) => {
                    self.expr = Some(e);
                    Ok(())
                },
            }
        } else if t == Tag::PVariable {
            let var = match required(h, Tag::Name) {
                Err(e) => return Err(e),
                Ok(v) => v,
            };
            let x = match text {
                Err(e) => return Err(e),
                Ok(x) => x,
            };
            match trim_string(x.as_str()) {
                None => Err(invalid("SwissKnife node ", self.name.as_str(), " has empty <pVariable>")),
                Some(target) => {
                    self.add_variable(var, target);
                    Ok(())
                },
            }
        } else if t == Tag::Output {
            let x = match text {
                Err(e) => return Err(e),
                Ok(x) => x,
            };
            match SkOutput::parse(x.as_str()) {
                Some(o) => self.output = o,
                None => {},
            }
            Ok(())
        } else {
            Ok(())
        }
    }

    /// Apply an empty child tag named `t`.
    pub fn on_empty(&mut self, t: Option<Tag>, h: &ElementHead) -> (r: Result<(), XmlError>)
        ensures
            match sk_empty(old(self).view(), t, *h) {
                Err(f) => fails(r, f),
                Ok(v) => r is Ok && final(self).view() == v,
            },
    {
        match t {
            Some(Tag::PVariable) => {
                let var = match required(h, Tag::Name) {
                    Err(e) => return Err(e),
                    Ok(v) => v,
                };
                match attr(h, Tag::Value) {
                    Err(e) => Err(e),
                    Ok(None) => Err(invalid("SwissKnife node ", self.name.as_str(), " missing variable target")),
                    Ok(Some(target)) => if target.as_str().is_empty() {
                        Err(invalid("SwissKnife node ", self.name.as_str(), " has empty <pVariable/>"))
                    } else {
                        self.add_variable(var, target);
                        Ok(())
                    },
                }
            },
            Some(Tag::Expression) => {
                let x = match required(h, Tag::Value) {
                    Err(e) => return Err(e),
                    Ok(x) => x,
                };
                match trim_string(x.as_str()) {
                    None => Err(invalid("SwissKnife node ", self.name.as_str(), " has empty <Expression/>")),
                    Some(e) => {
                        self.expr = Some(e);
                        Ok(())
                    },
                }
            },
            Some(Tag::Output) => {
                match attr(h, Tag::Value) {
                    Err(e) => return Err(e),
                    Ok(None) => {},
                    Ok(Some(x)) => match SkOutput::parse(x.as_str()) {
                        Some(o) => self.output = o,
                        None => {},
                    },
                }
                Ok(())
            },
            _ => Ok(()),
        }
    }

    /// The declaration of the finished node.
    pub fn finish(self) -> (r: Result<NodeDecl, XmlError>)
        ensures
            sk_finish(self, r),
    {
        match self.expr {
            None => Err(invalid("SwissKnife node ", self.name.as_str(), " is missing <Expression>")),
            Some(e) => if self.variables.len() == 0 {
                Err(invalid("SwissKnife node ", self.name.as_str(), " must declare at least one <pVariable>"))
            } else {
                Ok(
                    NodeDecl::SwissKnife(
                        SwissKnifeDecl { name: self.name, expr: e, variables: self.variables, output: self.output },
                    ),
                )
            },
        }
    }
}

} // verus!
