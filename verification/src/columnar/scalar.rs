//! Type tags and single values in columnar files.
use super::error::ColumnarError;
use super::reader::{self, Parsed, Reader};
use crate::bytes;
use crate::value::{self, PhysicalType, Scalar, ScalarValue, ScalarView};
use vstd::prelude::*;
use vstd::utf8;

verus! {

broadcast use crate::bytes::group_le_len;

/// The tag of a type.
pub open spec fn tag_of(physical: PhysicalType) -> u8 {
    match physical {
        PhysicalType::Bool => 1,
        PhysicalType::Int64 => 2,
        PhysicalType::UInt64 => 3,
        PhysicalType::Text => 4,
    }
}

/// The type with a tag.
pub open spec fn tagged(tag: u8) -> Result<PhysicalType, ColumnarError> {
    if tag == 1 {
        Ok(PhysicalType::Bool)
    } else if tag == 2 {
        Ok(PhysicalType::Int64)
    } else if tag == 3 {
        Ok(PhysicalType::UInt64)
    } else if tag == 4 {
        Ok(PhysicalType::Text)
    } else {
        Err(ColumnarError::Corrupt("unknown physical type tag"))
    }
}

/// The tag of a type.
pub fn type_tag(physical: PhysicalType) -> (tag: u8)
    ensures
        tag == tag_of(physical),
{
    match physical {
        PhysicalType::Bool => 1,
        PhysicalType::Int64 => 2,
        PhysicalType::UInt64 => 3,
        PhysicalType::Text => 4,
    }
}

/// The type with a tag.
pub fn decode_type_tag(tag: u8) -> (physical: Result<PhysicalType, ColumnarError>)
    ensures
        physical == tagged(tag),
{
    if tag == 1 {
        Ok(PhysicalType::Bool)
    } else if tag == 2 {
        Ok(PhysicalType::Int64)
    } else if tag == 3 {
        Ok(PhysicalType::UInt64)
    } else if tag == 4 {
        Ok(PhysicalType::Text)
    } else {
        Err(ColumnarError::Corrupt("unknown physical type tag"))
    }
}

/// How a value is written.
pub open spec fn scalar_le(value: ScalarView) -> Seq<u8> {
    match value {
        Scalar::Null => Seq::empty(),
        Scalar::Bool(flag) => seq![if flag { 1u8 } else { 0u8 }],
        Scalar::Int64(number) => bytes::u64_le(number as u64),
        Scalar::UInt64(number) => bytes::u64_le(number),
        Scalar::Text(text) => reader::string_le(text),
    }
}

/// Why a value of a type cannot be written, if it cannot.
pub open spec fn scalar_error(value: ScalarView, physical: PhysicalType) -> Option<ColumnarError> {
    if !value::is_of(value, physical) {
        Some(ColumnarError::InvalidInput("statistic type mismatch"))
    } else {
        match value {
            Scalar::Text(text) => if text.len() > u32::MAX {
                Some(ColumnarError::InvalidInput("statistic text too long"))
            } else {
                None
            },
            _ => None,
        }
    }
}

/// The value of a type at `at`.
pub open spec fn scalar_read(s: Seq<u8>, at: int, physical: PhysicalType) -> Parsed<ScalarView> {
    match physical {
        PhysicalType::Bool => match reader::u8_read(s, at) {
            Ok((flag, next)) => if flag == 0 {
                Ok((Scalar::Bool(false), next))
            } else if flag == 1 {
                Ok((Scalar::Bool(true), next))
            } else {
                Err(ColumnarError::Corrupt("invalid bool statistic"))
            },
            Err(error) => Err(error),
        },
        PhysicalType::Int64 => match reader::u64_read(s, at) {
            Ok((number, next)) => Ok((Scalar::Int64(number as i64), next)),
            Err(error) => Err(error),
        },
        PhysicalType::UInt64 => match reader::u64_read(s, at) {
            Ok((number, next)) => Ok((Scalar::UInt64(number), next)),
            Err(error) => Err(error),
        },
        PhysicalType::Text => match reader::string_read(s, at) {
            Ok((text, next)) => Ok((Scalar::Text(text), next)),
            Err(error) => Err(error),
        },
    }
}

/// How a value that may be missing is written.
pub open spec fn optional_le(value: Option<ScalarView>) -> Seq<u8> {
    match value {
        None => seq![0u8],
        Some(known) => seq![1u8] + scalar_le(known),
    }
}

/// Why a value that may be missing cannot be written, if it cannot.
pub open spec fn optional_error(
    value: Option<ScalarView>,
    physical: PhysicalType,
) -> Option<ColumnarError> {
    match value {
        None => None,
        Some(known) => scalar_error(known, physical),
    }
}

/// The value that may be missing, of a type, at `at`.
pub open spec fn optional_read(s: Seq<u8>, at: int, physical: PhysicalType) -> Parsed<
    Option<ScalarView>,
> {
    match reader::u8_read(s, at) {
        Ok((tag, next)) => if tag == 0 {
            Ok((None, next))
        } else if tag == 1 {
            match scalar_read(s, next, physical) {
                Ok((known, next)) => Ok((Some(known), next)),
                Err(error) => Err(error),
            }
        } else {
            Err(ColumnarError::Corrupt("invalid optional scalar tag"))
        },
        Err(error) => Err(error),
    }
}

/// Writes a value of a type.
pub fn encode_scalar(
    output: &mut Vec<u8>,
    value: &ScalarValue,
    physical: PhysicalType,
) -> (written: Result<(), ColumnarError>)
    ensures
        match scalar_error(value::scalar_view(*value), physical) {
            Some(error) => written == Err::<(), ColumnarError>(error),
            None => written is Ok && final(output)@ == old(output)@ + scalar_le(
                value::scalar_view(*value),
            ),
        },
{
    match (physical, value) {
        (PhysicalType::Bool, Scalar::Bool(flag)) => {
            output.push(
                if *flag {
                    1
                } else {
                    0
                },
            );
            assert(output@ =~= old(output)@ + scalar_le(value::scalar_view(*value)));
        },
        (PhysicalType::Int64, Scalar::Int64(number)) => {
            bytes::push_u64(output, *number as u64);
        },
        (PhysicalType::UInt64, Scalar::UInt64(number)) => {
            bytes::push_u64(output, *number);
        },
        (PhysicalType::Text, Scalar::Text(text)) => {
            if reader::push_string(output, text.as_str()).is_err() {
                return Err(ColumnarError::InvalidInput("statistic text too long"));
            }
        },
        _ => {
            return Err(ColumnarError::InvalidInput("statistic type mismatch"));
        },
    }
    Ok(())
}

/// Reads a value of a type.
pub fn decode_scalar(
    reader: &mut Reader<'_>,
    physical: PhysicalType,
) -> (read: Result<ScalarValue, ColumnarError>)
    requires
        old(reader).wf(),
    ensures
        final(reader).wf(),
        final(reader).bytes == old(reader).bytes,
        match scalar_read(old(reader).bytes@, old(reader).offset as int, physical) {
            Ok((value, next)) => {
                &&& read is Ok
                &&& value::scalar_view(read->Ok_0) == value
                &&& final(reader).offset == next
            },
            Err(error) => read == Err::<ScalarValue, ColumnarError>(error),
        },
{
    match physical {
        PhysicalType::Bool => {
            let flag: u8 = reader.u8()?;
            if flag == 0 {
                Ok(Scalar::Bool(false))
            } else if flag == 1 {
                Ok(Scalar::Bool(true))
            } else {
                Err(ColumnarError::Corrupt("invalid bool statistic"))
            }
        },
        PhysicalType::Int64 => {
            let number: u64 = reader.u64()?;
            Ok(Scalar::Int64(number as i64))
        },
        PhysicalType::UInt64 => {
            let number: u64 = reader.u64()?;
            Ok(Scalar::UInt64(number))
        },
        PhysicalType::Text => {
            let text: String = reader.string()?;
            Ok(Scalar::Text(text))
        },
    }
}

/// Writes a value that may be missing.
pub fn encode_optional_scalar(
    output: &mut Vec<u8>,
    value: &Option<ScalarValue>,
    physical: PhysicalType,
) -> (written: Result<(), ColumnarError>)
    ensures
        match optional_error(value::option_view(*value), physical) {
            Some(error) => written == Err::<(), ColumnarError>(error),
            None => written is Ok && final(output)@ == old(output)@ + optional_le(
                value::option_view(*value),
            ),
        },
{
    match value {
        None => {
            output.push(0);
            assert(output@ =~= old(output)@ + optional_le(value::option_view(*value)));
            Ok(())
        },
        Some(known) => {
            output.push(1);
            encode_scalar(output, known, physical)?;
            assert(output@ =~= old(output)@ + optional_le(value::option_view(*value)));
            Ok(())
        },
    }
}

/// Reads a value that may be missing.
pub fn decode_optional_scalar(
    reader: &mut Reader<'_>,
    physical: PhysicalType,
) -> (read: Result<Option<ScalarValue>, ColumnarError>)
    requires
        old(reader).wf(),
    ensures
        final(reader).wf(),
        final(reader).bytes == old(reader).bytes,
        match optional_read(old(reader).bytes@, old(reader).offset as int, physical) {
            Ok((value, next)) => {
                &&& read is Ok
                &&& value::option_view(read->Ok_0) == value
                &&& final(reader).offset == next
            },
            Err(error) => read == Err::<Option<ScalarValue>, ColumnarError>(error),
        },
{
    let tag: u8 = reader.u8()?;
    if tag == 0 {
        Ok(None)
    } else if tag == 1 {
        let value: ScalarValue = decode_scalar(reader, physical)?;
        Ok(Some(value))
    } else {
        Err(ColumnarError::Corrupt("invalid optional scalar tag"))
    }
}

/// A signed integer survives its unsigned form.
pub proof fn lemma_signed(number: i64)
    by (bit_vector)
    ensures
        (number as u64) as i64 == number,
{
}

/// Whether a text that may be missing is UTF-8.
pub open spec fn optional_valid(value: Option<ScalarView>) -> bool {
    match value {
        Some(Scalar::Text(text)) => utf8::valid_utf8(text),
        _ => true,
    }
}

/// A written value that may be missing is read back.
pub proof fn law_optional_round_trip(
    s: Seq<u8>,
    at: int,
    value: Option<ScalarView>,
    physical: PhysicalType,
)
    requires
        reader::holds(s, at, optional_le(value)),
        s.len() <= usize::MAX,
        optional_error(value, physical) is None,
        optional_valid(value),
    ensures
        optional_read(s, at, physical) == Ok::<(Option<ScalarView>, int), ColumnarError>(
            (value, at + optional_le(value).len()),
        ),
{
    match value {
        None => {
            reader::lemma_u8_read(s, at, 0);
        },
        Some(known) => {
            reader::lemma_holds(s, at, seq![1u8], scalar_le(known));
            reader::lemma_u8_read(s, at, 1);
            match known {
                Scalar::Bool(flag) => {
                    reader::lemma_u8_read(
                        s,
                        at + 1,
                        if flag {
                            1
                        } else {
                            0
                        },
                    );
                },
                Scalar::Int64(number) => {
                    reader::lemma_u64_read(s, at + 1, number as u64);
                    lemma_signed(number);
                },
                Scalar::UInt64(number) => {
                    reader::lemma_u64_read(s, at + 1, number);
                },
                Scalar::Text(text) => {
                    reader::lemma_string_read(s, at + 1, text);
                },
                Scalar::Null => {},
            }
        },
    }
}

} // verus!
