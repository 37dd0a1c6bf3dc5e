//! The decoder registry: which decoder reads a field's values from the bit stream.

use vstd::prelude::*;
use crate::field::Field;
use crate::text::{chars_of, spells};

verus! {

/// The parameters of a quantized float. The bounds are IEEE-754 bit patterns.
#[derive(Clone, Copy, Debug, PartialEq, Eq)]
pub struct QuantizedFloat {
    pub bit_count: u32,
    pub low: Option<u32>,
    pub high: Option<u32>,
    pub flags: Option<i32>,
}

/// The decoders of the registry.
#[derive(Clone, Copy, Debug, PartialEq, Eq)]
pub enum Decoders {
    /// An unsigned varint, chosen for a type that the registry does not know.
    Default,
    /// One bit.
    Boolean,
    /// A zig-zag varint.
    Signed,
    /// A plain varint.
    Unsigned,
    /// An integer of the given number of bits.
    FixedBits(u32),
    /// A raw 32-bit IEEE float.
    Float32,
    /// A float packed into a few bits over a fixed range.
    Quantized(QuantizedFloat),
    Coord,
    QAnglePrecise,
    SimulationTime,
    RuneTime,
    /// Three floats, each quantized with the given parameters or raw.
    Vector(Option<QuantizedFloat>),
    /// Four floats.
    Quaternion,
    /// A varint that yields a handle.
    Handle,
    /// A null-terminated UTF-8 string.
    String,
}

/// The quantization that the encoding hints ask for: present when the bit count lies
/// strictly between 0 and 32.
pub open spec fn quantization(
    bit_count: Option<i32>,
    low: Option<u32>,
    high: Option<u32>,
    flags: Option<i32>,
) -> Option<QuantizedFloat> {
    match bit_count {
        Some(n) if 0 < n < 32 => Some(QuantizedFloat { bit_count: n as u32, low, high, flags }),
        _ => None,
    }
}

/// Whether `base` names one of the signed integer primitives.
pub open spec fn is_signed_integer(base: Seq<char>) -> bool {
    base == "int8"@ || base == "int16"@ || base == "int32"@ || base == "int64"@
}

/// Whether `base` names one of the unsigned integer primitives.
pub open spec fn is_unsigned_integer(base: Seq<char>) -> bool {
    base == "uint8"@ || base == "uint16"@ || base == "uint32"@ || base == "uint64"@
}

/// The decoder for a base type name, an encoder name and the encoding hints. An encoder
/// name that the registry knows decides alone; otherwise the base type does.
pub open spec fn select_decoder(
    base: Seq<char>,
    encoder: Seq<char>,
    bit_count: Option<i32>,
    low: Option<u32>,
    high: Option<u32>,
    flags: Option<i32>,
) -> Decoders {
    if encoder == "coord"@ {
        Decoders::Coord
    } else if encoder == "qangle_precise"@ {
        Decoders::QAnglePrecise
    } else if encoder == "simtime"@ {
        Decoders::SimulationTime
    } else if encoder == "runetime"@ {
        Decoders::RuneTime
    } else if is_signed_integer(base) || is_unsigned_integer(base) {
        match bit_count {
            Some(n) if n > 0 => Decoders::FixedBits(n as u32),
            _ => if is_signed_integer(base) {
                Decoders::Signed
            } else {
                Decoders::Unsigned
            },
        }
    } else if base == "float32"@ {
        match quantization(bit_count, low, high, flags) {
            Some(q) => Decoders::Quantized(q),
            None => Decoders::Float32,
        }
    } else if base == "bool"@ {
        Decoders::Boolean
    } else if base == "Vector"@ || base == "QAngle"@ {
        Decoders::Vector(quantization(bit_count, low, high, flags))
    } else if base == "CHandle"@ || base == "CGameSceneNodeHandle"@ || base == "CUtlStringToken"@ {
        Decoders::Handle
    } else if base == "CUtlString"@ || base == "CUtlSymbolLarge"@ {
        Decoders::String
    } else if base == "Quaternion"@ {
        Decoders::Quaternion
    } else {
        Decoders::Default
    }
}

/// A `float32` without an encoder name is read by the quantized decoder of its bit count
/// and bounds where the bit count lies strictly between 0 and 32, and as a raw float
/// otherwise.
pub proof fn lemma_float32_decoder(
    bit_count: Option<i32>,
    low: Option<u32>,
    high: Option<u32>,
    flags: Option<i32>,
)
    ensures
        select_decoder("float32"@, Seq::empty(), bit_count, low, high, flags) == (match bit_count {
            Some(n) if 0 < n < 32 => Decoders::Quantized(
                QuantizedFloat { bit_count: n as u32, low, high, flags },
            ),
            _ => Decoders::Float32,
        }),
{
    reveal_strlit("float32");
    reveal_strlit("coord");
    reveal_strlit("qangle_precise");
    reveal_strlit("simtime");
    reveal_strlit("runetime");
    reveal_strlit("int8");
    reveal_strlit("int16");
    reveal_strlit("int32");
    reveal_strlit("int64");
    reveal_strlit("uint8");
    reveal_strlit("uint16");
    reveal_strlit("uint32");
    reveal_strlit("uint64");
    let none = Seq::<char>::empty();
    assert("coord"@.len() == 5 && "qangle_precise"@.len() == 14 && "simtime"@.len() == 7
        && "runetime"@.len() == 8);
    assert(none.len() == 0);
    let base = "float32"@;
    assert(base.len() == 7);
    assert("int8"@.len() == 4 && "int16"@.len() == 5 && "int32"@.len() == 5 && "int64"@.len()
        == 5);
    assert("uint8"@.len() == 5 && "uint16"@.len() == 6 && "uint32"@.len() == 6 && "uint64"@.len()
        == 6);
    assert(!is_signed_integer(base));
    assert(!is_unsigned_integer(base));
}

/// The base type name by which a field's decoder is chosen: that of the field's type, or
/// of its element type where `generic` is set. `None` where that type is not resolved.
pub open spec fn decoding_base(field: Field, generic: bool) -> Option<Seq<char>> {
    match field.field_type {
        None => None,
        Some(t) => if generic {
            match t.generic {
                None => None,
                Some(inner) => Some(inner.base_name@),
            }
        } else {
            Some(t.base_name@)
        },
    }
}

fn quantization_of(
    bit_count: Option<i32>,
    low: Option<u32>,
    high: Option<u32>,
    flags: Option<i32>,
) -> (q: Option<QuantizedFloat>)
    ensures
        q == quantization(bit_count, low, high, flags),
{
    match bit_count {
        Some(n) => if 0 < n && n < 32 {
            Some(QuantizedFloat { bit_count: n as u32, low, high, flags })
        } else {
            None
        },
        None => None,
    }
}

impl Decoders {
    /// Chooses the decoder for a base type name, an encoder name and the encoding hints.
    pub fn select(
        base: &str,
        encoder: &str,
        bit_count: Option<i32>,
        low: Option<u32>,
        high: Option<u32>,
        flags: Option<i32>,
    ) -> (decoder: Decoders)
        ensures
            decoder == select_decoder(base@, encoder@, bit_count, low, high, flags),
    {
        let e: Vec<char> = chars_of(encoder);
        if spells(&e, "coord") {
            return Decoders::Coord;
        }
        if spells(&e, "qangle_precise") {
            return Decoders::QAnglePrecise;
        }
        if spells(&e, "simtime") {
            return Decoders::SimulationTime;
        }
        if spells(&e, "runetime") {
            return Decoders::RuneTime;
        }
        let b: Vec<char> = chars_of(base);
        let signed: bool = spells(&b, "int8") || spells(&b, "int16") || spells(&b, "int32")
            || spells(&b, "int64");
        let unsigned: bool = spells(&b, "uint8") || spells(&b, "uint16") || spells(&b, "uint32")
            || spells(&b, "uint64");
        if signed || unsigned {
            match bit_count {
                Some(n) => if n > 0 {
                    return Decoders::FixedBits(n as u32);
                },
                None => {},
            }
            return if signed {
                Decoders::Signed
            } else {
                Decoders::Unsigned
            };
        }
        if spells(&b, "float32") {
            return match quantization_of(bit_count, low, high, flags) {
                Some(q) => Decoders::Quantized(q),
                None => Decoders::Float32,
            };
        }
        if spells(&b, "bool") {
            return Decoders::Boolean;
        }
        if spells(&b, "Vector") || spells(&b, "QAngle") {
            return Decoders::Vector(quantization_of(bit_count, low, high, flags));
        }
        if spells(&b, "CHandle") || spells(&b, "CGameSceneNodeHandle") || spells(
            &b,
            "CUtlStringToken",
        ) {
            return Decoders::Handle;
        }
        if spells(&b, "CUtlString") || spells(&b, "CUtlSymbolLarge") {
            return Decoders::String;
        }
        if spells(&b, "Quaternion") {
            return Decoders::Quaternion;
        }
        Decoders::Default
    }

    /// Chooses the decoder of a field, or of its elements where `generic` is set. `None`
    /// where the type that decides is not resolved.
    pub fn from_field(field: &Field, generic: bool) -> (decoder: Option<Decoders>)
        ensures
            decoder == (match decoding_base(*field, generic) {
                None => None::<Decoders>,
                Some(base) => Some(
                    select_decoder(
                        base,
                        field.encoder@,
                        field.bit_count,
                        field.low_value,
                        field.high_value,
                        field.encoder_flags,
                    ),
                ),
            }),
    {
        match &field.field_type {
            None => None,
            Some(t) => {
                if generic {
                    match &t.generic {
                        None => None,
                        Some(inner) => Some(
                            Decoders::select(
                                inner.base_name.as_str(),
                                field.encoder.as_str(),
                                field.bit_count,
                                field.low_value,
                                field.high_value,
                                field.encoder_flags,
                            ),
                        ),
                    }
                } else {
                    Some(
                        Decoders::select(
                            t.base_name.as_str(),
                            field.encoder.as_str(),
                            field.bit_count,
                            field.low_value,
                            field.high_value,
                            field.encoder_flags,
                        ),
                    )
                }
            },
        }
    }
}

} // verus!
