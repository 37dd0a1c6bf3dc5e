//! Decoded field values.

use vstd::prelude::*;

verus! {

/// A decoded value. Floating-point components are carried as their IEEE-754 bit patterns.
#[derive(Clone, Debug, PartialEq, Eq)]
pub enum FieldValue {
    Boolean(bool),
    Signed32(i32),
    Unsigned32(u32),
    Signed64(i64),
    Unsigned64(u64),
    Float(u32),
    String(String),
    Vector2D([u32; 2]),
    Vector3D([u32; 3]),
    Vector4D([u32; 4]),
    Quaternion([u32; 4]),
    Handle(u32),
}

/// Why a value could not be read as the requested primitive.
#[derive(Clone, Copy, Debug, PartialEq, Eq)]
pub enum ConversionError {
    /// The value is of a kind that has no reading as the requested primitive.
    WrongKind,
    /// The value is an integer outside the requested primitive's range.
    OutOfRange,
}

impl FieldValue {
    /// The integer that an integer-kind value holds; `None` for every other kind.
    pub open spec fn integer(self) -> Option<int> {
        match self {
            FieldValue::Signed32(x) => Some(x as int),
            FieldValue::Unsigned32(x) => Some(x as int),
            FieldValue::Signed64(x) => Some(x as int),
            FieldValue::Unsigned64(x) => Some(x as int),
            FieldValue::Handle(x) => Some(x as int),
            _ => None,
        }
    }

    /// The checked cast of this value to an integer between `low` and `high`.
    pub open spec fn cast(self, low: int, high: int) -> Result<int, ConversionError> {
        match self.integer() {
            None => Err(ConversionError::WrongKind),
            Some(n) => if low <= n <= high {
                Ok(n)
            } else {
                Err(ConversionError::OutOfRange)
            },
        }
    }

    fn to_i128(&self) -> (res: Option<i128>)
        ensures
            res is Some <==> self.integer() is Some,
            res is Some ==> res->0 == self.integer()->0,
    {
        match self {
            FieldValue::Signed32(x) => Some(*x as i128),
            FieldValue::Unsigned32(x) => Some(*x as i128),
            FieldValue::Signed64(x) => Some(*x as i128),
            FieldValue::Unsigned64(x) => Some(*x as i128),
            FieldValue::Handle(x) => Some(*x as i128),
            _ => None,
        }
    }

    /// Reads the value as a boolean.
    pub fn as_bool(&self) -> (res: Result<bool, ConversionError>)
        ensures
            res == (match *self {
                FieldValue::Boolean(b) => Ok::<bool, ConversionError>(b),
                _ => Err(ConversionError::WrongKind),
            }),
    {
        match self {
            FieldValue::Boolean(b) => Ok(*b),
            _ => Err(ConversionError::WrongKind),
        }
    }

    /// Reads the value as an `i32`: any integer kind whose value fits.
    pub fn as_i32(&self) -> (res: Result<i32, ConversionError>)
        ensures
            res is Ok <==> self.cast(i32::MIN as int, i32::MAX as int) is Ok,
            res matches Ok(x) ==> self.cast(i32::MIN as int, i32::MAX as int) == Ok::<
                int,
                ConversionError,
            >(x as int),
            res matches Err(e) ==> self.cast(i32::MIN as int, i32::MAX as int) == Err::<
                int,
                ConversionError,
            >(e),
    {
        match self.to_i128() {
            None => Err(ConversionError::WrongKind),
            Some(n) => if -2147483648 <= n && n <= 2147483647 {
                Ok(n as i32)
            } else {
                Err(ConversionError::OutOfRange)
            },
        }
    }

    /// Reads the value as a `u32`: any integer kind whose value fits.
    pub fn as_u32(&self) -> (res: Result<u32, ConversionError>)
        ensures
            res is Ok <==> self.cast(0, u32::MAX as int) is Ok,
            res matches Ok(x) ==> self.cast(0, u32::MAX as int) == Ok::<int, ConversionError>(
                x as int,
            ),
            res matches Err(e) ==> self.cast(0, u32::MAX as int) == Err::<int, ConversionError>(e),
    {
        match self.to_i128() {
            None => Err(ConversionError::WrongKind),
            Some(n) => if 0 <= n && n <= 4294967295 {
                Ok(n as u32)
            } else {
                Err(ConversionError::OutOfRange)
            },
        }
    }

    /// Reads the value as an `i64`: any integer kind whose value fits.
    pub fn as_i64(&self) -> (res: Result<i64, ConversionError>)
        ensures
            res is Ok <==> self.cast(i64::MIN as int, i64::MAX as int) is Ok,
            res matches Ok(x) ==> self.cast(i64::MIN as int, i64::MAX as int) == Ok::<
                int,
                ConversionError,
            >(x as int),
            res matches Err(e) ==> self.cast(i64::MIN as int, i64::MAX as int) == Err::<
                int,
                ConversionError,
            >(e),
    {
        match self.to_i128() {
            None => Err(ConversionError::WrongKind),
            Some(n) => if -9223372036854775808 <= n && n <= 9223372036854775807 {
                Ok(n as i64)
            } else {
                Err(ConversionError::OutOfRange)
            },
        }
    }

    /// Reads the value as a `u64`: any integer kind whose value fits.
    pub fn as_u64(&self) -> (res: Result<u64, ConversionError>)
        ensures
            res is Ok <==> self.cast(0, u64::MAX as int) is Ok,
            res matches Ok(x) ==> self.cast(0, u64::MAX as int) == Ok::<int, ConversionError>(
                x as int,
            ),
            res matches Err(e) ==> self.cast(0, u64::MAX as int) == Err::<int, ConversionError>(e),
    {
        match self.to_i128() {
            None => Err(ConversionError::WrongKind),
            Some(n) => if 0 <= n && n <= 18446744073709551615 {
                Ok(n as u64)
            } else {
                Err(ConversionError::OutOfRange)
            },
        }
    }

    /// Reads the bit pattern of a floating-point value.
    pub fn as_float_bits(&self) -> (res: Result<u32, ConversionError>)
        ensures
            res == (match *self {
                FieldValue::Float(bits) => Ok::<u32, ConversionError>(bits),
                _ => Err(ConversionError::WrongKind),
            }),
    {
        match self {
            FieldValue::Float(bits) => Ok(*bits),
            _ => Err(ConversionError::WrongKind),
        }
    }

    /// Reads the text of a string value.
    pub fn as_str(&self) -> (res: Result<&str, ConversionError>)
        ensures
            res is Ok <==> *self is String,
            res matches Ok(s) ==> s@ == self->String_0@,
            res matches Err(e) ==> e == ConversionError::WrongKind,
    {
        match self {
            FieldValue::String(s) => Ok(s.as_str()),
            _ => Err(ConversionError::WrongKind),
        }
    }
}

} // verus!
