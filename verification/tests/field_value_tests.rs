use d2_stampede::field_value::{ConversionError, FieldValue};

#[test]
fn integers_convert_where_they_fit() {
    assert_eq!(FieldValue::Signed32(600).as_i32(), Ok(600));
    assert_eq!(FieldValue::Signed32(600).as_u32(), Ok(600));
    assert_eq!(FieldValue::Signed32(600).as_u64(), Ok(600));
    assert_eq!(FieldValue::Signed32(600).as_i64(), Ok(600));
    assert_eq!(FieldValue::Unsigned64(u64::MAX).as_u64(), Ok(u64::MAX));
    assert_eq!(FieldValue::Signed64(i64::MIN).as_i64(), Ok(i64::MIN));
    assert_eq!(FieldValue::Unsigned32(u32::MAX).as_u32(), Ok(u32::MAX));
    assert_eq!(FieldValue::Handle(16389).as_u32(), Ok(16389));
    assert_eq!(FieldValue::Signed32(i32::MIN).as_i32(), Ok(i32::MIN));
}

#[test]
fn integers_out_of_range_are_refused() {
    assert_eq!(FieldValue::Signed32(-1).as_u32(), Err(ConversionError::OutOfRange));
    assert_eq!(FieldValue::Signed32(-1).as_u64(), Err(ConversionError::OutOfRange));
    assert_eq!(FieldValue::Unsigned32(u32::MAX).as_i32(), Err(ConversionError::OutOfRange));
    assert_eq!(FieldValue::Unsigned64(u64::MAX).as_i64(), Err(ConversionError::OutOfRange));
    assert_eq!(FieldValue::Unsigned64(1 << 32).as_u32(), Err(ConversionError::OutOfRange));
    assert_eq!(FieldValue::Signed64(i64::MIN).as_i32(), Err(ConversionError::OutOfRange));
}

#[test]
fn other_kinds_are_no_integers() {
    assert_eq!(FieldValue::Boolean(true).as_u32(), Err(ConversionError::WrongKind));
    assert_eq!(FieldValue::Float(0).as_i32(), Err(ConversionError::WrongKind));
    assert_eq!(FieldValue::String("1".to_string()).as_i64(), Err(ConversionError::WrongKind));
    assert_eq!(FieldValue::Vector3D([0, 0, 0]).as_u64(), Err(ConversionError::WrongKind));
}

#[test]
fn booleans_floats_and_strings_are_read_as_themselves() {
    assert_eq!(FieldValue::Boolean(true).as_bool(), Ok(true));
    assert_eq!(FieldValue::Signed32(1).as_bool(), Err(ConversionError::WrongKind));
    assert_eq!(FieldValue::Float(0x43b4_0000).as_float_bits(), Ok(0x43b4_0000));
    assert_eq!(FieldValue::Unsigned32(1).as_float_bits(), Err(ConversionError::WrongKind));
    assert_eq!(FieldValue::String("abc".to_string()).as_str(), Ok("abc"));
    assert_eq!(FieldValue::Boolean(false).as_str(), Err(ConversionError::WrongKind));
}

#[test]
fn a_quantized_angle_is_carried_by_its_bits() {
    let angle: f32 = (128.0 / 255.0) * 360.0;
    let value = FieldValue::Float(angle.to_bits());
    let read = f32::from_bits(value.as_float_bits().unwrap());
    assert_eq!(read, angle);
    assert!((read - 180.705_88).abs() < 0.001);
}

#[test]
fn a_copy_equals_the_value() {
    let values = vec![
        FieldValue::Boolean(false),
        FieldValue::Signed32(-3),
        FieldValue::Unsigned32(3),
        FieldValue::Signed64(-4),
        FieldValue::Unsigned64(4),
        FieldValue::Float(5),
        FieldValue::String("six".to_string()),
        FieldValue::Vector2D([1, 2]),
        FieldValue::Vector3D([1, 2, 3]),
        FieldValue::Vector4D([1, 2, 3, 4]),
        FieldValue::Quaternion([4, 3, 2, 1]),
        FieldValue::Handle(7),
    ];
    for v in values.iter() {
        assert_eq!(&v.duplicate(), v);
    }
}
