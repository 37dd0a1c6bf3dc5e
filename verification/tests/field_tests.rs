use d2_stampede::decoder::Decoders;
use d2_stampede::field::{Field, FieldModels, FlattenedField, SchemaError};
use d2_stampede::field_type::FieldType;
use d2_stampede::serializer::Serializer;
use std::rc::Rc;

fn wire() -> FlattenedField {
    FlattenedField {
        var_type_sym: Some(1),
        var_name_sym: Some(0),
        bit_count: Some(8),
        low_value: Some(0.0f32.to_bits()),
        high_value: Some(360.0f32.to_bits()),
        encode_flags: Some(2),
        field_serializer_name_sym: Some(3),
        field_serializer_version: Some(4),
        send_node_sym: Some(2),
        var_encoder_sym: Some(5),
    }
}

fn symbols() -> Vec<String> {
    ["m_flAngle", "float32", "(root)", "CBodyComponent", "m_angles", "coord"]
        .iter()
        .map(|s| s.to_string())
        .collect()
}

fn typed(type_text: &str, serializer: Option<Rc<Serializer>>) -> Field {
    let mut field = Field::new(&symbols(), &wire());
    field.field_type = Some(Rc::new(FieldType::parse(type_text).unwrap()));
    field.serializer = serializer;
    field.encoder = String::new();
    field.bit_count = None;
    field
}

#[test]
fn a_new_field_takes_its_names_from_the_symbols() {
    let field = Field::new(&symbols(), &wire());
    assert_eq!(field.var_name, "m_flAngle");
    assert_eq!(field.get_name(), "m_flAngle");
    assert_eq!(field.var_type, "float32");
    assert_eq!(field.send_node, "");
    assert_eq!(field.serializer_name, "CBodyComponent");
    assert_eq!(field.serializer_ver, 4);
    assert_eq!(field.encoder, "coord");
    assert_eq!(field.encoder_flags, Some(2));
    assert_eq!(field.bit_count, Some(8));
    assert_eq!(field.low_value, Some(0.0f32.to_bits()));
    assert_eq!(field.high_value, Some(360.0f32.to_bits()));
    assert!(field.parent.is_none());
    assert!(field.field_type.is_none());
    assert!(field.serializer.is_none());
    assert!(field.value.is_none());
    assert_eq!(field.model, FieldModels::Simple);
    assert_eq!(field.decoder, Decoders::Default);
    assert_eq!(field.base_decoder, Decoders::Default);
    assert_eq!(field.child_decoder, Decoders::Default);
}

#[test]
fn a_send_node_other_than_the_root_is_kept() {
    let mut w = wire();
    w.send_node_sym = Some(4);
    let field = Field::new(&symbols(), &w);
    assert_eq!(field.send_node, "m_angles");
}

#[test]
fn a_missing_symbol_reads_as_empty() {
    let w = FlattenedField {
        var_type_sym: None,
        var_name_sym: Some(6),
        bit_count: None,
        low_value: None,
        high_value: None,
        encode_flags: None,
        field_serializer_name_sym: Some(-1),
        field_serializer_version: None,
        send_node_sym: Some(i32::MAX),
        var_encoder_sym: Some(i32::MIN),
    };
    let field = Field::new(&symbols(), &w);
    assert_eq!(field.var_name, "");
    assert_eq!(field.var_type, "");
    assert_eq!(field.send_node, "");
    assert_eq!(field.serializer_name, "");
    assert_eq!(field.serializer_ver, 0);
    assert_eq!(field.encoder, "");
    assert_eq!(field.bit_count, None);
}

#[test]
fn the_labels_of_the_models() {
    assert_eq!(FieldModels::Simple.as_string(), "simple");
    assert_eq!(FieldModels::FixedArray.as_string(), "fixed-array");
    assert_eq!(FieldModels::FixedTable.as_string(), "fixed-table");
    assert_eq!(FieldModels::VariableArray.as_string(), "variable-array");
    assert_eq!(FieldModels::VariableTable.as_string(), "variable-table");
}

#[test]
fn the_model_follows_the_type_and_the_serializer() {
    let child = Rc::new(Serializer::new());
    assert_eq!(typed("int32", None).choose_model(), FieldModels::Simple);
    assert_eq!(typed("CBodyComponent", Some(child.clone())).choose_model(), FieldModels::FixedTable);
    assert_eq!(typed("uint8[4]", None).choose_model(), FieldModels::FixedArray);
    assert_eq!(typed("CThing[4]", Some(child.clone())).choose_model(), FieldModels::FixedTable);
    assert_eq!(typed("CUtlVector< int32 >", None).choose_model(), FieldModels::VariableArray);
    assert_eq!(
        typed("CNetworkUtlVectorBase< int32 >", None).choose_model(),
        FieldModels::VariableArray
    );
    assert_eq!(
        typed("CUtlVectorEmbeddedNetworkVar< CThing >", Some(child.clone())).choose_model(),
        FieldModels::VariableTable
    );
    assert_eq!(
        typed("CUtlVector< CThing >", Some(child.clone())).choose_model(),
        FieldModels::VariableTable
    );
    let mut untyped = typed("int32", None);
    untyped.field_type = None;
    assert_eq!(untyped.choose_model(), FieldModels::Simple);
    untyped.serializer = Some(child);
    assert_eq!(untyped.choose_model(), FieldModels::FixedTable);
}

#[test]
fn a_simple_field_and_a_fixed_array_decode_by_type() {
    let mut field = typed("int32", None);
    assert_eq!(field.set_model(FieldModels::Simple), Ok(()));
    assert_eq!(field.model, FieldModels::Simple);
    assert_eq!(field.decoder, Decoders::Signed);
    assert_eq!(field.base_decoder, Decoders::Default);
    let mut array = typed("uint8[4]", None);
    assert_eq!(array.set_model(FieldModels::FixedArray), Ok(()));
    assert_eq!(array.model, FieldModels::FixedArray);
    assert_eq!(array.decoder, Decoders::Unsigned);
}

#[test]
fn a_record_is_announced_by_a_boolean() {
    let mut field = typed("CBodyComponent", Some(Rc::new(Serializer::new())));
    assert_eq!(field.set_model(FieldModels::FixedTable), Ok(()));
    assert_eq!(field.model, FieldModels::FixedTable);
    assert_eq!(field.base_decoder, Decoders::Boolean);
    assert_eq!(field.decoder, Decoders::Default);
}

#[test]
fn a_variable_array_is_announced_by_its_length() {
    let mut field = typed("CUtlVector< int32 >", None);
    assert_eq!(field.set_model(FieldModels::VariableArray), Ok(()));
    assert_eq!(field.model, FieldModels::VariableArray);
    assert_eq!(field.base_decoder, Decoders::Unsigned);
    assert_eq!(field.child_decoder, Decoders::Signed);
    let mut table = typed("CUtlVector< CThing >", Some(Rc::new(Serializer::new())));
    assert_eq!(table.set_model(FieldModels::VariableTable), Ok(()));
    assert_eq!(table.model, FieldModels::VariableTable);
    assert_eq!(table.base_decoder, Decoders::Unsigned);
}

#[test]
fn a_field_that_lacks_what_the_model_needs_is_left_alone() {
    let mut no_generic = typed("CUtlVector", None);
    assert_eq!(no_generic.set_model(FieldModels::VariableArray), Err(SchemaError::MissingGeneric));
    assert_eq!(no_generic.model, FieldModels::Simple);
    assert_eq!(no_generic.base_decoder, Decoders::Default);

    let mut no_serializer = typed("CBodyComponent", None);
    assert_eq!(
        no_serializer.set_model(FieldModels::FixedTable),
        Err(SchemaError::MissingSerializer)
    );
    assert_eq!(
        no_serializer.set_model(FieldModels::VariableTable),
        Err(SchemaError::MissingSerializer)
    );
    assert_eq!(no_serializer.model, FieldModels::Simple);

    let mut untyped = typed("int32", None);
    untyped.field_type = None;
    assert_eq!(untyped.set_model(FieldModels::Simple), Err(SchemaError::UnresolvedType));
    assert_eq!(untyped.set_model(FieldModels::FixedArray), Err(SchemaError::UnresolvedType));
    assert_eq!(untyped.set_model(FieldModels::VariableArray), Err(SchemaError::UnresolvedType));
    assert_eq!(untyped.decoder, Decoders::Default);
}

#[test]
fn the_type_is_resolved_from_the_declared_type() {
    let mut field = Field::new(&symbols(), &wire());
    assert!(field.field_type.is_none());
    assert_eq!(field.resolve_type(), Ok(()));
    let t = field.field_type.as_ref().unwrap();
    assert_eq!(t.base_name, "float32");
    assert!(t.generic.is_none() && t.array_size.is_none() && !t.pointer);
    assert_eq!(field.var_type, "float32");
    assert_eq!(field.var_name, "m_flAngle");
    assert_eq!(field.model, FieldModels::Simple);

    let mut broken = Field::new(&symbols(), &wire());
    broken.var_type = "CUtlVector<".to_string();
    assert_eq!(broken.resolve_type(), Err(SchemaError::UnresolvedType));
    assert!(broken.field_type.is_none());
}

#[test]
fn a_quantized_angle_is_read_by_the_quantized_decoder() {
    let mut field = Field::new(&symbols(), &wire());
    field.encoder = String::new();
    field.encoder_flags = None;
    assert_eq!(field.resolve_type(), Ok(()));
    assert_eq!(field.set_model(FieldModels::Simple), Ok(()));
    assert_eq!(
        field.decoder,
        Decoders::Quantized(d2_stampede::decoder::QuantizedFloat {
            bit_count: 8,
            low: Some(0.0f32.to_bits()),
            high: Some(360.0f32.to_bits()),
            flags: None,
        })
    );
    let raw = 0x80u32;
    let low = f32::from_bits(field.low_value.unwrap());
    let high = f32::from_bits(field.high_value.unwrap());
    let angle = low + (high - low) / 255.0 * raw as f32;
    assert!((angle - 180.705_88).abs() < 0.001);
}

#[test]
fn different_models_have_different_names() {
    let models = [
        FieldModels::Simple,
        FieldModels::FixedArray,
        FieldModels::FixedTable,
        FieldModels::VariableArray,
        FieldModels::VariableTable,
    ];
    for a in models.iter() {
        for b in models.iter() {
            assert_eq!(a == b, a.as_string() == b.as_string());
        }
    }
}
