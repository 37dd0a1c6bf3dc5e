use d2_stampede::field_type::{FieldType, FieldTypeParseError};

#[test]
fn a_plain_name_is_a_type() {
    let t = FieldType::parse("int32").unwrap();
    assert_eq!(t.base_name, "int32");
    assert!(t.generic.is_none());
    assert!(t.array_size.is_none());
    assert!(!t.pointer);
    assert_eq!(t.as_string(), "int32");
}

#[test]
fn an_element_type_stands_between_angle_brackets() {
    let t = FieldType::parse("CUtlVector< CHandle< CBaseEntity > >").unwrap();
    assert_eq!(t.base_name, "CUtlVector");
    let handle = t.generic.as_ref().unwrap();
    assert_eq!(handle.base_name, "CHandle");
    let entity = handle.generic.as_ref().unwrap();
    assert_eq!(entity.base_name, "CBaseEntity");
    assert!(entity.generic.is_none());
    assert_eq!(t.as_string(), "CUtlVector< CHandle< CBaseEntity > >");
}

#[test]
fn white_space_is_insignificant() {
    let t = FieldType::parse("  CUtlVector<int32>\t").unwrap();
    assert_eq!(t.base_name, "CUtlVector");
    assert_eq!(t.generic.as_ref().unwrap().base_name, "int32");
    assert_eq!(t.as_string(), "CUtlVector< int32 >");
    let u = FieldType::parse("uint8 [ 4 ]").unwrap();
    assert_eq!(u.array_size, Some(4));
}

#[test]
fn a_star_marks_a_pointer() {
    let t = FieldType::parse("CBodyComponent*").unwrap();
    assert_eq!(t.base_name, "CBodyComponent");
    assert!(t.pointer);
    assert!(t.array_size.is_none());
    assert_eq!(t.as_string(), "CBodyComponent*");
}

#[test]
fn a_length_in_square_brackets_makes_an_array() {
    let t = FieldType::parse("uint8[4]").unwrap();
    assert_eq!(t.base_name, "uint8");
    assert_eq!(t.array_size, Some(4));
    assert_eq!(t.as_string(), "uint8[4]");
    let h = FieldType::parse("CHandle< CBaseEntity >[6]").unwrap();
    assert_eq!(h.array_size, Some(6));
    assert_eq!(h.generic.as_ref().unwrap().base_name, "CBaseEntity");
    assert_eq!(h.as_string(), "CHandle< CBaseEntity >[6]");
    let p = FieldType::parse("CThing*[0010]").unwrap();
    assert!(p.pointer);
    assert_eq!(p.array_size, Some(10));
    assert_eq!(p.as_string(), "CThing*[10]");
    let most = FieldType::parse("x[4294967295]").unwrap();
    assert_eq!(most.array_size, Some(u32::MAX));
}

#[test]
fn what_is_no_type_is_refused() {
    let bad = [
        "",
        "   ",
        "<int32>",
        "CUtlVector<",
        "CUtlVector<int32",
        "CUtlVector<>",
        "CUtlVector<int32>>",
        "a,b",
        "CUtlVector<a,b>",
        "uint8[]",
        "uint8[x]",
        "uint8[4",
        "uint8[4]]",
        "uint8[4]*",
        "uint8[4294967296]",
        "uint8[99999999999999999999999]",
        "two names",
        "a**",
        "a[-1]",
    ];
    for text in bad.iter() {
        match FieldType::parse(text) {
            Err(FieldTypeParseError::Malformed(s)) => assert_eq!(&s, text),
            Ok(t) => panic!("{:?} was read as {:?}", text, t),
        }
    }
}

#[test]
fn a_written_type_is_read_back() {
    let texts = ["float32", "CUtlVector< CHandle< CBaseEntity > >", "A< B >*[3]", "char[128]"];
    for text in texts.iter() {
        let t = FieldType::parse(text).unwrap();
        assert_eq!(&t.as_string(), text);
        let again = FieldType::parse(&t.as_string()).unwrap();
        assert_eq!(again.as_string(), t.as_string());
    }
}

#[test]
fn a_new_type_is_plain() {
    let t = FieldType::new("bool".to_string());
    assert_eq!(t.base_name, "bool");
    assert!(t.generic.is_none() && t.array_size.is_none() && !t.pointer);
}
