use d2_stampede::decoder::Decoders;
use d2_stampede::field::{Field, FieldModels, FlattenedField};
use d2_stampede::field_path::FieldPath;
use d2_stampede::field_state::FieldState;
use d2_stampede::field_type::FieldType;
use d2_stampede::field_value::FieldValue;
use d2_stampede::serializer::{Serializer, SerializerError};
use d2_stampede::text::chars_of;
use std::rc::Rc;

fn path(indices: &[u8]) -> FieldPath {
    FieldPath::from_indices(&indices.to_vec()).unwrap()
}

fn field(name: &str, type_text: &str, serializer: Option<Rc<Serializer>>) -> Rc<Field> {
    let symbols = vec![name.to_string(), type_text.to_string()];
    let wire = FlattenedField {
        var_type_sym: Some(1),
        var_name_sym: Some(0),
        bit_count: None,
        low_value: None,
        high_value: None,
        encode_flags: None,
        field_serializer_name_sym: None,
        field_serializer_version: None,
        send_node_sym: None,
        var_encoder_sym: None,
    };
    let mut f = Field::new(&symbols, &wire);
    f.field_type = Some(Rc::new(FieldType::parse(type_text).unwrap()));
    f.serializer = serializer;
    let model = f.choose_model();
    f.set_model(model).unwrap();
    Rc::new(f)
}

fn hero() -> Serializer {
    let body = Rc::new(Serializer::from_fields(vec![
        field("m_cellX", "uint16", None),
        field("m_cellY", "uint16", None),
    ]));
    let player = Rc::new(Serializer::from_fields(vec![
        field("m_iScore", "int32", None),
        field("m_name", "CUtlString", None),
    ]));
    Serializer::from_fields(vec![
        field("m_iHealth", "int32", None),
        field("m_vecScores", "CUtlVector< int32 >", None),
        field("CBodyComponent", "CBodyComponent", Some(body)),
        field("m_vecPlayers", "CUtlVector< CPlayer >", Some(player)),
        field("m_flags", "uint8[4]", None),
    ])
}

fn resolved(s: &Serializer, name: &str) -> Option<FieldPath> {
    s.get_field_path_for_name(name).ok()
}

fn nested(levels: usize) -> Serializer {
    let mut inner = Serializer::from_fields(vec![field("a", "int32", None)]);
    for _ in 1..levels {
        inner = Serializer::from_fields(vec![field("a", "CRecord", Some(Rc::new(inner)))]);
    }
    inner
}

#[test]
fn the_models_of_the_schema() {
    let s = hero();
    let models: Vec<FieldModels> = s.fields().iter().map(|f| f.model).collect();
    assert_eq!(
        models,
        vec![
            FieldModels::Simple,
            FieldModels::VariableArray,
            FieldModels::FixedTable,
            FieldModels::VariableTable,
            FieldModels::FixedArray,
        ]
    );
}

#[test]
fn names_resolve_to_paths() {
    let s = hero();
    assert_eq!(resolved(&s, "m_iHealth"), Some(path(&[0])));
    assert_eq!(resolved(&s, "m_vecScores"), Some(path(&[1])));
    assert_eq!(resolved(&s, "m_vecScores.0000"), Some(path(&[1, 0])));
    assert_eq!(resolved(&s, "m_vecScores.0002"), Some(path(&[1, 2])));
    assert_eq!(resolved(&s, "m_vecScores.0255"), Some(path(&[1, 255])));
    assert_eq!(resolved(&s, "CBodyComponent"), Some(path(&[2])));
    assert_eq!(resolved(&s, "CBodyComponent.m_cellX"), Some(path(&[2, 0])));
    assert_eq!(resolved(&s, "CBodyComponent.m_cellY"), Some(path(&[2, 1])));
    assert_eq!(resolved(&s, "m_vecPlayers"), Some(path(&[3])));
    assert_eq!(resolved(&s, "m_vecPlayers.0003.m_iScore"), Some(path(&[3, 3, 0])));
    assert_eq!(resolved(&s, "m_vecPlayers.0000.m_name"), Some(path(&[3, 0, 1])));
    assert_eq!(resolved(&s, "m_flags.0001"), Some(path(&[4, 1])));
}

#[test]
fn names_that_stand_for_nothing() {
    let s = hero();
    let bad = [
        "",
        "nope",
        "m_iHealt",
        "m_iHealthy",
        "m_iHealth.",
        "m_iHealth.0000",
        "m_vecScores.",
        "m_vecScores.2",
        "m_vecScores.00002",
        "m_vecScores.+002",
        "m_vecScores.0256",
        "m_vecScores.9999",
        "m_vecScores.0002.x",
        "CBodyComponent.",
        "CBodyComponent.nope",
        "CBodyComponent.m_cellX.0000",
        "m_vecPlayers.0003",
        "m_vecPlayers.0003.",
        "m_vecPlayers.003.m_iScore",
        "m_vecPlayers.0003.nope",
        "m_vecPlayers.0003m_iScore",
        "m_vecPlayers.0300.m_iScore",
        "m_flags.1",
    ];
    for name in bad.iter() {
        match s.get_field_path_for_name(name) {
            Err(SerializerError::NoFieldPath(n)) => assert_eq!(&n, name),
            Ok(fp) => panic!("{:?} resolved to {}", name, fp.as_string()),
        }
    }
}

#[test]
fn the_first_field_of_a_name_decides() {
    let s = Serializer::from_fields(vec![
        field("a", "int32", None),
        field("a.b", "int32", None),
        field("c", "int32", None),
        field("c", "uint32", None),
    ]);
    assert_eq!(resolved(&s, "a"), Some(path(&[0])));
    assert_eq!(resolved(&s, "a.b"), None);
    assert_eq!(resolved(&s, "c"), Some(path(&[2])));
    let t = Serializer::from_fields(vec![field("a.b", "int32", None), field("a", "int32", None)]);
    assert_eq!(resolved(&t, "a.b"), Some(path(&[0])));
    assert_eq!(resolved(&t, "a"), Some(path(&[1])));
}

#[test]
fn a_resolved_name_is_the_name_of_its_path() {
    let s = hero();
    let names = [
        "m_iHealth",
        "m_vecScores",
        "m_vecScores.0000",
        "m_vecScores.0255",
        "CBodyComponent",
        "CBodyComponent.m_cellY",
        "m_vecPlayers",
        "m_vecPlayers.0003.m_iScore",
        "m_vecPlayers.0017.m_name",
        "m_flags.0003",
    ];
    for name in names.iter() {
        let fp = s.get_field_path_for_name(name).unwrap();
        assert_eq!(&s.get_name_for_field_path(&fp), name);
    }
}

#[test]
fn a_name_is_resolved_the_same_from_the_cache() {
    let s = hero();
    let first = s.get_field_path_for_name("m_vecPlayers.0003.m_iScore").unwrap();
    let second = s.get_field_path_for_name("m_vecPlayers.0003.m_iScore").unwrap();
    let third = s.resolve_name("m_vecPlayers.0003.m_iScore").unwrap();
    assert_eq!(first, path(&[3, 3, 0]));
    assert_eq!(second, first);
    assert_eq!(third, first);
    assert!(s.get_field_path_for_name("nope").is_err());
    assert!(s.get_field_path_for_name("nope").is_err());
    assert_eq!(s.get_field_path_for_name("m_iHealth").unwrap(), path(&[0]));
}

#[test]
fn a_pushed_field_is_found_and_old_answers_are_forgotten() {
    let mut s = Serializer::new();
    assert!(s.get_field_path_for_name("m_iHealth").is_err());
    s.push_field(field("m_iMana", "int32", None));
    s.push_field(field("m_iHealth", "int32", None));
    assert_eq!(s.fields().len(), 2);
    assert_eq!(resolved(&s, "m_iHealth"), Some(path(&[1])));
    assert_eq!(resolved(&s, "m_iMana"), Some(path(&[0])));
    let mut t = Serializer::from_fields(vec![field("x", "int32", None)]);
    assert_eq!(resolved(&t, "x"), Some(path(&[0])));
    assert_eq!(resolved(&t, "y"), None);
    t.push_field(field("y", "int32", None));
    assert_eq!(resolved(&t, "y"), Some(path(&[1])));
}

#[test]
fn names_of_paths() {
    let s = hero();
    assert_eq!(s.get_name_for_field_path(&path(&[0])), "m_iHealth");
    assert_eq!(s.get_name_for_field_path(&path(&[1])), "m_vecScores");
    assert_eq!(s.get_name_for_field_path(&path(&[1, 7])), "m_vecScores.0007");
    assert_eq!(s.get_name_for_field_path(&path(&[2])), "CBodyComponent");
    assert_eq!(s.get_name_for_field_path(&path(&[2, 1])), "CBodyComponent.m_cellY");
    assert_eq!(s.get_name_for_field_path(&path(&[3])), "m_vecPlayers");
    assert_eq!(s.get_name_for_field_path(&path(&[3, 3])), "m_vecPlayers.0003");
    assert_eq!(s.get_name_for_field_path(&path(&[3, 3, 0])), "m_vecPlayers.0003.m_iScore");
    assert_eq!(s.get_name_for_field_path(&path(&[4, 255])), "m_flags.0255");
}

#[test]
fn names_of_paths_that_leave_the_schema() {
    let s = hero();
    assert_eq!(s.get_name_for_field_path(&path(&[9])), "");
    assert_eq!(s.get_name_for_field_path(&path(&[0, 1])), "m_iHealth");
    assert_eq!(s.get_name_for_field_path(&path(&[1, 2, 3])), "m_vecScores");
    assert_eq!(s.get_name_for_field_path(&path(&[2, 9])), "CBodyComponent.");
    assert_eq!(Serializer::new().get_name_for_field_path(&path(&[0])), "");
}

#[test]
fn types_of_paths() {
    let s = hero();
    let text = |indices: &[u8]| s.get_type_for_field_path(&path(indices)).map(|t| t.as_string());
    assert_eq!(text(&[0]), Some("int32".to_string()));
    assert_eq!(text(&[1]), Some("CUtlVector< int32 >".to_string()));
    assert_eq!(text(&[1, 2]), Some("int32".to_string()));
    assert_eq!(text(&[2]), Some("CBodyComponent".to_string()));
    assert_eq!(text(&[2, 1]), Some("uint16".to_string()));
    assert_eq!(text(&[3]), Some("CUtlVector< CPlayer >".to_string()));
    assert_eq!(text(&[3, 3]), Some("CUtlVector< CPlayer >".to_string()));
    assert_eq!(text(&[3, 3, 1]), Some("CUtlString".to_string()));
    assert_eq!(text(&[4]), Some("uint8[4]".to_string()));
    assert_eq!(text(&[4, 1]), Some("uint8[4]".to_string()));
    assert_eq!(text(&[5]), None);
    assert_eq!(text(&[2, 2]), None);
    assert_eq!(text(&[3, 3, 2]), None);
}

#[test]
fn decoders_of_paths() {
    let s = hero();
    let decoder = |indices: &[u8]| s.get_decoder_for_field_path(&path(indices)).copied();
    assert_eq!(decoder(&[0]), Some(Decoders::Signed));
    assert_eq!(decoder(&[1]), Some(Decoders::Unsigned));
    assert_eq!(decoder(&[1, 2]), Some(Decoders::Signed));
    assert_eq!(decoder(&[2]), Some(Decoders::Boolean));
    assert_eq!(decoder(&[2, 0]), Some(Decoders::Unsigned));
    assert_eq!(decoder(&[3]), Some(Decoders::Unsigned));
    assert_eq!(decoder(&[3, 3]), Some(Decoders::Unsigned));
    assert_eq!(decoder(&[3, 3, 0]), Some(Decoders::Signed));
    assert_eq!(decoder(&[3, 3, 1]), Some(Decoders::String));
    assert_eq!(decoder(&[4]), Some(Decoders::Unsigned));
    assert_eq!(decoder(&[4, 1]), Some(Decoders::Unsigned));
    assert_eq!(decoder(&[5]), None);
    assert_eq!(decoder(&[2, 2]), None);
    assert_eq!(decoder(&[3, 3, 2]), None);
}

#[test]
fn a_name_may_go_seven_levels_deep_and_no_deeper() {
    let seven = nested(7);
    let fp = seven.get_field_path_for_name("a.a.a.a.a.a.a").unwrap();
    assert_eq!(fp, path(&[0, 0, 0, 0, 0, 0, 0]));
    assert_eq!(seven.get_name_for_field_path(&fp), "a.a.a.a.a.a.a");
    assert_eq!(seven.get_decoder_for_field_path(&fp).copied(), Some(Decoders::Signed));
    let eight = nested(8);
    assert!(eight.get_field_path_for_name("a.a.a.a.a.a.a.a").is_err());
    assert_eq!(
        eight.get_field_path_for_name("a.a.a.a.a.a.a").unwrap(),
        path(&[0, 0, 0, 0, 0, 0, 0])
    );
}

#[test]
fn resolving_below_a_path_writes_from_the_deepest_index_on() {
    let s = hero();
    let name = chars_of("x:m_vecPlayers.0003.m_iScore");
    let mut fp = path(&[9, 9]);
    assert!(s.resolve_in(&mut fp, &name, 2));
    assert_eq!(fp, path(&[9, 3, 3, 0]));
    let mut other = path(&[9, 9]);
    assert!(!s.resolve_in(&mut other, &name, 0));
    assert_eq!(other, path(&[9, 9]));
    let broken = chars_of("m_vecPlayers.0003.nope");
    assert!(!s.resolve_in(&mut other, &broken, 0));
    assert_eq!(other, path(&[9, 9]));
    assert!(!s.fields()[3].get_field_path_for_name(&mut other, &broken, 13));
    assert_eq!(other, path(&[9, 9]));
    let players = &s.fields()[3];
    let mut below = path(&[9, 9]);
    assert!(players.get_field_path_for_name(&mut below, &name, 15));
    assert_eq!(below, path(&[9, 3, 0]));
}

#[test]
fn the_paths_that_are_listed_for_a_state() {
    let s = hero();
    let mut st = FieldState::new();
    st.set(&path(&[0]), FieldValue::Signed32(600));
    st.set(&path(&[1, 0]), FieldValue::Signed32(10));
    st.set(&path(&[1, 2]), FieldValue::Signed32(30));
    st.set(&path(&[2, 1]), FieldValue::Unsigned32(7));
    st.set(&path(&[3, 1, 0]), FieldValue::Signed32(5));
    st.set(&path(&[4, 3]), FieldValue::Unsigned32(1));
    let mut cursor = FieldPath::new();
    let listed: Vec<String> =
        s.get_field_paths(&mut cursor, &st).iter().map(|fp| fp.as_string()).collect();
    assert_eq!(listed, vec!["0", "1/0", "1/2", "2/1", "3/1/0", "4/3"]);
    assert_eq!(cursor, FieldPath::new());
    let mut elsewhere = path(&[7]);
    assert_eq!(s.get_field_paths(&mut elsewhere, &st).len(), 6);
    assert_eq!(elsewhere, path(&[7]));
    for fp in s.get_field_paths(&mut cursor, &st).iter() {
        assert!(st.get_value(fp).is_some());
    }
}

#[test]
fn values_below_slots_without_a_field_are_not_listed() {
    let s = hero();
    let mut st = FieldState::new();
    st.set(&path(&[4, 1]), FieldValue::Unsigned32(1));
    st.set(&path(&[5]), FieldValue::Signed32(5));
    st.set(&path(&[9, 0]), FieldValue::Signed32(9));
    let mut cursor = FieldPath::new();
    let listed: Vec<String> =
        s.get_field_paths(&mut cursor, &st).iter().map(|fp| fp.as_string()).collect();
    assert_eq!(listed, vec!["4/1"]);
}

#[test]
fn an_empty_state_lists_nothing() {
    let s = hero();
    let mut cursor = FieldPath::new();
    assert!(s.get_field_paths(&mut cursor, &FieldState::new()).is_empty());
    let mut at = path(&[0]);
    assert!(s.fields()[0].get_field_paths(&mut at, &FieldState::new()).is_empty());
}

#[test]
fn a_field_lists_the_values_at_or_below_its_own_path() {
    let s = hero();
    let mut st = FieldState::new();
    st.set(&path(&[0]), FieldValue::Signed32(600));
    st.set(&path(&[1, 0]), FieldValue::Signed32(10));
    st.set(&path(&[1, 2]), FieldValue::Signed32(30));
    st.set(&path(&[3, 1, 0]), FieldValue::Signed32(5));
    st.set(&path(&[4, 0]), FieldValue::Unsigned32(1));
    st.set(&path(&[4, 2]), FieldValue::Unsigned32(1));
    let mut at = path(&[0]);
    assert_eq!(s.fields()[0].get_field_paths(&mut at, &st), vec![path(&[0])]);
    assert_eq!(at, path(&[0]));
    let mut at = path(&[1]);
    let scores: Vec<FieldPath> = s.fields()[1].get_field_paths(&mut at, &st);
    assert_eq!(scores, vec![path(&[1, 0]), path(&[1, 2])]);
    assert_eq!(at, path(&[1]));
    let mut flags_at = path(&[4]);
    let flags: Vec<FieldPath> = s.fields()[4].get_field_paths(&mut flags_at, &st);
    assert_eq!(flags, vec![path(&[4, 0]), path(&[4, 2])]);
    let mut players_at = path(&[3]);
    assert_eq!(s.fields()[3].get_field_paths(&mut players_at, &st), vec![path(&[3, 1, 0])]);
    let mut row_at = path(&[3, 1]);
    assert_eq!(s.fields()[3].get_field_paths(&mut row_at, &st), vec![path(&[3, 1, 0])]);
    let mut body_at = path(&[2]);
    assert!(s.fields()[2].get_field_paths(&mut body_at, &st).is_empty());
}

#[test]
fn a_value_at_the_deepest_level_is_listed() {
    let seven = nested(7);
    let mut st = FieldState::new();
    st.set(&path(&[0, 0, 0, 0, 0, 0, 0]), FieldValue::Signed32(1));
    let mut cursor = FieldPath::new();
    assert_eq!(
        seven.get_field_paths(&mut cursor, &st),
        vec![path(&[0, 0, 0, 0, 0, 0, 0])]
    );
    let mut deep = path(&[0, 0, 0, 0, 0, 0, 0]);
    assert_eq!(
        seven.fields()[0].get_field_paths(&mut deep, &st),
        vec![path(&[0, 0, 0, 0, 0, 0, 0])]
    );
    assert_eq!(deep, path(&[0, 0, 0, 0, 0, 0, 0]));
}

#[test]
fn the_words_of_the_error() {
    let e = hero().get_field_path_for_name("m_iMana").unwrap_err();
    assert_eq!(e.message(), "No field path for given name m_iMana");
}

#[test]
fn a_field_names_what_stands_below_it() {
    let s = hero();
    let players = &s.fields()[3];
    let fp = path(&[3, 3, 0]);
    assert_eq!(players.get_name_for_field_path(&fp, 1), "m_vecPlayers.0003.m_iScore");
    assert_eq!(players.get_name_for_field_path(&fp, 2), "m_vecPlayers.0000");
    assert_eq!(players.get_name_for_field_path(&fp, 3), "m_vecPlayers");
    assert_eq!(s.name_from(&fp, 0), "m_vecPlayers.0003.m_iScore");
    assert_eq!(s.name_from(&fp, 2), "m_iHealth");
    assert_eq!(s.name_from(&fp, 3), "");
    let scores = &s.fields()[1];
    assert_eq!(scores.get_name_for_field_path(&path(&[1, 7]), 1), "m_vecScores.0007");
    assert_eq!(scores.get_name_for_field_path(&path(&[1, 7]), 2), "m_vecScores");
    assert_eq!(scores.get_name_for_field_path(&path(&[1, 7, 7]), 1), "m_vecScores");
}

#[test]
fn a_field_tells_the_type_and_the_decoder_of_what_stands_below_it() {
    let s = hero();
    let scores = &s.fields()[1];
    let element = path(&[1, 7]);
    assert_eq!(scores.get_type_for_field_path(&element, 1).unwrap().as_string(), "int32");
    assert_eq!(
        scores.get_type_for_field_path(&element, 2).unwrap().as_string(),
        "CUtlVector< int32 >"
    );
    assert_eq!(scores.get_decoder_for_field_path(&element, 1).copied(), Some(Decoders::Signed));
    assert_eq!(scores.get_decoder_for_field_path(&element, 2).copied(), Some(Decoders::Unsigned));
    let body = &s.fields()[2];
    let cell = path(&[2, 1]);
    assert_eq!(body.get_type_for_field_path(&cell, 1).unwrap().as_string(), "uint16");
    assert_eq!(body.get_type_for_field_path(&cell, 2).unwrap().as_string(), "CBodyComponent");
    assert_eq!(body.get_decoder_for_field_path(&cell, 1).copied(), Some(Decoders::Unsigned));
    assert_eq!(body.get_decoder_for_field_path(&cell, 2).copied(), Some(Decoders::Boolean));
    assert!(body.get_decoder_for_field_path(&path(&[2, 5]), 1).is_none());
    assert_eq!(s.type_from(&cell, 1).unwrap().as_string(), "CUtlVector< int32 >");
    assert_eq!(s.decoder_from(&cell, 1).copied(), Some(Decoders::Unsigned));
    assert!(s.type_from(&cell, 2).is_none());
    assert!(s.decoder_from(&cell, 2).is_none());
}

#[test]
fn a_field_without_a_type_has_no_type_at_its_path() {
    let mut untyped = Field::new(
        &vec!["m_x".to_string()],
        &FlattenedField {
            var_type_sym: None,
            var_name_sym: Some(0),
            bit_count: None,
            low_value: None,
            high_value: None,
            encode_flags: None,
            field_serializer_name_sym: None,
            field_serializer_version: None,
            send_node_sym: None,
            var_encoder_sym: None,
        },
    );
    untyped.model = FieldModels::Simple;
    let s = Serializer::from_fields(vec![Rc::new(untyped)]);
    assert!(s.get_type_for_field_path(&path(&[0])).is_none());
    assert_eq!(s.get_decoder_for_field_path(&path(&[0])).copied(), Some(Decoders::Default));
    assert_eq!(s.get_name_for_field_path(&path(&[0])), "m_x");
}

#[test]
fn a_variable_array_skips_its_absent_elements() {
    let s = Serializer::from_fields(vec![field("m_vecScores", "CUtlVector< int32 >", None)]);
    assert_eq!(s.fields()[0].model, FieldModels::VariableArray);
    let mut st = FieldState::new();
    st.set(&path(&[0, 0]), FieldValue::Signed32(10));
    st.set(&path(&[0, 2]), FieldValue::Signed32(30));
    let mut at = path(&[0]);
    let listed = s.fields()[0].get_field_paths(&mut at, &st);
    assert_eq!(listed, vec![path(&[0, 0]), path(&[0, 2])]);
    assert_eq!(listed[0].last(), 1);
    assert_eq!(listed[1].last(), 1);
    assert_eq!(at, path(&[0]));
}
