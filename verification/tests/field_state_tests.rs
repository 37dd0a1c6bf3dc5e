use d2_stampede::field_path::FieldPath;
use d2_stampede::field_state::{FieldState, States};
use d2_stampede::field_value::FieldValue;

fn path(indices: &[u8]) -> FieldPath {
    FieldPath::from_indices(&indices.to_vec()).unwrap()
}

#[test]
fn a_new_state_holds_nothing() {
    let st = FieldState::new();
    assert!(st.get(&path(&[0])).is_none());
    assert!(st.get_value(&path(&[0, 0])).is_none());
    assert!(st.state.is_empty());
}

#[test]
fn a_written_value_is_read_back() {
    let mut st = FieldState::new();
    st.set(&path(&[2]), FieldValue::Signed32(600));
    assert_eq!(st.get_value(&path(&[2])), Some(&FieldValue::Signed32(600)));
    assert!(st.get_value(&path(&[0])).is_none());
    assert!(st.get_value(&path(&[1])).is_none());
    assert!(st.get_value(&path(&[3])).is_none());
    assert_eq!(st.state.len(), 3);
}

#[test]
fn a_later_write_replaces_the_value() {
    let mut st = FieldState::new();
    st.set(&path(&[0]), FieldValue::Signed32(600));
    st.set(&path(&[0]), FieldValue::Signed32(450));
    assert_eq!(st.get_value(&path(&[0])), Some(&FieldValue::Signed32(450)));
    assert_eq!(st.state.len(), 1);
}

#[test]
fn a_deep_write_makes_the_containers_on_the_way() {
    let mut st = FieldState::new();
    st.set(&path(&[1, 0, 3]), FieldValue::Boolean(true));
    assert_eq!(st.get_value(&path(&[1, 0, 3])), Some(&FieldValue::Boolean(true)));
    assert!(st.get_value(&path(&[1])).is_none());
    assert!(st.get_value(&path(&[1, 0])).is_none());
    assert!(matches!(st.get(&path(&[1])), Some(States::FieldState(_))));
    assert!(matches!(st.get(&path(&[1, 0])), Some(States::FieldState(_))));
    assert!(st.get(&path(&[1, 0, 2])).is_none());
    assert!(st.get(&path(&[1, 1])).is_none());
    assert!(st.get(&path(&[0])).is_none());
}

#[test]
fn a_write_below_a_value_turns_it_into_a_container() {
    let mut st = FieldState::new();
    st.set(&path(&[0]), FieldValue::Unsigned32(3));
    st.set(&path(&[0, 1]), FieldValue::Signed32(20));
    assert!(st.get_value(&path(&[0])).is_none());
    assert_eq!(st.get_value(&path(&[0, 1])), Some(&FieldValue::Signed32(20)));
}

#[test]
fn a_write_above_values_clears_them() {
    let mut st = FieldState::new();
    st.set(&path(&[0, 1]), FieldValue::Signed32(20));
    st.set(&path(&[0, 2]), FieldValue::Signed32(30));
    st.set(&path(&[0]), FieldValue::Unsigned32(0));
    assert!(st.get_value(&path(&[0, 1])).is_none());
    assert!(st.get_value(&path(&[0, 2])).is_none());
    assert_eq!(st.get_value(&path(&[0])), Some(&FieldValue::Unsigned32(0)));
}

#[test]
fn a_write_leaves_unrelated_paths_alone() {
    let mut st = FieldState::new();
    st.set(&path(&[0, 1]), FieldValue::Signed32(20));
    st.set(&path(&[1]), FieldValue::Signed32(1));
    st.set(&path(&[0, 2, 5]), FieldValue::Signed32(30));
    st.set(&path(&[0, 0]), FieldValue::Signed32(10));
    assert_eq!(st.get_value(&path(&[0, 1])), Some(&FieldValue::Signed32(20)));
    assert_eq!(st.get_value(&path(&[1])), Some(&FieldValue::Signed32(1)));
    assert_eq!(st.get_value(&path(&[0, 2, 5])), Some(&FieldValue::Signed32(30)));
    assert_eq!(st.get_value(&path(&[0, 0])), Some(&FieldValue::Signed32(10)));
}

#[test]
fn an_array_grows_to_the_written_element() {
    let mut st = FieldState::new();
    st.set(&path(&[0, 0]), FieldValue::Signed32(10));
    st.set(&path(&[0, 2]), FieldValue::Signed32(30));
    match st.get(&path(&[0])) {
        Some(States::FieldState(elements)) => {
            assert_eq!(elements.state.len(), 3);
            assert!(elements.state[1].is_none());
        }
        _ => panic!("no container at the array's path"),
    }
    assert!(st.get_value(&path(&[0, 3])).is_none());
    assert!(st.get_value(&path(&[0, 1])).is_none());
}

#[test]
fn a_write_at_the_deepest_path_and_the_largest_index() {
    let mut st = FieldState::new();
    let deep = path(&[0, 1, 2, 3, 4, 5, 255]);
    st.set(&deep, FieldValue::Handle(1));
    assert_eq!(st.get_value(&deep), Some(&FieldValue::Handle(1)));
    assert!(st.get_value(&path(&[0, 1, 2, 3, 4, 5, 254])).is_none());
}

#[test]
fn a_copy_holds_the_same_and_is_its_own() {
    let mut st = FieldState::new();
    st.set(&path(&[0]), FieldValue::Signed32(600));
    st.set(&path(&[1, 4]), FieldValue::String("x".to_string()));
    let mut copy = st.duplicate();
    assert_eq!(copy.get_value(&path(&[0])), Some(&FieldValue::Signed32(600)));
    assert_eq!(copy.get_value(&path(&[1, 4])), Some(&FieldValue::String("x".to_string())));
    assert!(copy.get_value(&path(&[1, 3])).is_none());
    copy.set(&path(&[0]), FieldValue::Signed32(450));
    assert_eq!(st.get_value(&path(&[0])), Some(&FieldValue::Signed32(600)));
}

#[test]
fn the_stored_paths_come_in_lexicographic_order() {
    let mut st = FieldState::new();
    st.set(&path(&[3, 1, 0]), FieldValue::Signed32(5));
    st.set(&path(&[0]), FieldValue::Signed32(600));
    st.set(&path(&[1, 2]), FieldValue::Signed32(30));
    st.set(&path(&[1, 0]), FieldValue::Signed32(10));
    st.set(&path(&[3, 0]), FieldValue::Signed32(1));
    st.set(&path(&[2, 255]), FieldValue::Signed32(1));
    let listed: Vec<String> = st.paths().iter().map(|fp| fp.as_string()).collect();
    assert_eq!(listed, vec!["0", "1/0", "1/2", "2/255", "3/0", "3/1/0"]);
    for fp in st.paths().iter() {
        assert!(st.get_value(fp).is_some());
    }
}

#[test]
fn an_empty_state_and_an_empty_container_store_no_paths() {
    assert!(FieldState::new().paths().is_empty());
    let mut st = FieldState::new();
    st.set(&path(&[0, 0]), FieldValue::Signed32(1));
    st.set(&path(&[0]), FieldValue::Signed32(2));
    st.set(&path(&[1, 1, 1, 1, 1, 1, 1]), FieldValue::Signed32(3));
    let listed: Vec<String> = st.paths().iter().map(|fp| fp.as_string()).collect();
    assert_eq!(listed, vec!["0", "1/1/1/1/1/1/1"]);
}

#[test]
fn a_clone_is_a_deep_copy() {
    let mut st = FieldState::new();
    st.set(&path(&[1, 4]), FieldValue::String("x".to_string()));
    let mut copy = st.clone();
    copy.set(&path(&[1, 4]), FieldValue::String("y".to_string()));
    assert_eq!(st.get_value(&path(&[1, 4])), Some(&FieldValue::String("x".to_string())));
    assert_eq!(copy.get_value(&path(&[1, 4])), Some(&FieldValue::String("y".to_string())));
    let slot = st.get(&path(&[1])).unwrap().clone();
    match slot {
        States::FieldState(below) => {
            assert_eq!(below.get_value(&path(&[4])), Some(&FieldValue::String("x".to_string())))
        }
        States::Value(_) => panic!("a value where a container was copied"),
    }
}

#[test]
fn clearing_a_value_leaves_the_others() {
    let mut st = FieldState::new();
    st.set(&path(&[0]), FieldValue::Signed32(600));
    st.set(&path(&[1, 0]), FieldValue::Signed32(10));
    st.set(&path(&[1, 2]), FieldValue::Signed32(30));
    st.clear(&path(&[1, 0]));
    assert!(st.get_value(&path(&[1, 0])).is_none());
    assert_eq!(st.get_value(&path(&[1, 2])), Some(&FieldValue::Signed32(30)));
    assert_eq!(st.get_value(&path(&[0])), Some(&FieldValue::Signed32(600)));
    let listed: Vec<String> = st.paths().iter().map(|fp| fp.as_string()).collect();
    assert_eq!(listed, vec!["0", "1/2"]);
}

#[test]
fn clearing_a_container_clears_all_that_it_stores() {
    let mut st = FieldState::new();
    st.set(&path(&[0]), FieldValue::Signed32(600));
    st.set(&path(&[1, 0]), FieldValue::Signed32(10));
    st.set(&path(&[1, 2, 3]), FieldValue::Signed32(30));
    st.clear(&path(&[1]));
    assert!(st.get(&path(&[1])).is_none());
    assert!(st.get_value(&path(&[1, 0])).is_none());
    assert!(st.get_value(&path(&[1, 2, 3])).is_none());
    assert_eq!(st.get_value(&path(&[0])), Some(&FieldValue::Signed32(600)));
    st.set(&path(&[1, 2, 3]), FieldValue::Signed32(31));
    assert_eq!(st.get_value(&path(&[1, 2, 3])), Some(&FieldValue::Signed32(31)));
    assert!(st.get_value(&path(&[1, 0])).is_none());
}

#[test]
fn clearing_where_nothing_is_stored_changes_nothing() {
    let mut st = FieldState::new();
    st.set(&path(&[0]), FieldValue::Signed32(600));
    st.set(&path(&[1, 1]), FieldValue::Signed32(20));
    st.clear(&path(&[5]));
    st.clear(&path(&[0, 3]));
    st.clear(&path(&[1, 0]));
    st.clear(&path(&[1, 1, 4]));
    st.clear(&path(&[1, 9]));
    assert_eq!(st.get_value(&path(&[0])), Some(&FieldValue::Signed32(600)));
    assert_eq!(st.get_value(&path(&[1, 1])), Some(&FieldValue::Signed32(20)));
    assert_eq!(st.state.len(), 2);
}
