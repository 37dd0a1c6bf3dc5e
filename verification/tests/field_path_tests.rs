use d2_stampede::field_path::FieldPath;

fn path(indices: &[u8]) -> FieldPath {
    FieldPath::from_indices(&indices.to_vec()).unwrap()
}

#[test]
fn new_path_names_field_zero() {
    let fp = FieldPath::new();
    assert_eq!(fp.len(), 1);
    assert_eq!(fp.last(), 0);
    assert_eq!(fp.get(0), 0);
    assert_eq!(fp.as_string(), "0");
}

#[test]
fn from_indices_keeps_the_indices() {
    let fp = path(&[3, 0, 12]);
    assert_eq!(fp.len(), 3);
    assert_eq!(fp.last(), 2);
    assert_eq!(fp.get(0), 3);
    assert_eq!(fp.get(1), 0);
    assert_eq!(fp.get(2), 12);
    assert_eq!(fp.as_string(), "3/0/12");
}

#[test]
fn from_indices_takes_one_to_seven() {
    assert!(FieldPath::from_indices(&vec![]).is_none());
    assert!(FieldPath::from_indices(&vec![0; 8]).is_none());
    let deepest = FieldPath::from_indices(&vec![1, 2, 3, 4, 5, 6, 255]).unwrap();
    assert_eq!(deepest.len(), 7);
    assert_eq!(deepest.as_string(), "1/2/3/4/5/6/255");
}

#[test]
fn down_adds_a_zero_and_up_takes_indices_away() {
    let mut fp = path(&[4]);
    fp.down();
    assert_eq!(fp, path(&[4, 0]));
    fp.set(1, 9);
    assert_eq!(fp, path(&[4, 9]));
    fp.push(2);
    assert_eq!(fp, path(&[4, 9, 2]));
    fp.up(2);
    assert_eq!(fp, path(&[4]));
    fp.up(0);
    assert_eq!(fp, path(&[4]));
}

#[test]
fn a_path_that_went_down_and_up_equals_one_that_never_did() {
    let mut fp = path(&[4]);
    fp.push(200);
    fp.push(100);
    fp.up(2);
    fp.down();
    assert_eq!(fp, path(&[4, 0]));
    assert_eq!(fp.get(1), 0);
}

#[test]
fn paths_differ_by_length_and_by_index() {
    assert_ne!(path(&[1, 2]), path(&[1, 2, 0]));
    assert_ne!(path(&[1, 2]), path(&[1, 3]));
    assert_eq!(path(&[1, 2]), path(&[1, 2]));
}
