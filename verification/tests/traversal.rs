use nbt_edit::tag::{Tag, TagID, TagPayload};
use nbt_edit::traversal::{traverse, Error, TagTraversal, TraversedTag};

/// {"root": {"nums": [I; 10, 20, 30], "word": "hi", "sub": {<end>}, <end>}}
fn sample_tree() -> Tag {
    let bytes: Vec<u8> = vec![
        0x0a, 0x00, 0x04, 0x72, 0x6f, 0x6f, 0x74, // Compound "root"
        0x0b, 0x00, 0x04, 0x6e, 0x75, 0x6d, 0x73, // IntArray "nums"
        0x00, 0x00, 0x00, 0x03, 0, 0, 0, 10, 0, 0, 0, 20, 0, 0, 0, 30,
        0x08, 0x00, 0x04, 0x77, 0x6f, 0x72, 0x64, 0x00, 0x02, 0x68, 0x69, // String "word"
        0x0a, 0x00, 0x03, 0x73, 0x75, 0x62, 0x00, // Compound "sub" { End }
        0x00, // End sentinel of "root"
    ];
    Tag::new(&bytes).unwrap()
}

#[test]
fn traverse_empty_path_classifies_root() {
    let tree = sample_tree();
    let node = traverse(&[], &tree).unwrap();
    assert!(node.is_container());
    assert_eq!(node.get_tag().unwrap().name, "root");
}

#[test]
fn traverse_compound_member() {
    let tree = sample_tree();
    let path = vec![TagTraversal::Compound("word".to_string())];
    let node = traverse(&path, &tree).unwrap();
    assert!(!node.is_container());
    let tag = node.get_tag().unwrap();
    assert_eq!(tag.name, "word");
    assert_eq!(tag.payload, TagPayload::String("hi".to_string()));
}

#[test]
fn traverse_array_element() {
    let tree = sample_tree();
    let path = vec![
        TagTraversal::Compound("nums".to_string()),
        TagTraversal::Array(1),
    ];
    let node = traverse(&path, &tree).unwrap();
    assert!(!node.is_container());
    assert!(node.get_tag().is_none());
    assert_eq!(node.get_payload(), &TagPayload::Int(20));
    assert!(matches!(node, TraversedTag::ContainedPayload(_)));
}

#[test]
fn traverse_absent_member_is_path_error() {
    let tree = sample_tree();
    let path = vec![TagTraversal::Compound("missing".to_string())];
    match traverse(&path, &tree) {
        Err(Error::Path(p)) => assert_eq!(p, path),
        other => panic!("expected a Path error, got {:?}", other),
    }
}

#[test]
fn traverse_index_out_of_range_is_index_error() {
    let tree = sample_tree();
    let path = vec![
        TagTraversal::Compound("nums".to_string()),
        TagTraversal::Array(3),
    ];
    assert_eq!(traverse(&path, &tree).unwrap_err(), Error::Index(3));
    let path = vec![
        TagTraversal::Compound("nums".to_string()),
        TagTraversal::Array(-1),
    ];
    assert_eq!(traverse(&path, &tree).unwrap_err(), Error::Index(-1));
}

#[test]
fn traverse_wrong_shape_is_path_error() {
    let tree = sample_tree();
    // An array step into a compound payload does not fit.
    let path = vec![TagTraversal::Array(0)];
    assert!(matches!(traverse(&path, &tree), Err(Error::Path(_))));
    // A compound step into a string payload does not fit either.
    let path = vec![
        TagTraversal::Compound("word".to_string()),
        TagTraversal::Compound("x".to_string()),
    ];
    assert!(matches!(traverse(&path, &tree), Err(Error::Path(_))));
}

#[test]
fn set_replaces_only_the_addressed_payload() {
    let mut tree = sample_tree();
    let path = vec![
        TagTraversal::Compound("nums".to_string()),
        TagTraversal::Array(1),
    ];
    nbt_edit::traversal::set(&path, &mut tree, TagPayload::Int(99)).unwrap();
    let node = traverse(&path, &tree).unwrap();
    assert_eq!(node.get_payload(), &TagPayload::Int(99));
    // Siblings and the rest of the tree are untouched.
    let path0 = vec![
        TagTraversal::Compound("nums".to_string()),
        TagTraversal::Array(0),
    ];
    assert_eq!(traverse(&path0, &tree).unwrap().get_payload(), &TagPayload::Int(10));
    let word = vec![TagTraversal::Compound("word".to_string())];
    assert_eq!(
        traverse(&word, &tree).unwrap().get_payload(),
        &TagPayload::String("hi".to_string())
    );
}

#[test]
fn set_replaces_root_payload_on_empty_path() {
    let mut tree = sample_tree();
    nbt_edit::traversal::set(&[], &mut tree, TagPayload::Byte(1)).unwrap();
    assert_eq!(tree.payload, TagPayload::Byte(1));
    assert_eq!(tree.name, "root");
}

#[test]
fn set_fails_closed_on_invalid_path() {
    let mut tree = sample_tree();
    let before = nbt_edit::encode::encode_tag(&tree);
    let path = vec![TagTraversal::Compound("missing".to_string())];
    match nbt_edit::traversal::set(&path, &mut tree, TagPayload::Byte(0)) {
        Err(Error::Path(p)) => assert_eq!(p, path),
        other => panic!("expected a Path error, got {:?}", other),
    }
    let path = vec![
        TagTraversal::Compound("nums".to_string()),
        TagTraversal::Array(5),
    ];
    assert_eq!(nbt_edit::traversal::set(&path, &mut tree, TagPayload::Int(0)).unwrap_err(), Error::Index(5));
    // The tree is unchanged after the failed writes.
    assert_eq!(nbt_edit::encode::encode_tag(&tree), before);
}

#[test]
fn set_then_reencode_round_trips() {
    let mut tree = sample_tree();
    let path = vec![TagTraversal::Compound("word".to_string())];
    nbt_edit::traversal::set(&path, &mut tree, TagPayload::String("yo".to_string())).unwrap();
    let bytes = nbt_edit::encode::encode_tag(&tree);
    let again = Tag::new(&bytes).unwrap();
    assert_eq!(again, tree);
}
