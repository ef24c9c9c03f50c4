use vmstate::access::Access;
use vmstate::errors::StateError;
use vmstate::identifier::Identifier;
use vmstate::plaintext::Plaintext;

fn ident(name: &str) -> Identifier {
    Identifier::from_bytes(name.as_bytes().to_vec()).expect("valid identifier")
}

/// `Struct { "a": List [ Literal(1), Literal(2) ] }`
fn sample_root() -> Plaintext {
    Plaintext::Struct(vec![(
        ident("a"),
        Plaintext::List(vec![Plaintext::Literal(1), Plaintext::Literal(2)]),
    )])
}

#[test]
fn test_find_scenario() {
    let root = sample_root();
    let path = vec![Access::Member(ident("a")), Access::Index(1)];
    assert_eq!(root.find(&path), Ok(Plaintext::Literal(2)));

    let path = vec![Access::Member(ident("a")), Access::Index(5)];
    assert_eq!(root.find(&path), Err(StateError::NotFound));

    let path = vec![Access::Member(ident("b"))];
    assert_eq!(root.find(&path), Err(StateError::NotFound));

    assert_eq!(root.find(&[]), Err(StateError::MalformedPath));
}

#[test]
fn test_find_literal_root() {
    let root = Plaintext::Literal(5);
    let path = vec![Access::Member(ident("a"))];
    assert_eq!(root.find(&path), Err(StateError::NotAContainer));
    let path = vec![Access::Index(0)];
    assert_eq!(root.find(&path), Err(StateError::NotAContainer));
}

#[test]
fn test_find_invalid_access() {
    let root = sample_root();
    // An index into a struct, and a member lookup on a list.
    assert_eq!(root.find(&[Access::Index(0)]), Err(StateError::InvalidAccess));
    let path = vec![Access::Member(ident("a")), Access::Member(ident("b"))];
    assert_eq!(root.find(&path), Err(StateError::InvalidAccess));
}

#[test]
fn test_find_type_mismatch() {
    // A literal resolved by a non-terminal segment cannot be traversed.
    let root = sample_root();
    let path = vec![Access::Member(ident("a")), Access::Index(0), Access::Index(0)];
    assert_eq!(root.find(&path), Err(StateError::TypeMismatch));
}

#[test]
fn test_find_whole_container() {
    // A terminal segment may select a container, returned whole.
    let root = sample_root();
    let path = vec![Access::Member(ident("a"))];
    assert_eq!(
        root.find(&path),
        Ok(Plaintext::List(vec![Plaintext::Literal(1), Plaintext::Literal(2)]))
    );
}

#[test]
fn test_find_nested_structs() {
    let root = Plaintext::Struct(vec![
        (ident("x"), Plaintext::Literal(9)),
        (
            ident("inner"),
            Plaintext::Struct(vec![
                (ident("p"), Plaintext::Literal(10)),
                (ident("q"), Plaintext::Literal(11)),
            ]),
        ),
    ]);
    let path = vec![Access::Member(ident("inner")), Access::Member(ident("q"))];
    assert_eq!(root.find(&path), Ok(Plaintext::Literal(11)));
    let path = vec![Access::Member(ident("x"))];
    assert_eq!(root.find(&path), Ok(Plaintext::Literal(9)));
}

#[test]
fn test_duplicate_is_equal() {
    let root = sample_root();
    let copy = root.duplicate();
    assert_eq!(root, copy);
}
