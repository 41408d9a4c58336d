use oxid::objects::ObjectType;
use oxid::Error;

#[test]
fn test_object_type_as_str() {
    assert_eq!(ObjectType::Blob.as_str(), "blob");
    assert_eq!(ObjectType::Tree.as_str(), "tree");
    assert_eq!(ObjectType::Commit.as_str(), "commit");
    assert_eq!(ObjectType::Tag.as_str(), "tag");
}

#[test]
fn test_object_type_from_str() {
    assert_eq!(ObjectType::from_str("blob").unwrap(), ObjectType::Blob);
    assert_eq!(ObjectType::from_str("tree").unwrap(), ObjectType::Tree);
    assert!(ObjectType::from_str("invalid").is_err());
}

#[test]
fn object_type_parses_every_tag() {
    assert_eq!(ObjectType::from_str("commit").unwrap(), ObjectType::Commit);
    assert_eq!(ObjectType::from_str("tag").unwrap(), ObjectType::Tag);
}

#[test]
fn unknown_type_is_rejected_with_its_text() {
    assert_eq!(
        ObjectType::from_str("widget"),
        Err(Error::UnknownObjectType("widget".to_string()))
    );
    assert_eq!(
        ObjectType::from_str(""),
        Err(Error::UnknownObjectType(String::new()))
    );
    assert_eq!(
        ObjectType::from_str("Blob"),
        Err(Error::UnknownObjectType("Blob".to_string()))
    );
    assert_eq!(
        ObjectType::from_str("blobs"),
        Err(Error::UnknownObjectType("blobs".to_string()))
    );
}

#[test]
fn tag_bytes_match_tag_text() {
    for kind in [ObjectType::Blob, ObjectType::Tree, ObjectType::Commit, ObjectType::Tag] {
        assert_eq!(kind.as_bytes(), kind.as_str().as_bytes());
        assert_eq!(ObjectType::from_bytes(kind.as_bytes()), Some(kind));
    }
    assert_eq!(ObjectType::from_bytes(b"widget"), None);
}
