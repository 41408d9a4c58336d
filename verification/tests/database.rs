use std::collections::HashMap;

use oxid::database::{load, store};
use oxid::objects::{Blob, Commit, GitObject, Object, ObjectType, Signature, Tag, Tree, TreeEntry};
use oxid::utils::compress;
use oxid::{Digest, Error, Repository};

fn person(name: &str) -> Signature {
    Signature {
        name: name.as_bytes().to_vec(),
        email: format!("{}@example.com", name).into_bytes(),
        timestamp: 1700000000,
    }
}

/// Stores `object` on a disk kept in memory and loads it again.
fn round_trip(object: &Object) -> Object {
    let repo = Repository::new("/work");
    let mut disk: HashMap<String, Vec<u8>> = HashMap::new();
    let stored = store(&repo, object).unwrap();
    assert_eq!(stored.digest, object.hash().unwrap());
    assert_eq!(stored.digest.len(), 40);
    assert!(Digest::from_hex(&stored.digest).is_some());
    assert_eq!(stored.file.path, repo.object_path(&stored.digest));
    disk.insert(stored.file.path.clone(), stored.file.bytes.clone());
    let found = disk.get(&repo.object_path(&stored.digest)).map(|b| b.as_slice());
    load(found).unwrap()
}

#[test]
fn storing_hello_world_yields_the_digest_of_its_frame() {
    let repo = Repository::new("/work");
    let blob = Blob::new(b"Hello World".to_vec());
    let stored = store(&repo, &blob).unwrap();
    assert_eq!(stored.digest, "5e1c309dae7f45e0f39b1bf3ac3cd9db12e7d689");
    assert_eq!(
        stored.file.path,
        "/work/.git/objects/5e/1c309dae7f45e0f39b1bf3ac3cd9db12e7d689"
    );
    assert_eq!(stored.file.directory, "/work/.git/objects/5e");
    assert_eq!(stored.file.bytes, compress(b"blob 11\0Hello World").unwrap());

    let with_line_end = Blob::new(b"Hello World\n".to_vec());
    assert_eq!(
        store(&repo, &with_line_end).unwrap().digest,
        "557db03de997c86a4a028e1ebd3a1ceb225be238"
    );
}

#[test]
fn every_kind_of_object_round_trips() {
    let blob_digest = Digest::from_hex(&Blob::new(b"content".to_vec()).hash().unwrap()).unwrap();
    let tree = Tree::from_entries(vec![
        TreeEntry { mode: 0o100644, name: b"file".to_vec(), digest: blob_digest },
        TreeEntry { mode: 0o40000, name: b"dir".to_vec(), digest: Digest { bytes: [9; 20] } },
    ])
    .unwrap();
    let tree_digest = Digest::from_hex(&tree.hash().unwrap()).unwrap();
    let commit = Commit {
        tree: tree_digest,
        parents: vec![Digest { bytes: [1; 20] }, Digest { bytes: [2; 20] }],
        author: person("author"),
        committer: person("committer"),
        message: b"message\n".to_vec(),
    };
    let tag = Tag {
        target: Digest::from_hex(&commit.hash().unwrap()).unwrap(),
        target_type: ObjectType::Commit,
        tagger: person("tagger"),
        message: b"v1\n".to_vec(),
    };
    let objects = [
        Object::Blob(Blob::new(b"content".to_vec())),
        Object::Blob(Blob::new(Vec::new())),
        Object::Tree(tree),
        Object::Tree(Tree::new()),
        Object::Commit(commit),
        Object::Tag(tag),
    ];
    for object in &objects {
        let loaded = round_trip(object);
        assert_eq!(loaded.serialize(), object.serialize());
        assert_eq!(loaded.object_type(), object.object_type());
        assert_eq!(&loaded, object);
        assert_eq!(loaded.hash(), object.hash());
    }
}

#[test]
fn loading_reports_each_kind_of_failure() {
    assert_eq!(load(None), Err(Error::ObjectNotFound));
    assert_eq!(load(Some(b"plain bytes")), Err(Error::CorruptData));
    let frames: [&[u8]; 6] = [
        b"",
        b"blob 12\0Hello World",
        b"widget 0\0",
        b"tree 3\0abc",
        b"commit 0\0",
        b"tag 4\0tag\n",
    ];
    for framed in frames {
        assert_eq!(load(Some(&compress(framed).unwrap())), Err(Error::MalformedObject));
    }
    assert_eq!(
        load(Some(&compress(b"blob 11\0Hello World").unwrap())),
        Ok(Object::Blob(Blob::new(b"Hello World".to_vec())))
    );
}

#[test]
fn objects_decode_by_their_declared_kind() {
    assert_eq!(Object::decode(b"blob 3\0abc"), Ok(Object::Blob(Blob::new(b"abc".to_vec()))));
    assert_eq!(Object::decode(b"tree 0\0"), Ok(Object::Tree(Tree::new())));
    assert_eq!(Object::decode(b"commit 3\0abc"), Err(Error::MalformedObject));
    assert_eq!(Object::parse(ObjectType::Blob, b"tree"), Ok(Object::Blob(Blob::parse(b"tree"))));
    assert_eq!(Object::parse(ObjectType::Tree, b"tree"), Err(Error::MalformedObject));
    assert_eq!(Object::parse(ObjectType::Tag, b""), Err(Error::MalformedObject));
}

#[test]
fn storing_an_invalid_object_fails() {
    let repo = Repository::new("/work");
    let bad = Tag {
        target: Digest { bytes: [0; 20] },
        target_type: ObjectType::Blob,
        tagger: Signature { name: b"<".to_vec(), email: Vec::new(), timestamp: 0 },
        message: Vec::new(),
    };
    assert_eq!(store(&repo, &bad), Err(Error::MalformedObject));
    assert_eq!(store(&repo, &Object::Tag(bad)), Err(Error::MalformedObject));
}

#[test]
fn blob_payload_is_its_content() {
    let blob = Blob::new(b"\0binary\xff".to_vec());
    assert_eq!(blob.object_type(), ObjectType::Blob);
    assert_eq!(blob.serialize(), Ok(b"\0binary\xff".to_vec()));
    assert_eq!(blob.to_bytes(), Ok(b"blob 8\0\0binary\xff".to_vec()));
    assert_eq!(Blob::parse(b"\0binary\xff"), blob);
    assert_eq!(Blob::new(Vec::new()).hash().unwrap(), "e69de29bb2d1d6434b8b29ae775ad8c2e48c5391");
}
