use oxid::objects::{Commit, GitObject, ObjectType, Signature, Tag};
use oxid::{Digest, Error};

const TREE: &str = "4b825dc642cb6eb9a060e54bf8d69288fbee4904";
const FIRST: &str = "557db03de997c86a4a028e1ebd3a1ceb225be238";
const SECOND: &str = "5e1c309dae7f45e0f39b1bf3ac3cd9db12e7d689";

fn digest(text: &str) -> Digest {
    Digest::from_hex(text).unwrap()
}

fn person(name: &str, email: &str, timestamp: u64) -> Signature {
    Signature { name: name.as_bytes().to_vec(), email: email.as_bytes().to_vec(), timestamp }
}

fn commit(parents: &[&str]) -> Commit {
    Commit {
        tree: digest(TREE),
        parents: parents.iter().map(|p| digest(p)).collect(),
        author: person("A U Thor", "author@example.com", 1700000000),
        committer: person("C O Mitter", "committer@example.com", 1700000001),
        message: b"Subject\n\nBody with <brackets>\nand a last line\n".to_vec(),
    }
}

#[test]
fn root_commit_encodes_in_fixed_field_order() {
    let expected = format!(
        "tree {}\nauthor A U Thor <author@example.com> 1700000000 +0000\n\
         committer C O Mitter <committer@example.com> 1700000001 +0000\n\n\
         Subject\n\nBody with <brackets>\nand a last line\n",
        TREE
    );
    let root = commit(&[]);
    assert_eq!(root.object_type(), ObjectType::Commit);
    assert_eq!(root.serialize().unwrap(), expected.clone().into_bytes());
    let framed = format!("commit {}\0{}", expected.len(), expected).into_bytes();
    assert_eq!(root.to_bytes().unwrap(), framed);
    assert_eq!(root.hash().unwrap(), oxid::utils::hash_data(&framed));
}

#[test]
fn merge_commit_lists_parents_in_order() {
    let expected = format!(
        "tree {}\nparent {}\nparent {}\nauthor A U Thor <author@example.com> 1700000000 +0000\n\
         committer C O Mitter <committer@example.com> 1700000001 +0000\n\n\
         Subject\n\nBody with <brackets>\nand a last line\n",
        TREE, FIRST, SECOND
    );
    assert_eq!(commit(&[FIRST, SECOND]).serialize().unwrap(), expected.into_bytes());
    assert_ne!(commit(&[FIRST, SECOND]).serialize(), commit(&[SECOND, FIRST]).serialize());
}

#[test]
fn commit_parse_inverts_serialize() {
    for parents in [&[][..], &[FIRST], &[FIRST, SECOND], &[FIRST, FIRST, SECOND]] {
        let commit = commit(parents);
        let payload = commit.serialize().unwrap();
        assert_eq!(Commit::parse(&payload), Ok(commit));
    }
    let mut odd = commit(&[FIRST]);
    odd.author = person("", "", 0);
    odd.committer = person("  spaces  ", "a b", u64::MAX);
    odd.message = b"parent not a header\n\0\xff".to_vec();
    let payload = odd.serialize().unwrap();
    assert_eq!(Commit::parse(&payload), Ok(odd));
    let mut empty_message = commit(&[]);
    empty_message.message = Vec::new();
    let payload = empty_message.serialize().unwrap();
    assert_eq!(Commit::parse(&payload), Ok(empty_message));
}

#[test]
fn commit_with_invalid_signature_has_no_encoding() {
    for (name, email) in [("a<b", "e"), ("a>b", "e"), ("a\nb", "e"), ("a", "e<"), ("a", "e>f"), ("a", "e\n")] {
        let mut bad = commit(&[]);
        bad.author = person(name, email, 1);
        assert_eq!(bad.serialize(), Err(Error::MalformedObject));
        assert_eq!(bad.to_bytes(), Err(Error::MalformedObject));
        assert_eq!(bad.hash(), Err(Error::MalformedObject));
        let mut bad = commit(&[]);
        bad.committer = person(name, email, 1);
        assert_eq!(bad.serialize(), Err(Error::MalformedObject));
    }
}

#[test]
fn commit_parse_rejects_malformed_payloads() {
    let good = String::from_utf8(commit(&[FIRST]).serialize().unwrap()).unwrap();
    assert!(Commit::parse(good.as_bytes()).is_ok());
    let cases = [
        String::new(),
        good.replacen("tree ", "tree", 1),
        good.replacen("tree ", "Tree ", 1),
        good.replacen(TREE, &TREE.to_uppercase(), 1),
        good.replacen(TREE, &TREE[..39], 1),
        good.replacen(TREE, &format!("{}0", TREE), 1),
        good.replacen(FIRST, "not-a-digest", 1),
        good.replacen("parent ", "parents ", 1),
        good.replacen("author ", "", 1),
        good.replacen("Thor <author@example.com>", "Thor <author@example.com", 1),
        good.replacen("author A U Thor <", "author A U Thor<", 1),
        good.replacen("1700000000", "01700000000", 1),
        good.replacen("1700000000", "", 1),
        good.replacen("1700000000", "17e8", 1),
        good.replacen("1700000000", "99999999999999999999", 1),
        good.replacen("+0000", "+0100", 1),
        good.replacen("+0000\n", "+0000 \n", 1),
        good.replacen("> 1700000000", ">1700000000", 1),
        good.replacen("committer ", "commiter ", 1),
        good.replacen("\n\n", "\n", 1),
        good.replacen("\ncommitter", "\n\ncommitter", 1),
        good[..good.find("\n\n").unwrap() + 1].to_string(),
        good.replacen("author", "committer", 1),
    ];
    for case in cases {
        assert_eq!(Commit::parse(case.as_bytes()), Err(Error::MalformedObject), "{:?}", case);
    }
}

#[test]
fn signature_records_are_written_and_read_in_place() {
    let who = person("A U Thor", "a@example.com", 42);
    assert!(who.is_valid());
    assert!(!person("<", "", 0).is_valid());
    let mut out = b"tagger ".to_vec();
    who.push_record(&mut out);
    assert_eq!(out, b"tagger A U Thor <a@example.com> 42 +0000\n".to_vec());
    out.extend_from_slice(b"rest");
    assert_eq!(Signature::read_record(&out, 7), Some((who, out.len() - 4)));
    assert_eq!(Signature::read_record(&out, 8).map(|r| r.0.name), Some(b" U Thor".to_vec()));
    assert_eq!(Signature::read_record(&out, out.len()), None);
    assert_eq!(Signature::read_record(b"A <a> 1 +0000", 0), None);
    assert_eq!(Signature::read_record(b"A <a> 1 +0000\n", 0).map(|r| r.1), Some(14));
    assert_eq!(Signature::read_record(b"<a> 1 +0000\n", 0), None);
    assert_eq!(Signature::read_record(b" <> 0 +0000\n", 0), Some((person("", "", 0), 12)));
    assert_eq!(Signature::read_record(b"A\n <a> 1 +0000\n", 0), None);
    assert_eq!(Signature::read_record(b"A <a<b> 1 +0000\n", 0), None);
}

fn tag(kind: ObjectType) -> Tag {
    Tag {
        target: digest(FIRST),
        target_type: kind,
        tagger: person("T Agger", "tagger@example.com", 1700000002),
        message: b"release\n".to_vec(),
    }
}

#[test]
fn tag_encodes_target_kind_tagger_and_message() {
    let expected = format!(
        "object {}\ntype commit\ntagger T Agger <tagger@example.com> 1700000002 +0000\n\nrelease\n",
        FIRST
    );
    let t = tag(ObjectType::Commit);
    assert_eq!(t.object_type(), ObjectType::Tag);
    assert_eq!(t.serialize().unwrap(), expected.clone().into_bytes());
    assert_eq!(t.to_bytes().unwrap(), format!("tag {}\0{}", expected.len(), expected).into_bytes());
}

#[test]
fn tag_parse_inverts_serialize() {
    for kind in [ObjectType::Blob, ObjectType::Tree, ObjectType::Commit, ObjectType::Tag] {
        let tag = tag(kind);
        let payload = tag.serialize().unwrap();
        assert_eq!(Tag::parse(&payload), Ok(tag));
    }
    let mut empty = tag(ObjectType::Blob);
    empty.message = Vec::new();
    assert_eq!(Tag::parse(&empty.serialize().unwrap()), Ok(empty));
}

#[test]
fn tag_parse_rejects_malformed_payloads() {
    let good = String::from_utf8(tag(ObjectType::Tree).serialize().unwrap()).unwrap();
    assert!(Tag::parse(good.as_bytes()).is_ok());
    let cases = [
        String::new(),
        good.replacen("object ", "tree ", 1),
        good.replacen(FIRST, &FIRST.replace('5', "x"), 1),
        good.replacen("type tree", "type widget", 1),
        good.replacen("type tree", "type ", 1),
        good.replacen("type tree", "type tree ", 1),
        good.replacen("type tree\n", "", 1),
        good.replacen("type ", "kind ", 1),
        good.replacen("tagger ", "author ", 1),
        good.replacen("T Agger <", "T Agger ", 1),
        good.replacen("+0000\n\n", "+0000\n", 1),
        good.replacen("1700000002", "-1", 1),
        good[..good.find("tagger").unwrap()].to_string(),
    ];
    for case in cases {
        assert_eq!(Tag::parse(case.as_bytes()), Err(Error::MalformedObject), "{:?}", case);
    }
    let mut bad = tag(ObjectType::Blob);
    bad.tagger = person("a", "<", 0);
    assert_eq!(bad.serialize(), Err(Error::MalformedObject));
}
