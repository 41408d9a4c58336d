use oxid::objects::{GitObject, ObjectType, Tree, TreeEntry};
use oxid::{Digest, Error};

fn entry(mode: u32, name: &str, fill: u8) -> TreeEntry {
    TreeEntry { mode, name: name.as_bytes().to_vec(), digest: Digest { bytes: [fill; 20] } }
}

fn encoded(mode: &str, name: &str, fill: u8) -> Vec<u8> {
    let mut out = format!("{} {}\0", mode, name).into_bytes();
    out.extend_from_slice(&[fill; 20]);
    out
}

#[test]
fn empty_tree_has_the_known_digest() {
    let tree = Tree::new();
    assert_eq!(tree.object_type(), ObjectType::Tree);
    assert_eq!(tree.serialize(), Ok(Vec::new()));
    assert_eq!(tree.to_bytes(), Ok(b"tree 0\0".to_vec()));
    assert_eq!(tree.hash().unwrap(), "4b825dc642cb6eb9a060e54bf8d69288fbee4904");
}

#[test]
fn tree_encodes_entries_in_name_order() {
    let mut tree = Tree::new();
    tree.insert(entry(0o100644, "b.txt", 2)).unwrap();
    tree.insert(entry(0o40000, "src", 3)).unwrap();
    tree.insert(entry(0o100755, "a.sh", 1)).unwrap();
    let names: Vec<&[u8]> = tree.entries().iter().map(|e| e.name.as_slice()).collect();
    assert_eq!(names, vec![&b"a.sh"[..], b"b.txt", b"src"]);

    let mut expected = encoded("100755", "a.sh", 1);
    expected.extend(encoded("100644", "b.txt", 2));
    expected.extend(encoded("40000", "src", 3));
    assert_eq!(tree.serialize().unwrap(), expected);
}

#[test]
fn tree_encoding_ignores_insertion_order() {
    let orders: [[usize; 3]; 6] =
        [[0, 1, 2], [0, 2, 1], [1, 0, 2], [1, 2, 0], [2, 0, 1], [2, 1, 0]];
    let make = |i: usize| match i {
        0 => entry(0o100644, "README", 7),
        1 => entry(0o40000, "lib", 8),
        _ => entry(0o120000, "link", 9),
    };
    let reference = Tree::from_entries(vec![make(0), make(1), make(2)]).unwrap();
    for order in orders {
        let mut tree = Tree::new();
        for i in order {
            tree.insert(make(i)).unwrap();
        }
        assert_eq!(tree, reference);
        assert_eq!(tree.serialize(), reference.serialize());
        assert_eq!(tree.hash(), reference.hash());
        let built = Tree::from_entries(order.iter().map(|i| make(*i)).collect()).unwrap();
        assert_eq!(built.serialize(), reference.serialize());
    }
}

#[test]
fn tree_rejects_invalid_and_repeated_names() {
    let mut tree = Tree::new();
    tree.insert(entry(0o100644, "a", 1)).unwrap();
    assert_eq!(tree.insert(entry(0o100644, "a", 2)), Err(Error::MalformedObject));
    assert_eq!(tree.insert(entry(0o100644, "", 2)), Err(Error::MalformedObject));
    assert_eq!(tree.insert(entry(0o100644, "x/y", 2)), Err(Error::MalformedObject));
    assert_eq!(tree.insert(entry(0o100644, "x\0y", 2)), Err(Error::MalformedObject));
    assert_eq!(tree.entries().len(), 1);
    assert_eq!(tree.entries()[0], entry(0o100644, "a", 1));

    assert_eq!(
        Tree::from_entries(vec![entry(1, "a", 1), entry(2, "a", 2)]),
        Err(Error::MalformedObject)
    );
    assert_eq!(Tree::from_entries(vec![entry(1, "a/b", 1)]), Err(Error::MalformedObject));
    assert_eq!(Tree::from_entries(Vec::new()), Ok(Tree::new()));
}

#[test]
fn tree_parse_inverts_serialize() {
    let tree = Tree::from_entries(vec![
        entry(0o100644, "z with space", 1),
        entry(0, "zero-mode", 2),
        entry(u32::MAX, "max-mode", 3),
        entry(0o40000, "dir", 4),
    ])
    .unwrap();
    let payload = tree.serialize().unwrap();
    let parsed = Tree::parse(&payload).unwrap();
    assert_eq!(parsed, tree);
    assert_eq!(parsed.serialize().unwrap(), payload);
    assert_eq!(Tree::parse(b""), Ok(Tree::new()));
}

#[test]
fn tree_parse_rejects_malformed_payloads() {
    let good = encoded("100644", "a", 1);
    assert!(Tree::parse(&good).is_ok());

    // a digest cut short
    assert_eq!(Tree::parse(&good[..good.len() - 1]), Err(Error::MalformedObject));
    // bytes left over
    let mut extra = good.clone();
    extra.push(b'1');
    assert_eq!(Tree::parse(&extra), Err(Error::MalformedObject));
    // modes that are no canonical octal numerals of 32 bits
    assert_eq!(Tree::parse(&encoded("100648", "a", 1)), Err(Error::MalformedObject));
    assert_eq!(Tree::parse(&encoded("0100644", "a", 1)), Err(Error::MalformedObject));
    assert_eq!(Tree::parse(&encoded("", "a", 1)), Err(Error::MalformedObject));
    assert_eq!(Tree::parse(&encoded("40000000000", "a", 1)), Err(Error::MalformedObject));
    assert!(Tree::parse(&encoded("37777777777", "a", 1)).is_ok());
    // names that are empty or hold a slash
    assert_eq!(Tree::parse(&encoded("100644", "", 1)), Err(Error::MalformedObject));
    assert_eq!(Tree::parse(&encoded("100644", "a/b", 1)), Err(Error::MalformedObject));
    // no separator at all
    assert_eq!(Tree::parse(b"100644"), Err(Error::MalformedObject));
    assert_eq!(Tree::parse(b"100644 name-without-end"), Err(Error::MalformedObject));

    // names out of order, and a name twice
    let mut unordered = encoded("100644", "b", 1);
    unordered.extend(encoded("100644", "a", 2));
    assert_eq!(Tree::parse(&unordered), Err(Error::MalformedObject));
    let mut twice = encoded("100644", "a", 1);
    twice.extend(encoded("100644", "a", 2));
    assert_eq!(Tree::parse(&twice), Err(Error::MalformedObject));
    let mut ordered = encoded("100644", "a", 2);
    ordered.extend(encoded("100644", "b", 1));
    assert!(Tree::parse(&ordered).is_ok());
}
