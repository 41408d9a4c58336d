use oxid::Index;

#[test]
fn index_starts_empty_and_stays_so() {
    let index = Index::new();
    assert_eq!(index, Index::default());
    assert_eq!(Index::read(".git/index"), Ok(index));
    assert_eq!(index.write(".git/index"), Ok(()));
}
