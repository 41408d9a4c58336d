use std::collections::{HashMap, HashSet};
use std::path::PathBuf;

use oxid::repository::{Layout, Repository, Search};
use oxid::Error;

/// Creates in `dirs` and `files` what a layout asks for.
fn create(layout: &Layout, dirs: &mut HashSet<String>, files: &mut HashMap<String, String>) {
    for dir in &layout.directories {
        dirs.insert(dir.clone());
    }
    for file in &layout.files {
        files.insert(file.path.clone(), file.contents.clone());
    }
}

/// Runs the upward search against the directories in `dirs`.
fn discover(start: &str, dirs: &HashSet<String>) -> Result<Repository, Error> {
    let mut candidate = Repository::new(start);
    let mut steps = 0;
    loop {
        steps += 1;
        assert!(steps <= start.len() + 1);
        let exists = dirs.contains(&candidate.git_dir);
        match candidate.discover(exists)? {
            Search::Found(repo) => return Ok(repo),
            Search::Ascend(next) => candidate = next,
        }
    }
}

#[test]
fn test_init_creates_structure() {
    let layout = Repository::init("/tmp/project");
    let repo = &layout.repository;
    let mut dirs = HashSet::new();
    let mut files = HashMap::new();
    create(&layout, &mut dirs, &mut files);

    assert!(dirs.contains(&format!("{}/objects", repo.git_dir)));
    assert!(dirs.contains(&format!("{}/refs/heads", repo.git_dir)));
    assert!(dirs.contains(&format!("{}/refs/tags", repo.git_dir)));
    assert!(files.contains_key(&format!("{}/HEAD", repo.git_dir)));
    assert!(files.contains_key(&format!("{}/config", repo.git_dir)));
}

#[test]
fn test_init_creates_git_directory() {
    let layout = Repository::init("/tmp/project");
    let mut dirs = HashSet::new();
    let mut files = HashMap::new();
    create(&layout, &mut dirs, &mut files);

    // Verify .git directory exists
    assert!(dirs.contains("/tmp/project/.git"));
    assert!(dirs.contains("/tmp/project/.git/objects"));
    assert!(dirs.contains("/tmp/project/.git/refs/heads"));
    assert!(files.contains_key("/tmp/project/.git/HEAD"));
}

#[test]
fn init_lays_out_the_metadata_directory() {
    let layout = Repository::init("/tmp/project");
    assert_eq!(layout.repository.work_tree, "/tmp/project");
    assert_eq!(layout.repository.git_dir, "/tmp/project/.git");
    assert_eq!(
        layout.directories,
        vec![
            "/tmp/project/.git",
            "/tmp/project/.git/objects",
            "/tmp/project/.git/objects/info",
            "/tmp/project/.git/objects/pack",
            "/tmp/project/.git/refs/heads",
            "/tmp/project/.git/refs/tags",
        ]
    );
    let files: Vec<(&str, &str)> =
        layout.files.iter().map(|f| (f.path.as_str(), f.contents.as_str())).collect();
    assert_eq!(
        files,
        vec![
            ("/tmp/project/.git/HEAD", "ref: refs/heads/main\n"),
            (
                "/tmp/project/.git/config",
                "[core]\n\trepositoryformatversion = 0\n\tfilemode = false\n\tbare = false\n"
            ),
            ("/tmp/project/.git/description", "Unnamed oxid repository.\n"),
        ]
    );
    assert_eq!(Repository::init("/").repository.git_dir, "/.git");
    assert_eq!(Repository::init("").repository.git_dir, ".git");
    assert_eq!(Repository::init("rel/").repository.git_dir, "rel/.git");
}

#[test]
fn test_object_path() {
    let repo = Repository::init("/tmp/project").repository;

    let hash = "557db03de997c86a4a028e1ebd3a1ceb225be238";
    let path = repo.object_path(hash);

    let expected = PathBuf::from(&repo.git_dir)
        .join("objects")
        .join("55")
        .join("7db03de997c86a4a028e1ebd3a1ceb225be238");

    assert_eq!(PathBuf::from(&path), expected);
    assert_eq!(path, "/tmp/project/.git/objects/55/7db03de997c86a4a028e1ebd3a1ceb225be238");
}

#[test]
fn test_write_and_read_object() {
    let repo = Repository::init("/tmp/project").repository;
    let mut disk: HashMap<String, Vec<u8>> = HashMap::new();

    let hash = "557db03de997c86a4a028e1ebd3a1ceb225be238";
    let data = b"blob 11\0Hello World";

    // Write object
    let file = repo.write_object(hash, data).unwrap();
    assert_eq!(file.directory, "/tmp/project/.git/objects/55");
    assert_eq!(file.path, repo.object_path(hash));
    assert_ne!(file.bytes, data.to_vec());
    disk.insert(file.path, file.bytes);

    // Read it back
    let stored = disk.get(&repo.object_path(hash)).map(|bytes| bytes.as_slice());
    let read_data = Repository::read_object(stored).unwrap();

    assert_eq!(data.to_vec(), read_data);
}

#[test]
fn writing_an_object_twice_prepares_the_same_file() {
    let repo = Repository::new("/work");
    let hash = "5e1c309dae7f45e0f39b1bf3ac3cd9db12e7d689";
    let first = repo.write_object(hash, b"blob 11\0Hello World").unwrap();
    let second = repo.write_object(hash, b"blob 11\0Hello World").unwrap();
    assert_eq!(first, second);
    assert!(!first.bytes.is_empty());
    assert_eq!(first.path, "/work/.git/objects/5e/1c309dae7f45e0f39b1bf3ac3cd9db12e7d689");
    assert_eq!(
        Repository::read_object(Some(&second.bytes)),
        Ok(b"blob 11\0Hello World".to_vec())
    );
    let empty = repo.write_object(hash, b"").unwrap();
    assert!(!empty.bytes.is_empty());
    assert_eq!(Repository::read_object(Some(&empty.bytes)), Ok(Vec::new()));
}

#[test]
fn reading_reports_missing_and_corrupt_objects() {
    assert_eq!(Repository::read_object(None), Err(Error::ObjectNotFound));
    assert_eq!(Repository::read_object(Some(b"blob 11\0Hello World")), Err(Error::CorruptData));
    assert_eq!(Repository::read_object(Some(b"")), Err(Error::CorruptData));
    // the zlib stream of the single byte "a"
    let stream = [0x78, 0x9c, 0x4b, 0x04, 0x00, 0x00, 0x62, 0x00, 0x62];
    assert_eq!(Repository::read_object(Some(&stream)), Ok(b"a".to_vec()));
}

#[test]
fn test_new_finds_repository() {
    let mut dirs = HashSet::new();
    let mut files = HashMap::new();
    create(&Repository::init("/tmp/project"), &mut dirs, &mut files);

    // Should find repo from subdirectory
    let repo = discover("/tmp/project/subdir", &dirs).unwrap();
    assert_eq!(repo.work_tree, "/tmp/project");
    assert_eq!(repo.git_dir, "/tmp/project/.git");
}

#[test]
fn discovery_finds_the_nearest_repository() {
    let mut dirs = HashSet::new();
    dirs.insert("/a/.git".to_string());
    dirs.insert("/a/b/.git".to_string());
    assert_eq!(discover("/a/b/c", &dirs).unwrap().git_dir, "/a/b/.git");
    assert_eq!(discover("/a/b/c/d/e", &dirs).unwrap().work_tree, "/a/b");
    assert_eq!(discover("/a/b", &dirs).unwrap().work_tree, "/a/b");
    assert_eq!(discover("/a/x", &dirs).unwrap().work_tree, "/a");
    assert_eq!(discover("/a", &dirs).unwrap().work_tree, "/a");
}

#[test]
fn discovery_fails_without_a_repository() {
    let mut dirs = HashSet::new();
    assert_eq!(discover("/x/y/z", &dirs), Err(Error::RepositoryNotFound));
    assert_eq!(discover("/", &dirs), Err(Error::RepositoryNotFound));
    dirs.insert("/a/b/.git".to_string());
    assert_eq!(discover("/a", &dirs), Err(Error::RepositoryNotFound));
    assert_eq!(discover("/a/bb", &dirs), Err(Error::RepositoryNotFound));
    dirs.insert("/.git".to_string());
    assert_eq!(discover("/x/y/z", &dirs).unwrap().work_tree, "/");
}

#[test]
fn discovery_goes_up_one_directory_at_a_time() {
    let step = |dir: &str| Repository::new(dir).discover(false);
    assert_eq!(step("/a/b/c"), Ok(Search::Ascend(Repository::new("/a/b"))));
    assert_eq!(step("/a"), Ok(Search::Ascend(Repository::new("/"))));
    assert_eq!(step("/"), Err(Error::RepositoryNotFound));
    assert_eq!(step("relative"), Err(Error::RepositoryNotFound));
    assert_eq!(step("/caf\u{e9}/d\u{e9}j\u{e0}"), Ok(Search::Ascend(Repository::new("/caf\u{e9}"))));
    let here = Repository::new("/a/b");
    assert_eq!(here.clone().discover(true), Ok(Search::Found(here)));
}
