//! Where a repository keeps its data: the metadata directory, the upward
//! search for it, and the place of each object below it.
//!
//! Paths are text with `/` between components. Nothing here touches the
//! filesystem: the functions say which path to look at or to write, and the
//! caller does so.

use vstd::prelude::*;
use vstd::string::*;
use crate::digest::is_digest_text;
use crate::error::Error;
use crate::utils::{compress, decompress, zlib_inflated, zlib_stream};

verus! {

/// A repository: its metadata directory and the working directory that
/// holds it.
#[derive(Debug, Clone, PartialEq, Eq)]
pub struct Repository {
    /// Path of the metadata directory.
    pub git_dir: String,
    /// Path of the working directory.
    pub work_tree: String,
}

/// What the upward search does after looking at one candidate.
#[derive(Debug, Clone, PartialEq, Eq)]
pub enum Search {
    /// The candidate's metadata directory exists: the search ends here.
    Found(Repository),
    /// It does not: look at this candidate, one directory up, next.
    Ascend(Repository),
}

/// What has to exist on disk for an object to be stored.
#[derive(Debug, Clone, PartialEq, Eq)]
pub struct ObjectFile {
    /// The directory that holds the file, to be created if it is missing.
    pub directory: String,
    /// The file to write.
    pub path: String,
    /// The file's content: the compressed object.
    pub bytes: Vec<u8>,
}

/// A file of a fresh repository: where it lies and what it says.
#[derive(Debug, Clone, PartialEq, Eq)]
pub struct TextFile {
    /// The file's path.
    pub path: String,
    /// The file's content.
    pub contents: String,
}

/// Everything that initialising a repository creates.
#[derive(Debug, Clone, PartialEq, Eq)]
pub struct Layout {
    /// The repository that results.
    pub repository: Repository,
    /// The directories to create, parents included, in this order.
    pub directories: Vec<String>,
    /// The files to write once the directories exist.
    pub files: Vec<TextFile>,
}

/// `base` extended by `component`: one `/` between them unless `base` is
/// empty or ends with one.
pub open spec fn join_path(base: Seq<char>, component: Seq<char>) -> Seq<char> {
    if base.len() == 0 {
        component
    } else if base.last() == '/' {
        base + component
    } else {
        base + seq!['/'] + component
    }
}

/// The index of the last `/` in `path`, or -1 where it has none.
pub open spec fn last_slash(path: Seq<char>) -> int
    decreases path.len(),
{
    if path.len() == 0 {
        -1
    } else if path.last() == '/' {
        path.len() - 1
    } else {
        last_slash(path.drop_last())
    }
}

/// The directory above `path`: what precedes its last `/`, and `/` itself
/// for a directory directly below the root. The root has none, nor has a
/// path without a `/`.
pub open spec fn parent_path(path: Seq<char>) -> Option<Seq<char>> {
    let i = last_slash(path);
    if i < 0 || path.len() == 1 {
        None
    } else if i == 0 {
        Some(seq!['/'])
    } else {
        Some(path.take(i))
    }
}

/// The metadata directory of the working directory `work_tree`.
pub open spec fn git_dir_of(work_tree: Seq<char>) -> Seq<char> {
    join_path(work_tree, ".git"@)
}

/// Where the object with digest text `hash` lies below `git_dir`: in the
/// directory named by the first two characters, in the file named by the
/// other thirty-eight.
pub open spec fn object_path_spec(git_dir: Seq<char>, hash: Seq<char>) -> Seq<char> {
    join_path(object_dir_spec(git_dir, hash), hash.subrange(2, hash.len() as int))
}

/// The directory that holds the object with digest text `hash`.
pub open spec fn object_dir_spec(git_dir: Seq<char>, hash: Seq<char>) -> Seq<char> {
    join_path(join_path(git_dir, "objects"@), hash.subrange(0, 2))
}

/// The directories of a fresh repository, in the order of their creation.
pub open spec fn layout_directories(git_dir: Seq<char>) -> Seq<Seq<char>> {
    seq![
        git_dir,
        join_path(git_dir, "objects"@),
        join_path(git_dir, "objects/info"@),
        join_path(git_dir, "objects/pack"@),
        join_path(git_dir, "refs/heads"@),
        join_path(git_dir, "refs/tags"@),
    ]
}

/// The files of a fresh repository, each with its content: `HEAD` points
/// at the branch `main`, `config` holds the core settings, `description`
/// says that the repository has no name yet.
pub open spec fn layout_files(git_dir: Seq<char>) -> Seq<(Seq<char>, Seq<char>)> {
    seq![
        (join_path(git_dir, "HEAD"@), "ref: refs/heads/main\n"@),
        (
            join_path(git_dir, "config"@),
            "[core]\n\trepositoryformatversion = 0\n\tfilemode = false\n\tbare = false\n"@,
        ),
        (join_path(git_dir, "description"@), "Unnamed oxid repository.\n"@),
    ]
}

/// The position of the last `/` is the one after which none follows.
proof fn lemma_last_slash(path: Seq<char>, k: int)
    requires
        -1 <= k < path.len(),
        k >= 0 ==> path[k] == '/',
        forall|j: int| k < j < path.len() ==> path[j] != '/',
    ensures
        last_slash(path) == k,
    decreases path.len(),
{
    if path.len() > 0 && k < path.len() - 1 {
        let p = path.drop_last();
        assert forall|j: int| k < j < p.len() implies p[j] != '/' by {
            assert(p[j] == path[j]);
        }
        lemma_last_slash(p, k);
    }
}

/// The last `/` lies inside the path.
proof fn lemma_last_slash_bounds(path: Seq<char>)
    ensures
        -1 <= last_slash(path) < path.len(),
        last_slash(path) >= 0 ==> path[last_slash(path)] == '/',
    decreases path.len(),
{
    if path.len() > 0 && path.last() != '/' {
        lemma_last_slash_bounds(path.drop_last());
    }
}

/// Going up makes a path shorter, so the upward search ends: it can take
/// no more steps than the starting path has characters.
pub proof fn lemma_parent_shorter(path: Seq<char>)
    ensures
        parent_path(path) matches Some(parent) ==> parent.len() < path.len(),
{
    lemma_last_slash_bounds(path);
}

fn join(base: &str, component: &str) -> (joined: String)
    ensures
        joined@ == join_path(base@, component@),
{
    let n = base.unicode_len();
    if n == 0 {
        let joined = String::from_str(component);
        joined
    } else if base.get_char(n - 1) == '/' {
        let mut joined = String::from_str(base);
        joined.append(component);
        joined
    } else {
        proof {
            reveal_strlit("/");
            assert("/"@ =~= seq!['/']);
        }
        let mut joined = String::from_str(base);
        joined.append("/");
        joined.append(component);
        joined
    }
}

fn parent(path: &str) -> (r: Option<String>)
    ensures
        match r {
            Some(p) => parent_path(path@) == Some(p@),
            None => parent_path(path@) is None,
        },
{
    let n = path.unicode_len();
    let mut i: usize = n;
    while i > 0 && path.get_char(i - 1) != '/'
        invariant
            i <= n,
            n == path@.len(),
            forall|j: int| i <= j < n ==> path@[j] != '/',
        decreases i,
    {
        i = i - 1;
    }
    proof {
        lemma_last_slash(path@, i as int - 1);
    }
    if i == 0 || n == 1 {
        None
    } else if i == 1 {
        proof {
            reveal_strlit("/");
            assert("/"@ =~= seq!['/']);
        }
        Some(String::from_str("/"))
    } else {
        let up = path.substring_char(0, i - 1);
        assert(up@ =~= path@.take(i as int - 1));
        Some(String::from_str(up))
    }
}

impl Repository {
    /// The repository whose working directory is `work_tree`: its metadata
    /// directory is the entry `.git` of that directory. Whether it exists
    /// is for the caller to find out; `discover` takes the answer.
    pub fn new(work_tree: &str) -> (repo: Repository)
        ensures
            repo.work_tree@ == work_tree@,
            repo.git_dir@ == git_dir_of(work_tree@),
    {
        Repository { git_dir: join(work_tree, ".git"), work_tree: String::from_str(work_tree) }
    }

    /// One step of the upward search for the nearest enclosing repository.
    /// `self` is the candidate at the current directory and `exists` says
    /// whether its metadata directory is there. If it is, the search ends
    /// with this candidate. Otherwise it goes on with the candidate one
    /// directory up, and fails with `RepositoryNotFound` at the root.
    pub fn discover(self, exists: bool) -> (r: Result<Search, Error>)
        ensures
            exists ==> r == Ok::<Search, Error>(Search::Found(self)),
            !exists ==> match parent_path(self.work_tree@) {
                Some(up) => {
                    &&& r matches Ok(Search::Ascend(next))
                    &&& next.work_tree@ == up
                    &&& next.git_dir@ == git_dir_of(up)
                },
                None => r == Err::<Search, Error>(Error::RepositoryNotFound),
            },
    {
        if exists {
            return Ok(Search::Found(self));
        }
        match parent(self.work_tree.as_str()) {
            Some(up) => Ok(Search::Ascend(Repository::new(up.as_str()))),
            None => Err(Error::RepositoryNotFound),
        }
    }

    /// What initialising a repository in the directory `path` creates: the
    /// metadata directory with its subdirectories, and the three files
    /// `HEAD`, `config` and `description`.
    pub fn init(path: &str) -> (layout: Layout)
        ensures
            layout.repository.work_tree@ == path@,
            layout.repository.git_dir@ == git_dir_of(path@),
            layout.directories.deep_view() == layout_directories(git_dir_of(path@)),
            layout.files@.len() == 3,
            forall|i: int|
                0 <= i < 3 ==> (#[trigger] layout.files@[i].path@, layout.files@[i].contents@)
                    == layout_files(git_dir_of(path@))[i],
    {
        let repository = Repository::new(path);
        let git_dir = repository.git_dir.as_str();
        let mut directories: Vec<String> = Vec::new();
        directories.push(String::from_str(git_dir));
        directories.push(join(git_dir, "objects"));
        directories.push(join(git_dir, "objects/info"));
        directories.push(join(git_dir, "objects/pack"));
        directories.push(join(git_dir, "refs/heads"));
        directories.push(join(git_dir, "refs/tags"));
        let mut files: Vec<TextFile> = Vec::new();
        files.push(
            TextFile {
                path: join(git_dir, "HEAD"),
                contents: String::from_str("ref: refs/heads/main\n"),
            },
        );
        files.push(
            TextFile {
                path: join(git_dir, "config"),
                contents: String::from_str(
                    "[core]\n\trepositoryformatversion = 0\n\tfilemode = false\n\tbare = false\n",
                ),
            },
        );
        files.push(
            TextFile {
                path: join(git_dir, "description"),
                contents: String::from_str("Unnamed oxid repository.\n"),
            },
        );
        assert(directories.deep_view() =~= layout_directories(git_dir_of(path@)));
        Layout { repository, directories, files }
    }

    /// The path of the file that holds the object with digest text `hash`.
    pub fn object_path(&self, hash: &str) -> (path: String)
        requires
            is_digest_text(hash@),
        ensures
            path@ == object_path_spec(self.git_dir@, hash@),
    {
        let directory = self.object_dir(hash);
        assert(is_ascii(hash));
        join(directory.as_str(), hash.substring_ascii(2, 40))
    }

    fn object_dir(&self, hash: &str) -> (path: String)
        requires
            is_digest_text(hash@),
        ensures
            path@ == object_dir_spec(self.git_dir@, hash@),
    {
        let objects = join(self.git_dir.as_str(), "objects");
        assert(is_ascii(hash));
        join(objects.as_str(), hash.substring_ascii(0, 2))
    }

    /// Turns what was read from an object's file into the object's framed
    /// bytes. `stored` is the file's content, or `None` where there is no
    /// such file: that is `ObjectNotFound`. Content that does not
    /// decompress is `CorruptData`.
    pub fn read_object(stored: Option<&[u8]>) -> (r: Result<Vec<u8>, Error>)
        ensures
            match stored {
                None => r == Err::<Vec<u8>, Error>(Error::ObjectNotFound),
                Some(bytes) => match zlib_inflated(bytes@) {
                    Some(data) => r matches Ok(v) && v@ == data,
                    None => r == Err::<Vec<u8>, Error>(Error::CorruptData),
                },
            },
    {
        match stored {
            None => Err(Error::ObjectNotFound),
            Some(bytes) => decompress(bytes),
        }
    }

    /// Prepares the file that stores the framed object `data` under the
    /// digest text `hash`: its place and its compressed content, which
    /// `read_object` turns back into `data`. This succeeds for every digest
    /// text and all data, and the same arguments give the same file.
    pub fn write_object(&self, hash: &str, data: &[u8]) -> (r: Result<ObjectFile, Error>)
        requires
            is_digest_text(hash@),
        ensures
            r matches Ok(file) && {
                &&& file.directory@ == object_dir_spec(self.git_dir@, hash@)
                &&& file.path@ == object_path_spec(self.git_dir@, hash@)
                &&& file.bytes@ == zlib_stream(data@)
                &&& file.bytes@.len() > 0
                &&& zlib_inflated(file.bytes@) == Some(data@)
            },
    {
        let path = self.object_path(hash);
        let directory = self.object_dir(hash);
        match compress(data) {
            Ok(bytes) => Ok(ObjectFile { directory, path, bytes }),
            Err(e) => Err(e),
        }
    }
}

} // verus!
